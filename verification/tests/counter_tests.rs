use counter::Counter;

fn strs(xs: &[&str]) -> Vec<String> {
    let mut v: Vec<String> = Vec::new();
    for x in xs {
        v.push(x.to_string());
    }
    v
}

fn get(c: &Counter, k: &str) -> usize {
    c.get(&k.to_string())
}

#[test]
fn it_works() {}

#[test]
fn new_counter_is_empty() {
    let c = Counter::new();
    assert_eq!(get(&c, "a"), 0);
    assert_eq!(c.most_common(), vec![]);
}

#[test]
fn init_counts_each_element() {
    let c = Counter::init(&strs(&["a", "b", "a", "c", "a", "b"]));
    assert_eq!(get(&c, "a"), 3);
    assert_eq!(get(&c, "b"), 2);
    assert_eq!(get(&c, "c"), 1);
}

#[test]
fn init_has_no_entry_for_unseen_element() {
    let c = Counter::init(&strs(&["a", "b", "a"]));
    assert_eq!(get(&c, "d"), 0);
    assert_eq!(c.most_common().len(), 2);
}

#[test]
fn most_common_sorts_by_descending_count() {
    let c = Counter::init(&strs(&["a", "b", "a", "c", "a", "b"]));
    let mc = c.most_common();
    assert_eq!(
        mc,
        vec![(3, "a".to_string()), (2, "b".to_string()), (1, "c".to_string())]
    );
}

#[test]
fn most_common_keeps_insertion_order_on_ties() {
    let c = Counter::init(&strs(&["b", "a", "c"]));
    let mc = c.most_common();
    assert_eq!(
        mc,
        vec![(1, "b".to_string()), (1, "a".to_string()), (1, "c".to_string())]
    );
}

#[test]
fn most_common_does_not_change_the_counter() {
    let c = Counter::init(&strs(&["a", "a", "b"]));
    let _ = c.most_common();
    assert_eq!(get(&c, "a"), 2);
    assert_eq!(get(&c, "b"), 1);
}

#[test]
fn update_doubles_counts_when_fed_the_same_elements() {
    let s = strs(&["a", "b", "a"]);
    let mut c = Counter::init(&s);
    c.update(&s);
    assert_eq!(get(&c, "a"), 4);
    assert_eq!(get(&c, "b"), 2);
}

#[test]
fn update_adds_new_elements_with_count_one() {
    let mut c = Counter::init(&strs(&["a"]));
    c.update(&strs(&["b", "a"]));
    assert_eq!(get(&c, "a"), 2);
    assert_eq!(get(&c, "b"), 1);
}

#[test]
fn subtract_removes_exhausted_entries() {
    let mut c = Counter::init(&strs(&["a", "a", "a", "b", "b"]));
    c.subtract(&strs(&["a", "a", "a", "a"]));
    assert_eq!(get(&c, "a"), 0);
    assert_eq!(get(&c, "b"), 2);
    assert_eq!(c.most_common(), vec![(2, "b".to_string())]);
}

#[test]
fn subtract_of_absent_element_is_a_no_op() {
    let mut c = Counter::init(&strs(&["a"]));
    c.subtract(&strs(&["b"]));
    assert_eq!(get(&c, "a"), 1);
    assert_eq!(get(&c, "b"), 0);
}

#[test]
fn subtract_checks_each_occurrence_separately() {
    let mut c = Counter::init(&strs(&["a"]));
    c.subtract(&strs(&["a", "a"]));
    assert_eq!(get(&c, "a"), 0);
    assert_eq!(c.most_common(), vec![]);
}

#[test]
fn add_sums_counts_over_the_union_of_keys() {
    let c = Counter::init(&strs(&["a", "a", "b"]));
    let d = Counter::init(&strs(&["a", "c", "c", "c", "c", "c"]));
    let r = c.add(&d);
    assert_eq!(get(&r, "a"), 3);
    assert_eq!(get(&r, "b"), 1);
    assert_eq!(get(&r, "c"), 5);
    assert_eq!(r.most_common().len(), 3);
}

#[test]
fn add_commutes() {
    let c = Counter::init(&strs(&["a", "a", "b"]));
    let d = Counter::init(&strs(&["a", "c", "c", "c", "c", "c"]));
    let r1 = c.add(&d);
    let r2 = d.add(&c);
    for k in ["a", "b", "c", "d"] {
        assert_eq!(get(&r1, k), get(&r2, k));
    }
}

#[test]
fn add_leaves_operands_unchanged() {
    let c = Counter::init(&strs(&["a", "a"]));
    let d = Counter::init(&strs(&["a"]));
    let _ = c.add(&d);
    assert_eq!(get(&c, "a"), 2);
    assert_eq!(get(&d, "a"), 1);
}

#[test]
fn sub_keeps_only_positive_differences() {
    let c = Counter::init(&strs(&["a", "a", "b"]));
    let d = Counter::init(&strs(&["a", "b", "c"]));
    let r = c.sub(&d);
    assert_eq!(get(&r, "a"), 1);
    assert_eq!(get(&r, "b"), 0);
    assert_eq!(get(&r, "c"), 0);
    assert_eq!(r.most_common(), vec![(1, "a".to_string())]);
}

#[test]
fn bitand_takes_minimum_of_shared_keys() {
    let c = Counter::init(&strs(&["a", "a", "b"]));
    let d = Counter::init(&strs(&["a", "c", "c", "c", "c", "c"]));
    let r = c.bitand(&d);
    assert_eq!(get(&r, "a"), 1);
    assert_eq!(get(&r, "b"), 0);
    assert_eq!(get(&r, "c"), 0);
    assert_eq!(r.most_common(), vec![(1, "a".to_string())]);
}

#[test]
fn bitor_takes_maximum_over_all_keys() {
    let c = Counter::init(&strs(&["a", "a", "b"]));
    let d = Counter::init(&strs(&["a", "c", "c", "c", "c", "c"]));
    let r = c.bitor(&d);
    assert_eq!(get(&r, "a"), 2);
    assert_eq!(get(&r, "b"), 1);
    assert_eq!(get(&r, "c"), 5);
}

#[test]
fn min_and_max_counts_add_up_to_both_counts() {
    let c = Counter::init(&strs(&["a", "a", "b"]));
    let d = Counter::init(&strs(&["a", "c", "c", "c", "c", "c"]));
    let inter = c.bitand(&d);
    let uni = c.bitor(&d);
    for k in ["a", "b", "c", "d"] {
        assert_eq!(get(&inter, k) + get(&uni, k), get(&c, k) + get(&d, k));
    }
}

#[test]
fn clone_reads_as_the_same_counter() {
    let c = Counter::init(&strs(&["a", "a", "b"]));
    let d = c.clone();
    assert_eq!(get(&d, "a"), 2);
    assert_eq!(get(&d, "b"), 1);
    assert_eq!(get(&d, "c"), 0);
}

#[test]
fn empty_input_sequences_change_nothing() {
    let mut c = Counter::init(&strs(&["a"]));
    c.update(&strs(&[]));
    c.subtract(&strs(&[]));
    assert_eq!(get(&c, "a"), 1);
    assert_eq!(c.most_common(), vec![(1, "a".to_string())]);
}

#[test]
fn insert_sets_a_count_outright() {
    let mut c = Counter::init(&strs(&["a"]));
    c.insert(&"b".to_string(), 7);
    c.insert(&"a".to_string(), 2);
    assert_eq!(get(&c, "a"), 2);
    assert_eq!(get(&c, "b"), 7);
}

#[test]
fn insert_of_zero_removes_the_entry() {
    let mut c = Counter::init(&strs(&["a", "a", "b"]));
    c.insert(&"a".to_string(), 0);
    assert_eq!(get(&c, "a"), 0);
    assert_eq!(c.most_common(), vec![(1, "b".to_string())]);
}

#[test]
fn remove_drops_an_entry_whatever_its_count() {
    let mut c = Counter::init(&strs(&["a", "a", "a", "b"]));
    c.remove(&"a".to_string());
    c.remove(&"c".to_string());
    assert_eq!(get(&c, "a"), 0);
    assert_eq!(get(&c, "b"), 1);
}
