//! The `Counter` container itself: a mapping from string element to strictly
//! positive occurrence count, backed by a vector of pairs with pairwise
//! distinct keys. Its view is the map described in `model`, and every
//! operation's contract is stated over that view.

use vstd::prelude::*;

use crate::model::{
    add_counts, cnt, max_counts, min_counts, occurrences, sub_counts, subtracted, updated,
};
use crate::model::{lemma_occurrences_le_len, lemma_occurrences_take_le,
    lemma_occurrences_take_step};

verus! {

/// The count that the backing vector assigns to `k`: the count of the first
/// pair whose key reads `k`, and zero when no pair does.
pub(crate) open spec fn lookup(es: Seq<(String, usize)>, k: Seq<char>) -> nat
    decreases es.len(),
{
    if es.len() == 0 {
        0
    } else if es[0].0@ == k {
        es[0].1 as nat
    } else {
        lookup(es.drop_first(), k)
    }
}

/// No two pairs of the backing vector share a key.
pub(crate) open spec fn keys_distinct(es: Seq<(String, usize)>) -> bool {
    forall|i: int, j: int| 0 <= i < j < es.len() ==> es[i].0@ != es[j].0@
}

/// Every pair of the backing vector carries a strictly positive count.
pub(crate) open spec fn counts_positive(es: Seq<(String, usize)>) -> bool {
    forall|i: int| 0 <= i < es.len() ==> es[i].1 >= 1
}

/// When keys are distinct, the pair at index `i` decides the lookup of its key.
proof fn lemma_lookup_at(es: Seq<(String, usize)>, i: int)
    requires
        keys_distinct(es),
        0 <= i < es.len(),
    ensures
        lookup(es, es[i].0@) == es[i].1 as nat,
    decreases es.len(),
{
    if i > 0 {
        assert(keys_distinct(es.drop_first())) by {
            assert(forall|p: int, q: int|
                0 <= p < q < es.drop_first().len() ==> es.drop_first()[p] == es[p + 1]
                    && es.drop_first()[q] == es[q + 1]);
        }
        assert(es.drop_first()[i - 1] == es[i]);
        lemma_lookup_at(es.drop_first(), i - 1);
    }
}

/// A key that no pair carries looks up to zero.
proof fn lemma_lookup_none(es: Seq<(String, usize)>, k: Seq<char>)
    requires
        forall|j: int| 0 <= j < es.len() ==> es[j].0@ != k,
    ensures
        lookup(es, k) == 0,
    decreases es.len(),
{
    if es.len() > 0 {
        assert(forall|j: int|
            0 <= j < es.drop_first().len() ==> es.drop_first()[j] == es[j + 1]);
        lemma_lookup_none(es.drop_first(), k);
    }
}

/// Under the backing invariant, a key looks up to zero exactly when no pair
/// carries it.
proof fn lemma_lookup_zero_iff_absent(es: Seq<(String, usize)>, k: Seq<char>)
    requires
        keys_distinct(es),
        counts_positive(es),
    ensures
        lookup(es, k) == 0 <==> (forall|j: int| 0 <= j < es.len() ==> es[j].0@ != k),
{
    if forall|j: int| 0 <= j < es.len() ==> es[j].0@ != k {
        lemma_lookup_none(es, k);
    } else {
        let j = choose|j: int| 0 <= j < es.len() && es[j].0@ == k;
        lemma_lookup_at(es, j);
    }
}

/// A frequency counter over string elements: it records, for each distinct
/// element it has seen, how many times the element occurred. Entries always
/// carry a strictly positive count; an entry whose count would reach zero is
/// removed rather than stored.
pub struct Counter {
    entries: Vec<(String, usize)>,
}

impl View for Counter {
    type V = Map<Seq<char>, nat>;

    /// A counter is read as the map that sends each element it holds to its
    /// strictly positive count; all other elements are outside the domain.
    closed spec fn view(&self) -> Map<Seq<char>, nat> {
        Map::new(
            |k: Seq<char>| lookup(self.entries@, k) > 0,
            |k: Seq<char>| lookup(self.entries@, k),
        )
    }
}

impl Counter {
    #[verifier::type_invariant]
    spec fn inv(self) -> bool {
        keys_distinct(self.entries@) && counts_positive(self.entries@)
    }

    /// Create a new, empty counter.
    pub fn new() -> (r: Counter)
        ensures
            r@ == Map::<Seq<char>, nat>::empty(),
    {
        let r = Counter { entries: Vec::new() };
        proof {
            assert(r@ =~= Map::<Seq<char>, nat>::empty());
        }
        r
    }

    /// Create a counter already holding the counts of the given elements.
    pub fn init(items: &Vec<String>) -> (r: Counter)
        ensures
            r@ == updated(Map::<Seq<char>, nat>::empty(), items.deep_view()),
    {
        let mut r = Counter::new();
        let ghost s = items.deep_view();
        let n = items.len();
        proof {
            assert(s.len() == n);
            assert forall|k: Seq<char>|
                cnt(Map::<Seq<char>, nat>::empty(), k) + occurrences(s, k)
                    <= usize::MAX by {
                lemma_occurrences_le_len(s, k);
            }
        }
        r.update(items);
        r
    }

    /// Count every element of `items` on top of the counts already recorded:
    /// each element's count grows by one per occurrence, and an element not
    /// yet recorded enters with count one.
    pub fn update(&mut self, items: &Vec<String>)
        requires
            forall|k: Seq<char>|
                cnt(old(self)@, k) + occurrences(items.deep_view(), k) <= usize::MAX,
        ensures
            final(self)@ == updated(old(self)@, items.deep_view()),
    {
        proof {
            use_type_invariant(&*self);
        }
        let ghost m0 = self@;
        let ghost s = items.deep_view();
        let mut es: Vec<(String, usize)> = Vec::new();
        std::mem::swap(&mut es, &mut self.entries);
        let n = items.len();
        let mut i: usize = 0;
        proof {
            assert(s.take(0) =~= Seq::<Seq<char>>::empty());
        }
        while i < n
            invariant
                i <= n,
                n == items@.len(),
                s == items.deep_view(),
                keys_distinct(es@),
                counts_positive(es@),
                forall|k: Seq<char>|
                    lookup(es@, k) == cnt(m0, k) + occurrences(s.take(i as int), k),
                forall|k: Seq<char>| cnt(m0, k) + occurrences(s, k) <= usize::MAX,
            decreases n - i,
        {
            let item = &items[i];
            proof {
                assert(s[i as int] == item@);
                lemma_occurrences_take_step(s, i as int, item@);
                lemma_occurrences_take_le(s, i as int + 1, item@);
            }
            bump(&mut es, item, 1);
            proof {
                assert forall|k: Seq<char>|
                    lookup(es@, k) == cnt(m0, k) + occurrences(
                        s.take(i as int + 1),
                        k,
                    ) by {
                    lemma_occurrences_take_step(s, i as int, k);
                }
            }
            i = i + 1;
        }
        self.entries = es;
        proof {
            assert(s.take(n as int) =~= s);
            assert(self@ =~= updated(m0, s));
        }
    }

    /// Discount every element of `items`, one occurrence at a time: an
    /// element absent from the counter is passed over, and an entry whose
    /// count reaches zero is removed at once, so later occurrences of the
    /// same element within the call find it absent.
    pub fn subtract(&mut self, items: &Vec<String>)
        ensures
            final(self)@ == subtracted(old(self)@, items.deep_view()),
    {
        proof {
            use_type_invariant(&*self);
        }
        let ghost m0 = self@;
        let ghost s = items.deep_view();
        let mut es: Vec<(String, usize)> = Vec::new();
        std::mem::swap(&mut es, &mut self.entries);
        let n = items.len();
        let mut i: usize = 0;
        proof {
            assert(s.take(0) =~= Seq::<Seq<char>>::empty());
        }
        while i < n
            invariant
                i <= n,
                n == items@.len(),
                s == items.deep_view(),
                keys_distinct(es@),
                counts_positive(es@),
                forall|k: Seq<char>|
                    lookup(es@, k) == if cnt(m0, k) > occurrences(s.take(i as int), k) {
                        (cnt(m0, k) - occurrences(s.take(i as int), k)) as nat
                    } else {
                        0nat
                    },
            decreases n - i,
        {
            let item = &items[i];
            proof {
                assert(s[i as int] == item@);
            }
            drop_one(&mut es, item);
            proof {
                assert forall|k: Seq<char>|
                    lookup(es@, k) == if cnt(m0, k) > occurrences(s.take(i as int + 1), k) {
                        (cnt(m0, k) - occurrences(s.take(i as int + 1), k)) as nat
                    } else {
                        0nat
                    } by {
                    lemma_occurrences_take_step(s, i as int, k);
                }
            }
            i = i + 1;
        }
        self.entries = es;
        proof {
            assert(s.take(n as int) =~= s);
            assert(self@ =~= subtracted(m0, s));
        }
    }

    /// The sum of this counter and `other`: counts add up key by key, over
    /// the union of the two key sets. Neither operand is changed.
    pub fn add(&self, other: &Counter) -> (r: Counter)
        requires
            forall|k: Seq<char>| cnt(self@, k) + cnt(other@, k) <= usize::MAX,
        ensures
            r@ == add_counts(self@, other@),
    {
        proof {
            use_type_invariant(&*self);
            use_type_invariant(&*other);
        }
        let mut es = clone_entries(&self.entries);
        let ghost os = other.entries@;
        let n = other.entries.len();
        let mut i: usize = 0;
        proof {
            assert(os.take(0) =~= Seq::<(String, usize)>::empty());
        }
        while i < n
            invariant
                i <= n,
                n == os.len(),
                os == other.entries@,
                keys_distinct(os),
                counts_positive(os),
                keys_distinct(es@),
                counts_positive(es@),
                forall|k: Seq<char>|
                    lookup(es@, k) == cnt(self@, k) + lookup(os.take(i as int), k),
                forall|k: Seq<char>| cnt(self@, k) + cnt(other@, k) <= usize::MAX,
            decreases n - i,
        {
            let p = &other.entries[i];
            proof {
                assert(forall|j: int| 0 <= j < i ==> os.take(i as int)[j] == os[j]);
                lemma_lookup_none(os.take(i as int), p.0@);
                lemma_lookup_at(os, i as int);
            }
            bump(&mut es, &p.0, p.1);
            proof {
                assert forall|k: Seq<char>|
                    lookup(es@, k) == cnt(self@, k) + lookup(os.take(i as int + 1), k) by {
                    lemma_lookup_take_step(os, i as int, k);
                }
            }
            i = i + 1;
        }
        let r = Counter { entries: es };
        proof {
            assert(os.take(n as int) =~= os);
            assert(r@ =~= add_counts(self@, other@));
        }
        r
    }

    /// The floored difference of this counter and `other`: key by key, this
    /// counter's count less the other's, keeping only the strictly positive
    /// results. Neither operand is changed.
    pub fn sub(&self, other: &Counter) -> (r: Counter)
        ensures
            r@ == sub_counts(self@, other@),
    {
        proof {
            use_type_invariant(&*self);
            use_type_invariant(&*other);
        }
        let ghost ss = self.entries@;
        let mut es: Vec<(String, usize)> = Vec::new();
        let n = self.entries.len();
        let mut i: usize = 0;
        proof {
            assert(ss.take(0) =~= Seq::<(String, usize)>::empty());
        }
        while i < n
            invariant
                i <= n,
                n == ss.len(),
                ss == self.entries@,
                keys_distinct(ss),
                counts_positive(ss),
                keys_distinct(other.entries@),
                counts_positive(other.entries@),
                keys_distinct(es@),
                counts_positive(es@),
                forall|k: Seq<char>|
                    lookup(es@, k) == if lookup(ss.take(i as int), k) > cnt(other@, k) {
                        (lookup(ss.take(i as int), k) - cnt(other@, k)) as nat
                    } else {
                        0nat
                    },
            decreases n - i,
        {
            let p = &self.entries[i];
            let d = get_count(&other.entries, &p.0);
            proof {
                assert(forall|j: int| 0 <= j < i ==> ss.take(i as int)[j] == ss[j]);
                lemma_lookup_none(ss.take(i as int), p.0@);
            }
            if p.1 > d {
                let ghost es0 = es@;
                proof {
                    lemma_lookup_zero_iff_absent(es0, p.0@);
                }
                let q = (p.0.clone(), p.1 - d);
                es.push(q);
                proof {
                    assert(keys_distinct(es@)) by {
                        assert(forall|j: int| 0 <= j < es0.len() ==> es@[j] == es0[j]);
                        assert(es@[es@.len() - 1] == q);
                    }
                    assert(counts_positive(es@));
                    assert forall|k: Seq<char>|
                        lookup(es@, k) == if k == p.0@ {
                            (p.1 - d) as nat
                        } else {
                            lookup(es0, k)
                        } by {
                        lemma_lookup_push(es0, q, k);
                    }
                }
            }
            proof {
                assert forall|k: Seq<char>|
                    lookup(es@, k) == if lookup(ss.take(i as int + 1), k) > cnt(other@, k) {
                        (lookup(ss.take(i as int + 1), k) - cnt(other@, k)) as nat
                    } else {
                        0nat
                    } by {
                    lemma_lookup_take_step(ss, i as int, k);
                }
            }
            i = i + 1;
        }
        let r = Counter { entries: es };
        proof {
            assert(ss.take(n as int) =~= ss);
            assert(r@ =~= sub_counts(self@, other@));
        }
        r
    }

    /// The intersection of this counter and `other`: the minimum count key by
    /// key, so an element survives only when both sides hold it. Neither
    /// operand is changed.
    pub fn bitand(&self, other: &Counter) -> (r: Counter)
        ensures
            r@ == min_counts(self@, other@),
    {
        proof {
            use_type_invariant(&*self);
            use_type_invariant(&*other);
        }
        let ghost ss = self.entries@;
        let mut es: Vec<(String, usize)> = Vec::new();
        let n = self.entries.len();
        let mut i: usize = 0;
        proof {
            assert(ss.take(0) =~= Seq::<(String, usize)>::empty());
        }
        while i < n
            invariant
                i <= n,
                n == ss.len(),
                ss == self.entries@,
                keys_distinct(ss),
                counts_positive(ss),
                keys_distinct(other.entries@),
                counts_positive(other.entries@),
                keys_distinct(es@),
                counts_positive(es@),
                forall|k: Seq<char>|
                    lookup(es@, k) == if lookup(ss.take(i as int), k) > 0 && cnt(other@, k)
                        > 0 {
                        if lookup(ss.take(i as int), k) <= cnt(other@, k) {
                            lookup(ss.take(i as int), k)
                        } else {
                            cnt(other@, k)
                        }
                    } else {
                        0nat
                    },
            decreases n - i,
        {
            let p = &self.entries[i];
            let d = get_count(&other.entries, &p.0);
            proof {
                assert(forall|j: int| 0 <= j < i ==> ss.take(i as int)[j] == ss[j]);
                lemma_lookup_none(ss.take(i as int), p.0@);
            }
            if d >= 1 {
                let ghost es0 = es@;
                proof {
                    lemma_lookup_zero_iff_absent(es0, p.0@);
                }
                let m = if p.1 <= d {
                    p.1
                } else {
                    d
                };
                let q = (p.0.clone(), m);
                es.push(q);
                proof {
                    assert(keys_distinct(es@)) by {
                        assert(forall|j: int| 0 <= j < es0.len() ==> es@[j] == es0[j]);
                        assert(es@[es@.len() - 1] == q);
                    }
                    assert(counts_positive(es@));
                    assert forall|k: Seq<char>|
                        lookup(es@, k) == if k == p.0@ {
                            m as nat
                        } else {
                            lookup(es0, k)
                        } by {
                        lemma_lookup_push(es0, q, k);
                    }
                }
            }
            proof {
                assert forall|k: Seq<char>|
                    lookup(es@, k) == if lookup(ss.take(i as int + 1), k) > 0 && cnt(
                        other@,
                        k,
                    ) > 0 {
                        if lookup(ss.take(i as int + 1), k) <= cnt(other@, k) {
                            lookup(ss.take(i as int + 1), k)
                        } else {
                            cnt(other@, k)
                        }
                    } else {
                        0nat
                    } by {
                    lemma_lookup_take_step(ss, i as int, k);
                }
            }
            i = i + 1;
        }
        let r = Counter { entries: es };
        proof {
            assert(ss.take(n as int) =~= ss);
            assert(r@ =~= min_counts(self@, other@));
        }
        r
    }

    /// The union of this counter and `other`: the maximum count key by key,
    /// over the union of the two key sets. Neither operand is changed.
    pub fn bitor(&self, other: &Counter) -> (r: Counter)
        ensures
            r@ == max_counts(self@, other@),
    {
        proof {
            use_type_invariant(&*self);
            use_type_invariant(&*other);
        }
        let ghost ss = self.entries@;
        let ghost os = other.entries@;
        let mut es: Vec<(String, usize)> = Vec::new();
        let n = self.entries.len();
        let mut i: usize = 0;
        proof {
            assert(ss.take(0) =~= Seq::<(String, usize)>::empty());
        }
        while i < n
            invariant
                i <= n,
                n == ss.len(),
                ss == self.entries@,
                keys_distinct(ss),
                counts_positive(ss),
                keys_distinct(other.entries@),
                counts_positive(other.entries@),
                keys_distinct(es@),
                counts_positive(es@),
                forall|k: Seq<char>|
                    lookup(es@, k) == if lookup(ss.take(i as int), k) > 0 {
                        if lookup(ss.take(i as int), k) >= cnt(other@, k) {
                            lookup(ss.take(i as int), k)
                        } else {
                            cnt(other@, k)
                        }
                    } else {
                        0nat
                    },
            decreases n - i,
        {
            let p = &self.entries[i];
            let d = get_count(&other.entries, &p.0);
            proof {
                assert(forall|j: int| 0 <= j < i ==> ss.take(i as int)[j] == ss[j]);
                lemma_lookup_none(ss.take(i as int), p.0@);
            }
            let ghost es0 = es@;
            proof {
                lemma_lookup_zero_iff_absent(es0, p.0@);
            }
            let m = if p.1 >= d {
                p.1
            } else {
                d
            };
            let q = (p.0.clone(), m);
            es.push(q);
            proof {
                assert(keys_distinct(es@)) by {
                    assert(forall|j: int| 0 <= j < es0.len() ==> es@[j] == es0[j]);
                    assert(es@[es@.len() - 1] == q);
                }
                assert(counts_positive(es@));
                assert forall|k: Seq<char>|
                    lookup(es@, k) == if k == p.0@ {
                        m as nat
                    } else {
                        lookup(es0, k)
                    } by {
                    lemma_lookup_push(es0, q, k);
                }
                assert forall|k: Seq<char>|
                    lookup(es@, k) == if lookup(ss.take(i as int + 1), k) > 0 {
                        if lookup(ss.take(i as int + 1), k) >= cnt(other@, k) {
                            lookup(ss.take(i as int + 1), k)
                        } else {
                            cnt(other@, k)
                        }
                    } else {
                        0nat
                    } by {
                    lemma_lookup_take_step(ss, i as int, k);
                }
            }
            i = i + 1;
        }
        proof {
            assert(ss.take(n as int) =~= ss);
            assert(os.take(0) =~= Seq::<(String, usize)>::empty());
        }
        let n2 = other.entries.len();
        let mut j: usize = 0;
        while j < n2
            invariant
                j <= n2,
                n2 == os.len(),
                os == other.entries@,
                ss == self.entries@,
                keys_distinct(ss),
                counts_positive(ss),
                keys_distinct(os),
                counts_positive(os),
                keys_distinct(es@),
                counts_positive(es@),
                forall|k: Seq<char>|
                    lookup(es@, k) == if cnt(self@, k) > 0 {
                        if cnt(self@, k) >= cnt(other@, k) {
                            cnt(self@, k)
                        } else {
                            cnt(other@, k)
                        }
                    } else if lookup(os.take(j as int), k) > 0 {
                        cnt(other@, k)
                    } else {
                        0nat
                    },
            decreases n2 - j,
        {
            let p = &other.entries[j];
            let c = get_count(&self.entries, &p.0);
            proof {
                assert(forall|l: int| 0 <= l < j ==> os.take(j as int)[l] == os[l]);
                lemma_lookup_none(os.take(j as int), p.0@);
                lemma_lookup_at(os, j as int);
            }
            if c == 0 {
                let ghost es0 = es@;
                proof {
                    lemma_lookup_zero_iff_absent(es0, p.0@);
                }
                let q = (p.0.clone(), p.1);
                es.push(q);
                proof {
                    assert(keys_distinct(es@)) by {
                        assert(forall|l: int| 0 <= l < es0.len() ==> es@[l] == es0[l]);
                        assert(es@[es@.len() - 1] == q);
                    }
                    assert(counts_positive(es@));
                    assert forall|k: Seq<char>|
                        lookup(es@, k) == if k == p.0@ {
                            p.1 as nat
                        } else {
                            lookup(es0, k)
                        } by {
                        lemma_lookup_push(es0, q, k);
                    }
                }
            }
            proof {
                assert forall|k: Seq<char>|
                    lookup(es@, k) == if cnt(self@, k) > 0 {
                        if cnt(self@, k) >= cnt(other@, k) {
                            cnt(self@, k)
                        } else {
                            cnt(other@, k)
                        }
                    } else if lookup(os.take(j as int + 1), k) > 0 {
                        cnt(other@, k)
                    } else {
                        0nat
                    } by {
                    lemma_lookup_take_step(os, j as int, k);
                }
            }
            j = j + 1;
        }
        let r = Counter { entries: es };
        proof {
            assert(os.take(n2 as int) =~= os);
            assert(r@ =~= max_counts(self@, other@));
        }
        r
    }

    /// The recorded entries as `(count, element)` pairs, from most to least
    /// common: counts never increase along the result, every pair of the
    /// result is an entry of the counter, and every entry of the counter
    /// appears in the result exactly once. Elements of equal count keep their
    /// insertion order. The counter itself is not changed.
    pub fn most_common(&self) -> (r: Vec<(usize, String)>)
        ensures
            forall|a: int, b: int| 0 <= a < b < r@.len() ==> r@[a].0 >= r@[b].0,
            forall|a: int|
                0 <= a < r@.len() ==> self@.dom().contains(r@[a].1@) && self@[r@[a].1@]
                    == r@[a].0 as nat,
            forall|a: int, b: int| 0 <= a < b < r@.len() ==> r@[a].1@ != r@[b].1@,
            forall|k: Seq<char>|
                self@.dom().contains(k) ==> exists|a: int|
                    0 <= a < r@.len() && r@[a].1@ == k,
    {
        proof {
            use_type_invariant(&*self);
        }
        let ghost ss = self.entries@;
        let mut r: Vec<(usize, String)> = Vec::new();
        let n = self.entries.len();
        let mut i: usize = 0;
        while i < n
            invariant
                i <= n,
                n == ss.len(),
                ss == self.entries@,
                keys_distinct(ss),
                counts_positive(ss),
                partial_common(r@, ss, i as int),
            decreases n - i,
        {
            let p = &self.entries[i];
            let q = (p.1, p.0.clone());
            let pos = find_pos(&r, q.0);
            let ghost r0 = r@;
            r.insert(pos, q);
            proof {
                lemma_common_insert(r0, ss, i as int, pos as int, q);
            }
            i = i + 1;
        }
        proof {
            lemma_common_view(*self, r@);
        }
        r
    }

    /// Set the count recorded for `key` outright: with a positive `n` the
    /// entry is created or overwritten, and with `n` of zero the entry is
    /// removed, honouring the rule that no entry stores a non-positive count.
    pub fn insert(&mut self, key: &String, n: usize)
        ensures
            final(self)@ == if n == 0 {
                old(self)@.remove(key@)
            } else {
                old(self)@.insert(key@, n as nat)
            },
    {
        proof {
            use_type_invariant(&*self);
        }
        let ghost m0 = self@;
        let mut es: Vec<(String, usize)> = Vec::new();
        std::mem::swap(&mut es, &mut self.entries);
        let ghost es0 = es@;
        match find_index(&es, key) {
            Some(i) => {
                proof {
                    lemma_lookup_at(es@, i as int);
                }
                if n == 0 {
                    es.remove(i);
                    proof {
                        assert(keys_distinct(es@) && counts_positive(es@)) by {
                            assert(forall|j: int|
                                #![trigger es@[j]]
                                0 <= j < es@.len() ==> {
                                    let j0: int = if j < i { j } else { j + 1 };
                                    es@[j] == es0[j0]
                                });
                        }
                        assert forall|k: Seq<char>|
                            lookup(es@, k) == if k == key@ {
                                0nat
                            } else {
                                lookup(es0, k)
                            } by {
                            lemma_lookup_remove(es0, i as int, k);
                        }
                    }
                } else {
                    let p = es.remove(i);
                    let q = (p.0, n);
                    es.insert(i, q);
                    proof {
                        assert(es@ =~= es0.update(i as int, q));
                        assert(counts_positive(es@)) by {
                            assert(forall|j: int| 0 <= j < es@.len() && j != i ==> es@[j]
                                == es0[j]);
                        }
                        assert(keys_distinct(es@));
                        assert forall|k: Seq<char>|
                            lookup(es@, k) == if k == key@ {
                                n as nat
                            } else {
                                lookup(es0, k)
                            } by {
                            lemma_lookup_update(es0, i as int, q, k);
                        }
                    }
                }
            },
            None => {
                proof {
                    lemma_lookup_none(es@, key@);
                }
                if n > 0 {
                    let q = (key.clone(), n);
                    es.push(q);
                    proof {
                        assert(keys_distinct(es@)) by {
                            assert(forall|j: int| 0 <= j < es0.len() ==> es@[j] == es0[j]);
                            assert(es@[es@.len() - 1] == q);
                        }
                        assert(counts_positive(es@));
                        assert forall|k: Seq<char>|
                            lookup(es@, k) == if k == key@ {
                                n as nat
                            } else {
                                lookup(es0, k)
                            } by {
                            lemma_lookup_push(es0, q, k);
                        }
                    }
                }
            },
        }
        self.entries = es;
        proof {
            if n == 0 {
                assert(self@ =~= m0.remove(key@));
            } else {
                assert(self@ =~= m0.insert(key@, n as nat));
            }
        }
    }

    /// Remove the entry for `key` altogether, whatever its count; an absent
    /// `key` leaves the counter unchanged.
    pub fn remove(&mut self, key: &String)
        ensures
            final(self)@ == old(self)@.remove(key@),
    {
        self.insert(key, 0);
    }

    /// The count recorded for `key`, zero when `key` is absent.
    pub fn get(&self, key: &String) -> (r: usize)
        ensures
            r as nat == cnt(self@, key@),
    {
        proof {
            use_type_invariant(&*self);
        }
        get_count(&self.entries, key)
    }
}

/// Replacing the pair at `i` by one with the same key changes only that key's
/// lookup, to the new count.
proof fn lemma_lookup_update(es: Seq<(String, usize)>, i: int, p: (String, usize), k: Seq<char>)
    requires
        keys_distinct(es),
        0 <= i < es.len(),
        p.0@ == es[i].0@,
    ensures
        lookup(es.update(i, p), k) == if k == p.0@ {
            p.1 as nat
        } else {
            lookup(es, k)
        },
{
    assert(keys_distinct(es.update(i, p)));
    if k == p.0@ {
        lemma_lookup_at(es.update(i, p), i);
    } else {
        if forall|j: int| 0 <= j < es.len() ==> es[j].0@ != k {
            lemma_lookup_none(es, k);
            lemma_lookup_none(es.update(i, p), k);
        } else {
            let j = choose|j: int| 0 <= j < es.len() && es[j].0@ == k;
            lemma_lookup_at(es, j);
            lemma_lookup_at(es.update(i, p), j);
        }
    }
}

/// Appending a pair whose key no existing pair carries gives that key the new
/// count and leaves every other lookup unchanged.
proof fn lemma_lookup_push(es: Seq<(String, usize)>, p: (String, usize), k: Seq<char>)
    requires
        forall|j: int| 0 <= j < es.len() ==> es[j].0@ != p.0@,
    ensures
        lookup(es.push(p), k) == if k == p.0@ {
            p.1 as nat
        } else {
            lookup(es, k)
        },
    decreases es.len(),
{
    if es.len() == 0 {
        assert(es.push(p)[0] == p);
        if k == p.0@ {
            assert(lookup(es.push(p), k) == p.1 as nat);
        } else {
            assert(es.push(p).drop_first() =~= Seq::<(String, usize)>::empty());
            assert(lookup(es.push(p), k) == lookup(es.push(p).drop_first(), k));
            assert(lookup(es.push(p).drop_first(), k) == 0);
            assert(lookup(es, k) == 0);
        }
    } else {
        assert(es.push(p)[0] == es[0]);
        assert(es.push(p).drop_first() =~= es.drop_first().push(p));
        assert(forall|j: int|
            0 <= j < es.drop_first().len() ==> es.drop_first()[j] == es[j + 1]);
        lemma_lookup_push(es.drop_first(), p, k);
        if es[0].0@ == k {
            assert(k != p.0@);
            assert(lookup(es.push(p), k) == es[0].1 as nat);
            assert(lookup(es, k) == es[0].1 as nat);
        } else {
            assert(lookup(es.push(p), k) == lookup(es.drop_first().push(p), k));
            assert(lookup(es, k) == lookup(es.drop_first(), k));
        }
    }
}

/// Removing the pair at `i` zeroes the lookup of its key and leaves every
/// other lookup unchanged.
proof fn lemma_lookup_remove(es: Seq<(String, usize)>, i: int, k: Seq<char>)
    requires
        keys_distinct(es),
        0 <= i < es.len(),
    ensures
        lookup(es.remove(i), k) == if k == es[i].0@ {
            0
        } else {
            lookup(es, k)
        },
{
    assert(keys_distinct(es.remove(i))) by {
        assert(forall|p: int, q: int|
            #![trigger es.remove(i)[p], es.remove(i)[q]]
            0 <= p < q < es.remove(i).len() ==> {
                let p0: int = if p < i { p } else { p + 1 };
                let q0: int = if q < i { q } else { q + 1 };
                es.remove(i)[p] == es[p0] && es.remove(i)[q] == es[q0]
            });
    }
    if k == es[i].0@ {
        assert(forall|j: int|
            #![trigger es.remove(i)[j]]
            0 <= j < es.remove(i).len() ==> {
                let j0: int = if j < i { j } else { j + 1 };
                es.remove(i)[j] == es[j0]
            });
        lemma_lookup_none(es.remove(i), k);
    } else {
        if forall|j: int| 0 <= j < es.len() ==> es[j].0@ != k {
            assert(forall|j: int|
                #![trigger es.remove(i)[j]]
                0 <= j < es.remove(i).len() ==> {
                    let j0: int = if j < i { j } else { j + 1 };
                    es.remove(i)[j] == es[j0]
                });
            lemma_lookup_none(es, k);
            lemma_lookup_none(es.remove(i), k);
        } else {
            let j = choose|j: int| 0 <= j < es.len() && es[j].0@ == k;
            lemma_lookup_at(es, j);
            let j1: int = if j < i { j } else { j - 1 };
            assert(es.remove(i)[j1] == es[j]);
            lemma_lookup_at(es.remove(i), j1);
        }
    }
}

/// Raise the count of `key` by `m`, entering `key` with count `m` when absent.
fn bump(es: &mut Vec<(String, usize)>, key: &String, m: usize)
    requires
        keys_distinct(old(es)@),
        counts_positive(old(es)@),
        m >= 1,
        lookup(old(es)@, key@) + m <= usize::MAX,
    ensures
        keys_distinct(final(es)@),
        counts_positive(final(es)@),
        forall|k: Seq<char>|
            lookup(final(es)@, k) == lookup(old(es)@, k) + (if k == key@ {
                m as nat
            } else {
                0nat
            }),
{
    match find_index(es, key) {
        Some(i) => {
            proof {
                lemma_lookup_at(es@, i as int);
            }
            let p = es.remove(i);
            let q = (p.0, p.1 + m);
            es.insert(i, q);
            proof {
                assert(es@ =~= old(es)@.update(i as int, q));
                assert(counts_positive(es@)) by {
                    assert(forall|j: int| 0 <= j < es@.len() && j != i ==> es@[j]
                        == old(es)@[j]);
                }
                assert(keys_distinct(es@));
                assert forall|k: Seq<char>|
                    lookup(es@, k) == lookup(old(es)@, k) + (if k == key@ {
                        m as nat
                    } else {
                        0nat
                    }) by {
                    lemma_lookup_update(old(es)@, i as int, q, k);
                }
            }
        },
        None => {
            let p = (key.clone(), m);
            es.push(p);
            proof {
                assert(keys_distinct(es@)) by {
                    assert(forall|j: int| 0 <= j < old(es)@.len() ==> es@[j]
                        == old(es)@[j]);
                    assert(es@[es@.len() - 1] == p);
                }
                assert(counts_positive(es@));
                assert forall|k: Seq<char>|
                    lookup(es@, k) == lookup(old(es)@, k) + (if k == key@ {
                        m as nat
                    } else {
                        0nat
                    }) by {
                    lemma_lookup_push(old(es)@, p, k);
                    if k == key@ {
                        lemma_lookup_none(old(es)@, k);
                    }
                }
            }
        },
    }
}

/// Lower the count of `key` by one when present, removing the pair when its
/// count reaches zero; when `key` is absent, change nothing.
fn drop_one(es: &mut Vec<(String, usize)>, key: &String)
    requires
        keys_distinct(old(es)@),
        counts_positive(old(es)@),
    ensures
        keys_distinct(final(es)@),
        counts_positive(final(es)@),
        forall|k: Seq<char>|
            lookup(final(es)@, k) == if k == key@ && lookup(old(es)@, k) > 0 {
                (lookup(old(es)@, k) - 1) as nat
            } else {
                lookup(old(es)@, k)
            },
{
    match find_index(es, key) {
        Some(i) => {
            proof {
                lemma_lookup_at(es@, i as int);
            }
            let c = es[i].1;
            if c <= 1 {
                es.remove(i);
                proof {
                    assert(keys_distinct(es@) && counts_positive(es@)) by {
                        assert(forall|j: int|
                            #![trigger es@[j]]
                            0 <= j < es@.len() ==> {
                                let j0: int = if j < i { j } else { j + 1 };
                                es@[j] == old(es)@[j0]
                            });
                    }
                    assert forall|k: Seq<char>|
                        lookup(es@, k) == if k == key@ && lookup(old(es)@, k) > 0 {
                            (lookup(old(es)@, k) - 1) as nat
                        } else {
                            lookup(old(es)@, k)
                        } by {
                        lemma_lookup_remove(old(es)@, i as int, k);
                    }
                }
            } else {
                let p = es.remove(i);
                let q = (p.0, c - 1);
                es.insert(i, q);
                proof {
                    assert(es@ =~= old(es)@.update(i as int, q));
                    assert(counts_positive(es@)) by {
                        assert(forall|j: int| 0 <= j < es@.len() && j != i ==> es@[j]
                            == old(es)@[j]);
                    }
                    assert(keys_distinct(es@));
                    assert forall|k: Seq<char>|
                        lookup(es@, k) == if k == key@ && lookup(old(es)@, k) > 0 {
                            (lookup(old(es)@, k) - 1) as nat
                        } else {
                            lookup(old(es)@, k)
                        } by {
                        lemma_lookup_update(old(es)@, i as int, q, k);
                    }
                }
            }
        },
        None => {
            proof {
                lemma_lookup_none(es@, key@);
            }
        },
    }
}

impl Clone for Counter {
    /// An identical counter: the copy reads as the same map as the original.
    fn clone(&self) -> (r: Self)
        ensures
            r@ == self@,
    {
        proof {
            use_type_invariant(&*self);
        }
        let es = clone_entries(&self.entries);
        let r = Counter { entries: es };
        proof {
            assert(r@ =~= self@);
        }
        r
    }
}

/// One more pair of the vector extends a prefix lookup by that pair's count,
/// for its own key alone.
proof fn lemma_lookup_take_step(es: Seq<(String, usize)>, i: int, k: Seq<char>)
    requires
        keys_distinct(es),
        0 <= i < es.len(),
    ensures
        lookup(es.take(i + 1), k) == lookup(es.take(i), k) + (if k == es[i].0@ {
            es[i].1 as nat
        } else {
            0nat
        }),
{
    assert(es.take(i + 1) =~= es.take(i).push(es[i]));
    assert(forall|j: int| 0 <= j < i ==> es.take(i)[j] == es[j]);
    lemma_lookup_push(es.take(i), es[i], k);
    if k == es[i].0@ {
        lemma_lookup_none(es.take(i), k);
    }
}

/// Two vectors whose pairs agree, key view and count alike, assign every key
/// the same lookup.
proof fn lemma_lookup_elemwise(es: Seq<(String, usize)>, fs: Seq<(String, usize)>, k: Seq<char>)
    requires
        es.len() == fs.len(),
        forall|j: int| 0 <= j < es.len() ==> fs[j].0@ == es[j].0@ && fs[j].1 == es[j].1,
    ensures
        lookup(fs, k) == lookup(es, k),
    decreases es.len(),
{
    if es.len() > 0 {
        assert(forall|j: int| 0 <= j < es.drop_first().len() ==> es.drop_first()[j] == es[j
            + 1] && fs.drop_first()[j] == fs[j + 1]);
        lemma_lookup_elemwise(es.drop_first(), fs.drop_first(), k);
    }
}

/// A fresh vector with the same pairs: each key of the copy reads the same
/// key view and count as the original.
fn clone_entries(es: &Vec<(String, usize)>) -> (r: Vec<(String, usize)>)
    requires
        keys_distinct(es@),
        counts_positive(es@),
    ensures
        keys_distinct(r@),
        counts_positive(r@),
        forall|k: Seq<char>| lookup(r@, k) == lookup(es@, k),
{
    let n = es.len();
    let mut r: Vec<(String, usize)> = Vec::new();
    let mut i: usize = 0;
    while i < n
        invariant
            i <= n,
            n == es@.len(),
            r@.len() == i,
            forall|j: int| 0 <= j < i ==> r@[j].0@ == es@[j].0@ && r@[j].1 == es@[j].1,
        decreases n - i,
    {
        let p = &es[i];
        let q = (p.0.clone(), p.1);
        r.push(q);
        i = i + 1;
    }
    proof {
        assert(keys_distinct(r@));
        assert(counts_positive(r@));
        assert forall|k: Seq<char>| lookup(r@, k) == lookup(es@, k) by {
            lemma_lookup_elemwise(es@, r@, k);
        }
    }
    r
}

/// The relation `most_common` keeps while it builds its result: `r` is
/// sorted by non-increasing count, holds exactly the first `i` entries of the
/// backing vector, each once, and repeats no key.
spec fn partial_common(r: Seq<(usize, String)>, ss: Seq<(String, usize)>, i: int) -> bool {
    &&& r.len() == i
    &&& (forall|a: int, b: int| 0 <= a < b < r.len() ==> r[a].0 >= r[b].0)
    &&& (forall|a: int| #![trigger r[a]]
        0 <= a < r.len() ==> exists|j: int|
            #![trigger ss[j]]
            0 <= j < i && ss[j].0@ == r[a].1@ && ss[j].1 == r[a].0)
    &&& (forall|j: int| #![trigger ss[j]]
        0 <= j < i ==> exists|a: int|
            #![trigger r[a]]
            0 <= a < r.len() && r[a].1@ == ss[j].0@ && r[a].0 == ss[j].1)
    &&& (forall|a: int, b: int| 0 <= a < b < r.len() ==> r[a].1@ != r[b].1@)
}

/// Entering a pair between the counts at least its own and the strictly
/// smaller ones keeps the result sorted by non-increasing count.
proof fn lemma_insert_keeps_sorted(r0: Seq<(usize, String)>, pos: int, q: (usize, String))
    requires
        0 <= pos <= r0.len(),
        forall|a: int, b: int| 0 <= a < b < r0.len() ==> r0[a].0 >= r0[b].0,
        forall|a: int| 0 <= a < pos ==> r0[a].0 >= q.0,
        forall|b: int| pos <= b < r0.len() ==> r0[b].0 < q.0,
    ensures
        forall|a: int, b: int|
            0 <= a < b < r0.insert(pos, q).len() ==> r0.insert(pos, q)[a].0 >= r0.insert(
                pos,
                q,
            )[b].0,
{
    let r1 = r0.insert(pos, q);
    r0.insert_ensures(pos, q);
    assert forall|a: int, b: int| 0 <= a < b < r1.len() implies r1[a].0 >= r1[b].0 by {
        if a < pos && b > pos {
            assert(r1[a] == r0[a] && r1[b] == r0[b - 1]);
            assert(r0[a].0 >= q.0 && r0[b - 1].0 < q.0);
        }
    }
}

/// After the insertion, every pair of the result still comes from one of the
/// first `i + 1` entries.
proof fn lemma_insert_from_entries(
    r0: Seq<(usize, String)>,
    ss: Seq<(String, usize)>,
    i: int,
    pos: int,
    q: (usize, String),
)
    requires
        0 <= i < ss.len(),
        0 <= pos <= r0.len(),
        q.0 == ss[i].1,
        q.1@ == ss[i].0@,
        partial_common(r0, ss, i),
    ensures
        forall|a: int| #![trigger r0.insert(pos, q)[a]]
            0 <= a < r0.insert(pos, q).len() ==> exists|j: int|
                #![trigger ss[j]]
                0 <= j < i + 1 && ss[j].0@ == r0.insert(pos, q)[a].1@ && ss[j].1
                    == r0.insert(pos, q)[a].0,
{
    let r1 = r0.insert(pos, q);
    r0.insert_ensures(pos, q);
    assert forall|a: int| #![trigger r1[a]]
        0 <= a < r1.len() implies exists|j: int|
        #![trigger ss[j]]
        0 <= j < i + 1 && ss[j].0@ == r1[a].1@ && ss[j].1 == r1[a].0 by {
        if a == pos {
            assert(ss[i].0@ == r1[a].1@ && ss[i].1 == r1[a].0);
        } else {
            let a0: int = if a < pos {
                a
            } else {
                a - 1
            };
            assert(r1[a] == r0[a0]);
            let j = choose|j: int|
                0 <= j < i && ss[j].0@ == r0[a0].1@ && ss[j].1 == r0[a0].0;
            assert(ss[j].0@ == r1[a].1@ && ss[j].1 == r1[a].0);
        }
    }
}

/// After the insertion, each of the first `i + 1` entries appears in the
/// result.
proof fn lemma_insert_covers(
    r0: Seq<(usize, String)>,
    ss: Seq<(String, usize)>,
    i: int,
    pos: int,
    q: (usize, String),
)
    requires
        0 <= i < ss.len(),
        0 <= pos <= r0.len(),
        q.0 == ss[i].1,
        q.1@ == ss[i].0@,
        partial_common(r0, ss, i),
    ensures
        forall|j: int| #![trigger ss[j]]
            0 <= j < i + 1 ==> exists|a: int|
                #![trigger r0.insert(pos, q)[a]]
                0 <= a < r0.insert(pos, q).len() && r0.insert(pos, q)[a].1@ == ss[j].0@
                    && r0.insert(pos, q)[a].0 == ss[j].1,
{
    let r1 = r0.insert(pos, q);
    r0.insert_ensures(pos, q);
    assert forall|j: int| #![trigger ss[j]]
        0 <= j < i + 1 implies exists|a: int|
        #![trigger r1[a]]
        0 <= a < r1.len() && r1[a].1@ == ss[j].0@ && r1[a].0 == ss[j].1 by {
        if j == i {
            assert(r1[pos].1@ == ss[j].0@ && r1[pos].0 == ss[j].1);
        } else {
            let a0 = choose|a0: int|
                0 <= a0 < r0.len() && r0[a0].1@ == ss[j].0@ && r0[a0].0 == ss[j].1;
            let a: int = if a0 < pos {
                a0
            } else {
                a0 + 1
            };
            assert(r1[a] == r0[a0]);
            assert(r1[a].1@ == ss[j].0@ && r1[a].0 == ss[j].1);
        }
    }
}

/// After the insertion, no key appears twice in the result: the old pairs all
/// come from entries before `i`, whose keys differ from the key of entry `i`.
proof fn lemma_insert_distinct(
    r0: Seq<(usize, String)>,
    ss: Seq<(String, usize)>,
    i: int,
    pos: int,
    q: (usize, String),
)
    requires
        keys_distinct(ss),
        0 <= i < ss.len(),
        0 <= pos <= r0.len(),
        q.1@ == ss[i].0@,
        partial_common(r0, ss, i),
    ensures
        forall|a: int, b: int|
            0 <= a < b < r0.insert(pos, q).len() ==> r0.insert(pos, q)[a].1@ != r0.insert(
                pos,
                q,
            )[b].1@,
{
    let r1 = r0.insert(pos, q);
    r0.insert_ensures(pos, q);
    assert forall|a: int, b: int| 0 <= a < b < r1.len() implies r1[a].1@ != r1[b].1@ by {
        if a == pos || b == pos {
            let c: int = if a == pos {
                b
            } else {
                a
            };
            let c0: int = if c < pos {
                c
            } else {
                c - 1
            };
            assert(r1[c] == r0[c0]);
            let j = choose|j: int|
                0 <= j < i && ss[j].0@ == r0[c0].1@ && ss[j].1 == r0[c0].0;
            assert(ss[j].0@ != ss[i].0@);
        } else {
            let a0: int = if a < pos {
                a
            } else {
                a - 1
            };
            let b0: int = if b < pos {
                b
            } else {
                b - 1
            };
            assert(r1[a] == r0[a0] && r1[b] == r0[b0]);
        }
    }
}

/// Entering the pair built from entry `i` at its sorted position carries the
/// building relation one entry further.
proof fn lemma_common_insert(
    r0: Seq<(usize, String)>,
    ss: Seq<(String, usize)>,
    i: int,
    pos: int,
    q: (usize, String),
)
    requires
        keys_distinct(ss),
        0 <= i < ss.len(),
        0 <= pos <= r0.len(),
        q.0 == ss[i].1,
        q.1@ == ss[i].0@,
        forall|a: int| 0 <= a < pos ==> r0[a].0 >= q.0,
        forall|b: int| pos <= b < r0.len() ==> r0[b].0 < q.0,
        partial_common(r0, ss, i),
    ensures
        partial_common(r0.insert(pos, q), ss, i + 1),
{
    r0.insert_ensures(pos, q);
    lemma_insert_keeps_sorted(r0, pos, q);
    lemma_insert_from_entries(r0, ss, i, pos, q);
    lemma_insert_covers(r0, ss, i, pos, q);
    lemma_insert_distinct(r0, ss, i, pos, q);
}

/// Once the building relation covers the whole backing vector, the result
/// pairs are exactly the entries of the counter's map.
proof fn lemma_common_view(c: Counter, r: Seq<(usize, String)>)
    requires
        keys_distinct(c.entries@),
        counts_positive(c.entries@),
        partial_common(r, c.entries@, c.entries@.len() as int),
    ensures
        forall|a: int| #![trigger r[a]]
            0 <= a < r.len() ==> c@.dom().contains(r[a].1@) && c@[r[a].1@] == r[a].0 as nat,
        forall|k: Seq<char>|
            c@.dom().contains(k) ==> exists|a: int|
                #![trigger r[a]]
                0 <= a < r.len() && r[a].1@ == k,
{
    let ss = c.entries@;
    assert forall|a: int| #![trigger r[a]]
        0 <= a < r.len() implies c@.dom().contains(r[a].1@) && c@[r[a].1@]
        == r[a].0 as nat by {
        let j = choose|j: int| 0 <= j < ss.len() && ss[j].0@ == r[a].1@ && ss[j].1 == r[a].0;
        lemma_lookup_at(ss, j);
    }
    assert forall|k: Seq<char>| c@.dom().contains(k) implies exists|a: int|
        #![trigger r[a]]
        0 <= a < r.len() && r[a].1@ == k by {
        lemma_lookup_zero_iff_absent(ss, k);
        let j = choose|j: int| 0 <= j < ss.len() && ss[j].0@ == k;
        let a = choose|a: int| 0 <= a < r.len() && r[a].1@ == ss[j].0@ && r[a].0 == ss[j].1;
        assert(r[a].1@ == k);
    }
}

/// The position at which a pair with count `c` enters a vector sorted by
/// non-increasing count: after every count at least `c`, before every smaller
/// one, so that equal counts keep their order of arrival.
fn find_pos(r: &Vec<(usize, String)>, c: usize) -> (pos: usize)
    requires
        forall|a: int, b: int| 0 <= a < b < r@.len() ==> r@[a].0 >= r@[b].0,
    ensures
        pos <= r@.len(),
        forall|a: int| 0 <= a < pos ==> r@[a].0 >= c,
        forall|b: int| pos <= b < r@.len() ==> r@[b].0 < c,
{
    let n = r.len();
    let mut pos: usize = 0;
    while pos < n
        invariant
            pos <= n,
            n == r@.len(),
            forall|a: int, b: int| 0 <= a < b < r@.len() ==> r@[a].0 >= r@[b].0,
            forall|a: int| 0 <= a < pos ==> r@[a].0 >= c,
        decreases n - pos,
    {
        if r[pos].0 < c {
            return pos;
        }
        pos = pos + 1;
    }
    pos
}

/// Scan for the pair carrying `key`; report its index, or that no pair does.
fn find_index(es: &Vec<(String, usize)>, key: &String) -> (r: Option<usize>)
    ensures
        match r {
            Some(i) => i < es@.len() && es@[i as int].0@ == key@,
            None => forall|j: int| 0 <= j < es@.len() ==> es@[j].0@ != key@,
        },
{
    let n = es.len();
    let mut i: usize = 0;
    while i < n
        invariant
            i <= n,
            n == es@.len(),
            forall|j: int| 0 <= j < i ==> es@[j].0@ != key@,
        decreases n - i,
    {
        if es[i].0 == *key {
            return Some(i);
        }
        i = i + 1;
    }
    None
}

/// The count that the backing vector assigns to `key`, computed by scanning.
fn get_count(es: &Vec<(String, usize)>, key: &String) -> (r: usize)
    requires
        keys_distinct(es@),
        counts_positive(es@),
    ensures
        r as nat == lookup(es@, key@),
{
    match find_index(es, key) {
        Some(i) => {
            proof {
                lemma_lookup_at(es@, i as int);
            }
            es[i].1
        },
        None => {
            proof {
                lemma_lookup_none(es@, key@);
            }
            0
        },
    }
}

} // verus!
