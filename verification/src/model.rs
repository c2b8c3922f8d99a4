//! The mathematical model of a counter: a map from element (as a sequence of
//! characters) to its occurrence count, together with the operations of the
//! multiset algebra, stated purely over such maps and over input sequences.

use vstd::prelude::*;

verus! {

/// The count of `k` in `m`: the stored count when `k` is present, zero otherwise.
pub open spec fn cnt(m: Map<Seq<char>, nat>, k: Seq<char>) -> nat {
    if m.dom().contains(k) {
        m[k]
    } else {
        0
    }
}

/// How many times the element `k` occurs in the sequence `s`.
pub open spec fn occurrences(s: Seq<Seq<char>>, k: Seq<char>) -> nat
    decreases s.len(),
{
    if s.len() == 0 {
        0
    } else {
        occurrences(s.drop_last(), k) + (if s.last() == k {
            1nat
        } else {
            0nat
        })
    }
}

/// The counter after counting every element of `s` on top of `m`: each count
/// grows by the number of occurrences in `s`, and elements of `s` absent from
/// `m` enter with their occurrence count.
pub open spec fn updated(m: Map<Seq<char>, nat>, s: Seq<Seq<char>>) -> Map<Seq<char>, nat> {
    Map::new(
        |k: Seq<char>| m.dom().contains(k) || occurrences(s, k) > 0,
        |k: Seq<char>| cnt(m, k) + occurrences(s, k),
    )
}

/// The counter after discounting every element of `s` from `m`: each count
/// shrinks by the number of occurrences in `s`, and an entry whose count would
/// fall to zero or below is dropped altogether.
pub open spec fn subtracted(m: Map<Seq<char>, nat>, s: Seq<Seq<char>>) -> Map<Seq<char>, nat> {
    Map::new(
        |k: Seq<char>| cnt(m, k) > occurrences(s, k),
        |k: Seq<char>| (cnt(m, k) - occurrences(s, k)) as nat,
    )
}

/// The sum of two counters: counts add up key by key, and the key set is the
/// union of the two key sets.
pub open spec fn add_counts(c: Map<Seq<char>, nat>, d: Map<Seq<char>, nat>) -> Map<
    Seq<char>,
    nat,
> {
    Map::new(
        |k: Seq<char>| cnt(c, k) + cnt(d, k) > 0,
        |k: Seq<char>| cnt(c, k) + cnt(d, k),
    )
}

/// The floored difference of two counters: key by key, the left count less the
/// right count, keeping only the strictly positive results.
pub open spec fn sub_counts(c: Map<Seq<char>, nat>, d: Map<Seq<char>, nat>) -> Map<
    Seq<char>,
    nat,
> {
    Map::new(
        |k: Seq<char>| cnt(c, k) > cnt(d, k),
        |k: Seq<char>| (cnt(c, k) - cnt(d, k)) as nat,
    )
}

/// The intersection of two counters: the minimum count key by key, so a key
/// survives only when both sides hold it.
pub open spec fn min_counts(c: Map<Seq<char>, nat>, d: Map<Seq<char>, nat>) -> Map<
    Seq<char>,
    nat,
> {
    Map::new(
        |k: Seq<char>| cnt(c, k) > 0 && cnt(d, k) > 0,
        |k: Seq<char>| if cnt(c, k) <= cnt(d, k) {
            cnt(c, k)
        } else {
            cnt(d, k)
        },
    )
}

/// The union of two counters: the maximum count key by key, over the union of
/// the two key sets.
pub open spec fn max_counts(c: Map<Seq<char>, nat>, d: Map<Seq<char>, nat>) -> Map<
    Seq<char>,
    nat,
> {
    Map::new(
        |k: Seq<char>| cnt(c, k) > 0 || cnt(d, k) > 0,
        |k: Seq<char>| if cnt(c, k) >= cnt(d, k) {
            cnt(c, k)
        } else {
            cnt(d, k)
        },
    )
}

/// Occurrence counts never exceed the length of the sequence counted.
pub proof fn lemma_occurrences_le_len(s: Seq<Seq<char>>, k: Seq<char>)
    ensures
        occurrences(s, k) <= s.len(),
    decreases s.len(),
{
    if s.len() > 0 {
        lemma_occurrences_le_len(s.drop_last(), k);
    }
}

/// Counting one more element of the sequence adds one to the count of that
/// element and leaves every other count unchanged.
pub proof fn lemma_occurrences_take_step(s: Seq<Seq<char>>, i: int, k: Seq<char>)
    requires
        0 <= i < s.len(),
    ensures
        occurrences(s.take(i + 1), k) == occurrences(s.take(i), k) + (if s[i] == k {
            1nat
        } else {
            0nat
        }),
{
    assert(s.take(i + 1).drop_last() =~= s.take(i));
    assert(s.take(i + 1).last() == s[i]);
}

/// A prefix of a sequence holds no more occurrences than the whole.
pub proof fn lemma_occurrences_take_le(s: Seq<Seq<char>>, i: int, k: Seq<char>)
    requires
        0 <= i <= s.len(),
    ensures
        occurrences(s.take(i), k) <= occurrences(s, k),
    decreases s.len() - i,
{
    if i == s.len() {
        assert(s.take(i) =~= s);
    } else {
        lemma_occurrences_take_step(s, i, k);
        lemma_occurrences_take_le(s, i + 1, k);
    }
}

/// An element occurs in a sequence exactly when its occurrence count is positive.
pub proof fn lemma_occurrences_positive(s: Seq<Seq<char>>, k: Seq<char>)
    ensures
        occurrences(s, k) > 0 <==> s.contains(k),
    decreases s.len(),
{
    if s.len() > 0 {
        lemma_occurrences_positive(s.drop_last(), k);
        if s.drop_last().contains(k) {
            let i = choose|i: int| 0 <= i < s.drop_last().len() && s.drop_last()[i] == k;
            assert(s[i] == k);
        }
        if s.contains(k) && s.last() != k {
            let i = choose|i: int| 0 <= i < s.len() && s[i] == k;
            assert(s.drop_last()[i] == k);
        }
    }
}

} // verus!
