//! Laws of the counter algebra, each proved once and for all over the
//! mathematical model that the executable contracts speak of.

use vstd::prelude::*;

use crate::counts::Counter;
use crate::model::{
    add_counts, cnt, lemma_occurrences_positive, max_counts, min_counts, subtracted,
    updated,
};

verus! {

/// Counting a sequence twice, starting from nothing, doubles every count that
/// the first counting produced — and introduces no other element.
pub proof fn lemma_count_twice_doubles(s: Seq<Seq<char>>)
    ensures
        forall|k: Seq<char>|
            cnt(updated(updated(Map::<Seq<char>, nat>::empty(), s), s), k) == 2 * cnt(
                updated(Map::<Seq<char>, nat>::empty(), s),
                k,
            ),
{
}

/// An element that a sequence does not hold is absent from the counter built
/// from that sequence.
pub proof fn lemma_absent_stays_absent(s: Seq<Seq<char>>, x: Seq<char>)
    requires
        !s.contains(x),
    ensures
        !updated(Map::<Seq<char>, nat>::empty(), s).dom().contains(x),
{
    lemma_occurrences_positive(s, x);
}

/// Discounting a sequence from a counter never leaves an entry with a count of
/// zero or below: every element the result still holds, it holds with a
/// strictly positive count.
pub proof fn lemma_subtract_keeps_counts_positive(c: Counter, s: Seq<Seq<char>>)
    ensures
        forall|k: Seq<char>|
            subtracted(c@, s).dom().contains(k) ==> subtracted(c@, s)[k] > 0,
{
}

/// The sum of two counters does not depend on the order of its operands.
pub proof fn lemma_add_commutes(c: Counter, d: Counter)
    ensures
        add_counts(c@, d@) == add_counts(d@, c@),
{
    assert(add_counts(c@, d@) =~= add_counts(d@, c@));
}

/// The lattice identity of intersection and union: for every element, the
/// minimum count and the maximum count add up to the two counts themselves.
pub proof fn lemma_min_max_lattice(c: Counter, d: Counter)
    ensures
        forall|k: Seq<char>|
            cnt(min_counts(c@, d@), k) + cnt(max_counts(c@, d@), k) == cnt(c@, k) + cnt(
                d@,
                k,
            ),
{
}

} // verus!
