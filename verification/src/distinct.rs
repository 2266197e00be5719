//! Distinctness of the symbol alphabet. The runtime invariant check counts
//! the distinct symbols through itertools; the lemma ties that count to
//! `no_duplicates`, which the contracts speak of.

use itertools::Itertools;
use vstd::prelude::*;

verus! {

/// Relies on itertools::Itertools::unique: the adaptor yields each distinct
/// element exactly once, so counting it gives the number of distinct
/// elements.
#[verifier::external_body]
pub fn unique_count(v: &Vec<char>) -> (n: usize)
    ensures
        n == v@.to_set().len(),
{
    v.iter().unique().count()
}

/// A sequence holds as many distinct elements as it has elements exactly when
/// it has no duplicates.
pub proof fn lemma_distinct_count(s: Seq<char>)
    ensures
        (s.to_set().len() == s.len()) == s.no_duplicates(),
{
    if s.no_duplicates() {
        s.unique_seq_to_set();
    }
    if s.to_set().len() == s.len() {
        s.lemma_no_dup_set_cardinality();
    }
}

} // verus!
