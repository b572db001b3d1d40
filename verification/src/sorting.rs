//! Sorting the terms of the documents for the dictionary.

use crate::dictionary::{lex_lt, term_rank};
use std::cmp::Ordering;
use vstd::prelude::*;

verus! {

/// A term with the identifier of a document that holds it.
pub struct Occurrence {
    /// The term, as bytes.
    pub term: Vec<u8>,
    /// The document.
    pub id: u32,
}

/// The mathematical content of a list of occurrences.
pub open spec fn occurrences_view(occurrences: Seq<Occurrence>) -> Seq<(Seq<u8>, u32)> {
    Seq::new(occurrences.len(), |i: int| (occurrences[i].term@, occurrences[i].id))
}

/// Whether no item of the list comes before an earlier one in the order of
/// the terms.
pub open spec fn ordered_by_term(occurrences: Seq<(Seq<u8>, u32)>) -> bool {
    forall|i: int, j: int|
        0 <= i < j < occurrences.len() ==> (#[trigger] occurrences[i]).0 == (
        #[trigger] occurrences[j]).0 || lex_lt(occurrences[i].0, occurrences[j].0)
}

/// Compares two terms in the lexicographic order of their bytes.
pub fn compare_terms(left: &Vec<u8>, right: &Vec<u8>) -> (r: Ordering)
    ensures
        (r == Ordering::Less) == lex_lt(left@, right@),
        (r == Ordering::Equal) == (left@ == right@),
        (r == Ordering::Greater) == lex_lt(right@, left@),
{
    let rank = term_rank(left.as_slice(), right.as_slice());
    if rank == 0 {
        Ordering::Less
    } else if rank == 1 {
        Ordering::Equal
    } else {
        Ordering::Greater
    }
}

/// Trusted: `slice::sort_unstable_by` with [`compare_terms`] on the terms.
/// The list keeps its items and comes out in the order of the terms.
#[verifier::external_body]
pub(crate) fn sort_by_term(occurrences: &mut Vec<Occurrence>)
    ensures
        occurrences_view(final(occurrences)@).to_multiset() == occurrences_view(
            old(occurrences)@,
        ).to_multiset(),
        ordered_by_term(occurrences_view(final(occurrences)@)),
{
    occurrences.sort_unstable_by(|left, right| compare_terms(&left.term, &right.term));
}

} // verus!
