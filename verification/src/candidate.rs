//! Word candidates: for one word of a query, the documents that hold a
//! matching term, sorted into slots by the number of typos of the match.

use crate::bitmap::{
    bitmap_set, bitmap_sets, bitmap_union_with, bitmap_wf, bitmaps_wf, union_of,
};
use roaring::RoaringBitmap;
use text_distance::DamerauLevenshtein;
use vstd::prelude::*;
use vstd::string::*;

verus! {

/// The greatest number of typos that is told apart; a match with more
/// typos counts as one with this many.
pub const MAX_TYPOS: usize = 3;

/// The least of three numbers.
pub open spec fn least_of(a: nat, b: nat, c: nat) -> nat {
    if a <= b && a <= c {
        a
    } else if b <= c {
        b
    } else {
        c
    }
}

/// The restricted distance between the first `i` characters of `src` and
/// the first `j` characters of `tar`. The last characters are matched or
/// one is substituted for the other, or one of them is deleted or
/// inserted; and where the last two characters of the one are the last two
/// of the other in the opposite order, they may be swapped.
pub open spec fn prefix_distance(src: Seq<char>, tar: Seq<char>, i: nat, j: nat) -> nat
    decreases i + j,
{
    if i == 0 {
        j
    } else if j == 0 {
        i
    } else {
        let cost: nat = if src[i - 1] == tar[j - 1] {
            0
        } else {
            1
        };
        let plain = least_of(
            prefix_distance(src, tar, (i - 1) as nat, j) + 1,
            prefix_distance(src, tar, i, (j - 1) as nat) + 1,
            prefix_distance(src, tar, (i - 1) as nat, (j - 1) as nat) + cost,
        );
        if i > 1 && j > 1 && src[i - 1] == tar[j - 2] && tar[j - 1] == src[i - 2] {
            let swapped = prefix_distance(src, tar, (i - 2) as nat, (j - 2) as nat) + cost;
            if swapped < plain {
                swapped
            } else {
                plain
            }
        } else {
            plain
        }
    }
}

/// The restricted Damerau-Levenshtein distance (optimal string alignment)
/// from `src` to `tar`: the least number of insertions, deletions,
/// substitutions and swaps of two neighbours that turns one into the
/// other, where no character takes part in more than one operation.
pub open spec fn restricted_distance(src: Seq<char>, tar: Seq<char>) -> nat {
    prefix_distance(src, tar, src.len(), tar.len())
}

/// Trusted: `DamerauLevenshtein::distance` with `restricted` set computes
/// the restricted distance of its two strings, character by character, by
/// the rule that [`prefix_distance`] states.
#[verifier::external_body]
pub(crate) fn damerau_levenshtein(src: &str, tar: &str) -> (d: usize)
    ensures
        d == restricted_distance(src@, tar@),
{
    DamerauLevenshtein { src: src.to_string(), tar: tar.to_string(), restricted: true }.distance()
}

/// The slot that a match at the given distance falls into.
pub open spec fn typo_slot(distance: nat) -> int {
    if distance < MAX_TYPOS {
        distance as int
    } else {
        MAX_TYPOS as int
    }
}

/// The part of a dictionary term that is compared with a query word of
/// `word_len` characters: the term itself, cut to that length.
pub open spec fn compared_part(term: Seq<char>, word_len: nat) -> Seq<char> {
    if term.len() <= word_len {
        term
    } else {
        term.take(word_len as int)
    }
}

/// One word of a query together with the documents that may match it.
#[derive(Debug)]
pub struct WordCandidate {
    /// The word as it was typed.
    pub original: String,
    /// The word in normal form.
    pub normalized: String,
    /// The position of the word in the query.
    pub index: usize,
    /// The matching documents; slot `k` holds those matched with `k` typos.
    pub typos: Vec<RoaringBitmap>,
}

/// The mathematical content of a [`WordCandidate`].
pub struct CandidateView {
    /// The word as it was typed.
    pub original: Seq<char>,
    /// The word in normal form.
    pub normalized: Seq<char>,
    /// The position of the word in the query.
    pub index: nat,
    /// The matching documents; slot `k` holds those matched with `k` typos.
    pub typos: Seq<Set<u32>>,
}

impl CandidateView {
    /// Every document that matches the word, whatever the number of typos.
    pub open spec fn universe(self) -> Set<u32> {
        union_of(self.typos)
    }

    /// The documents matched with fewer than `allowed` typos.
    pub open spec fn within(self, allowed: nat) -> Set<u32> {
        if allowed < self.typos.len() {
            union_of(self.typos.take(allowed as int))
        } else {
            union_of(self.typos)
        }
    }

    /// The candidate after `documents` have joined the given slot.
    pub open spec fn with_slot(self, slot: int, documents: Set<u32>) -> CandidateView {
        CandidateView { typos: self.typos.update(slot, self.typos[slot].union(documents)), ..self }
    }

    /// The candidate after `documents`, which hold the dictionary term
    /// `term`, have joined the slot that the distance between the word and
    /// the term calls for. The word is compared with the whole term; only
    /// where the term was matched by its beginning, which is so for the
    /// last word of a query, the term is cut to the length of the word
    /// before.
    pub open spec fn with_match(self, term: Seq<char>, documents: Set<u32>, by_prefix: bool) -> CandidateView {
        let compared = if by_prefix {
            compared_part(term, self.normalized.len())
        } else {
            term
        };
        self.with_slot(typo_slot(restricted_distance(self.normalized, compared)), documents)
    }

    /// The candidate after the documents of `used` have left every slot.
    pub open spec fn without(self, used: Set<u32>) -> CandidateView {
        CandidateView {
            typos: Seq::new(self.typos.len(), |k: int| self.typos[k].difference(used)),
            ..self
        }
    }
}

impl View for WordCandidate {
    type V = CandidateView;

    open spec fn view(&self) -> CandidateView {
        CandidateView {
            original: self.original@,
            normalized: self.normalized@,
            index: self.index as nat,
            typos: bitmap_sets(self.typos@),
        }
    }
}

/// A candidate that matches no document yet.
pub open spec fn empty_candidate(original: Seq<char>, normalized: Seq<char>, index: nat) -> CandidateView {
    CandidateView {
        original,
        normalized,
        index,
        typos: Seq::new((MAX_TYPOS + 1) as nat, |k: int| Set::<u32>::empty()),
    }
}

/// The mathematical content of a list of candidates.
pub open spec fn candidates_view(words: Seq<WordCandidate>) -> Seq<CandidateView> {
    Seq::new(words.len(), |i: int| words[i]@)
}

/// The candidates after the documents of `used` have left every one of them.
pub open spec fn candidates_without(words: Seq<CandidateView>, used: Set<u32>) -> Seq<CandidateView> {
    Seq::new(words.len(), |i: int| words[i].without(used))
}

/// Every document that matches at least one of the candidates.
pub open spec fn candidates_universe(words: Seq<CandidateView>) -> Set<u32> {
    Set::new(|x: u32| exists|i: int| 0 <= i < words.len() && (#[trigger] words[i]).universe().contains(x))
}

/// Whether the bitmaps of every candidate are well formed.
pub open spec fn candidates_sound(words: Seq<WordCandidate>) -> bool {
    forall|i: int| 0 <= i < words.len() ==> (#[trigger] words[i]).sound()
}

impl WordCandidate {
    /// A candidate is well formed when it has one slot for each number of
    /// typos from zero to [`MAX_TYPOS`].
    pub open spec fn wf(self) -> bool {
        self.typos@.len() == MAX_TYPOS + 1
    }

    /// Whether the bitmaps in the slots are well formed.
    pub open spec fn sound(self) -> bool {
        bitmaps_wf(self.typos@)
    }

    /// Creates a candidate that matches no document yet.
    pub fn new(original: String, normalized: String, index: usize) -> (r: Self)
        ensures
            r.wf(),
            r.sound(),
            r@ == empty_candidate(original@, normalized@, index as nat),
    {
        let mut typos: Vec<RoaringBitmap> = Vec::new();
        typos.push(RoaringBitmap::new());
        typos.push(RoaringBitmap::new());
        typos.push(RoaringBitmap::new());
        typos.push(RoaringBitmap::new());
        assert(bitmap_sets(typos@) == Seq::new(
            (MAX_TYPOS + 1) as nat,
            |k: int| Set::<u32>::empty(),
        ));
        WordCandidate { original, normalized, index, typos }
    }

    /// Adds the documents of `bitmap` to the slot of the given distance.
    pub fn insert_at_distance(&mut self, distance: usize, bitmap: &RoaringBitmap)
        requires
            old(self).wf(),
            old(self).sound(),
            bitmap_wf(*bitmap),
        ensures
            final(self).wf(),
            final(self).sound(),
            final(self)@ == old(self)@.with_slot(typo_slot(distance as nat), bitmap_set(*bitmap)),
    {
        let slot = if distance < MAX_TYPOS {
            distance
        } else {
            MAX_TYPOS
        };
        bitmap_union_with(&mut self.typos[slot], bitmap);
        assert(self@.typos =~= old(self)@.with_slot(
            typo_slot(distance as nat),
            bitmap_set(*bitmap),
        ).typos);
    }

    /// Adds the documents of `bitmap`, which hold the dictionary term
    /// `other`, to the slot that the distance between the word and the
    /// whole term calls for. This is for a term that was matched as a
    /// whole.
    pub fn insert_with_typo(&mut self, other: &str, bitmap: &RoaringBitmap)
        requires
            old(self).wf(),
            old(self).sound(),
            bitmap_wf(*bitmap),
        ensures
            final(self).wf(),
            final(self).sound(),
            final(self)@ == old(self)@.with_match(other@, bitmap_set(*bitmap), false),
    {
        let distance = damerau_levenshtein(self.normalized.as_str(), other);
        self.insert_at_distance(distance, bitmap);
    }

    /// Adds the documents of `bitmap`, which hold the dictionary term
    /// `other`, to the slot that the distance between the word and the
    /// term calls for. This is for a term that was matched by its
    /// beginning: only as many characters of the term as the word has are
    /// compared, so that what the term has beyond them is not counted as
    /// typos.
    pub fn insert_with_maybe_typo(&mut self, other: &str, bitmap: &RoaringBitmap)
        requires
            old(self).wf(),
            old(self).sound(),
            bitmap_wf(*bitmap),
        ensures
            final(self).wf(),
            final(self).sound(),
            final(self)@ == old(self)@.with_match(other@, bitmap_set(*bitmap), true),
    {
        let word_len = self.normalized.as_str().unicode_len();
        let term_len = other.unicode_len();
        let distance = if term_len <= word_len {
            damerau_levenshtein(self.normalized.as_str(), other)
        } else {
            damerau_levenshtein(self.normalized.as_str(), other.substring_char(0, word_len))
        };
        self.insert_at_distance(distance, bitmap);
    }
}

} // verus!
