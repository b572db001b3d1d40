//! The `Typo` rule: prefers the documents that were matched with fewer typos.

use crate::bitmap::{
    bitmap_intersection, bitmap_set, bitmap_sets, bitmap_union, bitmap_wf, bitmaps_wf,
    intersection_of,
};
use crate::candidate::{candidates_sound, candidates_view, CandidateView, WordCandidate};
use crate::index::Index;
use crate::ranking_rules::{
    rule_cleanup, rule_next, rule_results, step_sound, step_view, within_each, RuleView,
};
use roaring::RoaringBitmap;
use std::ops::ControlFlow;
use vstd::prelude::*;
use vstd::slice::slice_subrange;

verus! {

/// The `Typo` rule. Step by step it admits one typo more for each word of
/// the query, and it starts over once every slot has been admitted.
pub struct Typo {
    first_iteration: bool,
    typo_allowed: usize,
    max_typos: usize,
}

impl View for Typo {
    type V = RuleView;

    closed spec fn view(&self) -> RuleView {
        RuleView::Typo {
            first_iteration: self.first_iteration,
            typo_allowed: self.typo_allowed as nat,
            max_typos: self.max_typos as nat,
        }
    }
}

/// The greatest number of typo slots that a candidate of the list has;
/// zero for an empty list.
pub open spec fn max_slots(words: Seq<CandidateView>) -> nat
    decreases words.len(),
{
    if words.len() == 0 {
        0
    } else {
        let rest = max_slots(words.drop_last());
        if words.last().typos.len() > rest {
            words.last().typos.len()
        } else {
            rest
        }
    }
}

/// The first slot that holds the document: the least number of typos with
/// which it matches. When no slot holds it, the number of slots.
pub open spec fn first_slot(slots: Seq<Set<u32>>, id: u32) -> nat
    decreases slots.len(),
{
    if slots.len() == 0 {
        0
    } else if first_slot(slots.drop_last(), id) < slots.len() - 1 {
        first_slot(slots.drop_last(), id)
    } else if slots.last().contains(id) {
        (slots.len() - 1) as nat
    } else {
        slots.len()
    }
}

/// The greatest number of typos that a word of the query needs to match
/// the document.
pub open spec fn worst_slot(words: Seq<CandidateView>, id: u32) -> nat
    decreases words.len(),
{
    if words.len() == 0 {
        0
    } else {
        let rest = worst_slot(words.drop_last(), id);
        let last = first_slot(words.last().typos, id);
        if last > rest {
            last
        } else {
            rest
        }
    }
}

/// The first slot is the least slot that holds the document.
pub proof fn lemma_first_slot(slots: Seq<Set<u32>>, id: u32)
    ensures
        first_slot(slots, id) <= slots.len(),
        first_slot(slots, id) < slots.len() ==> slots[first_slot(slots, id) as int].contains(id),
        forall|k: int| 0 <= k < first_slot(slots, id) ==> !(#[trigger] slots[k]).contains(id),
    decreases slots.len(),
{
    if slots.len() > 0 {
        lemma_first_slot(slots.drop_last(), id);
        assert forall|k: int| 0 <= k < first_slot(slots, id) implies !(#[trigger] slots[k]).contains(
            id,
        ) by {
            if k < slots.len() - 1 {
                assert(slots.drop_last()[k] == slots[k]);
            }
        }
        if first_slot(slots.drop_last(), id) < slots.len() - 1 {
            assert(slots.drop_last()[first_slot(slots.drop_last(), id) as int] == slots[first_slot(
                slots,
                id,
            ) as int]);
        }
    }
}

/// A word matches a document with fewer than `allowed` typos exactly when
/// the first slot that holds the document is among the first `allowed`.
pub proof fn lemma_within_by_first_slot(word: CandidateView, allowed: nat, id: u32)
    ensures
        word.within(allowed).contains(id) <==> first_slot(word.typos, id) < allowed && first_slot(
            word.typos,
            id,
        ) < word.typos.len(),
{
    let slots = word.typos;
    let first = first_slot(slots, id);
    lemma_first_slot(slots, id);
    if allowed < slots.len() {
        let admitted = slots.take(allowed as int);
        if word.within(allowed).contains(id) {
            let k = choose|k: int| 0 <= k < admitted.len() && #[trigger] admitted[k].contains(id);
            assert(slots[k].contains(id));
        }
        if first < allowed {
            assert(admitted[first as int].contains(id));
        }
    } else {
        if word.within(allowed).contains(id) {
            let k = choose|k: int| 0 <= k < slots.len() && #[trigger] slots[k].contains(id);
            assert(slots[k].contains(id));
        }
        if first < slots.len() {
            assert(slots[first as int].contains(id));
        }
    }
}

/// No word needs more typos than the worst one.
pub proof fn lemma_worst_slot(words: Seq<CandidateView>, id: u32, at: int)
    requires
        0 <= at < words.len(),
    ensures
        first_slot(words[at].typos, id) <= worst_slot(words, id),
        exists|i: int| 0 <= i < words.len() && worst_slot(words, id) == first_slot(
            (#[trigger] words[i]).typos,
            id,
        ),
    decreases words.len(),
{
    if words.len() == 1 {
        assert(worst_slot(words.drop_last(), id) == 0);
        assert(worst_slot(words, id) == first_slot(words[0].typos, id));
    } else {
        let rest = words.drop_last();
        if at < words.len() - 1 {
            lemma_worst_slot(rest, id, at);
            assert(rest[at] == words[at]);
        } else {
            lemma_worst_slot(rest, id, 0);
        }
        let i = choose|i: int|
            0 <= i < rest.len() && worst_slot(rest, id) == first_slot((#[trigger] rest[i]).typos, id);
        assert(rest[i] == words[i]);
        if first_slot(words.last().typos, id) > worst_slot(rest, id) {
            assert(worst_slot(words, id) == first_slot(words[words.len() - 1].typos, id));
        } else {
            assert(worst_slot(words, id) == first_slot(words[i].typos, id));
        }
    }
}

/// Fewer typos come first: of two documents that match every word of the
/// query, the one whose worst word needs no more typos than the worst
/// word of the other is in every bucket of the `Typo` rule that the other
/// is in. As the rule admits one typo more at each step and what was
/// handed out is taken away, it is handed out no later than the other.
pub proof fn lemma_fewer_typos_first(
    words: Seq<CandidateView>,
    allowed: nat,
    better: u32,
    worse: u32,
)
    requires
        forall|i: int| 0 <= i < words.len() ==> (#[trigger] words[i]).universe().contains(better),
        worst_slot(words, better) <= worst_slot(words, worse),
        intersection_of(within_each(words, allowed)).contains(worse),
    ensures
        intersection_of(within_each(words, allowed)).contains(better),
{
    let each = within_each(words, allowed);
    lemma_worst_slot(words, worse, 0);
    let worst = choose|i: int|
        0 <= i < words.len() && worst_slot(words, worse) == first_slot(
            (#[trigger] words[i]).typos,
            worse,
        );
    assert(each[worst].contains(worse));
    lemma_within_by_first_slot(words[worst], allowed, worse);
    assert forall|i: int| 0 <= i < each.len() implies #[trigger] each[i].contains(better) by {
        lemma_worst_slot(words, better, i);
        lemma_within_by_first_slot(words[i], allowed, better);
        lemma_first_slot(words[i].typos, better);
        assert(words[i].universe().contains(better));
        let k = choose|k: int|
            0 <= k < words[i].typos.len() && #[trigger] words[i].typos[k].contains(better);
        assert(first_slot(words[i].typos, better) <= k);
    }
}

/// The buckets of the `Typo` rule grow with the typos admitted: what
/// matches with fewer typos admitted matches with more.
pub proof fn lemma_typo_results_grow(words: Seq<CandidateView>, fewer: nat, more: nat, id: u32)
    requires
        fewer <= more,
        intersection_of(within_each(words, fewer)).contains(id),
    ensures
        intersection_of(within_each(words, more)).contains(id),
{
    assert forall|i: int| 0 <= i < within_each(words, more).len() implies #[trigger] within_each(
        words,
        more,
    )[i].contains(id) by {
        assert(within_each(words, fewer)[i].contains(id));
        lemma_within_by_first_slot(words[i], fewer, id);
        lemma_within_by_first_slot(words[i], more, id);
    }
}

/// More typos come later: of two documents that match every word of the
/// query, the one whose worst word needs fewer typos is in a bucket of the
/// `Typo` rule that the other is not yet in, the bucket for one typo more
/// than its worst word needs. With [`lemma_typo_results_grow`] and
/// [`lemma_fewer_typos_first`] this puts the buckets of the rule in the
/// order of the typos that the worst word needs.
pub proof fn lemma_more_typos_later(words: Seq<CandidateView>, better: u32, worse: u32)
    requires
        words.len() > 0,
        forall|i: int| 0 <= i < words.len() ==> (#[trigger] words[i]).universe().contains(better),
        worst_slot(words, better) < worst_slot(words, worse),
    ensures
        intersection_of(within_each(words, worst_slot(words, better) + 1)).contains(better),
        !intersection_of(within_each(words, worst_slot(words, better) + 1)).contains(worse),
{
    let allowed = worst_slot(words, better) + 1;
    let each = within_each(words, allowed);
    assert forall|i: int| 0 <= i < each.len() implies #[trigger] each[i].contains(better) by {
        lemma_worst_slot(words, better, i);
        lemma_within_by_first_slot(words[i], allowed, better);
        lemma_first_slot(words[i].typos, better);
        assert(words[i].universe().contains(better));
        let k = choose|k: int|
            0 <= k < words[i].typos.len() && #[trigger] words[i].typos[k].contains(better);
        assert(first_slot(words[i].typos, better) <= k);
    }
    lemma_worst_slot(words, worse, 0);
    let worst = choose|i: int|
        0 <= i < words.len() && worst_slot(words, worse) == first_slot(
            (#[trigger] words[i]).typos,
            worse,
        );
    lemma_within_by_first_slot(words[worst], allowed, worse);
    assert(!each[worst].contains(worse));
}

impl Typo {
    /// Makes the rule ready for the given candidates.
    pub fn new(words: &[WordCandidate]) -> (r: Self)
        ensures
            r@ == (RuleView::Typo {
                first_iteration: true,
                typo_allowed: 0,
                max_typos: max_slots(candidates_view(words@)),
            }),
    {
        let mut max_typos: usize = 0;
        for i in 0..words.len()
            invariant
                max_typos == max_slots(candidates_view(words@).take(i as int)),
        {
            proof {
                let head = candidates_view(words@).take(i + 1);
                assert(head.drop_last() == candidates_view(words@).take(i as int));
                assert(head.last() == words@[i as int]@);
            }
            if words[i].typos.len() > max_typos {
                max_typos = words[i].typos.len();
            }
        }
        proof {
            assert(candidates_view(words@).take(words@.len() as int) == candidates_view(words@));
        }
        Typo { first_iteration: true, typo_allowed: 0, max_typos }
    }

    /// The content of the rule is that of a `Typo` rule.
    pub proof fn lemma_kind(self)
        ensures
            self@ is Typo,
    {
    }

    /// The name of the rule.
    pub fn name(&self) -> (r: &'static str)
        ensures
            r@ == "typo"@,
    {
        "typo"
    }

    /// Advances the rule by one step. The first step changes nothing and
    /// lets the next rule go on; each later step admits one typo more, and
    /// once every slot has been admitted the rule starts over and says
    /// that nothing is left.
    pub fn next(
        &mut self,
        prev: Option<&crate::ranking_rules::RankingRuleImpl>,
        words: &mut Vec<WordCandidate>,
        index: &Index,
    ) -> (r: ControlFlow<RoaringBitmap, ()>)
        ensures
            step_sound(r),
            ({
                let outcome = rule_next(
                    old(self)@,
                    match prev {
                        Some(p) => Some(p@),
                        None => None,
                    },
                    candidates_view(old(words)@),
                    index@,
                );
                &&& final(self)@ == outcome.rule
                &&& candidates_view(final(words)@) == outcome.words
                &&& step_view(r) == outcome.step
            }),
            final(words)@ == old(words)@,
    {
        if self.first_iteration {
            self.first_iteration = false;
            ControlFlow::Continue(())
        } else if self.max_typos == 0 || self.max_typos - 1 <= self.typo_allowed {
            self.typo_allowed = 0;
            ControlFlow::Break(RoaringBitmap::new())
        } else {
            self.typo_allowed = self.typo_allowed + 1;
            ControlFlow::Continue(())
        }
    }

    /// The documents that match every word of the query with fewer typos
    /// than are admitted at present.
    pub fn current_results(&self, words: &Vec<WordCandidate>) -> (r: RoaringBitmap)
        requires
            candidates_sound(words@),
        ensures
            bitmap_wf(r),
            bitmap_set(r) == rule_results(self@, candidates_view(words@)),
    {
        let mut all: Vec<RoaringBitmap> = Vec::new();
        for i in 0..words.len()
            invariant
                candidates_sound(words@),
                bitmaps_wf(all@),
                all@.len() == i,
                forall|k: int|
                    0 <= k < i ==> bitmap_set(#[trigger] all@[k]) == words@[k]@.within(
                        self.typo_allowed as nat,
                    ),
        {
            assert(words@[i as int].sound());
            let typos = words[i].typos.as_slice();
            if self.typo_allowed < typos.len() {
                let admitted = slice_subrange(typos, 0, self.typo_allowed);
                assert(bitmaps_wf(admitted@)) by {
                    assert forall|k: int| 0 <= k < admitted@.len() implies bitmap_wf(
                        #[trigger] admitted@[k],
                    ) by {
                        assert(admitted@[k] == typos@[k]);
                    }
                }
                assert(bitmap_sets(admitted@) == bitmap_sets(typos@).take(self.typo_allowed as int));
                all.push(bitmap_union(admitted));
            } else {
                all.push(bitmap_union(typos));
            }
        }
        assert(bitmap_sets(all@) == within_each(
            candidates_view(words@),
            self.typo_allowed as nat,
        ));
        bitmap_intersection(all.as_slice())
    }

    /// The rule keeps nothing in store, so there is nothing to clean.
    pub fn cleanup(&mut self, used: &RoaringBitmap)
        ensures
            final(self)@ == old(self)@,
            final(self)@ == rule_cleanup(old(self)@, bitmap_set(*used)),
    {
    }
}

} // verus!
