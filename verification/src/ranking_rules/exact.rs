//! The `Exact` rule: the last tie-breaker of the cascade.
//!
//! It goes back over the documents that the rule before it would hand out
//! and ranks first those whose own words, as they were written, are close
//! to the words of the query as they were typed. Comparing the words as
//! written is costly, which is why the rule only ever looks at the bucket
//! of the rule before it.

use crate::bitmap::{
    bitmap_difference_with, bitmap_ids, bitmap_set, bitmap_sets, bitmap_wf, bitmaps_wf,
};
use crate::candidate::{
    candidates_sound, candidates_view, damerau_levenshtein, typo_slot, WordCandidate, MAX_TYPOS,
};
use crate::index::Index;
use crate::ranking_rules::{
    exact_class, exact_distance, keep_nonempty, rule_cleanup, rule_next, rule_results,
    step_sound, step_view, RuleView,
};
use crate::text::{split_whitespace, strings_view, tokens};
use roaring::RoaringBitmap;
use std::ops::ControlFlow;
use vstd::prelude::*;

verus! {

/// The `Exact` rule. It keeps the buckets that it has made and not handed
/// out yet; the last of the list goes out first.
pub struct Exact {
    buckets: Vec<RoaringBitmap>,
}

impl View for Exact {
    type V = RuleView;

    closed spec fn view(&self) -> RuleView {
        RuleView::Exact { buckets: bitmap_sets(self.buckets@) }
    }
}

impl Exact {
    /// Whether the bitmaps that the rule keeps in store are well formed.
    pub closed spec fn sound(&self) -> bool {
        bitmaps_wf(self.buckets@)
    }

    /// Makes a rule that has no bucket in store.
    pub fn new() -> (r: Self)
        ensures
            r.sound(),
            r@ == (RuleView::Exact { buckets: Seq::empty() }),
    {
        let r = Exact { buckets: Vec::new() };
        assert(bitmap_sets(r.buckets@) == Seq::<Set<u32>>::empty());
        r
    }

    /// The content of the rule is that of a `Exact` rule.
    pub proof fn lemma_kind(self)
        ensures
            self@ is Exact,
    {
    }

    /// The name of the rule.
    pub fn name(&self) -> (r: &'static str)
        ensures
            r@ == "exact"@,
    {
        "exact"
    }

    /// Adds the distance of one more word to the distance summed so far;
    /// the sum is capped at the last slot.
    pub fn add_distance(so_far: usize, more: usize) -> (r: usize)
        ensures
            r == typo_slot((so_far + more) as nat),
    {
        if so_far >= MAX_TYPOS || more >= MAX_TYPOS - so_far {
            MAX_TYPOS
        } else {
            so_far + more
        }
    }

    /// The slot that a document falls into: the summed distance between
    /// each word as typed and the word at the same position in the
    /// document, capped at the last slot.
    pub fn slot_of(words: &Vec<WordCandidate>, document: &str) -> (slot: usize)
        ensures
            slot == typo_slot(exact_distance(candidates_view(words@), tokens(document@))),
    {
        let document_words = split_whitespace(document);
        let mut distance: usize = 0;
        for i in 0..words.len()
            invariant
                strings_view(document_words@) == tokens(document@),
                distance == typo_slot(
                    exact_distance(candidates_view(words@).take(i as int), tokens(document@)),
                ),
        {
            proof {
                let head = candidates_view(words@).take(i + 1);
                assert(head.drop_last() == candidates_view(words@).take(i as int));
                assert(head.last() == words@[i as int]@);
            }
            let position = words[i].index;
            if position < document_words.len() {
                assert(strings_view(document_words@)[position as int]
                    == document_words@[position as int]@);
                let more = damerau_levenshtein(
                    words[i].original.as_str(),
                    document_words[position].as_str(),
                );
                distance = Exact::add_distance(distance, more);
            }
        }
        proof {
            assert(candidates_view(words@).take(words@.len() as int) == candidates_view(words@));
        }
        distance
    }

    /// Advances the rule by one step. With no bucket in store, the rule
    /// first sorts the bucket of the rule before it into one bucket for
    /// each slot. It then hands out the bucket of the smallest distance
    /// that is left, or an empty one when none is left.
    pub fn next(
        &mut self,
        prev: Option<&crate::ranking_rules::RankingRuleImpl>,
        words: &mut Vec<WordCandidate>,
        index: &Index,
    ) -> (r: ControlFlow<RoaringBitmap, ()>)
        requires
            old(self).sound(),
            candidates_sound(old(words)@),
            prev matches Some(p) && p.sound(),
            forall|id: u32|
                rule_results(prev.unwrap()@, candidates_view(old(words)@)).contains(id) ==> id
                    < index@.documents.len(),
        ensures
            final(self).sound(),
            step_sound(r),
            ({
                let outcome = rule_next(
                    old(self)@,
                    match prev {
                        Some(p) => Some(p@),
                        None => None,
                    },
                    candidates_view(old(words)@),
                    index@,
                );
                &&& final(self)@ == outcome.rule
                &&& candidates_view(final(words)@) == outcome.words
                &&& step_view(r) == outcome.step
            }),
            final(words)@ == old(words)@,
    {
        if self.buckets.len() == 0 {
            let current = match prev {
                Some(p) => p.current_results(words),
                None => RoaringBitmap::new(),
            };
            let ids = bitmap_ids(&current);
            let ghost cv = candidates_view(words@);
            let mut classes: Vec<RoaringBitmap> = Vec::new();
            classes.push(RoaringBitmap::new());
            classes.push(RoaringBitmap::new());
            classes.push(RoaringBitmap::new());
            classes.push(RoaringBitmap::new());
            for n in 0..ids.len()
                invariant
                    bitmaps_wf(classes@),
                    cv == candidates_view(words@),
                    ids@.to_set() == bitmap_set(current),
                    forall|id: u32| bitmap_set(current).contains(id) ==> id < index@.documents.len(),
                    classes@.len() == 4,
                    forall|slot: int|
                        0 <= slot < 4 ==> bitmap_set(#[trigger] classes@[slot]) == exact_class(
                            ids@.take(n as int).to_set(),
                            cv,
                            index@,
                            slot,
                        ),
            {
                let id = ids[n];
                assert(ids@.to_set().contains(id));
                let slot = match index.get_document(id) {
                    Some(document) => Exact::slot_of(words, document),
                    None => 0,
                };
                let ghost before = bitmap_sets(classes@);
                let _ = classes[slot].insert(id);
                proof {
                    let head = ids@.take(n + 1);
                    assert(head.drop_last() == ids@.take(n as int));
                    assert(head.last() == id);
                    assert(head.to_set() =~= ids@.take(n as int).to_set().insert(id)) by {
                        assert forall|x: u32| head.to_set().contains(x) implies ids@.take(
                            n as int,
                        ).to_set().insert(id).contains(x) by {
                            let k = choose|k: int| 0 <= k < head.len() && head[k] == x;
                            if k < n {
                                assert(ids@.take(n as int)[k] == x);
                            }
                        }
                        assert forall|x: u32|
                            ids@.take(n as int).to_set().insert(id).contains(x) implies head.to_set().contains(
                            x,
                        ) by {
                            if x == id {
                                assert(head[n as int] == x);
                            } else {
                                let k = choose|k: int|
                                    0 <= k < ids@.take(n as int).len() && ids@.take(n as int)[k]
                                        == x;
                                assert(head[k] == x);
                            }
                        }
                    }
                    assert forall|s: int| 0 <= s < 4 implies bitmap_set(#[trigger] classes@[s])
                        == exact_class(head.to_set(), cv, index@, s) by {
                        assert(before[s] == exact_class(
                            ids@.take(n as int).to_set(),
                            cv,
                            index@,
                            s,
                        ));
                        assert(bitmap_set(classes@[s]) =~= exact_class(
                            head.to_set(),
                            cv,
                            index@,
                            s,
                        ));
                    }
                }
            }
            proof {
                assert(ids@.take(ids@.len() as int) == ids@);
            }
            let ghost sorted = bitmap_sets(classes@);
            let mut filled: Vec<RoaringBitmap> = Vec::new();
            let mut left: usize = 4;
            while left > 0
                invariant
                    bitmaps_wf(classes@),
                    bitmaps_wf(filled@),
                    left <= 4,
                    classes@.len() == left,
                    bitmap_sets(classes@) == sorted.take(left as int),
                    sorted.len() == 4,
                    bitmap_sets(filled@) == keep_nonempty(
                        Seq::new((4 - left) as nat, |k: int| sorted[3 - k]),
                    ),
                decreases left,
            {
                let ghost done = Seq::new((4 - left) as nat, |k: int| sorted[3 - k]);
                let ghost filled_before = bitmap_sets(filled@);
                let ghost kept = classes@;
                let class = classes.pop();
                assert(bitmaps_wf(classes@)) by {
                    assert forall|k: int| 0 <= k < classes@.len() implies bitmap_wf(
                        #[trigger] classes@[k],
                    ) by {
                        assert(classes@[k] == kept[k]);
                    }
                }
                left = left - 1;
                proof {
                    let more = Seq::new((4 - left) as nat, |k: int| sorted[3 - k]);
                    assert(more.drop_last() == done);
                    assert(more.last() == sorted[left as int]);
                    assert(bitmap_sets(classes@) == sorted.take(left as int));
                }
                match class {
                    Some(class) => {
                        assert(class == kept[left as int]);
                        assert(bitmap_set(class) == sorted[left as int]) by {
                            assert(sorted.take(left + 1)[left as int] == sorted[left as int]);
                        }
                        if !class.is_empty() {
                            filled.push(class);
                            assert(bitmap_sets(filled@) == filled_before.push(sorted[left as int]));
                        }
                    },
                    None => {},
                }
            }
            proof {
                let all = Seq::new(4, |k: int| sorted[3 - k]);
                assert(all == seq![
                    exact_class(bitmap_set(current), cv, index@, 3),
                    exact_class(bitmap_set(current), cv, index@, 2),
                    exact_class(bitmap_set(current), cv, index@, 1),
                    exact_class(bitmap_set(current), cv, index@, 0),
                ]);
            }
            self.buckets = filled;
        }
        let ghost filled = bitmap_sets(self.buckets@);
        let ghost stored = self.buckets@;
        match self.buckets.pop() {
            Some(bucket) => {
                assert(bucket == stored[stored.len() - 1]);
                assert(bitmaps_wf(self.buckets@)) by {
                    assert forall|k: int| 0 <= k < self.buckets@.len() implies bitmap_wf(
                        #[trigger] self.buckets@[k],
                    ) by {
                        assert(self.buckets@[k] == stored[k]);
                    }
                }
                assert(bitmap_sets(self.buckets@) == filled.drop_last());
                assert(bitmap_set(bucket) == filled.last());
                ControlFlow::Break(bucket)
            },
            None => ControlFlow::Break(RoaringBitmap::new()),
        }
    }

    /// The bucket that stands first in the store, or an empty one.
    pub fn current_results(&self, words: &Vec<WordCandidate>) -> (r: RoaringBitmap)
        requires
            self.sound(),
        ensures
            bitmap_wf(r),
            bitmap_set(r) == rule_results(self@, candidates_view(words@)),
    {
        if self.buckets.len() > 0 {
            self.buckets[0].clone()
        } else {
            RoaringBitmap::new()
        }
    }

    /// Takes the documents of `used` out of every bucket in store.
    pub fn cleanup(&mut self, used: &RoaringBitmap)
        requires
            old(self).sound(),
            bitmap_wf(*used),
        ensures
            final(self).sound(),
            final(self)@ == rule_cleanup(old(self)@, bitmap_set(*used)),
    {
        let ghost before = bitmap_sets(self.buckets@);
        let count = self.buckets.len();
        for i in 0..count
            invariant
                bitmaps_wf(self.buckets@),
                bitmap_wf(*used),
                count == before.len(),
                self.buckets@.len() == before.len(),
                forall|k: int|
                    0 <= k < i ==> bitmap_set(#[trigger] self.buckets@[k]) == before[k].difference(
                        bitmap_set(*used),
                    ),
                forall|k: int|
                    i <= k < before.len() ==> bitmap_set(#[trigger] self.buckets@[k]) == before[k],
        {
            bitmap_difference_with(&mut self.buckets[i], used);
        }
        assert(bitmap_sets(self.buckets@) == Seq::new(
            before.len(),
            |i: int| before[i].difference(bitmap_set(*used)),
        ));
    }
}

} // verus!
