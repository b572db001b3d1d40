//! Ranking rules: the stages of the cascade that orders the results.
//!
//! A rule is a small state machine. The search drives a stack of them:
//! each call of `next` makes a rule advance by one step, and the rule
//! answers either that the rule after it shall go on, or with a bucket of
//! documents that are ranked next.

use crate::bitmap::{bitmap_set, bitmap_wf, intersection_of};
use crate::candidate::{
    candidates_sound, candidates_view, restricted_distance, typo_slot, CandidateView,
    WordCandidate,
};
use crate::index::{Index, IndexView};
use crate::ranking_rules::exact::Exact;
use crate::ranking_rules::typo::Typo;
use crate::ranking_rules::word::Word;
use crate::text::tokens;
use roaring::RoaringBitmap;
use std::ops::ControlFlow;
use vstd::prelude::*;

pub mod exact;
pub mod typo;
pub mod word;

verus! {

/// The kinds of ranking rule that a search can be made of.
#[derive(Debug, Clone, Copy, PartialEq, Eq, Structural)]
pub enum RankingRule {
    /// Prefers the documents that hold more of the query's words.
    Word,
    /// Prefers the documents that were matched with fewer typos.
    Typo,
    /// Prefers the documents whose own words are close to the words as typed.
    Exact,
}

/// The mathematical content of a rule at work.
pub enum RuleView {
    /// A `Word` rule.
    Word {
        /// Whether the rule has not been advanced yet.
        first_iteration: bool,
    },
    /// A `Typo` rule.
    Typo {
        /// Whether the rule has not been advanced yet.
        first_iteration: bool,
        /// The number of typos below which a match counts at present.
        typo_allowed: nat,
        /// The number of typo slots, one more than the most typos told apart.
        max_typos: nat,
    },
    /// An `Exact` rule.
    Exact {
        /// The buckets still to be handed out; the last one goes first.
        buckets: Seq<Set<u32>>,
    },
}

/// The mathematical content of a rule's answer.
pub enum StepView {
    /// The rule has no bucket of its own yet: the next rule shall go on.
    Continue,
    /// The rule hands out a bucket; an empty one says that it has no more.
    Break(Set<u32>),
}

/// The mathematical content of an answer.
pub open spec fn step_view(step: ControlFlow<RoaringBitmap, ()>) -> StepView {
    match step {
        ControlFlow::Continue(_) => StepView::Continue,
        ControlFlow::Break(bucket) => StepView::Break(bitmap_set(bucket)),
    }
}

/// Whether the bucket of an answer, if it has one, is a well-formed bitmap.
pub open spec fn step_sound(step: ControlFlow<RoaringBitmap, ()>) -> bool {
    match step {
        ControlFlow::Continue(_) => true,
        ControlFlow::Break(bucket) => bitmap_wf(bucket),
    }
}

/// What one step of a rule leaves behind.
pub struct Outcome {
    /// The rule after the step.
    pub rule: RuleView,
    /// The candidates after the step.
    pub words: Seq<CandidateView>,
    /// The rule's answer.
    pub step: StepView,
}

/// For each candidate, every document that matches it.
pub open spec fn universes(words: Seq<CandidateView>) -> Seq<Set<u32>> {
    Seq::new(words.len(), |i: int| words[i].universe())
}

/// For each candidate, the documents matched with fewer than `allowed` typos.
pub open spec fn within_each(words: Seq<CandidateView>, allowed: nat) -> Seq<Set<u32>> {
    Seq::new(words.len(), |i: int| words[i].within(allowed))
}

/// The summed distance between the words as typed and the words that stand
/// at the same positions in a document.
pub open spec fn exact_distance(words: Seq<CandidateView>, document: Seq<Seq<char>>) -> nat
    decreases words.len(),
{
    if words.len() == 0 {
        0
    } else {
        let word = words.last();
        let rest = exact_distance(words.drop_last(), document);
        if word.index < document.len() {
            rest + restricted_distance(word.original, document[word.index as int])
        } else {
            rest
        }
    }
}

/// The documents of `current` whose summed distance to the words as typed
/// falls into the given slot.
pub open spec fn exact_class(
    current: Set<u32>,
    words: Seq<CandidateView>,
    index: IndexView,
    slot: int,
) -> Set<u32> {
    Set::new(
        |id: u32|
            current.contains(id) && typo_slot(
                exact_distance(words, tokens(index.documents[id as int])),
            ) == slot,
    )
}

/// The sets of `sets` that are not empty, in the same order.
pub open spec fn keep_nonempty(sets: Seq<Set<u32>>) -> Seq<Set<u32>>
    decreases sets.len(),
{
    if sets.len() == 0 {
        Seq::empty()
    } else if sets.last() == Set::<u32>::empty() {
        keep_nonempty(sets.drop_last())
    } else {
        keep_nonempty(sets.drop_last()).push(sets.last())
    }
}

/// The buckets that an `Exact` rule makes of `current`: one for each slot
/// that is not empty; the bucket of the smallest distance stands last, so
/// that it is handed out first.
pub open spec fn exact_buckets(current: Set<u32>, words: Seq<CandidateView>, index: IndexView) -> Seq<
    Set<u32>,
> {
    keep_nonempty(
        seq![
            exact_class(current, words, index, 3),
            exact_class(current, words, index, 2),
            exact_class(current, words, index, 1),
            exact_class(current, words, index, 0),
        ],
    )
}

/// The bucket that a rule would hand out as it stands.
pub open spec fn rule_results(rule: RuleView, words: Seq<CandidateView>) -> Set<u32> {
    match rule {
        RuleView::Word { .. } => intersection_of(universes(words)),
        RuleView::Typo { typo_allowed, .. } => intersection_of(within_each(words, typo_allowed)),
        RuleView::Exact { buckets } => if buckets.len() > 0 {
            buckets[0]
        } else {
            Set::empty()
        },
    }
}

/// One step of a rule. `prev` is the rule that stands before it in the
/// stack, if there is one.
pub open spec fn rule_next(
    rule: RuleView,
    prev: Option<RuleView>,
    words: Seq<CandidateView>,
    index: IndexView,
) -> Outcome {
    match rule {
        RuleView::Word { first_iteration } => {
            if first_iteration {
                Outcome {
                    rule: RuleView::Word { first_iteration: false },
                    words,
                    step: StepView::Continue,
                }
            } else {
                let left = if words.len() > 0 {
                    words.drop_last()
                } else {
                    words
                };
                Outcome {
                    rule,
                    words: left,
                    step: if left.len() == 0 {
                        StepView::Break(Set::empty())
                    } else {
                        StepView::Continue
                    },
                }
            }
        },
        RuleView::Typo { first_iteration, typo_allowed, max_typos } => {
            if first_iteration {
                Outcome {
                    rule: RuleView::Typo { first_iteration: false, typo_allowed, max_typos },
                    words,
                    step: StepView::Continue,
                }
            } else if max_typos <= typo_allowed + 1 {
                Outcome {
                    rule: RuleView::Typo { first_iteration, typo_allowed: 0, max_typos },
                    words,
                    step: StepView::Break(Set::empty()),
                }
            } else {
                Outcome {
                    rule: RuleView::Typo {
                        first_iteration,
                        typo_allowed: typo_allowed + 1,
                        max_typos,
                    },
                    words,
                    step: StepView::Continue,
                }
            }
        },
        RuleView::Exact { buckets } => {
            let filled = if buckets.len() == 0 {
                exact_buckets(
                    match prev {
                        Some(p) => rule_results(p, words),
                        None => Set::empty(),
                    },
                    words,
                    index,
                )
            } else {
                buckets
            };
            if filled.len() > 0 {
                Outcome {
                    rule: RuleView::Exact { buckets: filled.drop_last() },
                    words,
                    step: StepView::Break(filled.last()),
                }
            } else {
                Outcome {
                    rule: RuleView::Exact { buckets: filled },
                    words,
                    step: StepView::Break(Set::empty()),
                }
            }
        },
    }
}

/// A rule after the documents of `used` have left what it keeps in store.
pub open spec fn rule_cleanup(rule: RuleView, used: Set<u32>) -> RuleView {
    match rule {
        RuleView::Exact { buckets } => RuleView::Exact {
            buckets: Seq::new(buckets.len(), |i: int| buckets[i].difference(used)),
        },
        _ => rule,
    }
}

/// A rule at work: one of the three kinds, with the state that it keeps.
pub enum RankingRuleImpl {
    /// A `Word` rule.
    Word(Word),
    /// A `Typo` rule.
    Typo(Typo),
    /// An `Exact` rule.
    Exact(Exact),
}

impl View for RankingRuleImpl {
    type V = RuleView;

    open spec fn view(&self) -> RuleView {
        match self {
            RankingRuleImpl::Word(rule) => rule@,
            RankingRuleImpl::Typo(rule) => rule@,
            RankingRuleImpl::Exact(rule) => rule@,
        }
    }
}

impl RankingRuleImpl {
    /// Whether the bitmaps that the rule keeps in store are well formed.
    pub open spec fn sound(&self) -> bool {
        match self {
            RankingRuleImpl::Exact(rule) => rule.sound(),
            _ => true,
        }
    }

    /// A rule's content is of the rule's own kind.
    pub proof fn lemma_kind(self)
        ensures
            (self is Word) == (self@ is Word),
            (self is Typo) == (self@ is Typo),
            (self is Exact) == (self@ is Exact),
    {
        match self {
            RankingRuleImpl::Word(rule) => rule.lemma_kind(),
            RankingRuleImpl::Typo(rule) => rule.lemma_kind(),
            RankingRuleImpl::Exact(rule) => rule.lemma_kind(),
        }
    }

    /// The name of the rule, for logs.
    pub fn name(&self) -> (r: &'static str)
        ensures
            r@ == match self {
                RankingRuleImpl::Word(_) => "word"@,
                RankingRuleImpl::Typo(_) => "typo"@,
                RankingRuleImpl::Exact(_) => "exact"@,
            },
    {
        match self {
            RankingRuleImpl::Word(rule) => rule.name(),
            RankingRuleImpl::Typo(rule) => rule.name(),
            RankingRuleImpl::Exact(rule) => rule.name(),
        }
    }

    /// Advances the rule by one step and gives its answer. `prev` is the
    /// rule that stands before this one in the stack; an `Exact` rule needs
    /// it, and needs the documents of its bucket to exist in the index.
    pub fn next(
        &mut self,
        prev: Option<&RankingRuleImpl>,
        words: &mut Vec<WordCandidate>,
        index: &Index,
    ) -> (r: ControlFlow<RoaringBitmap, ()>)
        requires
            old(self).sound(),
            candidates_sound(old(words)@),
            prev matches Some(p) ==> p.sound(),
            *old(self) is Exact ==> prev is Some && forall|id: u32|
                rule_results(prev.unwrap()@, candidates_view(old(words)@)).contains(id) ==> id
                    < index@.documents.len(),
        ensures
            final(self).sound(),
            candidates_sound(final(words)@),
            step_sound(r),
            ({
                let outcome = rule_next(
                    old(self)@,
                    match prev {
                        Some(p) => Some(p@),
                        None => None,
                    },
                    candidates_view(old(words)@),
                    index@,
                );
                &&& final(self)@ == outcome.rule
                &&& candidates_view(final(words)@) == outcome.words
                &&& step_view(r) == outcome.step
            }),
    {
        match self {
            RankingRuleImpl::Word(rule) => rule.next(prev, words, index),
            RankingRuleImpl::Typo(rule) => rule.next(prev, words, index),
            RankingRuleImpl::Exact(rule) => rule.next(prev, words, index),
        }
    }

    /// The bucket that the rule would hand out as it stands.
    pub fn current_results(&self, words: &Vec<WordCandidate>) -> (r: RoaringBitmap)
        requires
            self.sound(),
            candidates_sound(words@),
        ensures
            bitmap_wf(r),
            bitmap_set(r) == rule_results(self@, candidates_view(words@)),
    {
        match self {
            RankingRuleImpl::Word(rule) => rule.current_results(words),
            RankingRuleImpl::Typo(rule) => rule.current_results(words),
            RankingRuleImpl::Exact(rule) => rule.current_results(words),
        }
    }

    /// Takes the documents of `used`, which have been ranked, out of what
    /// the rule keeps in store.
    pub fn cleanup(&mut self, used: &RoaringBitmap)
        requires
            old(self).sound(),
            bitmap_wf(*used),
        ensures
            final(self).sound(),
            final(self)@ == rule_cleanup(old(self)@, bitmap_set(*used)),
    {
        match self {
            RankingRuleImpl::Word(rule) => rule.cleanup(used),
            RankingRuleImpl::Typo(rule) => rule.cleanup(used),
            RankingRuleImpl::Exact(rule) => rule.cleanup(used),
        }
    }
}

} // verus!
