//! The `Word` rule: prefers the documents that hold more of the query's words.

use crate::bitmap::{
    bitmap_intersection, bitmap_set, bitmap_sets, bitmap_union, bitmap_wf, bitmaps_wf,
};
use crate::candidate::{
    candidates_sound, candidates_universe, candidates_view, CandidateView, WordCandidate,
};
use crate::index::Index;
use crate::ranking_rules::{
    rule_cleanup, rule_next, rule_results, step_sound, step_view, universes, RuleView,
};
use roaring::RoaringBitmap;
use std::ops::ControlFlow;
use vstd::prelude::*;
use vstd::seq_lib::{to_multiset_build, to_multiset_remove};

verus! {

/// The `Word` rule. Its first bucket holds the documents that match every
/// word of the query; each later step gives up the last word of the list.
pub struct Word {
    first_iteration: bool,
}

impl View for Word {
    type V = RuleView;

    closed spec fn view(&self) -> RuleView {
        RuleView::Word { first_iteration: self.first_iteration }
    }
}

/// The number of documents that match a candidate.
pub open spec fn frequency(word: CandidateView) -> nat {
    word.universe().len()
}

/// The place at which a candidate of the given frequency enters a list
/// that is ordered by frequency: behind every candidate that is not more
/// frequent than it.
pub open spec fn insertion_point(sorted: Seq<CandidateView>, freq: nat) -> int
    decreases sorted.len(),
{
    if sorted.len() == 0 {
        0
    } else if frequency(sorted.last()) <= freq {
        sorted.len() as int
    } else {
        insertion_point(sorted.drop_last(), freq)
    }
}

/// The candidates in the order of their frequency, the rarest first;
/// candidates of the same frequency keep their order.
pub open spec fn sort_by_frequency(words: Seq<CandidateView>) -> Seq<CandidateView>
    decreases words.len(),
{
    if words.len() == 0 {
        Seq::empty()
    } else {
        let sorted = sort_by_frequency(words.drop_last());
        sorted.insert(insertion_point(sorted, frequency(words.last())), words.last())
    }
}

/// Whether no candidate of the list is more frequent than one behind it.
pub open spec fn ordered_by_frequency(words: Seq<CandidateView>) -> bool {
    forall|i: int, j: int|
        0 <= i < j < words.len() ==> frequency(#[trigger] words[i]) <= frequency(#[trigger] words[j])
}

/// In an ordered list, the insertion point parts the candidates that are
/// not more frequent than the newcomer from those that are.
pub proof fn lemma_insertion_point(sorted: Seq<CandidateView>, freq: nat)
    requires
        ordered_by_frequency(sorted),
    ensures
        0 <= insertion_point(sorted, freq) <= sorted.len(),
        forall|i: int|
            0 <= i < insertion_point(sorted, freq) ==> frequency(#[trigger] sorted[i]) <= freq,
        forall|i: int|
            insertion_point(sorted, freq) <= i < sorted.len() ==> frequency(#[trigger] sorted[i])
                > freq,
    decreases sorted.len(),
{
    if sorted.len() > 0 {
        if frequency(sorted.last()) <= freq {
            assert forall|i: int| 0 <= i < sorted.len() implies frequency(#[trigger] sorted[i])
                <= freq by {
                if i < sorted.len() - 1 {
                    assert(frequency(sorted[i]) <= frequency(sorted[sorted.len() - 1]));
                }
            }
        } else {
            let head = sorted.drop_last();
            assert(ordered_by_frequency(head)) by {
                assert forall|i: int, j: int| 0 <= i < j < head.len() implies frequency(
                    #[trigger] head[i],
                ) <= frequency(#[trigger] head[j]) by {
                    assert(frequency(sorted[i]) <= frequency(sorted[j]));
                }
            }
            lemma_insertion_point(head, freq);
            assert forall|i: int|
                insertion_point(sorted, freq) <= i < sorted.len() implies frequency(
                #[trigger] sorted[i],
            ) > freq by {
                if i < head.len() {
                    assert(frequency(head[i]) > freq);
                }
            }
            assert forall|i: int| 0 <= i < insertion_point(sorted, freq) implies frequency(
                #[trigger] sorted[i],
            ) <= freq by {
                assert(frequency(head[i]) <= freq);
            }
        }
    }
}

/// The insertion point lies within the list or right behind it.
pub proof fn lemma_insertion_point_in_range(sorted: Seq<CandidateView>, freq: nat)
    ensures
        0 <= insertion_point(sorted, freq) <= sorted.len(),
    decreases sorted.len(),
{
    if sorted.len() > 0 && frequency(sorted.last()) > freq {
        lemma_insertion_point_in_range(sorted.drop_last(), freq);
    }
}

/// Sorting by frequency orders the candidates, the rarest first.
pub proof fn lemma_sort_orders(words: Seq<CandidateView>)
    ensures
        ordered_by_frequency(sort_by_frequency(words)),
    decreases words.len(),
{
    if words.len() > 0 {
        lemma_sort_orders(words.drop_last());
        let sorted = sort_by_frequency(words.drop_last());
        let freq = frequency(words.last());
        let at = insertion_point(sorted, freq);
        lemma_insertion_point(sorted, freq);
        let more = sorted.insert(at, words.last());
        assert forall|i: int, j: int| 0 <= i < j < more.len() implies frequency(
            #[trigger] more[i],
        ) <= frequency(#[trigger] more[j]) by {
            if j < at {
                assert(more[i] == sorted[i] && more[j] == sorted[j]);
            } else if j == at {
                assert(more[i] == sorted[i]);
            } else if i < at {
                assert(more[i] == sorted[i] && more[j] == sorted[j - 1]);
                assert(frequency(sorted[i]) <= freq);
                assert(frequency(sorted[j - 1]) > freq);
            } else if i == at {
                assert(more[j] == sorted[j - 1]);
                assert(frequency(sorted[j - 1]) > freq);
            } else {
                assert(more[i] == sorted[i - 1] && more[j] == sorted[j - 1]);
            }
        }
    }
}

/// Sorting by frequency neither drops nor adds a candidate.
pub proof fn lemma_sort_permutes(words: Seq<CandidateView>)
    ensures
        sort_by_frequency(words).len() == words.len(),
        sort_by_frequency(words).to_multiset() == words.to_multiset(),
    decreases words.len(),
{
    if words.len() == 0 {
        assert(sort_by_frequency(words) =~= words);
    } else {
        lemma_sort_permutes(words.drop_last());
        let sorted = sort_by_frequency(words.drop_last());
        let at = insertion_point(sorted, frequency(words.last()));
        lemma_insertion_point_in_range(sorted, frequency(words.last()));
        let more = sorted.insert(at, words.last());
        assert(more.remove(at) =~= sorted);
        to_multiset_remove(more, at);
        assert(words =~= words.drop_last().push(words.last()));
        to_multiset_build(words.drop_last(), words.last());
        more.to_multiset_ensures();
        assert(more.contains(words.last())) by {
            assert(more[at] == words.last());
        }
        assert(more.to_multiset() =~= sorted.to_multiset().insert(words.last()));
    }
}

/// Sorting by frequency leaves the documents that match a candidate as
/// they are.
pub proof fn lemma_sort_keeps_universe(words: Seq<CandidateView>)
    ensures
        candidates_universe(sort_by_frequency(words)) == candidates_universe(words),
{
    let sorted = sort_by_frequency(words);
    lemma_sort_permutes(words);
    sorted.to_multiset_ensures();
    words.to_multiset_ensures();
    assert forall|id: u32| candidates_universe(sorted).contains(id) implies candidates_universe(
        words,
    ).contains(id) by {
        let i = choose|i: int|
            0 <= i < sorted.len() && (#[trigger] sorted[i]).universe().contains(id);
        assert(sorted.contains(sorted[i]));
        assert(sorted.to_multiset().count(sorted[i]) > 0);
        assert(words.to_multiset().count(sorted[i]) > 0);
        assert(words.contains(sorted[i]));
        let j = choose|j: int| 0 <= j < words.len() && words[j] == sorted[i];
        assert(words[j].universe().contains(id));
    }
    assert forall|id: u32| candidates_universe(words).contains(id) implies candidates_universe(
        sorted,
    ).contains(id) by {
        let i = choose|i: int| 0 <= i < words.len() && (#[trigger] words[i]).universe().contains(id);
        assert(words.contains(words[i]));
        assert(words.to_multiset().count(words[i]) > 0);
        assert(sorted.to_multiset().count(words[i]) > 0);
        assert(sorted.contains(words[i]));
        let j = choose|j: int| 0 <= j < sorted.len() && sorted[j] == words[i];
        assert(sorted[j].universe().contains(id));
    }
    assert(candidates_universe(sorted) =~= candidates_universe(words));
}

impl Word {
    /// Makes the rule ready and puts the candidates in the order of their
    /// frequency, so that a step can give up the most frequent word by
    /// taking the last of the list.
    pub fn new(words: &mut Vec<WordCandidate>) -> (r: Self)
        requires
            candidates_sound(old(words)@),
        ensures
            r@ == (RuleView::Word { first_iteration: true }),
            candidates_sound(final(words)@),
            candidates_view(final(words)@) == sort_by_frequency(candidates_view(old(words)@)),
    {
        let ghost before = candidates_view(words@);
        let mut sorted: Vec<WordCandidate> = Vec::new();
        let mut keys: Vec<u64> = Vec::new();
        while words.len() > 0
            invariant
                candidates_sound(words@),
                candidates_sound(sorted@),
                keys@.len() == sorted@.len(),
                forall|i: int| 0 <= i < keys@.len() ==> keys@[i] == frequency(#[trigger] sorted@[i]@),
                candidates_view(sorted@).len() + words@.len() == before.len(),
                candidates_view(words@) == before.skip(candidates_view(sorted@).len() as int),
                candidates_view(sorted@) == sort_by_frequency(
                    before.take(candidates_view(sorted@).len() as int),
                ),
            decreases words@.len(),
        {
            let ghost done = sorted@.len() as int;
            let ghost sorted_before = candidates_view(sorted@);
            let ghost rest = words@;
            let word = words.remove(0);
            assert(word.sound()) by {
                assert(word == rest[0]);
            }
            assert(candidates_sound(words@)) by {
                assert forall|i: int| 0 <= i < words@.len() implies (#[trigger] words@[i]).sound() by {
                    assert(words@[i] == rest[i + 1]);
                }
            }
            assert(word@ == before[done]) by {
                assert(candidates_view(rest)[0] == rest[0]@);
                assert(before.skip(done)[0] == before[done]);
            }
            let key = bitmap_union(word.typos.as_slice()).len();
            let mut at = sorted.len();
            assert(candidates_view(sorted@).take(at as int) == candidates_view(sorted@));
            while at > 0 && keys[at - 1] > key
                invariant
                    candidates_sound(sorted@),
                    at <= sorted@.len(),
                    keys@.len() == sorted@.len(),
                    forall|i: int|
                        0 <= i < keys@.len() ==> keys@[i] == frequency(#[trigger] sorted@[i]@),
                    insertion_point(candidates_view(sorted@), key as nat) == insertion_point(
                        candidates_view(sorted@).take(at as int),
                        key as nat,
                    ),
                decreases at,
            {
                proof {
                    let head = candidates_view(sorted@).take(at as int);
                    assert(head.last() == sorted@[at - 1]@);
                    assert(head.drop_last() == candidates_view(sorted@).take(at - 1));
                }
                at = at - 1;
            }
            proof {
                let head = candidates_view(sorted@).take(at as int);
                if at > 0 {
                    assert(head.last() == sorted@[at - 1]@);
                }
                assert(insertion_point(head, key as nat) == at);
                assert(before.take(done + 1).drop_last() == before.take(done));
                assert(before.take(done + 1).last() == word@);
            }
            let ghost placed = sorted@;
            sorted.insert(at, word);
            keys.insert(at, key);
            proof {
                assert forall|i: int| 0 <= i < sorted@.len() implies (#[trigger] sorted@[i]).sound() by {
                    if i < at {
                        assert(sorted@[i] == placed[i]);
                    } else if i > at {
                        assert(sorted@[i] == placed[i - 1]);
                    }
                }
                assert(candidates_view(sorted@) == sorted_before.insert(at as int, word@));
                assert forall|i: int| 0 <= i < words@.len() implies candidates_view(words@)[i]
                    == before.skip(done + 1)[i] by {
                    assert(words@[i] == rest[i + 1]);
                    assert(candidates_view(rest)[i + 1] == rest[i + 1]@);
                    assert(before.skip(done)[i + 1] == before[done + 1 + i]);
                }
                assert(candidates_view(words@) == before.skip(done + 1));
            }
        }
        proof {
            assert(before.take(before.len() as int) == before);
        }
        *words = sorted;
        Word { first_iteration: true }
    }

    /// The content of the rule is that of a `Word` rule.
    pub proof fn lemma_kind(self)
        ensures
            self@ is Word,
    {
    }

    /// The name of the rule.
    pub fn name(&self) -> (r: &'static str)
        ensures
            r@ == "word"@,
    {
        "word"
    }

    /// Advances the rule by one step. The first step changes nothing and
    /// lets the next rule go on; each later step gives up the last word,
    /// and says that nothing is left once the list is empty.
    pub fn next(
        &mut self,
        prev: Option<&crate::ranking_rules::RankingRuleImpl>,
        words: &mut Vec<WordCandidate>,
        index: &Index,
    ) -> (r: ControlFlow<RoaringBitmap, ()>)
        ensures
            candidates_sound(old(words)@) ==> candidates_sound(final(words)@),
            step_sound(r),
            ({
                let outcome = rule_next(
                    old(self)@,
                    match prev {
                        Some(p) => Some(p@),
                        None => None,
                    },
                    candidates_view(old(words)@),
                    index@,
                );
                &&& final(self)@ == outcome.rule
                &&& candidates_view(final(words)@) == outcome.words
                &&& step_view(r) == outcome.step
            }),
    {
        if self.first_iteration {
            self.first_iteration = false;
            ControlFlow::Continue(())
        } else {
            let ghost before = candidates_view(words@);
            let ghost all = words@;
            let _ = words.pop();
            assert(candidates_sound(all) ==> candidates_sound(words@)) by {
                if candidates_sound(all) {
                    assert forall|i: int| 0 <= i < words@.len() implies (
                    #[trigger] words@[i]).sound() by {
                        assert(words@[i] == all[i]);
                    }
                }
            }
            assert(candidates_view(words@) == if before.len() > 0 {
                before.drop_last()
            } else {
                before
            });
            if words.len() == 0 {
                ControlFlow::Break(RoaringBitmap::new())
            } else {
                ControlFlow::Continue(())
            }
        }
    }

    /// The documents that match every remaining word of the query.
    pub fn current_results(&self, words: &Vec<WordCandidate>) -> (r: RoaringBitmap)
        requires
            candidates_sound(words@),
        ensures
            bitmap_wf(r),
            bitmap_set(r) == rule_results(self@, candidates_view(words@)),
    {
        let mut all: Vec<RoaringBitmap> = Vec::new();
        for i in 0..words.len()
            invariant
                candidates_sound(words@),
                bitmaps_wf(all@),
                all@.len() == i,
                forall|k: int| 0 <= k < i ==> bitmap_set(#[trigger] all@[k]) == words@[k]@.universe(),
        {
            assert(words@[i as int].sound());
            all.push(bitmap_union(words[i].typos.as_slice()));
        }
        assert(bitmap_sets(all@) == universes(candidates_view(words@)));
        bitmap_intersection(all.as_slice())
    }

    /// The rule keeps nothing in store, so there is nothing to clean.
    pub fn cleanup(&mut self, used: &RoaringBitmap)
        ensures
            final(self)@ == old(self)@,
            final(self)@ == rule_cleanup(old(self)@, bitmap_set(*used)),
    {
    }
}

} // verus!
