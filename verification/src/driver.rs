//! The search as a state machine: a stack of ranking rules that is run as a
//! cascading bucket sort.
//!
//! The rule under the cursor is advanced by one step. If it lets the next
//! rule go on, the cursor moves down the stack, or, at the bottom, the
//! rule's bucket is handed out. If the rule says that it has nothing
//! left, the cursor moves back up, and at the top the search is over. A
//! bucket that is handed out leaves every candidate and every rule's
//! store, so that no document is ranked twice.

use crate::bitmap::{
    bitmap_difference_with, bitmap_ids, bitmap_set, bitmap_sets, bitmap_wf, bitmaps_wf,
    lemma_u32_set_bounded, listing, union_of,
};
use crate::candidate::{
    candidates_sound, candidates_universe, candidates_view, candidates_without, CandidateView,
    WordCandidate,
};
use crate::disjointness::{
    in_play, lemma_move_in_play, lemma_results_in_play, lemma_start_state, lemma_step_keeps_inv,
    pairwise_disjoint, state_inv,
};
use crate::index::{query_candidates, query_words, Index, IndexView};
use crate::ranking_rules::{
    rule_cleanup, rule_next, rule_results, Outcome, RankingRule, RankingRuleImpl, RuleView,
    StepView,
};
use crate::ranking_rules::exact::Exact;
use crate::ranking_rules::typo::{max_slots, Typo};
use crate::ranking_rules::word::{sort_by_frequency, Word};
use crate::search::{Search, SearchView};
use crate::termination::{fuel, lemma_step_progress, ranks_bounded};
use crate::text::{is_whitespace, lemma_blank_has_no_tokens, tokens};
use roaring::RoaringBitmap;
use std::ops::ControlFlow;
use vstd::prelude::*;

verus! {

/// The state of a search between two steps.
pub struct SearchState {
    /// The stack of rules, the most important first.
    pub rules: Seq<RuleView>,
    /// The candidates, one for each word of the query that is still in play.
    pub words: Seq<CandidateView>,
    /// The buckets handed out so far, the best first.
    pub buckets: Seq<Set<u32>>,
    /// The place in the stack of the rule that is advanced next.
    pub cursor: int,
    /// Whether the first rule has said that it has nothing left.
    pub exhausted: bool,
}

/// The rules made for the given kinds, in their order, and the candidates
/// as the making of the rules leaves them: a `Word` rule sorts them.
pub open spec fn make_rules(kinds: Seq<RankingRule>, words: Seq<CandidateView>) -> (
    Seq<RuleView>,
    Seq<CandidateView>,
)
    decreases kinds.len(),
{
    if kinds.len() == 0 {
        (Seq::empty(), words)
    } else {
        let (rules, sorted) = make_rules(kinds.drop_last(), words);
        match kinds.last() {
            RankingRule::Word => (
                rules.push(RuleView::Word { first_iteration: true }),
                sort_by_frequency(sorted),
            ),
            RankingRule::Typo => (
                rules.push(
                    RuleView::Typo {
                        first_iteration: true,
                        typo_allowed: 0,
                        max_typos: max_slots(sorted),
                    },
                ),
                sorted,
            ),
            RankingRule::Exact => (rules.push(RuleView::Exact { buckets: Seq::empty() }), sorted),
        }
    }
}

/// The state in which a search starts.
pub open spec fn start_state(kinds: Seq<RankingRule>, words: Seq<CandidateView>) -> SearchState {
    let (rules, sorted) = make_rules(kinds, words);
    SearchState { rules, words: sorted, buckets: Seq::empty(), cursor: 0, exhausted: false }
}

/// The rules after the documents of `used` have left what they keep in store.
pub open spec fn rules_cleanup(rules: Seq<RuleView>, used: Set<u32>) -> Seq<RuleView> {
    Seq::new(rules.len(), |i: int| rule_cleanup(rules[i], used))
}

/// The state after `bucket` has been handed out: its documents leave the
/// candidates and the rules.
pub open spec fn emit(state: SearchState, bucket: Set<u32>) -> SearchState {
    SearchState {
        rules: rules_cleanup(state.rules, bucket),
        words: candidates_without(state.words, bucket),
        buckets: state.buckets.push(bucket),
        ..state
    }
}

/// What the rule under the cursor makes of its step.
pub open spec fn cursor_outcome(state: SearchState, index: IndexView) -> Outcome {
    let prev = if state.cursor > 0 {
        Some(state.rules[state.cursor - 1])
    } else {
        None
    };
    rule_next(state.rules[state.cursor], prev, state.words, index)
}

/// The state after the rule under the cursor has made its step, before
/// its answer is acted on.
pub open spec fn moved_state(state: SearchState, index: IndexView) -> SearchState {
    let outcome = cursor_outcome(state, index);
    SearchState {
        rules: state.rules.update(state.cursor, outcome.rule),
        words: outcome.words,
        ..state
    }
}

/// One step of the search.
pub open spec fn search_step(state: SearchState, index: IndexView) -> SearchState {
    let cursor = state.cursor;
    let outcome = cursor_outcome(state, index);
    let moved = moved_state(state, index);
    match outcome.step {
        StepView::Continue => if cursor == state.rules.len() - 1 {
            emit(moved, rule_results(outcome.rule, outcome.words))
        } else {
            SearchState { cursor: cursor + 1, ..moved }
        },
        StepView::Break(bucket) => if bucket == Set::<u32>::empty() {
            if cursor == 0 {
                SearchState { exhausted: true, ..moved }
            } else {
                SearchState { cursor: cursor - 1, buckets: moved.buckets.push(bucket), ..moved }
            }
        } else {
            emit(moved, bucket)
        },
    }
}

/// The state after `steps` steps.
pub open spec fn run(state: SearchState, index: IndexView, steps: nat) -> SearchState
    decreases steps,
{
    if steps == 0 {
        state
    } else {
        search_step(run(state, index, (steps - 1) as nat), index)
    }
}

/// The number of documents in the buckets, counted bucket by bucket.
pub open spec fn total_len(buckets: Seq<Set<u32>>) -> nat
    decreases buckets.len(),
{
    if buckets.len() == 0 {
        0
    } else {
        total_len(buckets.drop_last()) + buckets.last().len()
    }
}

/// Whether the search is over: the first rule has nothing left, or as many
/// documents as were asked for have been handed out.
pub open spec fn halted(state: SearchState, limit: nat) -> bool {
    state.exhausted || total_len(state.buckets) >= limit
}

/// Whether the search is over after `steps` steps and not before.
pub open spec fn stops_after(start: SearchState, index: IndexView, limit: nat, steps: nat) -> bool {
    &&& halted(run(start, index, steps), limit)
    &&& forall|earlier: nat| earlier < steps ==> !halted(#[trigger] run(start, index, earlier), limit)
}

/// A search stops at one moment only.
pub proof fn lemma_stops_once(
    start: SearchState,
    index: IndexView,
    limit: nat,
    first: nat,
    second: nat,
)
    requires
        stops_after(start, index, limit, first),
        stops_after(start, index, limit, second),
    ensures
        first == second,
{
    if first < second {
        assert(!halted(run(start, index, first), limit));
    }
    if second < first {
        assert(!halted(run(start, index, second), limit));
    }
}

/// The buckets that a search hands out, the best first: the buckets of
/// the state in which the search stops. A query without a word that
/// counts has none.
pub open spec fn search_buckets(index: IndexView, search: SearchView) -> Seq<Set<u32>> {
    let words = query_candidates(index, search.input);
    if words.len() == 0 {
        Seq::empty()
    } else {
        let start = start_state(search.ranking_rules, words);
        run(
            start,
            index,
            choose|steps: nat| stops_after(start, index, search.limit, steps),
        ).buckets
    }
}

/// The documents of the buckets, bucket after bucket, each bucket in the
/// order of the identifiers.
pub open spec fn ranked_ids(buckets: Seq<Set<u32>>) -> Seq<u32>
    decreases buckets.len(),
{
    if buckets.len() == 0 {
        Seq::empty()
    } else {
        ranked_ids(buckets.drop_last()) + listing(buckets.last())
    }
}

/// The first `limit` items of `ids`, or all of them if there are fewer.
pub open spec fn first_n(ids: Seq<u32>, limit: nat) -> Seq<u32> {
    if ids.len() <= limit {
        ids
    } else {
        ids.take(limit as int)
    }
}

/// The result of a search: the documents of its buckets in their order,
/// cut to the number asked for.
pub open spec fn search_results(index: IndexView, search: SearchView) -> Seq<u32> {
    first_n(ranked_ids(search_buckets(index, search)), search.limit)
}

/// The mathematical content of a stack of rules.
pub open spec fn rules_view(rules: Seq<RankingRuleImpl>) -> Seq<RuleView> {
    Seq::new(rules.len(), |i: int| rules[i]@)
}

/// The mathematical content of a search at work.
pub open spec fn state_view(
    rules: Seq<RankingRuleImpl>,
    words: Seq<WordCandidate>,
    buckets: Seq<RoaringBitmap>,
    cursor: int,
    exhausted: bool,
) -> SearchState {
    SearchState {
        rules: rules_view(rules),
        words: candidates_view(words),
        buckets: bitmap_sets(buckets),
        cursor,
        exhausted,
    }
}

/// Whether the bitmaps that the rules keep in store are well formed.
pub open spec fn rules_sound(rules: Seq<RankingRuleImpl>) -> bool {
    forall|i: int| 0 <= i < rules.len() ==> (#[trigger] rules[i]).sound()
}

impl Index {
    /// Takes the documents of `used`, which have been ranked, out of every
    /// slot of every candidate.
    pub fn cleanup(used: &RoaringBitmap, candidates: &mut [WordCandidate])
        requires
            bitmap_wf(*used),
            candidates_sound(old(candidates)@),
        ensures
            candidates_sound(final(candidates)@),
            candidates_view(final(candidates)@) == candidates_without(
                candidates_view(old(candidates)@),
                bitmap_set(*used),
            ),
    {
        let ghost before = candidates_view(candidates@);
        let count = candidates.len();
        for i in 0..count
            invariant
                bitmap_wf(*used),
                candidates_sound(candidates@),
                count == before.len(),
                candidates@.len() == before.len(),
                forall|k: int|
                    0 <= k < i ==> (#[trigger] candidates@[k])@ == before[k].without(
                        bitmap_set(*used),
                    ),
                forall|k: int| i <= k < before.len() ==> (#[trigger] candidates@[k])@ == before[k],
        {
            let slots = candidates[i].typos.len();
            let ghost snapshot = candidates@;
            for k in 0..slots
                invariant
                    bitmap_wf(*used),
                    candidates_sound(snapshot),
                    bitmaps_wf(candidates@[i as int].typos@),
                    i < count,
                    count == snapshot.len(),
                    candidates@.len() == snapshot.len(),
                    slots == snapshot[i as int].typos@.len(),
                    forall|n: int|
                        0 <= n < snapshot.len() && n != i ==> #[trigger] candidates@[n]
                            == snapshot[n],
                    candidates@[i as int].original == snapshot[i as int].original,
                    candidates@[i as int].normalized == snapshot[i as int].normalized,
                    candidates@[i as int].index == snapshot[i as int].index,
                    candidates@[i as int].typos@.len() == slots,
                    forall|n: int|
                        0 <= n < k ==> bitmap_set(#[trigger] candidates@[i as int].typos@[n])
                            == bitmap_set(snapshot[i as int].typos@[n]).difference(
                            bitmap_set(*used),
                        ),
                    forall|n: int|
                        k <= n < slots ==> #[trigger] candidates@[i as int].typos@[n]
                            == snapshot[i as int].typos@[n],
            {
                bitmap_difference_with(&mut candidates[i].typos[k], used);
            }
            assert(candidates@[i as int]@ == before[i as int].without(bitmap_set(*used))) by {
                assert(snapshot[i as int]@ == before[i as int]);
                assert(candidates@[i as int]@.typos =~= before[i as int].without(
                    bitmap_set(*used),
                ).typos);
            }
            assert forall|n: int| 0 <= n < before.len() && n != i implies (
            #[trigger] candidates@[n])@ == snapshot[n]@ by {}
            assert(candidates_sound(candidates@)) by {
                assert forall|n: int| 0 <= n < candidates@.len() implies (
                #[trigger] candidates@[n]).sound() by {
                    if n != i {
                        assert(candidates@[n] == snapshot[n]);
                    }
                }
            }
        }
        assert(candidates_view(candidates@) =~= candidates_without(before, bitmap_set(*used)));
    }

    /// Makes the rules of the given kinds, in their order.
    fn make_rule_stack(kinds: &Vec<RankingRule>, words: &mut Vec<WordCandidate>) -> (rules: Vec<
        RankingRuleImpl,
    >)
        requires
            candidates_sound(old(words)@),
        ensures
            candidates_sound(final(words)@),
            rules_sound(rules@),
            (rules_view(rules@), candidates_view(final(words)@)) == make_rules(
                kinds@,
                candidates_view(old(words)@),
            ),
    {
        let ghost initial = candidates_view(words@);
        let mut rules: Vec<RankingRuleImpl> = Vec::new();
        for i in 0..kinds.len()
            invariant
                candidates_sound(words@),
                rules_sound(rules@),
                (rules_view(rules@), candidates_view(words@)) == make_rules(
                    kinds@.take(i as int),
                    initial,
                ),
        {
            proof {
                assert(kinds@.take(i + 1).drop_last() == kinds@.take(i as int));
                assert(kinds@.take(i + 1).last() == kinds@[i as int]);
            }
            let ghost before = rules_view(rules@);
            let rule = match kinds[i] {
                RankingRule::Word => RankingRuleImpl::Word(Word::new(words)),
                RankingRule::Typo => RankingRuleImpl::Typo(Typo::new(words.as_slice())),
                RankingRule::Exact => RankingRuleImpl::Exact(Exact::new()),
            };
            let ghost made = rules@;
            rules.push(rule);
            assert(rules_sound(rules@)) by {
                assert forall|k: int| 0 <= k < rules@.len() implies (#[trigger] rules@[k]).sound() by {
                    if k < made.len() {
                        assert(rules@[k] == made[k]);
                    }
                }
            }
            assert(rules_view(rules@) == before.push(rule@));
        }
        proof {
            assert(kinds@.take(kinds@.len() as int) == kinds@);
        }
        rules
    }

    /// Hands out a bucket: its documents leave the candidates and the
    /// rules, and the bucket joins the result.
    fn hand_out(
        bucket: RoaringBitmap,
        rules: &mut Vec<RankingRuleImpl>,
        words: &mut Vec<WordCandidate>,
        res: &mut Vec<RoaringBitmap>,
    )
        requires
            bitmap_wf(bucket),
            rules_sound(old(rules)@),
            candidates_sound(old(words)@),
            bitmaps_wf(old(res)@),
        ensures
            rules_sound(final(rules)@),
            candidates_sound(final(words)@),
            bitmaps_wf(final(res)@),
            rules_view(final(rules)@) == rules_cleanup(rules_view(old(rules)@), bitmap_set(bucket)),
            candidates_view(final(words)@) == candidates_without(
                candidates_view(old(words)@),
                bitmap_set(bucket),
            ),
            bitmap_sets(final(res)@) == bitmap_sets(old(res)@).push(bitmap_set(bucket)),
    {
        Index::cleanup(&bucket, words.as_mut_slice());
        let ghost before = rules_view(rules@);
        let count = rules.len();
        for i in 0..count
            invariant
                bitmap_wf(bucket),
                rules_sound(rules@),
                count == before.len(),
                rules@.len() == before.len(),
                forall|k: int|
                    0 <= k < i ==> (#[trigger] rules@[k])@ == rule_cleanup(
                        before[k],
                        bitmap_set(bucket),
                    ),
                forall|k: int| i <= k < before.len() ==> (#[trigger] rules@[k])@ == before[k],
        {
            let ghost stack = rules@;
            rules[i].cleanup(&bucket);
            assert(rules_sound(rules@)) by {
                assert forall|k: int| 0 <= k < rules@.len() implies (#[trigger] rules@[k]).sound() by {
                    if k != i {
                        assert(rules@[k] == stack[k]);
                    }
                }
            }
        }
        assert(rules_view(rules@) =~= rules_cleanup(before, bitmap_set(bucket)));
        let ghost earlier = bitmap_sets(res@);
        let ghost handed = res@;
        res.push(bucket);
        assert(bitmaps_wf(res@)) by {
            assert forall|k: int| 0 <= k < res@.len() implies bitmap_wf(#[trigger] res@[k]) by {
                if k < handed.len() {
                    assert(res@[k] == handed[k]);
                }
            }
        }
        assert(bitmap_sets(res@) =~= earlier.push(bitmap_set(bucket)));
    }

    /// Makes one step of the search. Gives the place of the cursor after
    /// the step, whether the search is exhausted, and the number of
    /// documents that the step has handed out.
    fn advance(
        &self,
        rules: &mut Vec<RankingRuleImpl>,
        words: &mut Vec<WordCandidate>,
        res: &mut Vec<RoaringBitmap>,
        cursor: usize,
        Ghost(universe): Ghost<Set<u32>>,
    ) -> (r: (usize, bool, u64))
        requires
            rules_sound(old(rules)@),
            candidates_sound(old(words)@),
            bitmaps_wf(old(res)@),
            state_inv(state_view(old(rules)@, old(words)@, old(res)@, cursor as int, false), universe),
            forall|id: u32| universe.contains(id) ==> id < self@.documents.len(),
        ensures
            rules_sound(final(rules)@),
            candidates_sound(final(words)@),
            bitmaps_wf(final(res)@),
            state_view(final(rules)@, final(words)@, final(res)@, r.0 as int, r.1) == search_step(
                state_view(old(rules)@, old(words)@, old(res)@, cursor as int, false),
                self@,
            ),
            total_len(bitmap_sets(final(res)@)) == total_len(bitmap_sets(old(res)@)) + r.2,
    {
        let ghost state = state_view(rules@, words@, res@, cursor as int, false);
        let ghost outcome = cursor_outcome(state, self@);
        let ghost stack = rules@;
        proof {
            stack[cursor as int].lemma_kind();
            stack[0].lemma_kind();
            if cursor > 0 {
                lemma_results_in_play(state, cursor - 1);
            }
            lemma_move_in_play(state, self@);
            lemma_step_keeps_inv(state, self@, universe);
        }
        let mut current = rules.remove(cursor);
        assert(current == stack[cursor as int]);
        assert(rules_sound(rules@)) by {
            assert forall|k: int| 0 <= k < rules@.len() implies (#[trigger] rules@[k]).sound() by {
                if k < cursor {
                    assert(rules@[k] == stack[k]);
                } else {
                    assert(rules@[k] == stack[k + 1]);
                }
            }
        }
        let step = if cursor > 0 {
            assert(rules@[cursor - 1] == stack[cursor - 1]);
            let ghost inherited = rule_results(stack[cursor - 1]@, candidates_view(words@));
            assert forall|id: u32| inherited.contains(id) implies id < self@.documents.len() by {
                assert(state.rules[cursor - 1] == stack[cursor - 1]@);
                assert(in_play(state, id));
                assert(universe.contains(id));
            }
            current.next(Some(&rules[cursor - 1]), words, self)
        } else {
            current.next(None, words, self)
        };
        let ghost others = rules@;
        rules.insert(cursor, current);
        assert(rules_sound(rules@)) by {
            assert forall|k: int| 0 <= k < rules@.len() implies (#[trigger] rules@[k]).sound() by {
                if k < cursor {
                    assert(rules@[k] == others[k]);
                } else if k > cursor {
                    assert(rules@[k] == others[k - 1]);
                }
            }
        }
        assert(rules_view(rules@) =~= state.rules.update(cursor as int, outcome.rule));
        let ghost moved = state_view(rules@, words@, res@, cursor as int, false);
        assert(moved == moved_state(state, self@));
        let ghost total = total_len(bitmap_sets(res@));
        match step {
            ControlFlow::Continue(_) => {
                if cursor == rules.len() - 1 {
                    let bucket = rules[cursor].current_results(words);
                    let added = bucket.len();
                    Index::hand_out(bucket, rules, words, res);
                    assert(bitmap_sets(res@).drop_last() == moved.buckets);
                    (cursor, false, added)
                } else {
                    (cursor + 1, false, 0)
                }
            },
            ControlFlow::Break(bucket) => {
                if bucket.is_empty() {
                    if cursor == 0 {
                        (cursor, true, 0)
                    } else {
                        let ghost earlier = bitmap_sets(res@);
                        let ghost handed = res@;
                        res.push(bucket);
                        assert(bitmaps_wf(res@)) by {
                            assert forall|k: int| 0 <= k < res@.len() implies bitmap_wf(
                                #[trigger] res@[k],
                            ) by {
                                if k < handed.len() {
                                    assert(res@[k] == handed[k]);
                                }
                            }
                        }
                        assert(bitmap_sets(res@) =~= earlier.push(bitmap_set(bucket)));
                        assert(bitmap_sets(res@).drop_last() == earlier);
                        assert(bitmap_set(bucket).len() == 0);
                        (cursor - 1, false, 0)
                    }
                } else {
                    let added = bucket.len();
                    Index::hand_out(bucket, rules, words, res);
                    assert(bitmap_sets(res@).drop_last() == moved.buckets);
                    (cursor, false, added)
                }
            },
        }
    }

    /// Runs a search and gives the buckets that it hands out, the best
    /// first. No document is in two buckets, and every document of a
    /// bucket matches a word of the query.
    pub fn ranked_buckets(&self, search: &Search) -> (res: Vec<RoaringBitmap>)
        ensures
            bitmaps_wf(res@),
            bitmap_sets(res@) == search_buckets(self@, search@),
            pairwise_disjoint(bitmap_sets(res@)),
            forall|id: u32|
                union_of(bitmap_sets(res@)).contains(id) ==> candidates_universe(
                    query_candidates(self@, search@.input),
                ).contains(id),
            total_len(bitmap_sets(res@)) == union_of(bitmap_sets(res@)).len(),
    {
        let mut words = self.get_candidates(search);
        let mut res: Vec<RoaringBitmap> = Vec::new();
        if words.len() == 0 {
            assert(bitmap_sets(res@) =~= Seq::<Set<u32>>::empty());
            assert(union_of(bitmap_sets(res@)) =~= Set::<u32>::empty());
            return res;
        }
        let ghost initial = candidates_view(words@);
        let ghost universe = candidates_universe(initial);
        let ghost start = start_state(search@.ranking_rules, initial);
        let ghost capacity = initial.len();
        let mut rules = Index::make_rule_stack(search.ranking_rules(), &mut words);
        let limit = search.limit();
        let mut cursor: usize = 0;
        let mut exhausted = false;
        let mut total: u64 = 0;
        let ghost mut steps: nat = 0;
        proof {
            lemma_start_state(search@.ranking_rules, initial);
            assert(bitmap_sets(res@) =~= Seq::<Set<u32>>::empty());
        }
        while !exhausted && total < limit as u64
            invariant
                rules_sound(rules@),
                candidates_sound(words@),
                bitmaps_wf(res@),
                limit == search@.limit,
                forall|id: u32| universe.contains(id) ==> id < self@.documents.len(),
                state_view(rules@, words@, res@, cursor as int, exhausted) == run(
                    start,
                    self@,
                    steps,
                ),
                forall|earlier: nat|
                    earlier < steps ==> !halted(#[trigger] run(start, self@, earlier), limit as nat),
                state_inv(run(start, self@, steps), universe),
                ranks_bounded(run(start, self@, steps), capacity),
                total == total_len(bitmap_sets(res@)),
            decreases
                    (if total < limit {
                        limit - total
                    } else {
                        0
                    }),
                    fuel(run(start, self@, steps), capacity),
        {
            let ghost state = run(start, self@, steps);
            proof {
                lemma_step_keeps_inv(state, self@, universe);
                lemma_step_progress(state, self@, capacity);
                lemma_u32_set_bounded(union_of(search_step(state, self@).buckets));
                assert(!halted(state, limit as nat));
            }
            let (place, done, added) = self.advance(
                &mut rules,
                &mut words,
                &mut res,
                cursor,
                Ghost(universe),
            );
            cursor = place;
            exhausted = done;
            total = total + added;
            proof {
                steps = steps + 1;
            }
        }
        proof {
            assert(stops_after(start, self@, limit as nat, steps));
            let chosen = choose|n: nat| stops_after(start, self@, limit as nat, n);
            lemma_stops_once(start, self@, limit as nat, steps, chosen);
        }
        res
    }

    /// Runs a search and gives the identifiers of the documents found, the
    /// best first, and no more of them than the search asks for.
    pub fn search(&self, search: &Search) -> (r: Vec<u32>)
        ensures
            r@ == search_results(self@, search@),
            r@.len() <= search@.limit,
    {
        let buckets = self.ranked_buckets(search);
        let limit = search.limit();
        let mut found: Vec<u32> = Vec::new();
        for b in 0..buckets.len()
            invariant
                bitmaps_wf(buckets@),
                found@ == first_n(ranked_ids(bitmap_sets(buckets@).take(b as int)), limit as nat),
        {
            let ids = bitmap_ids(&buckets[b]);
            let ghost sets = bitmap_sets(buckets@);
            let ghost earlier = ranked_ids(sets.take(b as int));
            proof {
                assert(sets.take(b + 1).drop_last() == sets.take(b as int));
                assert(sets.take(b + 1).last() == bitmap_set(buckets@[b as int]));
                assert(earlier + ids@.take(0) == earlier);
            }
            for k in 0..ids.len()
                invariant
                    found@ == first_n(earlier + ids@.take(k as int), limit as nat),
            {
                proof {
                    assert(earlier + ids@.take(k + 1) == (earlier + ids@.take(k as int)).push(
                        ids@[k as int],
                    ));
                }
                if found.len() < limit {
                    found.push(ids[k]);
                }
            }
            proof {
                assert(ids@.take(ids@.len() as int) == ids@);
            }
        }
        proof {
            let sets = bitmap_sets(buckets@);
            assert(sets.take(sets.len() as int) == sets);
        }
        found
    }
}

/// A search gives no more documents than it was asked for.
pub proof fn lemma_limit_honored(index: IndexView, search: SearchView)
    ensures
        search_results(index, search).len() <= search.limit,
{
}


/// A query of nothing but whitespace, an empty one among them, finds
/// nothing.
pub proof fn lemma_blank_query_finds_nothing(index: IndexView, search: SearchView)
    requires
        forall|i: int| 0 <= i < search.input.len() ==> is_whitespace(#[trigger] search.input[i]),
    ensures
        search_buckets(index, search) == Seq::<Set<u32>>::empty(),
        search_results(index, search) == Seq::<u32>::empty(),
{
    lemma_blank_has_no_tokens(search.input);
    assert(query_candidates(index, search.input).len() == 0);
}


/// A query without a word that has a normal form finds nothing.
pub proof fn lemma_wordless_query_finds_nothing(index: IndexView, search: SearchView)
    requires
        query_words(tokens(search.input)).len() == 0,
    ensures
        search_buckets(index, search) == Seq::<Set<u32>>::empty(),
        search_results(index, search) == Seq::<u32>::empty(),
{
    assert(query_candidates(index, search.input).len() == 0);
}

} // verus!
