//! What holds of every state of a search: no document is handed out
//! twice, and nothing is handed out that did not match a word of the
//! query.

use crate::bitmap::{lemma_u32_set_bounded, union_of};
use crate::candidate::{candidates_universe, CandidateView};
use crate::driver::{
    cursor_outcome, emit, make_rules, moved_state, run, search_buckets, search_step, start_state,
    stops_after, total_len, SearchState,
};
use crate::index::{query_candidates, IndexView};
use crate::ranking_rules::{
    exact_buckets, exact_class, keep_nonempty, rule_results, universes, within_each, RankingRule,
    RuleView, StepView,
};
use crate::ranking_rules::word::{lemma_sort_keeps_universe, lemma_sort_permutes};
use crate::search::{runnable, SearchView};
use crate::termination::{rank, rank_bound, ranks_bounded};
use vstd::prelude::*;
use vstd::set_lib::lemma_set_disjoint_lens;

verus! {

/// Whether no two of the sets share a document.
pub open spec fn pairwise_disjoint(buckets: Seq<Set<u32>>) -> bool {
    forall|i: int, j: int|
        0 <= i < j < buckets.len() ==> (#[trigger] buckets[i]).disjoint(#[trigger] buckets[j])
}

/// The buckets that a rule keeps in store.
pub open spec fn store_of(rule: RuleView) -> Seq<Set<u32>> {
    match rule {
        RuleView::Exact { buckets } => buckets,
        _ => Seq::empty(),
    }
}

/// Whether a document can still be handed out: it matches a candidate, or
/// a rule keeps it in store.
pub open spec fn in_play(state: SearchState, id: u32) -> bool {
    candidates_universe(state.words).contains(id) || exists|i: int, j: int|
        0 <= i < state.rules.len() && 0 <= j < store_of(state.rules[i]).len() && #[trigger] store_of(
            state.rules[i],
        )[j].contains(id)
}

/// What holds of every state of a search that starts from candidates with
/// the given universe: the cursor points at a rule, the first rule is not
/// an `Exact` rule, the documents in play and the documents handed out
/// belong to the universe, no document is both in play and handed out, and
/// no document was handed out twice.
pub open spec fn state_inv(state: SearchState, universe: Set<u32>) -> bool {
    &&& 0 <= state.cursor < state.rules.len()
    &&& !(state.rules[0] is Exact)
    &&& forall|id: u32| #[trigger] in_play(state, id) ==> universe.contains(id) && !union_of(state.buckets).contains(id)
    &&& forall|id: u32| #[trigger] union_of(state.buckets).contains(id) ==> universe.contains(id)
    &&& pairwise_disjoint(state.buckets)
    &&& total_len(state.buckets) == union_of(state.buckets).len()
}

/// The union of the buckets grows by a bucket that is pushed.
pub proof fn lemma_union_of_push(buckets: Seq<Set<u32>>, bucket: Set<u32>)
    ensures
        union_of(buckets.push(bucket)) == union_of(buckets).union(bucket),
{
    let more = buckets.push(bucket);
    assert forall|id: u32| union_of(more).contains(id) implies union_of(buckets).union(
        bucket,
    ).contains(id) by {
        let i = choose|i: int| 0 <= i < more.len() && #[trigger] more[i].contains(id);
        if i < buckets.len() {
            assert(buckets[i].contains(id));
        }
    }
    assert forall|id: u32| union_of(buckets).union(bucket).contains(id) implies union_of(
        more,
    ).contains(id) by {
        if bucket.contains(id) {
            assert(more[buckets.len() as int].contains(id));
        } else {
            let i = choose|i: int| 0 <= i < buckets.len() && #[trigger] buckets[i].contains(id);
            assert(more[i].contains(id));
        }
    }
    assert(union_of(more) =~= union_of(buckets).union(bucket));
}

/// Every set that `keep_nonempty` keeps is one of the sets it was given.
pub proof fn lemma_keep_nonempty_members(sets: Seq<Set<u32>>)
    ensures
        forall|j: int|
            0 <= j < keep_nonempty(sets).len() ==> exists|k: int|
                0 <= k < sets.len() && #[trigger] keep_nonempty(sets)[j] == sets[k],
    decreases sets.len(),
{
    if sets.len() > 0 {
        lemma_keep_nonempty_members(sets.drop_last());
        let head = keep_nonempty(sets.drop_last());
        assert forall|j: int| 0 <= j < keep_nonempty(sets).len() implies exists|k: int|
            0 <= k < sets.len() && #[trigger] keep_nonempty(sets)[j] == sets[k] by {
            if j < head.len() {
                let k = choose|k: int| 0 <= k < sets.drop_last().len() && head[j] == sets.drop_last()[k];
                assert(keep_nonempty(sets)[j] == sets[k]);
            } else {
                assert(keep_nonempty(sets)[j] == sets[sets.len() - 1]);
            }
        }
    }
}

/// A document of the bucket that a rule would hand out is in play.
pub proof fn lemma_results_in_play(state: SearchState, at: int)
    requires
        0 <= at < state.rules.len(),
    ensures
        forall|id: u32|
            rule_results(state.rules[at], state.words).contains(id) ==> in_play(state, id),
{
    let words = state.words;
    assert forall|id: u32| rule_results(state.rules[at], words).contains(id) implies in_play(
        state,
        id,
    ) by {
        match state.rules[at] {
            RuleView::Word { .. } => {
                assert(universes(words)[0].contains(id));
                assert(words[0].universe().contains(id));
            },
            RuleView::Typo { typo_allowed, .. } => {
                assert(within_each(words, typo_allowed)[0].contains(id));
                let word = words[0];
                if typo_allowed < word.typos.len() {
                    let k = choose|k: int|
                        0 <= k < word.typos.take(typo_allowed as int).len()
                            && #[trigger] word.typos.take(typo_allowed as int)[k].contains(id);
                    assert(word.typos[k].contains(id));
                }
                assert(word.universe().contains(id));
            },
            RuleView::Exact { buckets } => {
                assert(store_of(state.rules[at])[0].contains(id));
            },
        }
    }
}

/// The step of the rule under the cursor brings no document into play,
/// hands out only documents that were in play, and leaves every rule of
/// the kind that it was.
pub proof fn lemma_move_in_play(state: SearchState, index: IndexView)
    requires
        0 <= state.cursor < state.rules.len(),
    ensures
        moved_state(state, index).rules.len() == state.rules.len(),
        moved_state(state, index).cursor == state.cursor,
        moved_state(state, index).buckets == state.buckets,
        moved_state(state, index).words.len() <= state.words.len(),
        forall|i: int|
            0 <= i < state.rules.len() ==> (#[trigger] moved_state(state, index).rules[i] is Exact)
                == (state.rules[i] is Exact),
        forall|id: u32| #[trigger]
            in_play(moved_state(state, index), id) ==> in_play(state, id),
        forall|id: u32|
            cursor_outcome(state, index).step matches StepView::Break(bucket) && bucket.contains(id)
                ==> in_play(state, id),
        cursor_outcome(state, index).step is Continue ==> !(state.rules[state.cursor] is Exact),
{
    let cursor = state.cursor;
    let outcome = cursor_outcome(state, index);
    let moved = moved_state(state, index);
    let rule = state.rules[cursor];
    // What the rule now keeps in store, and what it hands out, was in play.
    assert forall|j: int, id: u32|
        0 <= j < store_of(outcome.rule).len() && #[trigger] store_of(outcome.rule)[j].contains(
            id,
        ) implies in_play(state, id) by {
        lemma_store_after_next(state, index, j, id);
    }
    assert forall|id: u32|
        outcome.step matches StepView::Break(bucket) && bucket.contains(id) implies in_play(
        state,
        id,
    ) by {
        lemma_break_after_next(state, index, id);
    }
    assert forall|id: u32| #[trigger] in_play(moved, id) implies in_play(state, id) by {
        if candidates_universe(moved.words).contains(id) {
            let i = choose|i: int|
                0 <= i < moved.words.len() && (#[trigger] moved.words[i]).universe().contains(id);
            assert(state.words[i].universe().contains(id));
        } else {
            let (i, j) = choose|i: int, j: int|
                0 <= i < moved.rules.len() && 0 <= j < store_of(moved.rules[i]).len()
                    && #[trigger] store_of(moved.rules[i])[j].contains(id);
            if i != cursor {
                assert(store_of(state.rules[i])[j].contains(id));
            }
        }
    }
}

/// The store of an `Exact` rule under the cursor once it has been filled
/// for the step at hand.
pub open spec fn filled_store(state: SearchState, index: IndexView) -> Seq<Set<u32>> {
    let buckets = store_of(state.rules[state.cursor]);
    if buckets.len() == 0 {
        exact_buckets(
            if state.cursor > 0 {
                rule_results(state.rules[state.cursor - 1], state.words)
            } else {
                Set::empty()
            },
            state.words,
            index,
        )
    } else {
        buckets
    }
}

/// Where the filled store of an `Exact` rule comes from: every bucket of
/// it holds only documents that were in play.
pub proof fn lemma_filled_in_play(state: SearchState, index: IndexView, j: int, id: u32)
    requires
        0 <= state.cursor < state.rules.len(),
        state.rules[state.cursor] is Exact,
        ({
            let filled = filled_store(state, index);
            0 <= j < filled.len() && filled[j].contains(id)
        }),
    ensures
        in_play(state, id),
{
    let cursor = state.cursor;
    let buckets = store_of(state.rules[cursor]);
    if buckets.len() == 0 {
        let current = if cursor > 0 {
            rule_results(state.rules[cursor - 1], state.words)
        } else {
            Set::empty()
        };
        let classes = seq![
            exact_class(current, state.words, index, 3),
            exact_class(current, state.words, index, 2),
            exact_class(current, state.words, index, 1),
            exact_class(current, state.words, index, 0),
        ];
        lemma_keep_nonempty_members(classes);
        let k = choose|k: int|
            0 <= k < classes.len() && #[trigger] keep_nonempty(classes)[j] == classes[k];
        assert(current.contains(id));
        lemma_results_in_play(state, cursor - 1);
    } else {
        assert(store_of(state.rules[cursor])[j].contains(id));
    }
}

pub proof fn lemma_store_after_next(state: SearchState, index: IndexView, j: int, id: u32)
    requires
        0 <= state.cursor < state.rules.len(),
        0 <= j < store_of(cursor_outcome(state, index).rule).len(),
        store_of(cursor_outcome(state, index).rule)[j].contains(id),
    ensures
        in_play(state, id),
{
    match state.rules[state.cursor] {
        RuleView::Exact { buckets } => {
            let filled = filled_store(state, index);
            if filled.len() > 0 {
                assert(filled.drop_last()[j] == filled[j]);
            }
            lemma_filled_in_play(state, index, j, id);
        },
        _ => {},
    }
}

pub proof fn lemma_break_after_next(state: SearchState, index: IndexView, id: u32)
    requires
        0 <= state.cursor < state.rules.len(),
        cursor_outcome(state, index).step matches StepView::Break(bucket) && bucket.contains(id),
    ensures
        in_play(state, id),
{
    match state.rules[state.cursor] {
        RuleView::Exact { buckets } => {
            let filled = filled_store(state, index);
            if filled.len() > 0 {
                lemma_filled_in_play(state, index, filled.len() - 1, id);
            }
        },
        _ => {},
    }
}

/// Handing out a bucket of documents that were not handed out before keeps
/// the invariant, and the count of documents grows by the bucket's size.
pub proof fn lemma_emit_keeps_inv(moved: SearchState, bucket: Set<u32>, universe: Set<u32>)
    requires
        0 <= moved.cursor < moved.rules.len(),
        !(moved.rules[0] is Exact),
        forall|id: u32| #[trigger]
            in_play(moved, id) ==> universe.contains(id) && !union_of(moved.buckets).contains(id),
        forall|id: u32|
            bucket.contains(id) ==> universe.contains(id) && !union_of(moved.buckets).contains(id),
        forall|id: u32| #[trigger] union_of(moved.buckets).contains(id) ==> universe.contains(id),
        pairwise_disjoint(moved.buckets),
        total_len(moved.buckets) == union_of(moved.buckets).len(),
    ensures
        state_inv(emit(moved, bucket), universe),
        total_len(emit(moved, bucket).buckets) == total_len(moved.buckets) + bucket.len(),
{
    let next = emit(moved, bucket);
    let handed = union_of(moved.buckets);
    lemma_union_of_push(moved.buckets, bucket);
    assert(next.buckets.drop_last() == moved.buckets);
    assert forall|id: u32| #[trigger] in_play(next, id) implies in_play(moved, id)
        && !bucket.contains(id) by {
        if candidates_universe(next.words).contains(id) {
            let i = choose|i: int|
                0 <= i < next.words.len() && (#[trigger] next.words[i]).universe().contains(id);
            let k = choose|k: int|
                0 <= k < next.words[i].typos.len() && #[trigger] next.words[i].typos[k].contains(id);
            assert(moved.words[i].typos[k].contains(id));
            assert(moved.words[i].universe().contains(id));
        } else {
            let (i, j) = choose|i: int, j: int|
                0 <= i < next.rules.len() && 0 <= j < store_of(next.rules[i]).len()
                    && #[trigger] store_of(next.rules[i])[j].contains(id);
            assert(store_of(moved.rules[i])[j].contains(id));
        }
    }
    assert(pairwise_disjoint(next.buckets)) by {
        assert forall|i: int, j: int| 0 <= i < j < next.buckets.len() implies (
        #[trigger] next.buckets[i]).disjoint(#[trigger] next.buckets[j]) by {
            if j == moved.buckets.len() {
                assert forall|id: u32| next.buckets[i].contains(id) implies !bucket.contains(id) by {
                    assert(moved.buckets[i].contains(id));
                    assert(handed.contains(id));
                }
            } else {
                assert(moved.buckets[i].disjoint(moved.buckets[j]));
            }
        }
    }
    lemma_u32_set_bounded(handed);
    lemma_u32_set_bounded(bucket);
    assert(handed.disjoint(bucket));
    lemma_set_disjoint_lens(handed, bucket);
    assert(handed + bucket == handed.union(bucket));
}

/// A step of the search keeps the invariant, and the count of documents
/// handed out does not shrink.
pub proof fn lemma_step_keeps_inv(state: SearchState, index: IndexView, universe: Set<u32>)
    requires
        state_inv(state, universe),
    ensures
        state_inv(search_step(state, index), universe),
        total_len(search_step(state, index).buckets) >= total_len(state.buckets),
{
    let cursor = state.cursor;
    let outcome = cursor_outcome(state, index);
    let moved = moved_state(state, index);
    lemma_move_in_play(state, index);
    match outcome.step {
        StepView::Continue => {
            if cursor == state.rules.len() - 1 {
                let bucket = rule_results(outcome.rule, outcome.words);
                lemma_results_in_play(moved, cursor);
                assert forall|id: u32| bucket.contains(id) implies universe.contains(id)
                    && !union_of(moved.buckets).contains(id) by {
                    assert(in_play(moved, id));
                    assert(in_play(state, id));
                }
                lemma_emit_keeps_inv(moved, bucket, universe);
            } else {
                let next = SearchState { cursor: cursor + 1, ..moved };
                assert forall|id: u32| #[trigger] in_play(next, id) implies universe.contains(id)
                    && !union_of(next.buckets).contains(id) by {
                    assert(in_play(moved, id));
                    assert(in_play(state, id));
                }
            }
        },
        StepView::Break(bucket) => {
            if bucket == Set::<u32>::empty() {
                if cursor == 0 {
                    let next = SearchState { exhausted: true, ..moved };
                    assert forall|id: u32| #[trigger] in_play(next, id) implies universe.contains(
                        id,
                    ) && !union_of(next.buckets).contains(id) by {
                        assert(in_play(moved, id));
                        assert(in_play(state, id));
                    }
                } else {
                    let next = SearchState {
                        cursor: cursor - 1,
                        buckets: moved.buckets.push(bucket),
                        ..moved
                    };
                    lemma_union_of_push(moved.buckets, bucket);
                    assert(union_of(next.buckets) =~= union_of(state.buckets));
                    assert(next.buckets.drop_last() == state.buckets);
                    assert(bucket.len() == 0);
                    assert forall|id: u32| #[trigger] in_play(next, id) implies universe.contains(
                        id,
                    ) && !union_of(next.buckets).contains(id) by {
                        assert(in_play(moved, id));
                        assert(in_play(state, id));
                    }
                    assert forall|i: int, j: int| 0 <= i < j < next.buckets.len() implies (
                    #[trigger] next.buckets[i]).disjoint(#[trigger] next.buckets[j]) by {
                        if j < state.buckets.len() {
                            assert(state.buckets[i].disjoint(state.buckets[j]));
                        }
                    }
                }
            } else {
                assert forall|id: u32| bucket.contains(id) implies universe.contains(id)
                    && !union_of(moved.buckets).contains(id) by {
                    assert(in_play(state, id));
                }
                assert forall|id: u32| #[trigger] in_play(moved, id) implies universe.contains(id)
                    && !union_of(moved.buckets).contains(id) by {
                    assert(in_play(state, id));
                }
                lemma_emit_keeps_inv(moved, bucket, universe);
            }
        },
    }
}

/// The rules that `make_rules` makes are as many as the kinds, each of its
/// kind and with nothing in store, and the candidates keep their documents.
pub proof fn lemma_make_rules(kinds: Seq<RankingRule>, words: Seq<CandidateView>)
    ensures
        make_rules(kinds, words).0.len() == kinds.len(),
        make_rules(kinds, words).1.len() == words.len(),
        candidates_universe(make_rules(kinds, words).1) == candidates_universe(words),
        forall|i: int|
            0 <= i < kinds.len() ==> (#[trigger] make_rules(kinds, words).0[i] is Exact) == (kinds[i]
                == RankingRule::Exact),
        forall|i: int|
            0 <= i < kinds.len() ==> store_of(#[trigger] make_rules(kinds, words).0[i]).len() == 0,
        forall|i: int|
            0 <= i < kinds.len() ==> 0 <= rank(
                #[trigger] make_rules(kinds, words).0[i],
                make_rules(kinds, words).1,
            ) <= rank_bound(make_rules(kinds, words).0[i], words.len()),
    decreases kinds.len(),
{
    if kinds.len() > 0 {
        lemma_make_rules(kinds.drop_last(), words);
        let (rules, sorted) = make_rules(kinds.drop_last(), words);
        lemma_sort_keeps_universe(sorted);
        lemma_sort_permutes(sorted);
        let (all, left) = make_rules(kinds, words);
        assert forall|i: int| 0 <= i < kinds.len() implies (#[trigger] all[i] is Exact) == (kinds[i]
            == RankingRule::Exact) && store_of(all[i]).len() == 0 && 0 <= rank(all[i], left)
            <= rank_bound(all[i], words.len()) by {
            if i < kinds.len() - 1 {
                assert(all[i] == rules[i]);
                assert(kinds.drop_last()[i] == kinds[i]);
                assert(0 <= rank(rules[i], sorted) <= rank_bound(rules[i], words.len()));
            }
        }
    }
}

/// A search starts in a state of which the invariant holds.
pub proof fn lemma_start_state(kinds: Seq<RankingRule>, words: Seq<CandidateView>)
    requires
        runnable(kinds),
    ensures
        state_inv(start_state(kinds, words), candidates_universe(words)),
        ranks_bounded(start_state(kinds, words), words.len()),
{
    lemma_make_rules(kinds, words);
    let start = start_state(kinds, words);
    assert(union_of(start.buckets) =~= Set::<u32>::empty());
    assert forall|id: u32| #[trigger] in_play(start, id) implies candidates_universe(
        words,
    ).contains(id) by {
        if !candidates_universe(start.words).contains(id) {
            let (i, j) = choose|i: int, j: int|
                0 <= i < start.rules.len() && 0 <= j < store_of(start.rules[i]).len()
                    && #[trigger] store_of(start.rules[i])[j].contains(id);
            assert(store_of(make_rules(kinds, words).0[i]).len() == 0);
        }
    }
    assert forall|i: int| 0 <= i < start.rules.len() implies 0 <= #[trigger] rank(
        start.rules[i],
        start.words,
    ) <= rank_bound(start.rules[i], words.len()) by {
        assert(0 <= rank(make_rules(kinds, words).0[i], make_rules(kinds, words).1));
    }
}

/// The invariant holds of a search after any number of steps.
pub proof fn lemma_run_keeps_inv(
    start: SearchState,
    index: IndexView,
    universe: Set<u32>,
    steps: nat,
)
    requires
        state_inv(start, universe),
    ensures
        state_inv(run(start, index, steps), universe),
    decreases steps,
{
    if steps > 0 {
        lemma_run_keeps_inv(start, index, universe, (steps - 1) as nat);
        lemma_step_keeps_inv(run(start, index, (steps - 1) as nat), index, universe);
    }
}

/// The candidates only ever lose documents: what matches a candidate
/// after a step matched one before it.
pub proof fn lemma_candidates_shrink(state: SearchState, index: IndexView)
    requires
        0 <= state.cursor < state.rules.len(),
    ensures
        search_step(state, index).words.len() <= state.words.len(),
        forall|id: u32|
            candidates_universe(search_step(state, index).words).contains(id)
                ==> candidates_universe(state.words).contains(id),
{
    let next = search_step(state, index);
    let moved = moved_state(state, index);
    assert forall|id: u32| candidates_universe(next.words).contains(id) implies candidates_universe(
        state.words,
    ).contains(id) by {
        let i = choose|i: int|
            0 <= i < next.words.len() && (#[trigger] next.words[i]).universe().contains(id);
        let k = choose|k: int|
            0 <= k < next.words[i].typos.len() && #[trigger] next.words[i].typos[k].contains(id);
        assert(moved.words[i].typos[k].contains(id));
        assert(moved.words[i].universe().contains(id));
        assert(state.words[i].universe().contains(id));
    }
}

/// No document is in two buckets of a search, and every document of a
/// bucket matches a word of the query.
pub proof fn lemma_buckets_disjoint(index: IndexView, search: SearchView)
    requires
        runnable(search.ranking_rules),
    ensures
        pairwise_disjoint(search_buckets(index, search)),
        forall|id: u32|
            union_of(search_buckets(index, search)).contains(id) ==> candidates_universe(
                query_candidates(index, search.input),
            ).contains(id),
{
    let words = query_candidates(index, search.input);
    if words.len() > 0 {
        let start = start_state(search.ranking_rules, words);
        let steps = choose|steps: nat| stops_after(start, index, search.limit, steps);
        lemma_start_state(search.ranking_rules, words);
        lemma_run_keeps_inv(start, index, candidates_universe(words), steps);
    }
}

} // verus!
