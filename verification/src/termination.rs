//! Why every search ends: each step either hands out a document or
//! makes a number shrink that cannot shrink for ever.
//!
//! Each rule has a rank, the number of times that it can still let the
//! next rule go on. The ranks are weighed like the digits of a number, the
//! first rule's rank weighing most, and summed up to the rule under the
//! cursor.

use crate::bitmap::lemma_u32_set_bounded;
use crate::candidate::{candidates_universe, CandidateView};
use crate::disjointness::{lemma_start_state, lemma_step_keeps_inv, state_inv};
use crate::driver::{
    cursor_outcome, emit, halted, moved_state, run, search_step, start_state, stops_after,
    total_len, SearchState,
};
use crate::index::IndexView;
use crate::ranking_rules::{rule_results, RankingRule, RuleView, StepView};
use crate::search::runnable;
use vstd::prelude::*;

verus! {

/// The number of times that a rule can still let the next rule go on
/// before it must say that it has nothing left.
pub open spec fn rank(rule: RuleView, words: Seq<CandidateView>) -> int {
    match rule {
        RuleView::Word { first_iteration } => (if first_iteration {
            1int
        } else {
            0int
        }) + words.len(),
        RuleView::Typo { first_iteration, typo_allowed, max_typos } => (if first_iteration {
            1int
        } else {
            0int
        }) + (if typo_allowed + 1 < max_typos {
            max_typos - 1 - typo_allowed
        } else {
            0int
        }),
        RuleView::Exact { .. } => 0,
    }
}

/// A number that the rank of a rule never exceeds in a search that starts
/// with `words` candidates.
pub open spec fn rank_bound(rule: RuleView, words: nat) -> int {
    match rule {
        RuleView::Word { .. } => (words + 1) as int,
        RuleView::Typo { max_typos, .. } => (max_typos + 1) as int,
        RuleView::Exact { .. } => 0,
    }
}

/// The ranks of the rules of a state.
pub open spec fn ranks(state: SearchState) -> Seq<int> {
    Seq::new(state.rules.len(), |i: int| rank(state.rules[i], state.words))
}

/// The bounds of the ranks of the rules.
pub open spec fn bounds(rules: Seq<RuleView>, words: nat) -> Seq<int> {
    Seq::new(rules.len(), |i: int| rank_bound(rules[i], words))
}

/// Whether every rule's rank is within its bound.
pub open spec fn ranks_bounded(state: SearchState, words: nat) -> bool {
    &&& state.words.len() <= words
    &&& forall|i: int|
        0 <= i < state.rules.len() ==> 0 <= #[trigger] rank(state.rules[i], state.words)
            <= rank_bound(state.rules[i], words)
}

/// The worth of one unit of rank of the rule at `at`: more than all that
/// the rules after it can add up to.
pub open spec fn weight(bounds: Seq<int>, at: int) -> int
    decreases bounds.len() - at,
{
    if at + 1 >= bounds.len() {
        1
    } else {
        (bounds[at + 1] + 2) * weight(bounds, at + 1)
    }
}

/// The worth of the ranks of the rules up to and with the one at `upto`.
pub open spec fn potential(ranks: Seq<int>, bounds: Seq<int>, upto: int) -> int
    decreases upto + 1,
{
    if upto < 0 {
        0
    } else {
        potential(ranks, bounds, upto - 1) + (ranks[upto] + 1) * weight(bounds, upto)
    }
}

/// A number that shrinks with every step that hands out no document.
pub open spec fn fuel(state: SearchState, words: nat) -> int {
    if state.exhausted {
        0
    } else {
        1 + potential(ranks(state), bounds(state.rules, words), state.cursor)
    }
}

pub proof fn lemma_weight_positive(bounds: Seq<int>, at: int)
    requires
        at >= 0,
        forall|i: int| 0 <= i < bounds.len() ==> #[trigger] bounds[i] >= 0,
    ensures
        weight(bounds, at) >= 1,
    decreases bounds.len() - at,
{
    if at + 1 < bounds.len() {
        lemma_weight_positive(bounds, at + 1);
        let w = weight(bounds, at + 1);
        let b = bounds[at + 1];
        assert((b + 2) * w >= 1) by (nonlinear_arith)
            requires
                b >= 0,
                w >= 1,
        ;
    }
}

pub proof fn lemma_potential_monotone(lower: Seq<int>, upper: Seq<int>, bounds: Seq<int>, upto: int)
    requires
        upto < lower.len(),
        upto < upper.len(),
        forall|i: int| 0 <= i < bounds.len() ==> #[trigger] bounds[i] >= 0,
        forall|i: int| 0 <= i <= upto ==> 0 <= #[trigger] lower[i] <= upper[i],
    ensures
        0 <= potential(lower, bounds, upto) <= potential(upper, bounds, upto),
    decreases upto + 1,
{
    if upto >= 0 {
        lemma_potential_monotone(lower, upper, bounds, upto - 1);
        lemma_weight_positive(bounds, upto);
        let w = weight(bounds, upto);
        let a = lower[upto];
        let b = upper[upto];
        assert(0 <= (a + 1) * w <= (b + 1) * w) by (nonlinear_arith)
            requires
                0 <= a <= b,
                w >= 1,
        ;
    }
}

/// What a step of the rule under the cursor does to the ranks: the rank of
/// a rule that lets the next rule go on shrinks, the rank of no other rule
/// grows, and every rank stays within its bound, which does not change.
pub proof fn lemma_move_ranks(state: SearchState, index: IndexView, words: nat)
    requires
        0 <= state.cursor < state.rules.len(),
        ranks_bounded(state, words),
    ensures
        ranks_bounded(moved_state(state, index), words),
        bounds(moved_state(state, index).rules, words) == bounds(state.rules, words),
        forall|i: int|
            0 <= i < state.rules.len() && i != state.cursor ==> #[trigger] ranks(
                moved_state(state, index),
            )[i] <= ranks(state)[i],
        cursor_outcome(state, index).step is Continue ==> ranks(
            moved_state(state, index),
        )[state.cursor] < ranks(state)[state.cursor],
{
    let moved = moved_state(state, index);
    assert forall|i: int| 0 <= i < moved.rules.len() implies 0 <= #[trigger] rank(
        moved.rules[i],
        moved.words,
    ) <= rank_bound(moved.rules[i], words) by {
        assert(0 <= rank(state.rules[i], state.words) <= rank_bound(state.rules[i], words));
    }
    assert forall|i: int|
        0 <= i < state.rules.len() && i != state.cursor implies #[trigger] ranks(moved)[i] <= ranks(
        state,
    )[i] by {
        assert(0 <= rank(state.rules[i], state.words));
    }
    assert(bounds(moved.rules, words) =~= bounds(state.rules, words));
}

/// What handing out a bucket does to the ranks: nothing.
pub proof fn lemma_emit_ranks(moved: SearchState, bucket: Set<u32>, words: nat)
    requires
        ranks_bounded(moved, words),
    ensures
        ranks_bounded(emit(moved, bucket), words),
        bounds(emit(moved, bucket).rules, words) == bounds(moved.rules, words),
        ranks(emit(moved, bucket)) == ranks(moved),
{
    let next = emit(moved, bucket);
    assert forall|i: int| 0 <= i < next.rules.len() implies rank(next.rules[i], next.words) == rank(
        moved.rules[i],
        moved.words,
    ) by {}
    assert forall|i: int| 0 <= i < next.rules.len() implies 0 <= #[trigger] rank(
        next.rules[i],
        next.words,
    ) <= rank_bound(next.rules[i], words) by {
        assert(0 <= rank(moved.rules[i], moved.words) <= rank_bound(moved.rules[i], words));
    }
    assert(bounds(next.rules, words) =~= bounds(moved.rules, words));
    assert(ranks(next) =~= ranks(moved));
}

/// Every step of a search that is not over hands out a document or makes
/// the fuel shrink; this is why a search ends.
pub proof fn lemma_step_progress(state: SearchState, index: IndexView, words: nat)
    requires
        0 <= state.cursor < state.rules.len(),
        !state.exhausted,
        ranks_bounded(state, words),
    ensures
        ranks_bounded(search_step(state, index), words),
        bounds(search_step(state, index).rules, words) == bounds(state.rules, words),
        total_len(search_step(state, index).buckets) > total_len(state.buckets) || 0 <= fuel(
            search_step(state, index),
            words,
        ) < fuel(state, words),
{
    let cursor = state.cursor;
    let outcome = cursor_outcome(state, index);
    let moved = moved_state(state, index);
    let next = search_step(state, index);
    let limits = bounds(state.rules, words);
    let before = ranks(state);
    let after = ranks(moved);
    lemma_move_ranks(state, index, words);
    assert forall|i: int| 0 <= i < limits.len() implies #[trigger] limits[i] >= 0 by {
        assert(0 <= rank(state.rules[i], state.words));
    }
    assert forall|i: int| 0 <= i < cursor implies 0 <= #[trigger] after[i] <= before[i] by {
        assert(0 <= rank(moved.rules[i], moved.words));
    }
    assert(0 <= rank(moved.rules[cursor], moved.words));
    assert(0 <= rank(state.rules[cursor], state.words));
    lemma_potential_monotone(after, before, limits, cursor - 1);
    lemma_weight_positive(limits, cursor);
    let here = weight(limits, cursor);
    match outcome.step {
        StepView::Continue => {
            // The rank of the rule under the cursor has shrunk by one at least.
            assert((after[cursor] + 1) * here <= (before[cursor] + 1) * here - here)
                by (nonlinear_arith)
                requires
                    0 <= after[cursor] < before[cursor],
                    here >= 1,
            ;
            assert(0 <= (after[cursor] + 1) * here) by (nonlinear_arith)
                requires
                    0 <= after[cursor],
                    here >= 1,
            ;
            assert(potential(after, limits, cursor) <= potential(before, limits, cursor) - here);
            if cursor == state.rules.len() - 1 {
                let bucket = rule_results(outcome.rule, outcome.words);
                lemma_emit_ranks(moved, bucket, words);
                assert(next.buckets.drop_last() == state.buckets);
                assert(ranks(next) == after);
                assert(bounds(next.rules, words) == limits);
                assert(fuel(next, words) == 1 + potential(after, limits, cursor));
                assert(fuel(state, words) == 1 + potential(before, limits, cursor));
                assert(0 <= fuel(next, words) < fuel(state, words));
            } else {
                lemma_weight_positive(limits, cursor + 1);
                let below = weight(limits, cursor + 1);
                assert(0 <= rank(moved.rules[cursor + 1], moved.words) <= rank_bound(
                    moved.rules[cursor + 1],
                    words,
                ));
                assert(here == (limits[cursor + 1] + 2) * below);
                assert(0 <= (after[cursor + 1] + 1) * below <= here - below) by (nonlinear_arith)
                    requires
                        0 <= after[cursor + 1] <= limits[cursor + 1],
                        here == (limits[cursor + 1] + 2) * below,
                        below >= 1,
                ;
                assert(ranks(next) == after);
                assert(bounds(next.rules, words) == limits);
                assert(potential(after, limits, cursor + 1) == potential(after, limits, cursor) + (
                after[cursor + 1] + 1) * below);
                assert(fuel(next, words) == 1 + potential(after, limits, cursor + 1));
                assert(fuel(state, words) == 1 + potential(before, limits, cursor));
                assert(0 <= fuel(next, words) < fuel(state, words));
            }
        },
        StepView::Break(bucket) => {
            assert(1 <= (before[cursor] + 1) * here) by (nonlinear_arith)
                requires
                    0 <= before[cursor],
                    here >= 1,
            ;
            assert(fuel(state, words) == 1 + potential(before, limits, cursor));
            if bucket == Set::<u32>::empty() {
                if cursor > 0 {
                    assert(ranks(next) == after);
                    assert(bounds(next.rules, words) == limits);
                    assert(fuel(next, words) == 1 + potential(after, limits, cursor - 1));
                }
            } else {
                lemma_emit_ranks(moved, bucket, words);
                assert(next.buckets.drop_last() == state.buckets);
                lemma_u32_set_bounded(bucket);
                assert(bucket.len() > 0) by {
                    if bucket.len() == 0 {
                        assert(bucket =~= Set::<u32>::empty());
                    }
                }
            }
        },
    }
}

/// Running one step more is running from the state after the first step.
pub proof fn lemma_run_shift(state: SearchState, index: IndexView, steps: nat)
    ensures
        run(state, index, steps + 1) == run(search_step(state, index), index, steps),
    decreases steps,
{
    if steps == 0 {
        assert(run(state, index, 1) == search_step(run(state, index, 0), index));
    } else {
        lemma_run_shift(state, index, (steps - 1) as nat);
        assert(run(state, index, steps + 1) == search_step(run(state, index, steps), index));
        assert(run(search_step(state, index), index, steps) == search_step(
            run(search_step(state, index), index, (steps - 1) as nat),
            index,
        ));
    }
}

/// From a state of which the invariant holds, the search is over after
/// some number of steps.
pub proof fn lemma_halts(
    state: SearchState,
    index: IndexView,
    universe: Set<u32>,
    words: nat,
    limit: nat,
) -> (steps: nat)
    requires
        state_inv(state, universe),
        ranks_bounded(state, words),
    ensures
        halted(run(state, index, steps), limit),
    decreases
            (if total_len(state.buckets) < limit {
                limit - total_len(state.buckets)
            } else {
                0
            }),
            fuel(state, words),
{
    if halted(state, limit) {
        0
    } else {
        lemma_step_keeps_inv(state, index, universe);
        lemma_step_progress(state, index, words);
        let later = lemma_halts(search_step(state, index), index, universe, words, limit);
        lemma_run_shift(state, index, later);
        later + 1
    }
}

/// A search that is over after some steps was first over at some moment.
pub proof fn lemma_first_halt(start: SearchState, index: IndexView, limit: nat, steps: nat) -> (first:
    nat)
    requires
        halted(run(start, index, steps), limit),
    ensures
        stops_after(start, index, limit, first),
    decreases steps,
{
    if exists|earlier: nat| earlier < steps && halted(#[trigger] run(start, index, earlier), limit) {
        let earlier = choose|earlier: nat|
            earlier < steps && halted(#[trigger] run(start, index, earlier), limit);
        lemma_first_halt(start, index, limit, earlier)
    } else {
        steps
    }
}

/// Every search stops: whatever the candidates, the rules and the number
/// of documents asked for, there is a moment at which the first rule has
/// nothing left or enough documents have been handed out.
pub proof fn lemma_search_stops(
    kinds: Seq<RankingRule>,
    words: Seq<CandidateView>,
    index: IndexView,
    limit: nat,
)
    requires
        runnable(kinds),
    ensures
        exists|steps: nat| stops_after(start_state(kinds, words), index, limit, steps),
{
    let start = start_state(kinds, words);
    lemma_start_state(kinds, words);
    let steps = lemma_halts(start, index, candidates_universe(words), words.len(), limit);
    let first = lemma_first_halt(start, index, limit, steps);
    assert(stops_after(start, index, limit, first));
}

} // verus!
