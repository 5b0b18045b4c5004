//! The search: two frontiers, one that grows from the given state and one
//! that grows from the wanted state, take turns until they meet or run out.

use vstd::prelude::*;
use crate::balancer::{Balancer, BalancerResult, BalancerState, Outcome};
use crate::clock::Deadline;
use crate::divisors::{gcd_of, gcd_over};
use crate::engine::{
    after_backward_turn, after_forward_turn, after_predecessor, after_predecessors,
    after_successor, after_successors, after_turns, backward_moves_from, entered, fresh_row,
    lemma_after_turns_next, lemma_after_turns_stays, opening, predecessors_seen, search_result,
    stopped, successors_seen, Found, Position, Progress,
};
use crate::estimate::heuristic_cost;
use crate::frontier::{goes_before, lowest, pop_lowest, Entry};
use crate::helpers::{
    backward_candidates, forward_candidates, gcd, gcd_vec, multiset, validate_state,
};
use crate::model::{ascending, canonical, lemma_canonical, lemma_total_bound, step, total};
use crate::moves::{
    admissible, backward_moves, forward_moves, lemma_backward_moves_sound,
    lemma_forward_moves_sound, within, within_capacity,
};
use crate::operation::{Operation, ReverseOperation};
use crate::path::{balanced_path, lemma_path_leads, lemma_solution_is_balanced, solves};
use crate::reach::{
    awaited, closed_forward, covered, expanded_forward, extended, fresh_backward_pending,
    fresh_forward_pending, leads, lemma_backward_move_is_forward_move,
    lemma_closed_after_backward, lemma_closed_after_forward, lemma_closed_holds_all,
    lemma_covered_after_backward, lemma_covered_after_forward, lemma_fresh_backward_twice,
    lemma_fresh_forward_twice, lemma_grown_backward_twice, lemma_grown_forward_twice,
    lemma_move_result_moves, lemma_reached_grown_forward, move_result, moves_to, pending,
    reached_forward, settled,
};
use crate::table::SearchTable;

verus! {

/// The entry stands for a state that the table holds as reached from the
/// start, at a cost no higher than the entry's, which `bound` bounds; its
/// priority is its cost plus the estimate of what remains to `goal`.
pub open spec fn waits_forward(
    e: Entry,
    table: SearchTable,
    goal: Seq<u64>,
    gcd: u64,
    bound: int,
) -> bool {
    &&& e.node < table.len()
    &&& table.fwd_cost@[e.node as int] is Some
    &&& table.fwd_cost@[e.node as int]->0 <= e.cost <= bound
    &&& e.priority == e.cost + heuristic_cost(table.state(e.node as int), goal, gcd)
}

/// The entry stands for a state that the table holds as reached from the
/// target, at a cost no higher than the entry's, which `bound` bounds; its
/// priority is its cost plus the estimate of what remains to `init`.
pub open spec fn waits_backward(
    e: Entry,
    table: SearchTable,
    init: Seq<u64>,
    gcd: u64,
    bound: int,
) -> bool {
    &&& e.node < table.len()
    &&& table.bkwd_cost@[e.node as int] is Some
    &&& table.bkwd_cost@[e.node as int]->0 <= e.cost <= bound
    &&& e.priority == e.cost + heuristic_cost(table.state(e.node as int), init, gcd)
}

/// Every entry of the forward frontier waits as `waits_forward` says.
pub open spec fn waiting_forward(
    frontier: Seq<Entry>,
    table: SearchTable,
    goal: Seq<u64>,
    gcd: u64,
    bound: int,
) -> bool {
    forall|k: int|
        0 <= k < frontier.len() ==> waits_forward(#[trigger] frontier[k], table, goal, gcd, bound)
}

/// Every entry of the backward frontier waits as `waits_backward` says.
pub open spec fn waiting_backward(
    frontier: Seq<Entry>,
    table: SearchTable,
    init: Seq<u64>,
    gcd: u64,
    bound: int,
) -> bool {
    forall|k: int|
        0 <= k < frontier.len() ==> waits_backward(#[trigger] frontier[k], table, init, gcd, bound)
}

/// State `n` of `old` is state `n` of `new`; what is known of it backwards
/// is unchanged, and forwards it is reached at no higher cost, the start
/// still without an operation.
pub open spec fn carried_forward(old: SearchTable, new: SearchTable, n: int) -> bool {
    &&& new.state(n) == old.state(n)
    &&& new.bkwd_cost@[n] == old.bkwd_cost@[n]
    &&& new.bkwd_from@[n] == old.bkwd_from@[n]
    &&& old.fwd_cost@[n] is Some ==> new.fwd_cost@[n] is Some && new.fwd_cost@[n]->0
        <= old.fwd_cost@[n]->0
    &&& old.fwd_cost@[n] == Some(0u128) ==> new.fwd_from@[n] == old.fwd_from@[n]
}

/// State `n` of `old` is state `n` of `new`; what is known of it forwards
/// is unchanged, and backwards it is reached at no higher cost, the target
/// still without an operation.
pub open spec fn carried_backward(old: SearchTable, new: SearchTable, n: int) -> bool {
    &&& new.state(n) == old.state(n)
    &&& new.fwd_cost@[n] == old.fwd_cost@[n]
    &&& new.fwd_from@[n] == old.fwd_from@[n]
    &&& old.bkwd_cost@[n] is Some ==> new.bkwd_cost@[n] is Some && new.bkwd_cost@[n]->0
        <= old.bkwd_cost@[n]->0
    &&& old.bkwd_cost@[n] == Some(0u128) ==> new.bkwd_from@[n] == old.bkwd_from@[n]
}

/// `new` is `old` after forward expansions.
pub open spec fn grown_forward(old: SearchTable, new: SearchTable) -> bool {
    &&& old.len() <= new.len()
    &&& forall|n: int| 0 <= n < old.len() ==> #[trigger] carried_forward(old, new, n)
}

/// `new` is `old` after backward expansions.
pub open spec fn grown_backward(old: SearchTable, new: SearchTable) -> bool {
    &&& old.len() <= new.len()
    &&& forall|n: int| 0 <= n < old.len() ==> #[trigger] carried_backward(old, new, n)
}

/// The total of `values`.
pub fn sum_values(values: &Vec<u64>) -> (sum: u128)
    ensures
        sum == total(values@),
{
    let mut sum: u128 = 0;
    let mut i: usize = 0;
    while i < values.len()
        invariant
            i <= values.len(),
            sum == total(values@.take(i as int)),
        decreases values.len() - i,
    {
        proof {
            assert(values@.take(i + 1).drop_last() =~= values@.take(i as int));
            lemma_total_bound(values@.take(i as int));
            assert(i * 0xffff_ffff_ffff_ffff <= 0xffff_ffff_ffff_ffff * 0xffff_ffff_ffff_ffff)
                by (nonlinear_arith)
                requires
                    i <= 0xffff_ffff_ffff_ffff,
            ;
        }
        sum = sum + values[i] as u128;
        i += 1;
    }
    proof {
        assert(values@.take(values.len() as int) =~= values@);
    }
    sum
}

/// Entry `i` of `old` goes before all others, and `new` holds the others
/// in their order, then what was put on the frontier since.
pub open spec fn examined(old: Seq<Entry>, i: int, new: Seq<Entry>) -> bool {
    &&& 0 <= i < old.len()
    &&& forall|k: int| 0 <= k < old.len() ==> goes_before(old[i], #[trigger] old[k])
    &&& extended(old.remove(i), new)
}

/// A search between two turns: the states met so far, the entries that wait
/// on either side, the place of the target in the table, and the state in
/// which the two sides have met, if they have.
pub struct Search {
    pub table: SearchTable,
    pub frontier_fwd: Vec<Entry>,
    pub frontier_bkwd: Vec<Entry>,
    pub goal_idx: usize,
    pub meeting: Option<usize>,
}

impl View for Search {
    type V = Position;

    open spec fn view(&self) -> Position {
        Position {
            rows: self.table.rows(),
            frontier_fwd: self.frontier_fwd@,
            frontier_bkwd: self.frontier_bkwd@,
            goal_idx: self.goal_idx,
            meeting: self.meeting,
        }
    }
}

impl Search {
    /// What holds between turns. State 0 is the start and `goal_idx` the
    /// target; what the table records is sound; every entry that waits
    /// stands for a recorded state and costs `bound` at most; a meeting
    /// point is reached from both sides; every state reached from the start
    /// waits or has been expanded; and until the sides have met, every state
    /// reached from both waits.
    pub open spec fn inv(
        &self,
        init: Seq<u64>,
        goal: Seq<u64>,
        gcd: u64,
        cap: u64,
        bound: int,
    ) -> bool {
        &&& self.table.wf(init, goal, gcd, cap)
        &&& waiting_forward(self.frontier_fwd@, self.table, goal, gcd, bound)
        &&& waiting_backward(self.frontier_bkwd@, self.table, init, gcd, bound)
        &&& self.table.len() > 0
        &&& self.table.state(0) == init
        &&& self.table.fwd_cost@[0] == Some(0u128)
        &&& self.table.fwd_from@[0] is None
        &&& self.goal_idx < self.table.len()
        &&& self.table.state(self.goal_idx as int) == goal
        &&& self.table.bkwd_cost@[self.goal_idx as int] == Some(0u128)
        &&& self.table.bkwd_from@[self.goal_idx as int] is None
        &&& match self.meeting {
            Some(m) => m < self.table.len() && self.table.fwd_cost@[m as int] is Some
                && self.table.bkwd_cost@[m as int] is Some,
            None => covered(self.table, self.frontier_fwd@, self.frontier_bkwd@),
        }
        &&& closed_forward(self.table, self.frontier_fwd@, gcd, cap)
    }

    /// What held for a bound holds for every higher one.
    pub proof fn lemma_inv_weaken(
        &self,
        init: Seq<u64>,
        goal: Seq<u64>,
        gcd: u64,
        cap: u64,
        bound: int,
        higher: int,
    )
        requires
            self.inv(init, goal, gcd, cap, bound),
            bound <= higher,
        ensures
            self.inv(init, goal, gcd, cap, higher),
    {
        assert forall|k: int| 0 <= k < self.frontier_fwd@.len() implies waits_forward(
            #[trigger] self.frontier_fwd@[k],
            self.table,
            goal,
            gcd,
            higher,
        ) by {}
        assert forall|k: int| 0 <= k < self.frontier_bkwd@.len() implies waits_backward(
            #[trigger] self.frontier_bkwd@[k],
            self.table,
            init,
            gcd,
            higher,
        ) by {}
    }

    /// With nothing waiting on either side and no meeting point, no
    /// sequence of forward moves makes the target of the start.
    pub proof fn lemma_exhausted(
        &self,
        init: Seq<u64>,
        goal: Seq<u64>,
        gcd: u64,
        cap: u64,
        bound: int,
        n: nat,
    )
        requires
            self.inv(init, goal, gcd, cap, bound),
            self.meeting is None,
            self.frontier_fwd@.len() == 0,
            self.frontier_bkwd@.len() == 0,
        ensures
            !leads(init, goal, gcd, cap, n),
    {
        if leads(init, goal, gcd, cap, n) {
            reveal(covered);
            self.table.lemma_wf_shaped(init, goal, gcd, cap);
            assert(self.frontier_fwd@ =~= Seq::<Entry>::empty());
            assert(self.table.state(0) == init);
            assert(reached_forward(self.table, init));
            lemma_closed_holds_all(self.table, init, goal, gcd, cap, n);
            let m = choose|m: int|
                0 <= m < self.table.len() && #[trigger] self.table.state(m) == goal
                    && self.table.fwd_cost@[m] is Some;
            let g = self.goal_idx as int;
            assert(self.table.state(g) == goal);
            if m < g {
                assert(self.table.state(m) != self.table.state(g));
            } else if g < m {
                assert(self.table.state(g) != self.table.state(m));
            }
            assert(awaited(self.table, self.frontier_fwd@, self.frontier_bkwd@, g));
            assert(!pending(self.frontier_fwd@, g));
            assert(!pending(self.frontier_bkwd@, g));
        }
    }
}

impl Balancer {
    /// Examines one successor of state `cur`, which was reached at the cost
    /// `cost`: the successor is entered in the table if it is new, and where
    /// `action` reaches it more cheaply than it was reached before, that is
    /// recorded and an entry for it is put on the frontier.
    #[verifier::rlimit(30)]
    pub fn record_successor(
        &self,
        table: &mut SearchTable,
        frontier: &mut Vec<Entry>,
        cur: usize,
        cost: u128,
        action: Operation,
        next: BalancerState,
        target: &Vec<u64>,
        gcd: u64,
        Ghost(init): Ghost<Seq<u64>>,
        Ghost(goal): Ghost<Seq<u64>>,
        Ghost(bound): Ghost<int>,
    )
        requires
            old(table).wf(init, goal, gcd, self.max_belt),
            cur < old(table).len(),
            old(table).fwd_cost@[cur as int] is Some,
            old(table).fwd_cost@[cur as int]->0 <= cost,
            cost + 3 <= bound <= 4 * 0xffff_ffff_ffff_ffff,
            target@ == goal,
            waiting_forward(old(frontier)@, *old(table), goal, gcd, bound),
            step(old(table).state(cur as int), action, next@),
            moves_to(old(table).state(cur as int), next@, gcd, self.max_belt),
            within(next@, self.max_belt),
            ascending(next@),
        ensures
            final(table).wf(init, goal, gcd, self.max_belt),
            grown_forward(*old(table), *final(table)),
            waiting_forward(final(frontier)@, *final(table), goal, gcd, bound),
            extended(old(frontier)@, final(frontier)@),
            fresh_forward_pending(*old(table), *final(table), final(frontier)@),
            reached_forward(*final(table), next@),
            forall|n: int|
                old(table).len() <= n < final(table).len() ==> (#[trigger] final(table).bkwd_cost@[n])
                    is None,
            (final(table).rows(), final(frontier)@) == after_successor(
                old(table).rows(),
                old(frontier)@,
                cur,
                cost,
                action,
                next@,
                goal,
                gcd,
            ),
    {
        let ghost cap = self.max_belt;
        let ghost seen = *table;
        let ghost queued = frontier@;
        let new_cost: u128 = cost + action.cost() as u128;
        let found = table.find(&next);
        proof {
            table.lemma_wf_shaped(init, goal, gcd, cap);
            table.lemma_found_is_held_at(next@, found);
        }
        let idx = match found {
            Some(i) => i,
            None => table.add(next.clone(), Ghost(init), Ghost(goal), Ghost(gcd), Ghost(cap)),
        };
        let ghost all = table.rows();
        let better = match table.fwd_cost[idx] {
            None => true,
            Some(prev) => new_cost < prev,
        };
        if better {
            table.reach_forward(
                idx,
                new_cost,
                action,
                cur,
                Ghost(init),
                Ghost(goal),
                Ghost(gcd),
                Ghost(cap),
            );
            let estimate = Balancer::heuristic(&next.values, target, gcd);
            frontier.push(Entry { priority: estimate + new_cost, cost: new_cost, node: idx });
        }
        proof {
            assert(all == entered(seen.rows(), next@));
            assert(all[idx as int].fwd_cost == seen.rows().push(fresh_row(next@))[idx as int].fwd_cost
                || all[idx as int].fwd_cost == seen.rows()[idx as int].fwd_cost);
            assert forall|n: int| 0 <= n < seen.len() implies #[trigger] carried_forward(
                seen,
                *table,
                n,
            ) by {}
            assert forall|k: int| 0 <= k < frontier@.len() implies waits_forward(
                #[trigger] frontier@[k],
                *table,
                goal,
                gcd,
                bound,
            ) by {
                if k < queued.len() {
                    let e = queued[k];
                    assert(frontier@[k] == e);
                    assert(waits_forward(e, seen, goal, gcd, bound));
                    assert(carried_forward(seen, *table, e.node as int));
                }
            }
            assert forall|n: int|
                0 <= n < table.len() && (#[trigger] table.fwd_cost@[n]) is Some implies (n
                < seen.len() && seen.fwd_cost@[n] is Some) || pending(frontier@, n) by {
                if n == idx && better {
                    assert(frontier@[queued.len() as int].node == n);
                }
            }
            assert(table.state(idx as int) == next@);
        }
    }

    /// Examines the successors of state `cur`, which was reached at the cost
    /// `cost`, in the order of the forward moves. Returns how many
    /// successors there were.
    #[verifier::rlimit(30)]
    pub fn expand_forward(
        &self,
        table: &mut SearchTable,
        frontier: &mut Vec<Entry>,
        cur: usize,
        cost: u128,
        target: &Vec<u64>,
        gcd: u64,
        Ghost(init): Ghost<Seq<u64>>,
        Ghost(goal): Ghost<Seq<u64>>,
        Ghost(bound): Ghost<int>,
    ) -> (generated: usize)
        requires
            old(table).wf(init, goal, gcd, self.max_belt),
            cur < old(table).len(),
            old(table).fwd_cost@[cur as int] is Some,
            old(table).fwd_cost@[cur as int]->0 <= cost,
            cost + 3 <= bound <= 4 * 0xffff_ffff_ffff_ffff,
            target@ == goal,
            waiting_forward(old(frontier)@, *old(table), goal, gcd, bound),
        ensures
            final(table).wf(init, goal, gcd, self.max_belt),
            grown_forward(*old(table), *final(table)),
            waiting_forward(final(frontier)@, *final(table), goal, gcd, bound),
            extended(old(frontier)@, final(frontier)@),
            fresh_forward_pending(*old(table), *final(table), final(frontier)@),
            expanded_forward(*final(table), cur as int, gcd, self.max_belt),
            forall|n: int|
                old(table).len() <= n < final(table).len() ==> (#[trigger] final(table).bkwd_cost@[n])
                    is None,
            generated == forward_moves(old(table).state(cur as int), gcd, self.max_belt).len(),
            (final(table).rows(), final(frontier)@) == after_successors(
                old(table).rows(),
                old(frontier)@,
                cur,
                cost,
                old(table).state(cur as int),
                forward_moves(old(table).state(cur as int), gcd, self.max_belt),
                goal,
                gcd,
            ),
    {
        let ghost cap = self.max_belt;
        let ghost first = *table;
        let ghost waiting = frontier@;
        proof {
            table.lemma_wf_shaped(init, goal, gcd, cap);
        }
        let cur_state = table.states[cur].to_vec();
        let next_states = self.get_states_fwd(&cur_state, gcd);
        let ghost moves = forward_moves(cur_state@, gcd, cap);
        let mut j: usize = 0;
        proof {
            assert forall|n: int| 0 <= n < first.len() implies #[trigger] carried_forward(
                first,
                *table,
                n,
            ) by {}
            assert(moves.take(0) =~= Seq::<Operation>::empty());
        }
        while j < next_states.len()
            invariant
                j <= next_states.len(),
                table.wf(init, goal, gcd, cap),
                cap == self.max_belt,
                grown_forward(first, *table),
                waiting_forward(frontier@, *table, goal, gcd, bound),
                target@ == goal,
                cost + 3 <= bound <= 4 * 0xffff_ffff_ffff_ffff,
                cur < first.len(),
                first.shaped(),
                first.state(cur as int) == cur_state@,
                first.fwd_cost@[cur as int] is Some,
                first.fwd_cost@[cur as int]->0 <= cost,
                moves == forward_moves(cur_state@, gcd, cap),
                forward_candidates(next_states@, cur_state@, moves),
                extended(waiting, frontier@),
                fresh_forward_pending(first, *table, frontier@),
                forall|n: int| first.len() <= n < table.len() ==> (#[trigger] table.bkwd_cost@[n]) is None,
                forall|k: int|
                    0 <= k < j ==> reached_forward(*table, #[trigger] move_result(cur_state@, gcd, cap, k)),
                (table.rows(), frontier@) == after_successors(
                    first.rows(),
                    waiting,
                    cur,
                    cost,
                    cur_state@,
                    moves.take(j as int),
                    goal,
                    gcd,
                ),
            decreases next_states.len() - j,
        {
            let action = next_states[j].0;
            let next = next_states[j].1.clone();
            let ghost seen = *table;
            let ghost queued = frontier@;
            proof {
                lemma_forward_moves_sound(cur_state@, gcd, cap, j as int);
                lemma_move_result_moves(cur_state@, gcd, cap, j as int);
                assert(carried_forward(first, seen, cur as int));
                assert(moves.take(j + 1).drop_last() =~= moves.take(j as int));
                assert(moves.take(j + 1).last() == moves[j as int]);
            }
            self.record_successor(
                table,
                frontier,
                cur,
                cost,
                action,
                next,
                target,
                gcd,
                Ghost(init),
                Ghost(goal),
                Ghost(bound),
            );
            proof {
                lemma_grown_forward_twice(first, seen, *table);
                lemma_fresh_forward_twice(first, seen, *table, queued, frontier@);
                assert forall|n: int| first.len() <= n < table.len() implies (#[trigger] table.bkwd_cost@[n])
                    is None by {
                    if n < seen.len() {
                        assert(carried_forward(seen, *table, n));
                    }
                }
                assert forall|k: int| 0 <= k < j + 1 implies reached_forward(
                    *table,
                    #[trigger] move_result(cur_state@, gcd, cap, k),
                ) by {
                    if k < j {
                        lemma_reached_grown_forward(seen, *table, move_result(cur_state@, gcd, cap, k));
                    }
                }
            }
            j += 1;
        }
        proof {
            assert(carried_forward(first, *table, cur as int));
            assert(moves.take(next_states.len() as int) =~= moves);
        }
        next_states.len()
    }

    /// Examines one predecessor of state `cur`, which was reached from the
    /// target at the cost `cost`: the predecessor is entered in the table if
    /// it is new, and where `action` reaches it more cheaply than it was
    /// reached before, that is recorded and an entry for it is put on the
    /// frontier.
    #[verifier::rlimit(30)]
    pub fn record_predecessor(
        &self,
        table: &mut SearchTable,
        frontier: &mut Vec<Entry>,
        cur: usize,
        cost: u128,
        action: ReverseOperation,
        prev: BalancerState,
        start: &Vec<u64>,
        gcd: u64,
        Ghost(init): Ghost<Seq<u64>>,
        Ghost(goal): Ghost<Seq<u64>>,
        Ghost(bound): Ghost<int>,
    )
        requires
            old(table).wf(init, goal, gcd, self.max_belt),
            cur < old(table).len(),
            old(table).bkwd_cost@[cur as int] is Some,
            old(table).bkwd_cost@[cur as int]->0 <= cost,
            cost + 3 <= bound <= 4 * 0xffff_ffff_ffff_ffff,
            start@ == init,
            waiting_backward(old(frontier)@, *old(table), init, gcd, bound),
            action.spec_forward().conserves(),
            step(prev@, action.spec_forward(), old(table).state(cur as int)),
            moves_to(prev@, old(table).state(cur as int), gcd, self.max_belt),
            within(old(table).state(cur as int), self.max_belt),
            ascending(prev@),
        ensures
            final(table).wf(init, goal, gcd, self.max_belt),
            grown_backward(*old(table), *final(table)),
            waiting_backward(final(frontier)@, *final(table), init, gcd, bound),
            extended(old(frontier)@, final(frontier)@),
            fresh_backward_pending(*old(table), *final(table), final(frontier)@),
            forall|n: int|
                old(table).len() <= n < final(table).len() ==> (#[trigger] final(table).fwd_cost@[n])
                    is None,
            (final(table).rows(), final(frontier)@) == after_predecessor(
                old(table).rows(),
                old(frontier)@,
                cur,
                cost,
                action,
                prev@,
                init,
                gcd,
            ),
    {
        let ghost cap = self.max_belt;
        let ghost seen = *table;
        let ghost queued = frontier@;
        let new_cost: u128 = cost + action.cost() as u128;
        let found = table.find(&prev);
        proof {
            table.lemma_wf_shaped(init, goal, gcd, cap);
            table.lemma_found_is_held_at(prev@, found);
        }
        let idx = match found {
            Some(i) => i,
            None => table.add(prev.clone(), Ghost(init), Ghost(goal), Ghost(gcd), Ghost(cap)),
        };
        let ghost all = table.rows();
        let better = match table.bkwd_cost[idx] {
            None => true,
            Some(before) => new_cost < before,
        };
        if better {
            table.reach_backward(
                idx,
                new_cost,
                action,
                cur,
                Ghost(init),
                Ghost(goal),
                Ghost(gcd),
                Ghost(cap),
            );
            let estimate = Balancer::heuristic(&prev.values, start, gcd);
            frontier.push(Entry { priority: estimate + new_cost, cost: new_cost, node: idx });
        }
        proof {
            assert(all == entered(seen.rows(), prev@));
            assert forall|n: int| 0 <= n < seen.len() implies #[trigger] carried_backward(
                seen,
                *table,
                n,
            ) by {}
            assert forall|k: int| 0 <= k < frontier@.len() implies waits_backward(
                #[trigger] frontier@[k],
                *table,
                init,
                gcd,
                bound,
            ) by {
                if k < queued.len() {
                    let e = queued[k];
                    assert(frontier@[k] == e);
                    assert(waits_backward(e, seen, init, gcd, bound));
                    assert(carried_backward(seen, *table, e.node as int));
                }
            }
            assert forall|n: int|
                0 <= n < table.len() && (#[trigger] table.bkwd_cost@[n]) is Some implies (n
                < seen.len() && seen.bkwd_cost@[n] is Some) || pending(frontier@, n) by {
                if n == idx && better {
                    assert(frontier@[queued.len() as int].node == n);
                }
            }
        }
    }

    /// Examines the predecessors of state `cur`, which was reached from the
    /// target at the cost `cost`, in the order of the backward moves. A state
    /// that exceeds the capacity or does not pass the divisor gate has no
    /// predecessors, since every step into it would lead through it. Returns
    /// how many predecessors there were.
    #[verifier::rlimit(30)]
    pub fn expand_backward(
        &self,
        table: &mut SearchTable,
        frontier: &mut Vec<Entry>,
        cur: usize,
        cost: u128,
        start: &Vec<u64>,
        gcd: u64,
        Ghost(init): Ghost<Seq<u64>>,
        Ghost(goal): Ghost<Seq<u64>>,
        Ghost(bound): Ghost<int>,
    ) -> (generated: usize)
        requires
            old(table).wf(init, goal, gcd, self.max_belt),
            cur < old(table).len(),
            old(table).bkwd_cost@[cur as int] is Some,
            old(table).bkwd_cost@[cur as int]->0 <= cost,
            cost + 3 <= bound <= 4 * 0xffff_ffff_ffff_ffff,
            start@ == init,
            waiting_backward(old(frontier)@, *old(table), init, gcd, bound),
        ensures
            final(table).wf(init, goal, gcd, self.max_belt),
            grown_backward(*old(table), *final(table)),
            waiting_backward(final(frontier)@, *final(table), init, gcd, bound),
            extended(old(frontier)@, final(frontier)@),
            fresh_backward_pending(*old(table), *final(table), final(frontier)@),
            forall|n: int|
                old(table).len() <= n < final(table).len() ==> (#[trigger] final(table).fwd_cost@[n])
                    is None,
            generated == backward_moves_from(old(table).state(cur as int), gcd, self.max_belt).len(),
            (final(table).rows(), final(frontier)@) == after_predecessors(
                old(table).rows(),
                old(frontier)@,
                cur,
                cost,
                old(table).state(cur as int),
                backward_moves_from(old(table).state(cur as int), gcd, self.max_belt),
                init,
                gcd,
            ),
    {
        let ghost cap = self.max_belt;
        let ghost first = *table;
        let ghost waiting = frontier@;
        proof {
            table.lemma_wf_shaped(init, goal, gcd, cap);
            assert forall|n: int| 0 <= n < first.len() implies #[trigger] carried_backward(
                first,
                *table,
                n,
            ) by {}
        }
        if !within_capacity(&table.states[cur], self.max_belt) || !validate_state(
            &table.states[cur],
            gcd,
        ) {
            return 0;
        }
        let cur_state = table.states[cur].to_vec();
        let next_states = self.get_states_bkwd(&cur_state, gcd);
        let ghost moves = backward_moves(cur_state@, gcd, cap);
        let mut j: usize = 0;
        proof {
            first.lemma_wf_facts(init, goal, gcd, cap, cur as int);
            assert(moves.take(0) =~= Seq::<ReverseOperation>::empty());
        }
        while j < next_states.len()
            invariant
                j <= next_states.len(),
                table.wf(init, goal, gcd, cap),
                cap == self.max_belt,
                grown_backward(first, *table),
                waiting_backward(frontier@, *table, init, gcd, bound),
                start@ == init,
                cost + 3 <= bound <= 4 * 0xffff_ffff_ffff_ffff,
                cur < first.len(),
                first.shaped(),
                first.state(cur as int) == cur_state@,
                ascending(cur_state@),
                admissible(cur_state@, gcd, cap),
                first.bkwd_cost@[cur as int] is Some,
                first.bkwd_cost@[cur as int]->0 <= cost,
                moves == backward_moves(cur_state@, gcd, cap),
                backward_candidates(next_states@, cur_state@, moves),
                extended(waiting, frontier@),
                fresh_backward_pending(first, *table, frontier@),
                forall|n: int| first.len() <= n < table.len() ==> (#[trigger] table.fwd_cost@[n]) is None,
                (table.rows(), frontier@) == after_predecessors(
                    first.rows(),
                    waiting,
                    cur,
                    cost,
                    cur_state@,
                    moves.take(j as int),
                    init,
                    gcd,
                ),
            decreases next_states.len() - j,
        {
            let action = next_states[j].0;
            let prev = next_states[j].1.clone();
            let ghost seen = *table;
            let ghost queued = frontier@;
            proof {
                lemma_backward_moves_sound(cur_state@, gcd, cap, j as int);
                lemma_backward_move_is_forward_move(cur_state@, gcd, cap, j as int);
                crate::model::lemma_step_facts(prev@, action.spec_forward(), cur_state@);
                assert(carried_backward(first, seen, cur as int));
                assert(moves.take(j + 1).drop_last() =~= moves.take(j as int));
                assert(moves.take(j + 1).last() == moves[j as int]);
            }
            self.record_predecessor(
                table,
                frontier,
                cur,
                cost,
                action,
                prev,
                start,
                gcd,
                Ghost(init),
                Ghost(goal),
                Ghost(bound),
            );
            proof {
                lemma_grown_backward_twice(first, seen, *table);
                lemma_fresh_backward_twice(first, seen, *table, queued, frontier@);
                assert forall|n: int| first.len() <= n < table.len() implies (#[trigger] table.fwd_cost@[n])
                    is None by {
                    if n < seen.len() {
                        assert(carried_backward(seen, *table, n));
                    }
                }
            }
            j += 1;
        }
        proof {
            assert(moves.take(next_states.len() as int) =~= moves);
        }
        next_states.len()
    }

    /// One turn of the forward side: takes the entry that goes before all
    /// others off the forward frontier, notes a meeting if the backward side
    /// has reached its state, and expands the state. Returns how many
    /// successors the state had.
    #[verifier::rlimit(30)]
    pub fn forward_turn(
        &self,
        search: &mut Search,
        target: &Vec<u64>,
        gcd: u64,
        Ghost(init): Ghost<Seq<u64>>,
        Ghost(goal): Ghost<Seq<u64>>,
        Ghost(bound): Ghost<int>,
    ) -> (generated: usize)
        requires
            old(search).inv(init, goal, gcd, self.max_belt, bound - 3),
            old(search).meeting is None,
            old(search).frontier_fwd@.len() > 0,
            target@ == goal,
            3 <= bound <= 4 * 0xffff_ffff_ffff_ffff,
        ensures
            final(search).inv(init, goal, gcd, self.max_belt, bound),
            final(search).goal_idx == old(search).goal_idx,
            final(search).frontier_bkwd@ == old(search).frontier_bkwd@,
            final(search)@ == after_forward_turn(old(search)@, goal, gcd, self.max_belt),
            generated == successors_seen(old(search)@, gcd, self.max_belt),
            exists|i: int|
                examined(old(search).frontier_fwd@, i, final(search).frontier_fwd@)
                    && expanded_forward(
                    final(search).table,
                    old(search).frontier_fwd@[i].node as int,
                    gcd,
                    self.max_belt,
                ),
            old(search).frontier_fwd@.len() == 1 && old(search).table.bkwd_cost@[old(
                search,
            ).frontier_fwd@[0].node as int] is Some ==> final(search).meeting == Some(
                old(search).frontier_fwd@[0].node,
            ),
    {
        let ghost cap = self.max_belt;
        let ghost before = search.table;
        let ghost waiting = search.frontier_fwd@;
        let ghost other = search.frontier_bkwd@;
        let entry = pop_lowest(&mut search.frontier_fwd);
        let ghost i = lowest(waiting);
        proof {
            assert forall|k: int| 0 <= k < search.frontier_fwd@.len() implies waits_forward(
                #[trigger] search.frontier_fwd@[k],
                search.table,
                goal,
                gcd,
                bound,
            ) by {
                if k < i {
                    assert(search.frontier_fwd@[k] == waiting[k]);
                } else {
                    assert(search.frontier_fwd@[k] == waiting[k + 1]);
                }
            }
            assert(waiting[i].node < before.len());
        }
        let met = search.table.bkwd_cost[entry.node].is_some();
        if met {
            search.meeting = Some(entry.node);
        }
        let generated = self.expand_forward(
            &mut search.table,
            &mut search.frontier_fwd,
            entry.node,
            entry.cost,
            target,
            gcd,
            Ghost(init),
            Ghost(goal),
            Ghost(bound),
        );
        proof {
            let after = search.table;
            assert(carried_forward(before, after, 0));
            assert(carried_forward(before, after, search.goal_idx as int));
            assert(carried_forward(before, after, entry.node as int));
            assert forall|k: int| 0 <= k < other.len() implies waits_backward(
                #[trigger] other[k],
                after,
                init,
                gcd,
                bound,
            ) by {
                assert(carried_forward(before, after, other[k].node as int));
            }
            lemma_closed_after_forward(before, after, waiting, i, search.frontier_fwd@, gcd, cap);
            assert(examined(waiting, i, search.frontier_fwd@));
            assert(before.rows()[entry.node as int].state == before.state(entry.node as int));
            assert(search@ =~= after_forward_turn(old(search)@, goal, gcd, cap));
            if !met {
                lemma_covered_after_forward(before, after, waiting, i, search.frontier_fwd@, other);
            }
        }
        generated
    }

    /// One turn of the backward side: takes the entry that goes before all
    /// others off the backward frontier, notes a meeting if the forward side
    /// has reached its state, and expands the state. Returns how many
    /// predecessors the state had.
    #[verifier::rlimit(30)]
    pub fn backward_turn(
        &self,
        search: &mut Search,
        start: &Vec<u64>,
        gcd: u64,
        Ghost(init): Ghost<Seq<u64>>,
        Ghost(goal): Ghost<Seq<u64>>,
        Ghost(bound): Ghost<int>,
    ) -> (generated: usize)
        requires
            old(search).inv(init, goal, gcd, self.max_belt, bound - 3),
            old(search).meeting is None,
            old(search).frontier_bkwd@.len() > 0,
            start@ == init,
            3 <= bound <= 4 * 0xffff_ffff_ffff_ffff,
        ensures
            final(search).inv(init, goal, gcd, self.max_belt, bound),
            final(search).goal_idx == old(search).goal_idx,
            final(search).frontier_fwd@ == old(search).frontier_fwd@,
            final(search)@ == after_backward_turn(old(search)@, init, gcd, self.max_belt),
            generated == predecessors_seen(old(search)@, gcd, self.max_belt),
            exists|i: int| examined(old(search).frontier_bkwd@, i, final(search).frontier_bkwd@),
    {
        let ghost cap = self.max_belt;
        let ghost before = search.table;
        let ghost waiting = search.frontier_bkwd@;
        let ghost other = search.frontier_fwd@;
        let entry = pop_lowest(&mut search.frontier_bkwd);
        let ghost i = lowest(waiting);
        proof {
            assert forall|k: int| 0 <= k < search.frontier_bkwd@.len() implies waits_backward(
                #[trigger] search.frontier_bkwd@[k],
                search.table,
                init,
                gcd,
                bound,
            ) by {
                if k < i {
                    assert(search.frontier_bkwd@[k] == waiting[k]);
                } else {
                    assert(search.frontier_bkwd@[k] == waiting[k + 1]);
                }
            }
            assert(waiting[i].node < before.len());
        }
        let met = search.table.fwd_cost[entry.node].is_some();
        if met {
            search.meeting = Some(entry.node);
        }
        let generated = self.expand_backward(
            &mut search.table,
            &mut search.frontier_bkwd,
            entry.node,
            entry.cost,
            start,
            gcd,
            Ghost(init),
            Ghost(goal),
            Ghost(bound),
        );
        proof {
            let after = search.table;
            assert(carried_backward(before, after, 0));
            assert(carried_backward(before, after, search.goal_idx as int));
            assert(carried_backward(before, after, entry.node as int));
            assert forall|k: int| 0 <= k < other.len() implies waits_forward(
                #[trigger] other[k],
                after,
                goal,
                gcd,
                bound,
            ) by {
                assert(carried_backward(before, after, other[k].node as int));
            }
            lemma_closed_after_backward(before, after, other, gcd, cap);
            assert(examined(waiting, i, search.frontier_bkwd@));
            assert(before.rows()[entry.node as int].state == before.state(entry.node as int));
            assert(search@ =~= after_backward_turn(old(search)@, init, gcd, cap));
            if !met {
                lemma_covered_after_backward(before, after, waiting, i, search.frontier_bkwd@, other);
            }
        }
        generated
    }

    /// The search before its first turn: the start and the target are
    /// entered in the table and wait on their frontiers.
    pub fn begin(
        &self,
        initial_state: BalancerState,
        target_state: BalancerState,
        gcd: u64,
    ) -> (search: Search)
        requires
            ascending(initial_state@),
            ascending(target_state@),
        ensures
            search.inv(initial_state@, target_state@, gcd, self.max_belt, 0),
            search.meeting is None,
            search.frontier_fwd@.len() == 1,
            search.frontier_fwd@[0].node == 0,
            search.frontier_bkwd@.len() == 1,
            initial_state@ == target_state@ <==> search.goal_idx == 0,
            search@ == opening(initial_state@, target_state@, gcd),
    {
        let ghost init = initial_state@;
        let ghost goal = target_state@;
        let ghost cap = self.max_belt;
        let initial_values = initial_state.to_vec();
        let target_values = target_state.to_vec();
        let same = initial_state == target_state;
        let mut table = SearchTable::new();
        proof {
            table.lemma_empty_wf(init, goal, gcd, cap);
        }
        let init_idx = table.add(initial_state, Ghost(init), Ghost(goal), Ghost(gcd), Ghost(cap));
        let goal_idx = if same {
            init_idx
        } else {
            table.add(target_state, Ghost(init), Ghost(goal), Ghost(gcd), Ghost(cap))
        };
        table.seed_forward(init_idx, Ghost(init), Ghost(goal), Ghost(gcd), Ghost(cap));
        table.seed_backward(goal_idx, Ghost(init), Ghost(goal), Ghost(gcd), Ghost(cap));
        let mut frontier_fwd: Vec<Entry> = Vec::new();
        let initial_h = Balancer::heuristic(&initial_values, &target_values, gcd);
        frontier_fwd.push(Entry { priority: initial_h, cost: 0, node: init_idx });
        let mut frontier_bkwd: Vec<Entry> = Vec::new();
        let target_h = Balancer::heuristic(&target_values, &initial_values, gcd);
        frontier_bkwd.push(Entry { priority: target_h, cost: 0, node: goal_idx });
        let search = Search { table, frontier_fwd, frontier_bkwd, goal_idx, meeting: None };
        proof {
            assert(search.table.rows() =~= opening(init, goal, gcd).rows);
            assert(search.frontier_fwd@ =~= opening(init, goal, gcd).frontier_fwd);
            assert(search.frontier_bkwd@ =~= opening(init, goal, gcd).frontier_bkwd);
            reveal(closed_forward);
            reveal(covered);
            assert forall|n: int| 0 <= n < search.table.len() implies #[trigger] settled(
                search.table,
                search.frontier_fwd@,
                n,
                gcd,
                cap,
            ) by {
                if n == 0 {
                    assert(search.frontier_fwd@[0].node == 0);
                }
            }
            assert forall|n: int| 0 <= n < search.table.len() implies #[trigger] awaited(
                search.table,
                search.frontier_fwd@,
                search.frontier_bkwd@,
                n,
            ) by {
                if n == 0 {
                    assert(search.frontier_fwd@[0].node == 0);
                }
            }
        }
        search
    }

    /// The greatest common divisor of all inputs and outputs: every value of
    /// a state that can matter is a multiple of it.
    pub open spec fn gate(&self) -> u64 {
        gcd_of(gcd_over(self.outputs@), gcd_over(self.inputs@)) as u64
    }

    /// What the search returns where it may take `turns` turns.
    pub open spec fn result_after(&self, turns: nat) -> Found {
        search_result(self.inputs@, self.outputs@, self.gate(), self.max_belt, turns)
    }

    /// Some sequence of `n` forward moves makes the outputs of the inputs.
    pub open spec fn solvable_in(&self, n: nat) -> bool {
        leads(canonical(self.inputs@), canonical(self.outputs@), self.gate(), self.max_belt, n)
    }

    /// The search, cut off after `max_steps` frontier entries or, where a
    /// deadline is given, once it has passed.
    ///
    /// The forward frontier starts from the canonical form of the inputs,
    /// the backward frontier from that of the outputs. They take turns; each
    /// turn examines the entry that goes before all others on its frontier.
    /// The search ends with the first state that one frontier examines and
    /// the other has reached: the solution found need not be the cheapest.
    #[verifier::rlimit(30)]
    pub fn run(&self, max_steps: u64, deadline: Option<Deadline>) -> (result: BalancerResult)
        ensures
            result.outcome == Outcome::Unbalanced <==> total(self.inputs@) != total(self.outputs@),
            result.outcome == Outcome::Unbalanced ==> result.checked_states == 0
                && result.total_states == 0,
            result.outcome == Outcome::Solved ==> solves(
                result.path@,
                canonical(self.inputs@),
                canonical(self.outputs@),
                self.gate(),
                self.max_belt,
            ),
            result.outcome == Outcome::Solved ==> self.solvable_in(result.path@.len()),
            result.outcome == Outcome::Solved ==> balanced_path(
                result.path@,
                total(self.inputs@),
                self.max_belt,
            ),
            result.outcome == Outcome::Exhausted ==> forall|n: nat| !self.solvable_in(n),
            result.outcome != Outcome::Solved ==> result.path@.len() == 0,
            result.checked_states <= max_steps,
            result.found() == self.result_after(result.checked_states as nat),
            deadline is None ==> result.found() == self.result_after(max_steps as nat),
            deadline is None ==> result.elapsed_millis == 0,
            deadline is None && result.outcome == Outcome::TimedOut ==> result.checked_states
                == max_steps,
            deadline is None && max_steps >= 1 && total(self.inputs@) == total(self.outputs@)
                && canonical(self.inputs@) == canonical(self.outputs@) ==> result.outcome
                == Outcome::Solved && result.path@.len() == 0 && result.checked_states == 1,
    {
        if sum_values(&self.inputs) != sum_values(&self.outputs) {
            let unbalanced = BalancerResult::without_path(Outcome::Unbalanced, 0, 0, 0);
            proof {
                assert(unbalanced.found().path =~= self.result_after(0).path);
                assert(unbalanced.found().path =~= self.result_after(max_steps as nat).path);
            }
            return unbalanced;
        }
        let initial_state = multiset(self.inputs.clone());
        let target_state = multiset(self.outputs.clone());
        let gcd = gcd(gcd_vec(self.outputs.clone()), gcd_vec(self.inputs.clone()));
        let ghost init = initial_state@;
        let ghost goal = target_state@;
        let ghost cap = self.max_belt;
        proof {
            crate::model::lemma_canonical(self.inputs@);
            crate::model::lemma_canonical(self.outputs@);
        }
        let initial_values = initial_state.to_vec();
        let target_values = target_state.to_vec();
        let mut search = self.begin(initial_state, target_state, gcd);
        let ghost start = Progress { position: search@, fwd: true, checked: 0, generated: 0 };

        let mut states_checked: u64 = 0;
        let mut total_states: u64 = 0;
        let mut fwd: bool = true;
        let mut expired: bool = match &deadline {
            Some(d) => d.passed(),
            None => false,
        };
        while search.meeting.is_none() && (search.frontier_fwd.len() > 0
            || search.frontier_bkwd.len() > 0) && states_checked < max_steps && !expired
            invariant
                cap == self.max_belt,
                initial_values@ == init,
                target_values@ == goal,
                search.inv(init, goal, gcd, cap, 3 * states_checked),
                states_checked <= max_steps,
                after_turns(start, init, goal, gcd, cap, states_checked as nat) == (Progress {
                    position: search@,
                    fwd,
                    checked: states_checked as nat,
                    generated: total_states,
                }),
                deadline is None ==> !expired,
                init == goal <==> search.goal_idx == 0,
                states_checked == 0 ==> fwd && search.meeting is None && search.frontier_fwd@.len()
                    == 1 && search.frontier_fwd@[0].node == 0,
                init == goal && states_checked > 0 ==> search.meeting == Some(0usize)
                    && states_checked == 1,
            decreases max_steps - states_checked,
        {
            let ghost bound: int = 3 * states_checked + 3;
            proof {
                lemma_after_turns_next(start, init, goal, gcd, cap, states_checked as nat);
            }
            states_checked += 1;
            if fwd && search.frontier_fwd.len() > 0 {
                let generated = self.forward_turn(
                    &mut search,
                    &target_values,
                    gcd,
                    Ghost(init),
                    Ghost(goal),
                    Ghost(bound),
                );
                total_states = total_states.saturating_add(generated as u64);
            } else if search.frontier_bkwd.len() > 0 {
                let generated = self.backward_turn(
                    &mut search,
                    &initial_values,
                    gcd,
                    Ghost(init),
                    Ghost(goal),
                    Ghost(bound),
                );
                total_states = total_states.saturating_add(generated as u64);
            } else {
                proof {
                    search.lemma_inv_weaken(init, goal, gcd, cap, bound - 3, bound);
                }
            }
            fwd = !fwd;
            expired = match &deadline {
                Some(d) => d.passed(),
                None => false,
            };
        }
        let elapsed_millis: u64 = match &deadline {
            Some(d) => d.elapsed_millis(),
            None => 0,
        };
        proof {
            let got = after_turns(start, init, goal, gcd, cap, states_checked as nat);
            if stopped(got.position) {
                lemma_after_turns_stays(
                    start,
                    init,
                    goal,
                    gcd,
                    cap,
                    states_checked as nat,
                    max_steps as nat,
                );
            }
        }
        match search.meeting {
            Some(m) => {
                let path = Balancer::build_path(
                    &search.table,
                    m,
                    Ghost(init),
                    Ghost(goal),
                    Ghost(gcd),
                    Ghost(cap),
                );
                proof {
                    lemma_solution_is_balanced(path@, self.inputs@, self.outputs@, gcd, cap);
                    lemma_path_leads(path@, init, gcd, cap, path@.len() as int);
                }
                BalancerResult::new(path, total_states, states_checked, elapsed_millis)
            },
            None => {
                let outcome = if search.frontier_fwd.len() == 0 && search.frontier_bkwd.len() == 0 {
                    proof {
                        assert forall|n: nat| !self.solvable_in(n) by {
                            search.lemma_exhausted(init, goal, gcd, cap, 3 * states_checked, n);
                        }
                    }
                    Outcome::Exhausted
                } else {
                    Outcome::TimedOut
                };
                let nothing = BalancerResult::without_path(
                    outcome,
                    total_states,
                    states_checked,
                    elapsed_millis,
                );
                proof {
                    assert(nothing.found().path =~= Seq::<(Operation, Seq<u64>)>::empty());
                }
                nothing
            },
        }
    }

    /// The search with a budget of `max_steps` frontier entries and no
    /// clock: the same query and budget give the same result.
    pub fn search(&self, max_steps: u64) -> (result: BalancerResult)
        ensures
            result.outcome == Outcome::Unbalanced <==> total(self.inputs@) != total(self.outputs@),
            result.outcome == Outcome::Unbalanced ==> result.checked_states == 0
                && result.total_states == 0,
            result.outcome == Outcome::Solved ==> solves(
                result.path@,
                canonical(self.inputs@),
                canonical(self.outputs@),
                self.gate(),
                self.max_belt,
            ),
            result.outcome == Outcome::Solved ==> self.solvable_in(result.path@.len()),
            result.outcome == Outcome::Solved ==> balanced_path(
                result.path@,
                total(self.inputs@),
                self.max_belt,
            ),
            result.found() == self.result_after(max_steps as nat),
            result.outcome == Outcome::Exhausted ==> forall|n: nat| !self.solvable_in(n),
            result.outcome != Outcome::Solved ==> result.path@.len() == 0,
            result.checked_states <= max_steps,
            result.outcome == Outcome::TimedOut ==> result.checked_states == max_steps,
            max_steps >= 1 && total(self.inputs@) == total(self.outputs@) && canonical(self.inputs@)
                == canonical(self.outputs@) ==> result.outcome == Outcome::Solved
                && result.path@.len() == 0 && result.checked_states == 1,
            result.elapsed_millis == 0,
    {
        self.run(max_steps, None)
    }

    /// The search with the budget of 30 seconds of wall-clock time, read
    /// once before each frontier entry is examined.
    pub fn find_ideal_balance(&self) -> (result: BalancerResult)
        ensures
            result.outcome == Outcome::Unbalanced <==> total(self.inputs@) != total(self.outputs@),
            result.outcome == Outcome::Unbalanced ==> result.checked_states == 0
                && result.total_states == 0,
            result.outcome == Outcome::Solved ==> solves(
                result.path@,
                canonical(self.inputs@),
                canonical(self.outputs@),
                self.gate(),
                self.max_belt,
            ),
            result.outcome == Outcome::Solved ==> self.solvable_in(result.path@.len()),
            result.outcome == Outcome::Solved ==> balanced_path(
                result.path@,
                total(self.inputs@),
                self.max_belt,
            ),
            result.found() == self.result_after(result.checked_states as nat),
            result.outcome == Outcome::Exhausted ==> forall|n: nat| !self.solvable_in(n),
            result.outcome != Outcome::Solved ==> result.path@.len() == 0,
    {
        self.run(0xffff_ffff_ffff_ffff, Some(Deadline::after(30_000)))
    }
}

} // verus!
