//! The search as a function: what the table and the frontiers hold after
//! each turn, and the result that a given number of turns leads to.

use vstd::prelude::*;
use crate::balancer::{BalancerState, Outcome};
use crate::estimate::heuristic_cost;
use crate::frontier::{lowest, Entry};
use crate::model::{apply, canonical, total, unapply};
use crate::moves::{admissible, backward_moves, forward_moves};
use crate::operation::{Operation, ReverseOperation};

verus! {

/// What a search knows of one state: the least cost at which each side has
/// reached it, and the operation and the neighbour by which it did.
pub struct Row {
    pub state: Seq<u64>,
    pub fwd_cost: Option<u128>,
    pub fwd_from: Option<(Operation, usize)>,
    pub bkwd_cost: Option<u128>,
    pub bkwd_from: Option<(ReverseOperation, usize)>,
}

/// A search between two turns.
pub struct Position {
    pub rows: Seq<Row>,
    pub frontier_fwd: Seq<Entry>,
    pub frontier_bkwd: Seq<Entry>,
    pub goal_idx: usize,
    pub meeting: Option<usize>,
}

/// A search between two turns, with whose turn it is and the work done.
pub struct Progress {
    pub position: Position,
    pub fwd: bool,
    pub checked: nat,
    pub generated: u64,
}

/// What a search returns, without the time that it took.
pub struct Found {
    pub path: Seq<(Operation, Seq<u64>)>,
    pub outcome: Outcome,
    pub total_states: u64,
    pub checked_states: nat,
}

/// The steps of a path with the values of their states.
pub open spec fn path_view(path: Seq<(Operation, BalancerState)>) -> Seq<(Operation, Seq<u64>)> {
    Seq::new(path.len(), |i: int| (path[i].0, path[i].1@))
}

/// A state that no side has reached.
pub open spec fn fresh_row(s: Seq<u64>) -> Row {
    Row { state: s, fwd_cost: None, fwd_from: None, bkwd_cost: None, bkwd_from: None }
}

/// The index of the row that holds state `s`; the number of rows if none
/// does.
pub open spec fn held_at(rows: Seq<Row>, s: Seq<u64>) -> int {
    if exists|n: int| 0 <= n < rows.len() && (#[trigger] rows[n]).state == s {
        choose|n: int| 0 <= n < rows.len() && (#[trigger] rows[n]).state == s
    } else {
        rows.len() as int
    }
}

/// The rows with one for state `s`, which is put at the end if there was
/// none.
pub open spec fn entered(rows: Seq<Row>, s: Seq<u64>) -> Seq<Row> {
    if held_at(rows, s) < rows.len() {
        rows
    } else {
        rows.push(fresh_row(s))
    }
}

/// The sum of two counts, or the largest that 64 bits hold if it is more.
pub open spec fn capped_sum(a: u64, b: nat) -> u64 {
    if a + b > u64::MAX {
        u64::MAX
    } else {
        (a + b) as u64
    }
}

/// The entry for a state reached at `cost` of which `toward` is the other
/// end of the search.
pub open spec fn entry_for(
    node: int,
    state: Seq<u64>,
    cost: u128,
    toward: Seq<u64>,
    gcd: u64,
) -> Entry {
    Entry {
        priority: (heuristic_cost(state, toward, gcd) + cost) as u128,
        cost,
        node: node as usize,
    }
}

/// The rows and the forward frontier after the successor `next` of state
/// `cur` was examined: `next` is entered, and where `op` reaches it from
/// `cur` more cheaply than it was reached before, that is recorded and an
/// entry for it is put on the frontier.
pub open spec fn after_successor(
    rows: Seq<Row>,
    frontier: Seq<Entry>,
    cur: usize,
    cost: u128,
    op: Operation,
    next: Seq<u64>,
    goal: Seq<u64>,
    gcd: u64,
) -> (Seq<Row>, Seq<Entry>) {
    let idx = held_at(rows, next);
    let all = entered(rows, next);
    let new_cost = (cost + op.spec_cost()) as u128;
    if all[idx].fwd_cost is None || new_cost < all[idx].fwd_cost->0 {
        (
            all.update(
                idx,
                Row { fwd_cost: Some(new_cost), fwd_from: Some((op, cur)), ..all[idx] },
            ),
            frontier.push(entry_for(idx, next, new_cost, goal, gcd)),
        )
    } else {
        (all, frontier)
    }
}

/// The rows and the backward frontier after the predecessor `prev` of state
/// `cur` was examined.
pub open spec fn after_predecessor(
    rows: Seq<Row>,
    frontier: Seq<Entry>,
    cur: usize,
    cost: u128,
    rop: ReverseOperation,
    prev: Seq<u64>,
    init: Seq<u64>,
    gcd: u64,
) -> (Seq<Row>, Seq<Entry>) {
    let idx = held_at(rows, prev);
    let all = entered(rows, prev);
    let new_cost = (cost + rop.spec_cost()) as u128;
    if all[idx].bkwd_cost is None || new_cost < all[idx].bkwd_cost->0 {
        (
            all.update(
                idx,
                Row { bkwd_cost: Some(new_cost), bkwd_from: Some((rop, cur)), ..all[idx] },
            ),
            frontier.push(entry_for(idx, prev, new_cost, init, gcd)),
        )
    } else {
        (all, frontier)
    }
}

/// The rows and the forward frontier after the successors that `moves` make
/// of `from`, the state `cur`, were examined in order.
pub open spec fn after_successors(
    rows: Seq<Row>,
    frontier: Seq<Entry>,
    cur: usize,
    cost: u128,
    from: Seq<u64>,
    moves: Seq<Operation>,
    goal: Seq<u64>,
    gcd: u64,
) -> (Seq<Row>, Seq<Entry>)
    decreases moves.len(),
{
    if moves.len() == 0 {
        (rows, frontier)
    } else {
        let earlier = after_successors(rows, frontier, cur, cost, from, moves.drop_last(), goal, gcd);
        after_successor(
            earlier.0,
            earlier.1,
            cur,
            cost,
            moves.last(),
            apply(from, moves.last()),
            goal,
            gcd,
        )
    }
}

/// The rows and the backward frontier after the predecessors that `moves`
/// give of `from`, the state `cur`, were examined in order.
pub open spec fn after_predecessors(
    rows: Seq<Row>,
    frontier: Seq<Entry>,
    cur: usize,
    cost: u128,
    from: Seq<u64>,
    moves: Seq<ReverseOperation>,
    init: Seq<u64>,
    gcd: u64,
) -> (Seq<Row>, Seq<Entry>)
    decreases moves.len(),
{
    if moves.len() == 0 {
        (rows, frontier)
    } else {
        let earlier = after_predecessors(
            rows,
            frontier,
            cur,
            cost,
            from,
            moves.drop_last(),
            init,
            gcd,
        );
        after_predecessor(
            earlier.0,
            earlier.1,
            cur,
            cost,
            moves.last(),
            unapply(from, moves.last()),
            init,
            gcd,
        )
    }
}

/// The moves that a backward turn examines from `state`: none where the
/// state is not admissible.
pub open spec fn backward_moves_from(state: Seq<u64>, gcd: u64, cap: u64) -> Seq<ReverseOperation> {
    if admissible(state, gcd, cap) {
        backward_moves(state, gcd, cap)
    } else {
        Seq::<ReverseOperation>::empty()
    }
}

/// The position after a turn of the forward side.
pub open spec fn after_forward_turn(p: Position, goal: Seq<u64>, gcd: u64, cap: u64) -> Position {
    let i = lowest(p.frontier_fwd);
    let e = p.frontier_fwd[i];
    let from = p.rows[e.node as int].state;
    let grown = after_successors(
        p.rows,
        p.frontier_fwd.remove(i),
        e.node,
        e.cost,
        from,
        forward_moves(from, gcd, cap),
        goal,
        gcd,
    );
    Position {
        rows: grown.0,
        frontier_fwd: grown.1,
        frontier_bkwd: p.frontier_bkwd,
        goal_idx: p.goal_idx,
        meeting: if p.rows[e.node as int].bkwd_cost is Some {
            Some(e.node)
        } else {
            p.meeting
        },
    }
}

/// The position after a turn of the backward side.
pub open spec fn after_backward_turn(p: Position, init: Seq<u64>, gcd: u64, cap: u64) -> Position {
    let i = lowest(p.frontier_bkwd);
    let e = p.frontier_bkwd[i];
    let from = p.rows[e.node as int].state;
    let grown = after_predecessors(
        p.rows,
        p.frontier_bkwd.remove(i),
        e.node,
        e.cost,
        from,
        backward_moves_from(from, gcd, cap),
        init,
        gcd,
    );
    Position {
        rows: grown.0,
        frontier_fwd: p.frontier_fwd,
        frontier_bkwd: grown.1,
        goal_idx: p.goal_idx,
        meeting: if p.rows[e.node as int].fwd_cost is Some {
            Some(e.node)
        } else {
            p.meeting
        },
    }
}

/// How many successors a turn of the forward side examines.
pub open spec fn successors_seen(p: Position, gcd: u64, cap: u64) -> nat {
    let e = p.frontier_fwd[lowest(p.frontier_fwd)];
    forward_moves(p.rows[e.node as int].state, gcd, cap).len()
}

/// How many predecessors a turn of the backward side examines.
pub open spec fn predecessors_seen(p: Position, gcd: u64, cap: u64) -> nat {
    let e = p.frontier_bkwd[lowest(p.frontier_bkwd)];
    backward_moves_from(p.rows[e.node as int].state, gcd, cap).len()
}

/// The search is over: the sides have met, or nothing waits on either.
pub open spec fn stopped(p: Position) -> bool {
    p.meeting is Some || (p.frontier_fwd.len() == 0 && p.frontier_bkwd.len() == 0)
}

/// The search after one more turn. The sides alternate; a side on whose
/// frontier nothing waits leaves its turn to the other, and the backward
/// side lets its turn pass where nothing waits on its own.
pub open spec fn after_turn(
    g: Progress,
    init: Seq<u64>,
    goal: Seq<u64>,
    gcd: u64,
    cap: u64,
) -> Progress {
    let p = g.position;
    if g.fwd && p.frontier_fwd.len() > 0 {
        Progress {
            position: after_forward_turn(p, goal, gcd, cap),
            fwd: !g.fwd,
            checked: g.checked + 1,
            generated: capped_sum(g.generated, successors_seen(p, gcd, cap)),
        }
    } else if p.frontier_bkwd.len() > 0 {
        Progress {
            position: after_backward_turn(p, init, gcd, cap),
            fwd: !g.fwd,
            checked: g.checked + 1,
            generated: capped_sum(g.generated, predecessors_seen(p, gcd, cap)),
        }
    } else {
        Progress { position: p, fwd: !g.fwd, checked: g.checked + 1, generated: g.generated }
    }
}

/// The search after up to `turns` more turns: it takes none once it is
/// over.
pub open spec fn after_turns(
    g: Progress,
    init: Seq<u64>,
    goal: Seq<u64>,
    gcd: u64,
    cap: u64,
    turns: nat,
) -> Progress
    decreases turns,
{
    if turns == 0 || stopped(g.position) {
        g
    } else {
        after_turns(after_turn(g, init, goal, gcd, cap), init, goal, gcd, cap, (turns - 1) as nat)
    }
}

/// The search before its first turn: the table holds the start, reached
/// forwards at no cost, and the target, reached backwards at no cost, as one
/// row where they are the same state; each waits on its frontier.
pub open spec fn opening(init: Seq<u64>, goal: Seq<u64>, gcd: u64) -> Position {
    let goal_idx: usize = if init == goal {
        0
    } else {
        1
    };
    let start = Row { fwd_cost: Some(0u128), ..fresh_row(init) };
    Position {
        rows: if init == goal {
            seq![Row { bkwd_cost: Some(0u128), ..start }]
        } else {
            seq![start, Row { bkwd_cost: Some(0u128), ..fresh_row(goal) }]
        },
        frontier_fwd: seq![entry_for(0, init, 0, goal, gcd)],
        frontier_bkwd: seq![entry_for(goal_idx as int, goal, 0, init, gcd)],
        goal_idx,
        meeting: None,
    }
}

/// The steps by which the forward side reached state `n`, last step first:
/// up to `fuel` of them.
pub open spec fn steps_back(rows: Seq<Row>, n: int, fuel: nat) -> Seq<(Operation, Seq<u64>)>
    decreases fuel,
{
    if fuel == 0 {
        Seq::<(Operation, Seq<u64>)>::empty()
    } else {
        match rows[n].fwd_from {
            Some((op, p)) => seq![(op, rows[n].state)] + steps_back(rows, p as int, (fuel - 1) as nat),
            None => Seq::<(Operation, Seq<u64>)>::empty(),
        }
    }
}

/// The forward operations of the steps by which the backward side reached
/// state `n`, each with the state that it leads to, in the order that leads
/// to the target: up to `fuel` of them.
pub open spec fn steps_on(rows: Seq<Row>, n: int, fuel: nat) -> Seq<(Operation, Seq<u64>)>
    decreases fuel,
{
    if fuel == 0 {
        Seq::<(Operation, Seq<u64>)>::empty()
    } else {
        match rows[n].bkwd_from {
            Some((rop, p)) => seq![(rop.spec_forward(), rows[p as int].state)] + steps_on(
                rows,
                p as int,
                (fuel - 1) as nat,
            ),
            None => Seq::<(Operation, Seq<u64>)>::empty(),
        }
    }
}

/// The solution that meets in state `m`: the steps from the start to `m` as
/// the forward side recorded them, then those from `m` to the target as the
/// backward side recorded them. Each cost bounds the number of steps on its
/// side, since every step costs 1 at least.
pub open spec fn solution(rows: Seq<Row>, m: int) -> Seq<(Operation, Seq<u64>)> {
    steps_back(rows, m, rows[m].fwd_cost->0 as nat).reverse() + steps_on(
        rows,
        m,
        rows[m].bkwd_cost->0 as nat,
    )
}

/// What a search that has got as far as `g` returns.
pub open spec fn found_in(g: Progress) -> Found {
    let p = g.position;
    match p.meeting {
        Some(m) => Found {
            path: solution(p.rows, m as int),
            outcome: Outcome::Solved,
            total_states: g.generated,
            checked_states: g.checked,
        },
        None => Found {
            path: Seq::<(Operation, Seq<u64>)>::empty(),
            outcome: if p.frontier_fwd.len() == 0 && p.frontier_bkwd.len() == 0 {
                Outcome::Exhausted
            } else {
                Outcome::TimedOut
            },
            total_states: g.generated,
            checked_states: g.checked,
        },
    }
}

/// What the search for a way from `inputs` to `outputs` returns where it may
/// take `turns` turns.
pub open spec fn search_result(
    inputs: Seq<u64>,
    outputs: Seq<u64>,
    gcd: u64,
    cap: u64,
    turns: nat,
) -> Found {
    if total(inputs) != total(outputs) {
        Found {
            path: Seq::<(Operation, Seq<u64>)>::empty(),
            outcome: Outcome::Unbalanced,
            total_states: 0,
            checked_states: 0,
        }
    } else {
        let init = canonical(inputs);
        let goal = canonical(outputs);
        let start = Progress {
            position: opening(init, goal, gcd),
            fwd: true,
            checked: 0,
            generated: 0,
        };
        found_in(after_turns(start, init, goal, gcd, cap, turns))
    }
}

/// A search that is not over after `k` turns takes one more.
pub proof fn lemma_after_turns_next(
    g: Progress,
    init: Seq<u64>,
    goal: Seq<u64>,
    gcd: u64,
    cap: u64,
    k: nat,
)
    requires
        !stopped(after_turns(g, init, goal, gcd, cap, k).position),
    ensures
        after_turns(g, init, goal, gcd, cap, k + 1) == after_turn(
            after_turns(g, init, goal, gcd, cap, k),
            init,
            goal,
            gcd,
            cap,
        ),
    decreases k,
{
    let one = after_turn(g, init, goal, gcd, cap);
    if k == 0 {
        assert(after_turns(g, init, goal, gcd, cap, 1) == after_turns(one, init, goal, gcd, cap, 0));
    } else if stopped(g.position) {
        assert(after_turns(g, init, goal, gcd, cap, k) == g);
    } else {
        lemma_after_turns_next(one, init, goal, gcd, cap, (k - 1) as nat);
        assert(after_turns(g, init, goal, gcd, cap, k) == after_turns(
            one,
            init,
            goal,
            gcd,
            cap,
            (k - 1) as nat,
        ));
        assert(after_turns(g, init, goal, gcd, cap, k + 1) == after_turns(
            one,
            init,
            goal,
            gcd,
            cap,
            k,
        ));
    }
}

/// A search that is over after `k` turns is where it was after any more.
pub proof fn lemma_after_turns_stays(
    g: Progress,
    init: Seq<u64>,
    goal: Seq<u64>,
    gcd: u64,
    cap: u64,
    k: nat,
    more: nat,
)
    requires
        stopped(after_turns(g, init, goal, gcd, cap, k).position),
        k <= more,
    ensures
        after_turns(g, init, goal, gcd, cap, more) == after_turns(g, init, goal, gcd, cap, k),
    decreases k,
{
    if stopped(g.position) {
    } else if k > 0 {
        lemma_after_turns_stays(
            after_turn(g, init, goal, gcd, cap),
            init,
            goal,
            gcd,
            cap,
            (k - 1) as nat,
            (more - 1) as nat,
        );
    }
}

} // verus!
