//! Solutions: sequences of operations with the states that they leave, and
//! how one is put together from what the two frontiers of a search recorded.

use vstd::prelude::*;
use crate::balancer::{Balancer, BalancerState};
use crate::engine::{path_view, solution, steps_back, steps_on};
use crate::model::{canonical, lemma_step_keeps_total, lemma_total_canonical, step, total};
use crate::moves::{forward_moves, within};
use crate::operation::Operation;
use crate::reach::{leads, lemma_moves_to_witness, move_result, moves_to};
use crate::table::SearchTable;

verus! {

/// The state that step `i` of `path` starts from, where the path starts
/// from `init`; for `i == path.len()`, the state that the path ends in.
pub open spec fn state_before(path: Seq<(Operation, BalancerState)>, init: Seq<u64>, i: int) -> Seq<
    u64,
> {
    if i == 0 {
        init
    } else {
        path[i - 1].1@
    }
}

/// The operation of `x` is a step from `prev` to the state of `x`, which
/// some forward move makes of `prev` and which does not exceed the capacity.
pub open spec fn link(prev: Seq<u64>, x: (Operation, BalancerState), gcd: u64, cap: u64) -> bool {
    &&& step(prev, x.0, x.1@)
    &&& moves_to(prev, x.1@, gcd, cap)
    &&& within(x.1@, cap)
}

/// Each operation of `path` is a step from the state before it to the state
/// recorded with it, which some forward move makes of the state before it,
/// and none of these states exceeds the capacity.
pub open spec fn sound_path(
    path: Seq<(Operation, BalancerState)>,
    init: Seq<u64>,
    gcd: u64,
    cap: u64,
) -> bool {
    forall|i: int|
        0 <= i < path.len() ==> link(state_before(path, init, i), #[trigger] path[i], gcd, cap)
}

/// `path` leads from `init` to `goal` by steps, through states that do not
/// exceed the capacity.
pub open spec fn solves(
    path: Seq<(Operation, BalancerState)>,
    init: Seq<u64>,
    goal: Seq<u64>,
    gcd: u64,
    cap: u64,
) -> bool {
    sound_path(path, init, gcd, cap) && state_before(path, init, path.len() as int) == goal
}

/// Along a sound path the total never changes.
pub proof fn lemma_path_keeps_total(
    path: Seq<(Operation, BalancerState)>,
    init: Seq<u64>,
    gcd: u64,
    cap: u64,
    i: int,
)
    requires
        sound_path(path, init, gcd, cap),
        0 <= i <= path.len(),
    ensures
        total(state_before(path, init, i)) == total(init),
    decreases i,
{
    if i > 0 {
        lemma_path_keeps_total(path, init, gcd, cap, i - 1);
        assert(link(state_before(path, init, i - 1), path[i - 1], gcd, cap));
        lemma_step_keeps_total(
            state_before(path, init, i - 1),
            path[i - 1].0,
            path[i - 1].1@,
        );
    }
}

/// The first `i` steps of a sound path are `i` forward moves from its
/// start.
pub proof fn lemma_path_leads(
    path: Seq<(Operation, BalancerState)>,
    init: Seq<u64>,
    gcd: u64,
    cap: u64,
    i: int,
)
    requires
        sound_path(path, init, gcd, cap),
        0 <= i <= path.len(),
    ensures
        leads(init, state_before(path, init, i), gcd, cap, i as nat),
    decreases i,
{
    if i > 0 {
        lemma_path_leads(path, init, gcd, cap, i - 1);
        let prev = state_before(path, init, i - 1);
        assert(link(prev, path[i - 1], gcd, cap));
        let k = lemma_moves_to_witness(prev, path[i - 1].1@, gcd, cap);
        assert(leads(init, prev, gcd, cap, (i - 1) as nat) && 0 <= k < forward_moves(
            prev,
            gcd,
            cap,
        ).len() && state_before(path, init, i) == move_result(prev, gcd, cap, k));
    }
}

/// Every state of a solution has the total of the start, and so has the
/// target.
pub proof fn lemma_solution_keeps_total(
    path: Seq<(Operation, BalancerState)>,
    init: Seq<u64>,
    goal: Seq<u64>,
    gcd: u64,
    cap: u64,
    i: int,
)
    requires
        solves(path, init, goal, gcd, cap),
        0 <= i < path.len(),
    ensures
        total(path[i].1@) == total(init),
        total(state_before(path, init, i)) == total(path[i].1@),
        total(goal) == total(init),
{
    lemma_path_keeps_total(path, init, gcd, cap, i);
    lemma_path_keeps_total(path, init, gcd, cap, i + 1);
    lemma_path_keeps_total(path, init, gcd, cap, path.len() as int);
}

/// No state of a solution holds a value above the capacity.
pub proof fn lemma_solution_within_capacity(
    path: Seq<(Operation, BalancerState)>,
    init: Seq<u64>,
    goal: Seq<u64>,
    gcd: u64,
    cap: u64,
    i: int,
    j: int,
)
    requires
        solves(path, init, goal, gcd, cap),
        0 <= i < path.len(),
        0 <= j < path[i].1@.len(),
    ensures
        path[i].1@[j] <= cap,
{
    assert(link(state_before(path, init, i), path[i], gcd, cap));
}

/// Every state of `path` has the total `sum` and holds no value above
/// `cap`.
pub open spec fn balanced_path(path: Seq<(Operation, BalancerState)>, sum: int, cap: u64) -> bool {
    forall|i: int|
        0 <= i < path.len() ==> total((#[trigger] path[i]).1@) == sum && within(path[i].1@, cap)
}

/// Every state of a solution has the total of the inputs and holds no value
/// above the capacity.
pub proof fn lemma_solution_is_balanced(
    path: Seq<(Operation, BalancerState)>,
    inputs: Seq<u64>,
    outputs: Seq<u64>,
    gcd: u64,
    cap: u64,
)
    requires
        solves(path, canonical(inputs), canonical(outputs), gcd, cap),
    ensures
        balanced_path(path, total(inputs), cap),
{
    lemma_total_canonical(inputs);
    assert forall|i: int| 0 <= i < path.len() implies total((#[trigger] path[i]).1@) == total(
        inputs,
    ) && within(path[i].1@, cap) by {
        lemma_solution_keeps_total(path, canonical(inputs), canonical(outputs), gcd, cap, i);
        assert(link(state_before(path, canonical(inputs), i), path[i], gcd, cap));
    }
}

/// `back` holds the steps that lead from `init` to `end`, last step first.
pub open spec fn descends(
    back: Seq<(Operation, BalancerState)>,
    init: Seq<u64>,
    end: Seq<u64>,
    gcd: u64,
    cap: u64,
) -> bool {
    &&& back.len() == 0 ==> end == init
    &&& back.len() > 0 ==> back[0].1@ == end && link(init, back.last(), gcd, cap)
    &&& forall|k: int| 0 <= k < back.len() - 1 ==> link((#[trigger] back[k + 1]).1@, back[k], gcd, cap)
}

/// `path` holds the steps of `back` in the opposite order.
pub open spec fn turned(
    back: Seq<(Operation, BalancerState)>,
    path: Seq<(Operation, BalancerState)>,
) -> bool {
    &&& path.len() == back.len()
    &&& forall|k: int|
        0 <= k < path.len() ==> (#[trigger] path[k]).0 == back[back.len() - 1 - k].0 && path[k].1@
            == back[back.len() - 1 - k].1@
}

proof fn lemma_turned_is_sound(
    back: Seq<(Operation, BalancerState)>,
    path: Seq<(Operation, BalancerState)>,
    init: Seq<u64>,
    end: Seq<u64>,
    gcd: u64,
    cap: u64,
)
    requires
        descends(back, init, end, gcd, cap),
        turned(back, path),
    ensures
        solves(path, init, end, gcd, cap),
{
    let count = back.len() as int;
    assert forall|k: int| 0 <= k < path.len() implies link(
        state_before(path, init, k),
        #[trigger] path[k],
        gcd,
        cap,
    ) by {
        let b = count - 1 - k;
        if k == 0 {
            assert(back.last() == back[b]);
        } else {
            assert(path[k - 1].1@ == back[b + 1].1@);
            assert(link(back[b + 1].1@, back[b], gcd, cap));
        }
    }
    if count > 0 {
        assert(path[count - 1].1@ == back[0].1@);
    }
}

impl Balancer {
    /// The steps by which the forward frontier reached state `meeting`, last
    /// step first.
    pub fn walk_back(
        table: &SearchTable,
        meeting: usize,
        Ghost(init): Ghost<Seq<u64>>,
        Ghost(goal): Ghost<Seq<u64>>,
        Ghost(gcd): Ghost<u64>,
        Ghost(cap): Ghost<u64>,
    ) -> (back: Vec<(Operation, BalancerState)>)
        requires
            table.wf(init, goal, gcd, cap),
            meeting < table.len(),
            table.fwd_cost@[meeting as int] is Some,
        ensures
            descends(back@, init, table.state(meeting as int), gcd, cap),
            table.fwd_from@[meeting as int] is None ==> back@.len() == 0,
            path_view(back@) == steps_back(
                table.rows(),
                meeting as int,
                table.fwd_cost@[meeting as int]->0 as nat,
            ),
    {
        proof {
            table.lemma_wf_shaped(init, goal, gcd, cap);
        }
        let mut back: Vec<(Operation, BalancerState)> = Vec::new();
        let mut n: usize = meeting;
        let mut from = table.fwd_from[n];
        let ghost whole = steps_back(
            table.rows(),
            meeting as int,
            table.fwd_cost@[meeting as int]->0 as nat,
        );
        let ghost mut fuel: nat = table.fwd_cost@[meeting as int]->0 as nat;
        proof {
            assert(path_view(back@) + steps_back(table.rows(), n as int, fuel) =~= whole);
        }
        while from.is_some()
            invariant
                fuel >= table.fwd_cost@[n as int]->0,
                path_view(back@) + steps_back(table.rows(), n as int, fuel) == whole,
                table.wf(init, goal, gcd, cap),
                table.shaped(),
                n < table.len(),
                from == table.fwd_from@[n as int],
                table.fwd_cost@[n as int] is Some,
                meeting < table.len(),
                table.fwd_from@[meeting as int] is None ==> back@.len() == 0,
                back@.len() == 0 ==> n == meeting,
                back@.len() > 0 ==> back@[0].1@ == table.state(meeting as int) && link(
                    table.state(n as int),
                    back@.last(),
                    gcd,
                    cap,
                ),
                forall|k: int|
                    0 <= k < back@.len() - 1 ==> link((#[trigger] back@[k + 1]).1@, back@[k], gcd, cap),
            decreases table.fwd_cost@[n as int]->0,
        {
            proof {
                table.lemma_wf_facts(init, goal, gcd, cap, n as int);
            }
            let (op, p) = from.unwrap();
            let ghost before = back@;
            back.push((op, table.states[n].clone()));
            proof {
                let rows = table.rows();
                assert(rows[n as int].fwd_from == Some((op, p)));
                assert(rows[n as int].state == table.state(n as int));
                assert(path_view(back@) =~= path_view(before).push((op, table.state(n as int))));
                assert(path_view(back@) + steps_back(rows, p as int, (fuel - 1) as nat) =~= path_view(
                    before,
                ) + steps_back(rows, n as int, fuel));
                fuel = (fuel - 1) as nat;
                table.lemma_wf_facts(init, goal, gcd, cap, p as int);
                assert forall|k: int| 0 <= k < back@.len() - 1 implies link(
                    (#[trigger] back@[k + 1]).1@,
                    back@[k],
                    gcd,
                    cap,
                ) by {
                    if k < before.len() - 1 {
                        assert(back@[k + 1] == before[k + 1]);
                        assert(back@[k] == before[k]);
                    } else {
                        assert(back@[k] == before.last());
                    }
                }
            }
            n = p;
            from = table.fwd_from[n];
        }
        proof {
            table.lemma_wf_facts(init, goal, gcd, cap, n as int);
            assert(table.rows()[n as int].fwd_from is None);
            assert(path_view(back@) =~= whole);
        }
        back
    }

    /// The steps of `back` in the opposite order.
    pub fn turn_around(back: &Vec<(Operation, BalancerState)>) -> (path: Vec<
        (Operation, BalancerState),
    >)
        ensures
            turned(back@, path@),
            path_view(path@) == path_view(back@).reverse(),
    {
        let mut path: Vec<(Operation, BalancerState)> = Vec::new();
        let count: usize = back.len();
        let mut i: usize = count;
        while i > 0
            invariant
                i <= count,
                count == back@.len(),
                path@.len() == count - i,
                forall|k: int|
                    0 <= k < path@.len() ==> (#[trigger] path@[k]).0 == back@[count - 1 - k].0
                        && path@[k].1@ == back@[count - 1 - k].1@,
            decreases i,
        {
            i -= 1;
            path.push((back[i].0, back[i].1.clone()));
        }
        proof {
            assert(path_view(path@) =~= path_view(back@).reverse());
        }
        path
    }

    /// Appends to `path`, which ends in state `meeting`, the forward
    /// operations of the steps by which the backward frontier reached that
    /// state, in the order that leads to the target.
    pub fn walk_on(
        table: &SearchTable,
        meeting: usize,
        path: &mut Vec<(Operation, BalancerState)>,
        Ghost(init): Ghost<Seq<u64>>,
        Ghost(goal): Ghost<Seq<u64>>,
        Ghost(gcd): Ghost<u64>,
        Ghost(cap): Ghost<u64>,
    )
        requires
            table.wf(init, goal, gcd, cap),
            meeting < table.len(),
            table.bkwd_cost@[meeting as int] is Some,
            solves(old(path)@, init, table.state(meeting as int), gcd, cap),
        ensures
            solves(final(path)@, init, goal, gcd, cap),
            table.bkwd_from@[meeting as int] is None ==> final(path)@ == old(path)@,
            path_view(final(path)@) == path_view(old(path)@) + steps_on(
                table.rows(),
                meeting as int,
                table.bkwd_cost@[meeting as int]->0 as nat,
            ),
    {
        proof {
            table.lemma_wf_shaped(init, goal, gcd, cap);
        }
        let mut n: usize = meeting;
        let mut from = table.bkwd_from[n];
        let ghost whole = path_view(path@) + steps_on(
            table.rows(),
            meeting as int,
            table.bkwd_cost@[meeting as int]->0 as nat,
        );
        let ghost mut fuel: nat = table.bkwd_cost@[meeting as int]->0 as nat;
        while from.is_some()
            invariant
                fuel >= table.bkwd_cost@[n as int]->0,
                path_view(path@) + steps_on(table.rows(), n as int, fuel) == whole,
                table.wf(init, goal, gcd, cap),
                table.shaped(),
                n < table.len(),
                from == table.bkwd_from@[n as int],
                table.bkwd_cost@[n as int] is Some,
                sound_path(path@, init, gcd, cap),
                state_before(path@, init, path@.len() as int) == table.state(n as int),
                meeting < table.len(),
                table.bkwd_from@[meeting as int] is None ==> path@ == old(path)@ && n == meeting,
            decreases table.bkwd_cost@[n as int]->0,
        {
            proof {
                table.lemma_wf_facts(init, goal, gcd, cap, n as int);
            }
            let (rop, p) = from.unwrap();
            let ghost before = path@;
            path.push((rop.forward(), table.states[p].clone()));
            proof {
                let rows = table.rows();
                assert(rows[n as int].bkwd_from == Some((rop, p)));
                assert(rows[p as int].state == table.state(p as int));
                assert(path_view(path@) =~= path_view(before).push(
                    (rop.spec_forward(), table.state(p as int)),
                ));
                assert(path_view(path@) + steps_on(rows, p as int, (fuel - 1) as nat) =~= path_view(
                    before,
                ) + steps_on(rows, n as int, fuel));
                fuel = (fuel - 1) as nat;
                table.lemma_wf_facts(init, goal, gcd, cap, p as int);
                assert forall|k: int| 0 <= k < path@.len() implies link(
                    state_before(path@, init, k),
                    #[trigger] path@[k],
                    gcd,
                    cap,
                ) by {
                    if k < before.len() {
                        assert(path@[k] == before[k]);
                        assert(state_before(path@, init, k) == state_before(before, init, k));
                        assert(link(state_before(before, init, k), before[k], gcd, cap));
                    }
                }
            }
            n = p;
            from = table.bkwd_from[n];
        }
        proof {
            table.lemma_wf_facts(init, goal, gcd, cap, n as int);
            assert(table.rows()[n as int].bkwd_from is None);
            assert(path_view(path@) =~= whole);
        }
    }

    /// The solution that meets in state `meeting`: the operations that lead
    /// from the start to it, as the forward frontier found them, followed by
    /// the forward operations of those that the backward frontier recorded
    /// on the way from it to the target.
    pub fn build_path(
        table: &SearchTable,
        meeting: usize,
        Ghost(init): Ghost<Seq<u64>>,
        Ghost(goal): Ghost<Seq<u64>>,
        Ghost(gcd): Ghost<u64>,
        Ghost(cap): Ghost<u64>,
    ) -> (path: Vec<(Operation, BalancerState)>)
        requires
            table.wf(init, goal, gcd, cap),
            meeting < table.len(),
            table.fwd_cost@[meeting as int] is Some,
            table.bkwd_cost@[meeting as int] is Some,
        ensures
            solves(path@, init, goal, gcd, cap),
            table.fwd_from@[meeting as int] is None && table.bkwd_from@[meeting as int] is None
                ==> path@.len() == 0,
            path_view(path@) == solution(table.rows(), meeting as int),
    {
        let back = Balancer::walk_back(table, meeting, Ghost(init), Ghost(goal), Ghost(gcd), Ghost(cap));
        let mut path = Balancer::turn_around(&back);
        proof {
            lemma_turned_is_sound(back@, path@, init, table.state(meeting as int), gcd, cap);
        }
        Balancer::walk_on(table, meeting, &mut path, Ghost(init), Ghost(goal), Ghost(gcd), Ghost(cap));
        path
    }
}

} // verus!
