//! The states that a search has met, each with the cheapest known way to
//! reach it from the start and the cheapest known way from it to the target.
//!
//! A state is entered once and referred to by its index afterwards.

use vstd::prelude::*;
use crate::balancer::BalancerState;
use crate::engine::{fresh_row, held_at, Row};
use crate::moves::within;
use crate::model::{ascending, step};
use crate::reach::moves_to;
use crate::operation::{Operation, ReverseOperation};

verus! {

pub struct SearchTable {
    pub states: Vec<BalancerState>,
    /// The least cost at which the forward frontier has reached the state.
    pub fwd_cost: Vec<Option<u128>>,
    /// The operation that reached the state at that cost, and the state that
    /// it was applied to.
    pub fwd_from: Vec<Option<(Operation, usize)>>,
    /// The least cost at which the backward frontier has reached the state.
    pub bkwd_cost: Vec<Option<u128>>,
    /// The reverse operation that reached the state at that cost, and the
    /// state, one step nearer to the target, that it was found from.
    pub bkwd_from: Vec<Option<(ReverseOperation, usize)>>,
}

impl SearchTable {
    pub open spec fn len(&self) -> nat {
        self.states@.len()
    }

    pub open spec fn state(&self, n: int) -> Seq<u64> {
        self.states@[n]@
    }

    /// What the table knows, state by state.
    pub open spec fn rows(&self) -> Seq<Row> {
        Seq::new(
            self.len(),
            |n: int|
                Row {
                    state: self.state(n),
                    fwd_cost: self.fwd_cost@[n],
                    fwd_from: self.fwd_from@[n],
                    bkwd_cost: self.bkwd_cost@[n],
                    bkwd_from: self.bkwd_from@[n],
                },
        )
    }

    /// All columns have one entry for each state.
    pub open spec fn shaped(&self) -> bool {
        &&& self.fwd_cost@.len() == self.len()
        &&& self.fwd_from@.len() == self.len()
        &&& self.bkwd_cost@.len() == self.len()
        &&& self.bkwd_from@.len() == self.len()
    }

    /// The forward entry of state `n` is sound: the operation recorded for it
    /// is a step from a state that was reached at a lower cost and of which a
    /// forward move makes `n`, and `n` respects the capacity; a state reached without an operation is the
    /// start.
    pub open spec fn fwd_ok(&self, n: int, init: Seq<u64>, gcd: u64, cap: u64) -> bool {
        match self.fwd_from@[n] {
            Some((op, p)) => {
                &&& p < self.len()
                &&& self.fwd_cost@[n] is Some
                &&& self.fwd_cost@[p as int] is Some
                &&& self.fwd_cost@[p as int]->0 < self.fwd_cost@[n]->0
                &&& step(self.state(p as int), op, self.state(n))
                &&& moves_to(self.state(p as int), self.state(n), gcd, cap)
                &&& within(self.state(n), cap)
            },
            None => self.fwd_cost@[n] is Some ==> self.state(n) == init,
        }
    }

    /// The backward entry of state `n` is sound: the forward operation of
    /// what is recorded for it is a step from `n` to a state that was reached
    /// at a lower cost, that a forward move makes of `n` and that respects the
    /// capacity; a state reached
    /// without an operation is the target.
    pub open spec fn bkwd_ok(&self, n: int, goal: Seq<u64>, gcd: u64, cap: u64) -> bool {
        match self.bkwd_from@[n] {
            Some((rop, p)) => {
                &&& p < self.len()
                &&& self.bkwd_cost@[n] is Some
                &&& self.bkwd_cost@[p as int] is Some
                &&& self.bkwd_cost@[p as int]->0 < self.bkwd_cost@[n]->0
                &&& step(self.state(n), rop.spec_forward(), self.state(p as int))
                &&& moves_to(self.state(n), self.state(p as int), gcd, cap)
                &&& within(self.state(p as int), cap)
            },
            None => self.bkwd_cost@[n] is Some ==> self.state(n) == goal,
        }
    }

    /// No state is entered twice.
    pub open spec fn distinct_states(&self) -> bool {
        forall|a: int, b: int|
            0 <= a < b < self.len() ==> #[trigger] self.state(a) != #[trigger] self.state(b)
    }

    /// No state is entered twice, every state is ascending, and what is
    /// recorded of each is sound.
    #[verifier::opaque]
    pub open spec fn sound(&self, init: Seq<u64>, goal: Seq<u64>, gcd: u64, cap: u64) -> bool {
        &&& self.distinct_states()
        &&& forall|n: int|
            0 <= n < self.len() ==> {
                &&& ascending(#[trigger] self.state(n))
                &&& self.fwd_ok(n, init, gcd, cap)
                &&& self.bkwd_ok(n, goal, gcd, cap)
            }
    }

    pub open spec fn wf(&self, init: Seq<u64>, goal: Seq<u64>, gcd: u64, cap: u64) -> bool {
        self.shaped() && self.sound(init, goal, gcd, cap)
    }

    /// The table without states.
    pub fn new() -> (t: SearchTable)
        ensures
            t.len() == 0,
            t.shaped(),
    {
        SearchTable {
            states: Vec::new(),
            fwd_cost: Vec::new(),
            fwd_from: Vec::new(),
            bkwd_cost: Vec::new(),
            bkwd_from: Vec::new(),
        }
    }

    /// The index of the state with the values of `state`, if it was entered.
    pub fn find(&self, state: &BalancerState) -> (found: Option<usize>)
        ensures
            match found {
                Some(i) => i < self.len() && self.state(i as int) == state@,
                None => forall|n: int| 0 <= n < self.len() ==> #[trigger] self.state(n) != state@,
            },
    {
        let mut i: usize = 0;
        while i < self.states.len()
            invariant
                i <= self.states@.len(),
                forall|n: int| 0 <= n < i ==> #[trigger] self.state(n) != state@,
            decreases self.states@.len() - i,
        {
            if self.states[i] == *state {
                return Some(i);
            }
            i += 1;
        }
        None
    }

    /// Enters `state`, reached from neither side yet.
    pub fn add(
        &mut self,
        state: BalancerState,
        Ghost(init): Ghost<Seq<u64>>,
        Ghost(goal): Ghost<Seq<u64>>,
        Ghost(gcd): Ghost<u64>,
        Ghost(cap): Ghost<u64>,
    ) -> (idx: usize)
        requires
            old(self).wf(init, goal, gcd, cap),
            ascending(state@),
            forall|n: int| 0 <= n < old(self).len() ==> #[trigger] old(self).state(n) != state@,
        ensures
            final(self).wf(init, goal, gcd, cap),
            idx == old(self).len(),
            final(self).states@ == old(self).states@.push(state),
            final(self).fwd_cost@ == old(self).fwd_cost@.push(None),
            final(self).fwd_from@ == old(self).fwd_from@.push(None),
            final(self).bkwd_cost@ == old(self).bkwd_cost@.push(None),
            final(self).bkwd_from@ == old(self).bkwd_from@.push(None),
            final(self).rows() == old(self).rows().push(fresh_row(state@)),
    {
        proof {
            reveal(SearchTable::sound);
        }
        let idx = self.states.len();
        self.states.push(state);
        self.fwd_cost.push(None);
        self.fwd_from.push(None);
        self.bkwd_cost.push(None);
        self.bkwd_from.push(None);
        proof {
            assert forall|n: int| 0 <= n < self.len() implies {
                &&& ascending(#[trigger] self.state(n))
                &&& self.fwd_ok(n, init, gcd, cap)
                &&& self.bkwd_ok(n, goal, gcd, cap)
            } by {
                if n < idx {
                    assert(self.state(n) == old(self).state(n));
                    assert(old(self).fwd_ok(n, init, gcd, cap));
                    assert(old(self).bkwd_ok(n, goal, gcd, cap));
                }
            }
            assert forall|a: int, b: int| 0 <= a < b < self.len() implies #[trigger] self.state(a)
                != #[trigger] self.state(b) by {
                assert(self.state(a) == old(self).state(a));
                if b < idx {
                    assert(self.state(b) == old(self).state(b));
                }
            }
            assert(self.rows() =~= old(self).rows().push(fresh_row(state@)));
        }
        idx
    }

    /// Records that the start itself is state `idx`.
    pub fn seed_forward(
        &mut self,
        idx: usize,
        Ghost(init): Ghost<Seq<u64>>,
        Ghost(goal): Ghost<Seq<u64>>,
        Ghost(gcd): Ghost<u64>,
        Ghost(cap): Ghost<u64>,
    )
        requires
            old(self).wf(init, goal, gcd, cap),
            idx < old(self).len(),
            old(self).state(idx as int) == init,
            old(self).fwd_cost@[idx as int] is None,
            old(self).fwd_from@[idx as int] is None,
        ensures
            final(self).wf(init, goal, gcd, cap),
            final(self).states@ == old(self).states@,
            final(self).fwd_cost@ == old(self).fwd_cost@.update(idx as int, Some(0u128)),
            final(self).fwd_from@ == old(self).fwd_from@,
            final(self).bkwd_cost@ == old(self).bkwd_cost@,
            final(self).bkwd_from@ == old(self).bkwd_from@,
            final(self).rows() == old(self).rows().update(
                idx as int,
                (Row { fwd_cost: Some(0u128), ..old(self).rows()[idx as int] }),
            ),
    {
        proof {
            reveal(SearchTable::sound);
        }
        self.fwd_cost.set(idx, Some(0));
        proof {
            assert forall|n: int| 0 <= n < self.len() implies {
                &&& ascending(#[trigger] self.state(n))
                &&& self.fwd_ok(n, init, gcd, cap)
                &&& self.bkwd_ok(n, goal, gcd, cap)
            } by {
                assert(self.state(n) == old(self).state(n));
                assert(old(self).fwd_ok(n, init, gcd, cap));
                assert(old(self).bkwd_ok(n, goal, gcd, cap));
            }
            assert forall|a: int, b: int| 0 <= a < b < self.len() implies #[trigger] self.state(a)
                != #[trigger] self.state(b) by {
                assert(self.state(a) == old(self).state(a));
                assert(self.state(b) == old(self).state(b));
            }
            assert(self.rows() =~= old(self).rows().update(idx as int, (Row { fwd_cost: Some(0u128), ..old(self).rows()[idx as int] })));
        }
    }

    /// Records that the target itself is state `idx`.
    pub fn seed_backward(
        &mut self,
        idx: usize,
        Ghost(init): Ghost<Seq<u64>>,
        Ghost(goal): Ghost<Seq<u64>>,
        Ghost(gcd): Ghost<u64>,
        Ghost(cap): Ghost<u64>,
    )
        requires
            old(self).wf(init, goal, gcd, cap),
            idx < old(self).len(),
            old(self).state(idx as int) == goal,
            old(self).bkwd_cost@[idx as int] is None,
            old(self).bkwd_from@[idx as int] is None,
        ensures
            final(self).wf(init, goal, gcd, cap),
            final(self).states@ == old(self).states@,
            final(self).fwd_cost@ == old(self).fwd_cost@,
            final(self).fwd_from@ == old(self).fwd_from@,
            final(self).bkwd_cost@ == old(self).bkwd_cost@.update(idx as int, Some(0u128)),
            final(self).bkwd_from@ == old(self).bkwd_from@,
            final(self).rows() == old(self).rows().update(
                idx as int,
                (Row { bkwd_cost: Some(0u128), ..old(self).rows()[idx as int] }),
            ),
    {
        proof {
            reveal(SearchTable::sound);
        }
        self.bkwd_cost.set(idx, Some(0));
        proof {
            assert forall|n: int| 0 <= n < self.len() implies {
                &&& ascending(#[trigger] self.state(n))
                &&& self.fwd_ok(n, init, gcd, cap)
                &&& self.bkwd_ok(n, goal, gcd, cap)
            } by {
                assert(self.state(n) == old(self).state(n));
                assert(old(self).fwd_ok(n, init, gcd, cap));
                assert(old(self).bkwd_ok(n, goal, gcd, cap));
            }
            assert forall|a: int, b: int| 0 <= a < b < self.len() implies #[trigger] self.state(a)
                != #[trigger] self.state(b) by {
                assert(self.state(a) == old(self).state(a));
                assert(self.state(b) == old(self).state(b));
            }
            assert(self.rows() =~= old(self).rows().update(idx as int, (Row { bkwd_cost: Some(0u128), ..old(self).rows()[idx as int] })));
        }
    }

    /// Records that `op` leads from state `parent` to state `idx` at the
    /// cost `cost`, which is lower than any known before.
    pub fn reach_forward(
        &mut self,
        idx: usize,
        cost: u128,
        op: Operation,
        parent: usize,
        Ghost(init): Ghost<Seq<u64>>,
        Ghost(goal): Ghost<Seq<u64>>,
        Ghost(gcd): Ghost<u64>,
        Ghost(cap): Ghost<u64>,
    )
        requires
            old(self).wf(init, goal, gcd, cap),
            idx < old(self).len(),
            parent < old(self).len(),
            old(self).fwd_cost@[parent as int] is Some,
            old(self).fwd_cost@[parent as int]->0 < cost,
            old(self).fwd_cost@[idx as int] is Some ==> cost < old(self).fwd_cost@[idx as int]->0,
            step(old(self).state(parent as int), op, old(self).state(idx as int)),
            moves_to(old(self).state(parent as int), old(self).state(idx as int), gcd, cap),
            within(old(self).state(idx as int), cap),
        ensures
            final(self).wf(init, goal, gcd, cap),
            final(self).states@ == old(self).states@,
            final(self).fwd_cost@ == old(self).fwd_cost@.update(idx as int, Some(cost)),
            final(self).fwd_from@ == old(self).fwd_from@.update(idx as int, Some((op, parent))),
            final(self).bkwd_cost@ == old(self).bkwd_cost@,
            final(self).bkwd_from@ == old(self).bkwd_from@,
            final(self).rows() == old(self).rows().update(
                idx as int,
                (Row {
                    fwd_cost: Some(cost),
                    fwd_from: Some((op, parent)),
                    ..old(self).rows()[idx as int]
                }),
            ),
    {
        proof {
            reveal(SearchTable::sound);
        }
        self.fwd_cost.set(idx, Some(cost));
        self.fwd_from.set(idx, Some((op, parent)));
        proof {
            assert forall|n: int| 0 <= n < self.len() implies {
                &&& ascending(#[trigger] self.state(n))
                &&& self.fwd_ok(n, init, gcd, cap)
                &&& self.bkwd_ok(n, goal, gcd, cap)
            } by {
                assert(self.state(n) == old(self).state(n));
                assert(old(self).fwd_ok(n, init, gcd, cap));
                assert(old(self).bkwd_ok(n, goal, gcd, cap));
            }
            assert forall|a: int, b: int| 0 <= a < b < self.len() implies #[trigger] self.state(a)
                != #[trigger] self.state(b) by {
                assert(self.state(a) == old(self).state(a));
                assert(self.state(b) == old(self).state(b));
            }
            assert(self.rows() =~= old(self).rows().update(
                idx as int,
                (Row { fwd_cost: Some(cost), fwd_from: Some((op, parent)), ..old(self).rows()[idx as int] }),
            ));
        }
    }

    /// Records that the forward operation of `rop` leads from state `idx` to
    /// state `parent`, from which the target is `cost` minus the weight of
    /// that operation away at most, and that `cost` is lower than any known
    /// before.
    pub fn reach_backward(
        &mut self,
        idx: usize,
        cost: u128,
        rop: ReverseOperation,
        parent: usize,
        Ghost(init): Ghost<Seq<u64>>,
        Ghost(goal): Ghost<Seq<u64>>,
        Ghost(gcd): Ghost<u64>,
        Ghost(cap): Ghost<u64>,
    )
        requires
            old(self).wf(init, goal, gcd, cap),
            idx < old(self).len(),
            parent < old(self).len(),
            old(self).bkwd_cost@[parent as int] is Some,
            old(self).bkwd_cost@[parent as int]->0 < cost,
            old(self).bkwd_cost@[idx as int] is Some ==> cost < old(self).bkwd_cost@[idx as int]->0,
            step(old(self).state(idx as int), rop.spec_forward(), old(self).state(parent as int)),
            moves_to(old(self).state(idx as int), old(self).state(parent as int), gcd, cap),
            within(old(self).state(parent as int), cap),
        ensures
            final(self).wf(init, goal, gcd, cap),
            final(self).states@ == old(self).states@,
            final(self).fwd_cost@ == old(self).fwd_cost@,
            final(self).fwd_from@ == old(self).fwd_from@,
            final(self).bkwd_cost@ == old(self).bkwd_cost@.update(idx as int, Some(cost)),
            final(self).bkwd_from@ == old(self).bkwd_from@.update(idx as int, Some((rop, parent))),
            final(self).rows() == old(self).rows().update(
                idx as int,
                (Row {
                    bkwd_cost: Some(cost),
                    bkwd_from: Some((rop, parent)),
                    ..old(self).rows()[idx as int]
                }),
            ),
    {
        proof {
            reveal(SearchTable::sound);
        }
        self.bkwd_cost.set(idx, Some(cost));
        self.bkwd_from.set(idx, Some((rop, parent)));
        proof {
            assert forall|n: int| 0 <= n < self.len() implies {
                &&& ascending(#[trigger] self.state(n))
                &&& self.fwd_ok(n, init, gcd, cap)
                &&& self.bkwd_ok(n, goal, gcd, cap)
            } by {
                assert(self.state(n) == old(self).state(n));
                assert(old(self).fwd_ok(n, init, gcd, cap));
                assert(old(self).bkwd_ok(n, goal, gcd, cap));
            }
            assert forall|a: int, b: int| 0 <= a < b < self.len() implies #[trigger] self.state(a)
                != #[trigger] self.state(b) by {
                assert(self.state(a) == old(self).state(a));
                assert(self.state(b) == old(self).state(b));
            }
            assert(self.rows() =~= old(self).rows().update(
                idx as int,
                (Row { bkwd_cost: Some(cost), bkwd_from: Some((rop, parent)), ..old(self).rows()[idx as int] }),
            ));
        }
    }

    /// A table without states is well formed.
    pub proof fn lemma_empty_wf(&self, init: Seq<u64>, goal: Seq<u64>, gcd: u64, cap: u64)
        requires
            self.len() == 0,
            self.shaped(),
        ensures
            self.wf(init, goal, gcd, cap),
    {
        reveal(SearchTable::sound);
    }

    /// What being well formed says of state `n`.
    pub proof fn lemma_wf_facts(&self, init: Seq<u64>, goal: Seq<u64>, gcd: u64, cap: u64, n: int)
        requires
            self.wf(init, goal, gcd, cap),
            0 <= n < self.len(),
        ensures
            self.shaped(),
            self.distinct_states(),
            ascending(self.state(n)),
            self.fwd_ok(n, init, gcd, cap),
            self.bkwd_ok(n, goal, gcd, cap),
    {
        reveal(SearchTable::sound);
    }

    /// A well-formed table has one entry in each column for each state.
    pub proof fn lemma_wf_shaped(&self, init: Seq<u64>, goal: Seq<u64>, gcd: u64, cap: u64)
        requires
            self.wf(init, goal, gcd, cap),
        ensures
            self.shaped(),
            self.distinct_states(),
    {
        reveal(SearchTable::sound);
    }

    /// What `find` returns is the place that the rows hold the state at.
    pub proof fn lemma_found_is_held_at(&self, s: Seq<u64>, found: Option<usize>)
        requires
            self.distinct_states(),
            match found {
                Some(i) => i < self.len() && self.state(i as int) == s,
                None => forall|n: int| 0 <= n < self.len() ==> #[trigger] self.state(n) != s,
            },
        ensures
            held_at(self.rows(), s) == match found {
                Some(i) => i as int,
                None => self.len() as int,
            },
    {
        let rows = self.rows();
        match found {
            Some(i) => {
                assert(rows[i as int].state == s);
                let n = held_at(rows, s);
                assert(rows[n].state == self.state(n));
                if n < i {
                    assert(self.state(n) != self.state(i as int));
                } else if i < n {
                    assert(self.state(i as int) != self.state(n));
                }
            },
            None => {
                assert forall|n: int| 0 <= n < rows.len() implies (#[trigger] rows[n]).state != s by {
                    assert(self.state(n) != s);
                }
            },
        }
    }
}

} // verus!
