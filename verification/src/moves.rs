//! The moves of a search: the operations by which it leaves a state in
//! either direction, which are those whose result passes the divisor gate
//! and respects the capacity.

use vstd::prelude::*;
use crate::balancer::{Balancer, BalancerState};
use crate::helpers::{
    backward_candidates, forward_candidates, lemma_merges_sound, lemma_rev_merges_sound,
    lemma_rev_splits_sound, lemma_splits_sound, merge_ops, merges, rev_merge_ops, rev_merges,
    rev_split_ops, rev_splits, split_ops, splits, valid_state, validate_state,
};
use crate::model::{
    apply, ascending, distinct, lemma_apply_is_step, lemma_replaced, lemma_unapply_is_step, step,
    unapply,
};
use crate::operation::{Operation, ReverseOperation};

verus! {

/// No value of `s` exceeds `cap`.
pub open spec fn within(s: Seq<u64>, cap: u64) -> bool {
    forall|i: int| 0 <= i < s.len() ==> s[i] <= cap
}

/// A state may enter a frontier when it passes the divisor gate and no
/// channel carries more than `cap`.
pub open spec fn admissible(s: Seq<u64>, gcd: u64, cap: u64) -> bool {
    valid_state(s, gcd) && within(s, cap)
}

/// Those of `ops`, in order, that make an admissible state of `s`.
pub open spec fn kept_forward(s: Seq<u64>, ops: Seq<Operation>, gcd: u64, cap: u64) -> Seq<
    Operation,
>
    decreases ops.len(),
{
    if ops.len() == 0 {
        ops
    } else if admissible(apply(s, ops.last()), gcd, cap) {
        kept_forward(s, ops.drop_last(), gcd, cap).push(ops.last())
    } else {
        kept_forward(s, ops.drop_last(), gcd, cap)
    }
}

/// Those of `rops`, in order, whose forward operation makes `s` of an
/// admissible state.
pub open spec fn kept_backward(
    s: Seq<u64>,
    rops: Seq<ReverseOperation>,
    gcd: u64,
    cap: u64,
) -> Seq<ReverseOperation>
    decreases rops.len(),
{
    if rops.len() == 0 {
        rops
    } else if admissible(unapply(s, rops.last()), gcd, cap) {
        kept_backward(s, rops.drop_last(), gcd, cap).push(rops.last())
    } else {
        kept_backward(s, rops.drop_last(), gcd, cap)
    }
}

/// The operations by which the search leaves `s` forwards: the exact splits
/// and then the merges whose result is admissible.
pub open spec fn forward_moves(s: Seq<u64>, gcd: u64, cap: u64) -> Seq<Operation> {
    kept_forward(s, split_ops(distinct(s)), gcd, cap) + kept_forward(s, merge_ops(s), gcd, cap)
}

/// The reverse operations by which the search leaves `s` backwards: the
/// reverse splits and then the reverse merges that come from an admissible
/// state.
pub open spec fn backward_moves(s: Seq<u64>, gcd: u64, cap: u64) -> Seq<ReverseOperation> {
    kept_backward(s, rev_split_ops(distinct(s), gcd), gcd, cap) + kept_backward(
        s,
        rev_merge_ops(s, distinct(s)),
        gcd,
        cap,
    )
}

/// Whether no value of `state` exceeds `cap`.
pub fn within_capacity(state: &BalancerState, cap: u64) -> (ok: bool)
    ensures
        ok == within(state@, cap),
{
    let mut i: usize = 0;
    while i < state.values.len()
        invariant
            i <= state@.len(),
            forall|k: int| 0 <= k < i ==> state@[k] <= cap,
        decreases state@.len() - i,
    {
        if state.values[i] > cap {
            return false;
        }
        i += 1;
    }
    true
}

fn keep_forward(
    cands: &Vec<(Operation, BalancerState)>,
    gcd: u64,
    cap: u64,
    out: &mut Vec<(Operation, BalancerState)>,
    Ghost(s): Ghost<Seq<u64>>,
    Ghost(ops): Ghost<Seq<Operation>>,
    Ghost(before): Ghost<Seq<Operation>>,
)
    requires
        forward_candidates(cands@, s, ops),
        forward_candidates(old(out)@, s, before),
    ensures
        forward_candidates(final(out)@, s, before + kept_forward(s, ops, gcd, cap)),
{
    let mut i: usize = 0;
    proof {
        assert(ops.take(0) =~= Seq::<Operation>::empty());
        assert(before + kept_forward(s, ops.take(0), gcd, cap) =~= before);
    }
    while i < cands.len()
        invariant
            i <= cands.len(),
            forward_candidates(cands@, s, ops),
            forward_candidates(out@, s, before + kept_forward(s, ops.take(i as int), gcd, cap)),
        decreases cands.len() - i,
    {
        let op = cands[i].0;
        let ghost kept = kept_forward(s, ops.take(i as int), gcd, cap);
        proof {
            assert(ops.take(i + 1).drop_last() =~= ops.take(i as int));
            assert(ops.take(i + 1).last() == ops[i as int]);
        }
        if validate_state(&cands[i].1, gcd) && within_capacity(&cands[i].1, cap) {
            let next = cands[i].1.clone();
            out.push((op, next));
            proof {
                assert(before + kept.push(op) =~= (before + kept).push(op));
            }
        }
        i += 1;
    }
    proof {
        assert(ops.take(cands.len() as int) =~= ops);
    }
}

fn keep_backward(
    cands: &Vec<(ReverseOperation, BalancerState)>,
    gcd: u64,
    cap: u64,
    out: &mut Vec<(ReverseOperation, BalancerState)>,
    Ghost(s): Ghost<Seq<u64>>,
    Ghost(rops): Ghost<Seq<ReverseOperation>>,
    Ghost(before): Ghost<Seq<ReverseOperation>>,
)
    requires
        backward_candidates(cands@, s, rops),
        backward_candidates(old(out)@, s, before),
    ensures
        backward_candidates(final(out)@, s, before + kept_backward(s, rops, gcd, cap)),
{
    let mut i: usize = 0;
    proof {
        assert(rops.take(0) =~= Seq::<ReverseOperation>::empty());
        assert(before + kept_backward(s, rops.take(0), gcd, cap) =~= before);
    }
    while i < cands.len()
        invariant
            i <= cands.len(),
            backward_candidates(cands@, s, rops),
            backward_candidates(out@, s, before + kept_backward(s, rops.take(i as int), gcd, cap)),
        decreases cands.len() - i,
    {
        let rop = cands[i].0;
        let ghost kept = kept_backward(s, rops.take(i as int), gcd, cap);
        proof {
            assert(rops.take(i + 1).drop_last() =~= rops.take(i as int));
            assert(rops.take(i + 1).last() == rops[i as int]);
        }
        if validate_state(&cands[i].1, gcd) && within_capacity(&cands[i].1, cap) {
            let prev = cands[i].1.clone();
            out.push((rop, prev));
            proof {
                assert(before + kept.push(rop) =~= (before + kept).push(rop));
            }
        }
        i += 1;
    }
    proof {
        assert(rops.take(cands.len() as int) =~= rops);
    }
}

/// Each operation that `kept_forward` keeps is among `ops`.
pub proof fn lemma_kept_forward_member(s: Seq<u64>, ops: Seq<Operation>, gcd: u64, cap: u64, k: int)
    requires
        0 <= k < kept_forward(s, ops, gcd, cap).len(),
    ensures
        admissible(apply(s, kept_forward(s, ops, gcd, cap)[k]), gcd, cap),
        exists|j: int| 0 <= j < ops.len() && ops[j] == kept_forward(s, ops, gcd, cap)[k],
    decreases ops.len(),
{
    let earlier = kept_forward(s, ops.drop_last(), gcd, cap);
    if k < earlier.len() {
        lemma_kept_forward_member(s, ops.drop_last(), gcd, cap, k);
        let j = choose|j: int| 0 <= j < ops.drop_last().len() && ops.drop_last()[j] == earlier[k];
        assert(ops[j] == earlier[k]);
    } else {
        assert(ops[ops.len() - 1] == ops.last());
    }
}

/// Each reverse operation that `kept_backward` keeps is among `rops`.
pub proof fn lemma_kept_backward_member(
    s: Seq<u64>,
    rops: Seq<ReverseOperation>,
    gcd: u64,
    cap: u64,
    k: int,
)
    requires
        0 <= k < kept_backward(s, rops, gcd, cap).len(),
    ensures
        admissible(unapply(s, kept_backward(s, rops, gcd, cap)[k]), gcd, cap),
        exists|j: int| 0 <= j < rops.len() && rops[j] == kept_backward(s, rops, gcd, cap)[k],
    decreases rops.len(),
{
    let earlier = kept_backward(s, rops.drop_last(), gcd, cap);
    if k < earlier.len() {
        lemma_kept_backward_member(s, rops.drop_last(), gcd, cap, k);
        let j = choose|j: int|
            0 <= j < rops.drop_last().len() && rops.drop_last()[j] == earlier[k];
        assert(rops[j] == earlier[k]);
    } else {
        assert(rops[rops.len() - 1] == rops.last());
    }
}

/// Every forward move is a step from `s` to an admissible state.
pub proof fn lemma_forward_moves_sound(s: Seq<u64>, gcd: u64, cap: u64, k: int)
    requires
        0 <= k < forward_moves(s, gcd, cap).len(),
    ensures
        step(s, forward_moves(s, gcd, cap)[k], apply(s, forward_moves(s, gcd, cap)[k])),
        admissible(apply(s, forward_moves(s, gcd, cap)[k]), gcd, cap),
        ascending(apply(s, forward_moves(s, gcd, cap)[k])),
{
    let split_part = kept_forward(s, split_ops(distinct(s)), gcd, cap);
    let op = forward_moves(s, gcd, cap)[k];
    if k < split_part.len() {
        lemma_kept_forward_member(s, split_ops(distinct(s)), gcd, cap, k);
        let j = choose|j: int|
            0 <= j < split_ops(distinct(s)).len() && split_ops(distinct(s))[j] == op;
        lemma_splits_sound(s, j);
    } else {
        lemma_kept_forward_member(s, merge_ops(s), gcd, cap, k - split_part.len());
        let j = choose|j: int| 0 <= j < merge_ops(s).len() && merge_ops(s)[j] == op;
        lemma_merges_sound(s, j);
    }
    lemma_apply_is_step(s, op);
    lemma_replaced(s, op.consumed(), op.produced());
}

/// The forward operation of every backward move is a step from an
/// admissible state to `s`.
pub proof fn lemma_backward_moves_sound(s: Seq<u64>, gcd: u64, cap: u64, k: int)
    requires
        ascending(s),
        0 <= k < backward_moves(s, gcd, cap).len(),
    ensures
        step(
            unapply(s, backward_moves(s, gcd, cap)[k]),
            backward_moves(s, gcd, cap)[k].spec_forward(),
            s,
        ),
        admissible(unapply(s, backward_moves(s, gcd, cap)[k]), gcd, cap),
        ascending(unapply(s, backward_moves(s, gcd, cap)[k])),
{
    let split_part = kept_backward(s, rev_split_ops(distinct(s), gcd), gcd, cap);
    let rop = backward_moves(s, gcd, cap)[k];
    if k < split_part.len() {
        lemma_kept_backward_member(s, rev_split_ops(distinct(s), gcd), gcd, cap, k);
        let j = choose|j: int|
            0 <= j < rev_split_ops(distinct(s), gcd).len() && rev_split_ops(distinct(s), gcd)[j]
                == rop;
        lemma_rev_splits_sound(s, gcd, j);
    } else {
        lemma_kept_backward_member(s, rev_merge_ops(s, distinct(s)), gcd, cap, k - split_part.len());
        let j = choose|j: int|
            0 <= j < rev_merge_ops(s, distinct(s)).len() && rev_merge_ops(s, distinct(s))[j]
                == rop;
        lemma_rev_merges_sound(s, j);
    }
    lemma_unapply_is_step(s, rop);
    lemma_replaced(s, rop.spec_forward().produced(), rop.spec_forward().consumed());
}

impl Balancer {
    /// The successors of `state`: each forward move with the state that it
    /// makes, splits first.
    pub fn get_states_fwd(&self, state: &Vec<u64>, gcd: u64) -> (next_states: Vec<
        (Operation, BalancerState),
    >)
        ensures
            forward_candidates(
                next_states@,
                state@,
                forward_moves(state@, gcd, self.max_belt),
            ),
    {
        let mut next_states: Vec<(Operation, BalancerState)> = Vec::new();
        let split_states = splits(state);
        let merge_states = merges(state);
        let ghost none = Seq::<Operation>::empty();
        let ghost split_part = kept_forward(
            state@,
            split_ops(distinct(state@)),
            gcd,
            self.max_belt,
        );
        keep_forward(
            &split_states,
            gcd,
            self.max_belt,
            &mut next_states,
            Ghost(state@),
            Ghost(split_ops(distinct(state@))),
            Ghost(none),
        );
        proof {
            assert(none + split_part =~= split_part);
        }
        keep_forward(
            &merge_states,
            gcd,
            self.max_belt,
            &mut next_states,
            Ghost(state@),
            Ghost(merge_ops(state@)),
            Ghost(split_part),
        );
        next_states
    }

    /// The predecessors of `state`: each backward move with the state that
    /// it comes from, reverse splits first.
    pub fn get_states_bkwd(&self, state: &Vec<u64>, gcd: u64) -> (next_states: Vec<
        (ReverseOperation, BalancerState),
    >)
        ensures
            backward_candidates(
                next_states@,
                state@,
                backward_moves(state@, gcd, self.max_belt),
            ),
    {
        let mut next_states: Vec<(ReverseOperation, BalancerState)> = Vec::new();
        let split_states = rev_splits(state, gcd);
        let merge_states = rev_merges(state);
        let ghost none = Seq::<ReverseOperation>::empty();
        let ghost split_part = kept_backward(
            state@,
            rev_split_ops(distinct(state@), gcd),
            gcd,
            self.max_belt,
        );
        keep_backward(
            &split_states,
            gcd,
            self.max_belt,
            &mut next_states,
            Ghost(state@),
            Ghost(rev_split_ops(distinct(state@), gcd)),
            Ghost(none),
        );
        proof {
            assert(none + split_part =~= split_part);
        }
        keep_backward(
            &merge_states,
            gcd,
            self.max_belt,
            &mut next_states,
            Ghost(state@),
            Ghost(rev_merge_ops(state@, distinct(state@))),
            Ghost(split_part),
        );
        next_states
    }
}

} // verus!
