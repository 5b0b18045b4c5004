//! What a search has covered: which states can be made of the start by
//! forward moves, and when a table holds all of them.

use vstd::prelude::*;
use crate::calc::{carried_backward, carried_forward, grown_backward, grown_forward};
use crate::moves::{
    admissible, backward_moves, forward_moves, kept_backward, kept_forward,
    lemma_backward_moves_sound, lemma_kept_backward_member,
};
use crate::frontier::Entry;
use crate::helpers::{
    lemma_merge_ops_complete, lemma_rev_merges_sound, lemma_rev_splits_sound,
    lemma_split_ops_complete, merge_op, merge_ops, rev_merge_ops, rev_split_ops, split_ops,
    split_ops_of,
};
use crate::model::{
    apply, ascending, canonical, distinct, lemma_canonical, lemma_canonical_unique,
    lemma_distinct, lemma_parts_total, lemma_replaced, lemma_total_canonical, step, unapply,
};
use crate::operation::{parts_seq, Operation};
use crate::table::SearchTable;

verus! {

/// The state that forward move `k` makes of `s`.
pub open spec fn move_result(s: Seq<u64>, gcd: u64, cap: u64, k: int) -> Seq<u64> {
    apply(s, forward_moves(s, gcd, cap)[k])
}

/// `s` can be made of `init` by `n` forward moves, one after the other.
pub open spec fn leads(init: Seq<u64>, s: Seq<u64>, gcd: u64, cap: u64, n: nat) -> bool
    decreases n,
{
    if n == 0 {
        s == init
    } else {
        exists|prev: Seq<u64>, k: int|
            leads(init, prev, gcd, cap, (n - 1) as nat) && 0 <= k < forward_moves(
                prev,
                gcd,
                cap,
            ).len() && s == #[trigger] move_result(prev, gcd, cap, k)
    }
}

/// The table holds `s` as reached from the start.
pub open spec fn reached_forward(t: SearchTable, s: Seq<u64>) -> bool {
    exists|n: int| 0 <= n < t.len() && #[trigger] t.state(n) == s && t.fwd_cost@[n] is Some
}

/// The table holds every state that a forward move makes of state `n` as
/// reached from the start.
pub open spec fn expanded_forward(t: SearchTable, n: int, gcd: u64, cap: u64) -> bool {
    forall|k: int|
        0 <= k < forward_moves(t.state(n), gcd, cap).len() ==> reached_forward(
            t,
            #[trigger] move_result(t.state(n), gcd, cap, k),
        )
}

/// An entry for state `n` waits on the frontier.
pub open spec fn pending(frontier: Seq<Entry>, n: int) -> bool {
    exists|k: int| 0 <= k < frontier.len() && (#[trigger] frontier[k]).node == n
}

/// State `n`, if reached from the start, waits on the frontier or has been
/// expanded.
pub open spec fn settled(t: SearchTable, frontier: Seq<Entry>, n: int, gcd: u64, cap: u64) -> bool {
    t.fwd_cost@[n] is Some ==> pending(frontier, n) || expanded_forward(t, n, gcd, cap)
}

/// Every state that is reached from the start waits on the frontier or has
/// been expanded.
#[verifier::opaque]
pub open spec fn closed_forward(t: SearchTable, frontier: Seq<Entry>, gcd: u64, cap: u64) -> bool {
    forall|n: int| 0 <= n < t.len() ==> #[trigger] settled(t, frontier, n, gcd, cap)
}

/// State `n`, if reached from both sides, waits on one of the frontiers.
pub open spec fn awaited(t: SearchTable, fwd: Seq<Entry>, bkwd: Seq<Entry>, n: int) -> bool {
    t.fwd_cost@[n] is Some && t.bkwd_cost@[n] is Some ==> pending(fwd, n) || pending(bkwd, n)
}

/// Every state that is reached from both sides waits on one of the
/// frontiers: none has been examined since.
#[verifier::opaque]
pub open spec fn covered(t: SearchTable, fwd: Seq<Entry>, bkwd: Seq<Entry>) -> bool {
    forall|n: int| 0 <= n < t.len() ==> #[trigger] awaited(t, fwd, bkwd, n)
}

/// `new` holds the entries of `old`, in their places, and perhaps more.
pub open spec fn extended(old: Seq<Entry>, new: Seq<Entry>) -> bool {
    old.len() <= new.len() && forall|k: int| 0 <= k < old.len() ==> #[trigger] new[k] == old[k]
}

/// Every state that `new` holds as reached from the start was so in `old`
/// or waits on `frontier`.
pub open spec fn fresh_forward_pending(old: SearchTable, new: SearchTable, frontier: Seq<Entry>) -> bool {
    forall|n: int|
        0 <= n < new.len() && (#[trigger] new.fwd_cost@[n]) is Some ==> (n < old.len()
            && old.fwd_cost@[n] is Some) || pending(frontier, n)
}

/// Every state that `new` holds as reached from the target was so in `old`
/// or waits on `frontier`.
pub open spec fn fresh_backward_pending(old: SearchTable, new: SearchTable, frontier: Seq<Entry>) -> bool {
    forall|n: int|
        0 <= n < new.len() && (#[trigger] new.bkwd_cost@[n]) is Some ==> (n < old.len()
            && old.bkwd_cost@[n] is Some) || pending(frontier, n)
}

/// What waits on a frontier waits on every extension of it.
pub proof fn lemma_pending_extended(old: Seq<Entry>, new: Seq<Entry>, n: int)
    requires
        extended(old, new),
        pending(old, n),
    ensures
        pending(new, n),
{
    let k = choose|k: int| 0 <= k < old.len() && (#[trigger] old[k]).node == n;
    assert(new[k].node == n);
}

/// Taking an entry of another state off a frontier leaves state `n`
/// waiting.
pub proof fn lemma_pending_after_removal(old: Seq<Entry>, i: int, n: int)
    requires
        0 <= i < old.len(),
        pending(old, n),
        old[i].node != n,
    ensures
        pending(old.remove(i), n),
{
    let k = choose|k: int| 0 <= k < old.len() && (#[trigger] old[k]).node == n;
    if k < i {
        assert(old.remove(i)[k].node == n);
    } else {
        assert(old.remove(i)[k - 1].node == n);
    }
}

/// A state reached from the start stays so through forward expansions.
pub proof fn lemma_reached_grown_forward(old: SearchTable, new: SearchTable, s: Seq<u64>)
    requires
        grown_forward(old, new),
        reached_forward(old, s),
    ensures
        reached_forward(new, s),
{
    let n = choose|n: int| 0 <= n < old.len() && #[trigger] old.state(n) == s && old.fwd_cost@[n] is Some;
    assert(carried_forward(old, new, n));
    assert(new.state(n) == s);
}

/// A state reached from the start stays so through backward expansions.
pub proof fn lemma_reached_grown_backward(old: SearchTable, new: SearchTable, s: Seq<u64>)
    requires
        grown_backward(old, new),
        reached_forward(old, s),
    ensures
        reached_forward(new, s),
{
    let n = choose|n: int| 0 <= n < old.len() && #[trigger] old.state(n) == s && old.fwd_cost@[n] is Some;
    assert(carried_backward(old, new, n));
    assert(new.state(n) == s);
}

/// An expanded state stays expanded through forward expansions.
pub proof fn lemma_expanded_grown_forward(
    old: SearchTable,
    new: SearchTable,
    n: int,
    gcd: u64,
    cap: u64,
)
    requires
        grown_forward(old, new),
        0 <= n < old.len(),
        expanded_forward(old, n, gcd, cap),
    ensures
        expanded_forward(new, n, gcd, cap),
{
    assert(carried_forward(old, new, n));
    assert forall|k: int| 0 <= k < forward_moves(new.state(n), gcd, cap).len() implies reached_forward(
        new,
        #[trigger] move_result(new.state(n), gcd, cap, k),
    ) by {
        lemma_reached_grown_forward(old, new, move_result(old.state(n), gcd, cap, k));
    }
}

/// An expanded state stays expanded through backward expansions.
pub proof fn lemma_expanded_grown_backward(
    old: SearchTable,
    new: SearchTable,
    n: int,
    gcd: u64,
    cap: u64,
)
    requires
        grown_backward(old, new),
        0 <= n < old.len(),
        expanded_forward(old, n, gcd, cap),
    ensures
        expanded_forward(new, n, gcd, cap),
{
    assert(carried_backward(old, new, n));
    assert forall|k: int| 0 <= k < forward_moves(new.state(n), gcd, cap).len() implies reached_forward(
        new,
        #[trigger] move_result(new.state(n), gcd, cap, k),
    ) by {
        lemma_reached_grown_backward(old, new, move_result(old.state(n), gcd, cap, k));
    }
}

/// Taking the entry of state `cur` off the frontier and expanding `cur`
/// forwards keeps the table closed.
pub proof fn lemma_closed_after_forward(
    old: SearchTable,
    new: SearchTable,
    waiting: Seq<Entry>,
    i: int,
    frontier: Seq<Entry>,
    gcd: u64,
    cap: u64,
)
    requires
        closed_forward(old, waiting, gcd, cap),
        0 <= i < waiting.len(),
        grown_forward(old, new),
        extended(waiting.remove(i), frontier),
        fresh_forward_pending(old, new, frontier),
        waiting[i].node < new.len(),
        expanded_forward(new, waiting[i].node as int, gcd, cap),
    ensures
        closed_forward(new, frontier, gcd, cap),
{
    reveal(closed_forward);
    let cur = waiting[i].node as int;
    assert forall|n: int| 0 <= n < new.len() implies #[trigger] settled(new, frontier, n, gcd, cap) by {
        if new.fwd_cost@[n] is Some && n != cur {
            if n < old.len() && old.fwd_cost@[n] is Some {
                assert(settled(old, waiting, n, gcd, cap));
                if pending(waiting, n) {
                    lemma_pending_after_removal(waiting, i, n);
                    lemma_pending_extended(waiting.remove(i), frontier, n);
                } else {
                    lemma_expanded_grown_forward(old, new, n, gcd, cap);
                }
            }
        }
    }
}

/// Expanding a state backwards keeps the table closed forwards.
pub proof fn lemma_closed_after_backward(
    old: SearchTable,
    new: SearchTable,
    frontier: Seq<Entry>,
    gcd: u64,
    cap: u64,
)
    requires
        closed_forward(old, frontier, gcd, cap),
        grown_backward(old, new),
        forall|n: int| old.len() <= n < new.len() ==> (#[trigger] new.fwd_cost@[n]) is None,
    ensures
        closed_forward(new, frontier, gcd, cap),
{
    reveal(closed_forward);
    assert forall|n: int| 0 <= n < new.len() implies #[trigger] settled(new, frontier, n, gcd, cap) by {
        if n < old.len() {
            assert(carried_backward(old, new, n));
            assert(settled(old, frontier, n, gcd, cap));
            if old.fwd_cost@[n] is Some && !pending(frontier, n) {
                lemma_expanded_grown_backward(old, new, n, gcd, cap);
            }
        }
    }
}

/// After a forward turn that found no meeting point, every state reached
/// from both sides still waits on a frontier.
pub proof fn lemma_covered_after_forward(
    old: SearchTable,
    new: SearchTable,
    waiting: Seq<Entry>,
    i: int,
    frontier: Seq<Entry>,
    other: Seq<Entry>,
)
    requires
        covered(old, waiting, other),
        0 <= i < waiting.len(),
        waiting[i].node < old.len(),
        old.bkwd_cost@[waiting[i].node as int] is None,
        grown_forward(old, new),
        extended(waiting.remove(i), frontier),
        fresh_forward_pending(old, new, frontier),
        forall|n: int| old.len() <= n < new.len() ==> (#[trigger] new.bkwd_cost@[n]) is None,
    ensures
        covered(new, frontier, other),
{
    reveal(covered);
    assert forall|n: int| 0 <= n < new.len() implies #[trigger] awaited(new, frontier, other, n) by {
        if new.fwd_cost@[n] is Some && new.bkwd_cost@[n] is Some {
            assert(n < old.len());
            assert(carried_forward(old, new, n));
            if old.fwd_cost@[n] is Some {
                assert(awaited(old, waiting, other, n));
                if pending(waiting, n) {
                    lemma_pending_after_removal(waiting, i, n);
                    lemma_pending_extended(waiting.remove(i), frontier, n);
                }
            }
        }
    }
}

/// After a backward turn that found no meeting point, every state reached
/// from both sides still waits on a frontier.
pub proof fn lemma_covered_after_backward(
    old: SearchTable,
    new: SearchTable,
    waiting: Seq<Entry>,
    i: int,
    frontier: Seq<Entry>,
    other: Seq<Entry>,
)
    requires
        covered(old, other, waiting),
        0 <= i < waiting.len(),
        waiting[i].node < old.len(),
        old.fwd_cost@[waiting[i].node as int] is None,
        grown_backward(old, new),
        extended(waiting.remove(i), frontier),
        fresh_backward_pending(old, new, frontier),
        forall|n: int| old.len() <= n < new.len() ==> (#[trigger] new.fwd_cost@[n]) is None,
    ensures
        covered(new, other, frontier),
{
    reveal(covered);
    assert forall|n: int| 0 <= n < new.len() implies #[trigger] awaited(new, other, frontier, n) by {
        if new.fwd_cost@[n] is Some && new.bkwd_cost@[n] is Some {
            assert(n < old.len());
            assert(carried_backward(old, new, n));
            if old.bkwd_cost@[n] is Some {
                assert(awaited(old, other, waiting, n));
                if pending(waiting, n) {
                    lemma_pending_after_removal(waiting, i, n);
                    lemma_pending_extended(waiting.remove(i), frontier, n);
                }
            }
        }
    }
}

/// A table that is closed with nothing waiting holds every state that
/// forward moves make of the start.
pub proof fn lemma_closed_holds_all(
    t: SearchTable,
    init: Seq<u64>,
    s: Seq<u64>,
    gcd: u64,
    cap: u64,
    n: nat,
)
    requires
        closed_forward(t, Seq::<Entry>::empty(), gcd, cap),
        reached_forward(t, init),
        leads(init, s, gcd, cap, n),
    ensures
        reached_forward(t, s),
    decreases n,
{
    reveal(closed_forward);
    if n > 0 {
        let (prev, k) = choose|prev: Seq<u64>, k: int|
            leads(init, prev, gcd, cap, (n - 1) as nat) && 0 <= k < forward_moves(
                prev,
                gcd,
                cap,
            ).len() && s == #[trigger] move_result(prev, gcd, cap, k);
        lemma_closed_holds_all(t, init, prev, gcd, cap, (n - 1) as nat);
        let m = choose|m: int| 0 <= m < t.len() && #[trigger] t.state(m) == prev && t.fwd_cost@[m] is Some;
        assert(settled(t, Seq::<Entry>::empty(), m, gcd, cap));
        assert(!pending(Seq::<Entry>::empty(), m));
        assert(expanded_forward(t, m, gcd, cap));
        assert(reached_forward(t, move_result(t.state(m), gcd, cap, k)));
    }
}

/// Some forward move makes `next` of `prev`.
#[verifier::opaque]
pub open spec fn moves_to(prev: Seq<u64>, next: Seq<u64>, gcd: u64, cap: u64) -> bool {
    exists|k: int|
        0 <= k < forward_moves(prev, gcd, cap).len() && next == #[trigger] move_result(
            prev,
            gcd,
            cap,
            k,
        )
}

/// An operation among `ops` that makes an admissible state is kept.
pub proof fn lemma_kept_forward_holds(s: Seq<u64>, ops: Seq<Operation>, gcd: u64, cap: u64, j: int)
    requires
        0 <= j < ops.len(),
        admissible(apply(s, ops[j]), gcd, cap),
    ensures
        exists|k: int|
            0 <= k < kept_forward(s, ops, gcd, cap).len() && #[trigger] kept_forward(
                s,
                ops,
                gcd,
                cap,
            )[k] == ops[j],
    decreases ops.len(),
{
    let earlier = kept_forward(s, ops.drop_last(), gcd, cap);
    if j < ops.len() - 1 {
        lemma_kept_forward_holds(s, ops.drop_last(), gcd, cap, j);
        let k = choose|k: int| 0 <= k < earlier.len() && #[trigger] earlier[k] == ops.drop_last()[j];
        assert(kept_forward(s, ops, gcd, cap)[k] == ops[j]);
    } else {
        assert(kept_forward(s, ops, gcd, cap)[earlier.len() as int] == ops[j]);
    }
}

/// An operation that takes and puts the same values as one that is a step
/// from `prev` to `next` makes `next` of `prev` as well.
pub proof fn lemma_same_effect(prev: Seq<u64>, op: Operation, next: Seq<u64>, other: Operation)
    requires
        step(prev, op, next),
        other.consumed().to_multiset() == op.consumed().to_multiset(),
        other.produced().to_multiset() == op.produced().to_multiset(),
    ensures
        apply(prev, other) == next,
{
    reveal(step);
    broadcast use vstd::multiset::group_multiset_axioms;

    lemma_replaced(prev, other.consumed(), other.produced());
    let made = apply(prev, other);
    assert(made.to_multiset() =~= next.to_multiset()) by {
        assert forall|x: u64| made.to_multiset().count(x) == next.to_multiset().count(x) by {
            assert(made.to_multiset().add(other.consumed().to_multiset()).count(x)
                == prev.to_multiset().add(other.produced().to_multiset()).count(x));
            assert(next.to_multiset().add(op.consumed().to_multiset()).count(x)
                == prev.to_multiset().add(op.produced().to_multiset()).count(x));
        }
    }
    lemma_canonical_unique(next, made);
    lemma_canonical_unique(next, next);
}

/// A split among the exact splits of `prev` that leads to the admissible
/// state `next` is a forward move.
proof fn lemma_split_is_move(prev: Seq<u64>, op: Operation, next: Seq<u64>, gcd: u64, cap: u64)
    requires
        step(prev, op, next),
        admissible(next, gcd, cap),
        op is Split,
        split_ops_of(op->Split_input).contains(op),
    ensures
        moves_to(prev, next, gcd, cap),
{
    reveal(step);
    reveal(moves_to);
    let w = op->Split_input;
    let splits = split_ops(distinct(prev));
    let i = choose|i: int| 0 <= i < split_ops_of(w).len() && split_ops_of(w)[i] == op;
    assert(op.consumed() =~= seq![w]);
    assert(prev.contains(w)) by {
        broadcast use vstd::multiset::group_multiset_axioms;

        vstd::seq_lib::to_multiset_contains(seq![w], w);
        assert(seq![w][0] == w);
        assert(seq![w].contains(w));
        vstd::seq_lib::to_multiset_contains(prev, w);
    }
    lemma_distinct(prev);
    lemma_split_ops_complete(distinct(prev), w, i);
    let j = choose|j: int| 0 <= j < splits.len() && #[trigger] splits[j] == op;
    lemma_same_effect(prev, op, next, op);
    lemma_kept_forward_holds(prev, splits, gcd, cap, j);
    let kept = kept_forward(prev, splits, gcd, cap);
    let k = choose|k: int| 0 <= k < kept.len() && #[trigger] kept[k] == op;
    assert(forward_moves(prev, gcd, cap)[k] == op);
    assert(next == move_result(prev, gcd, cap, k));
}

/// A merge that is a step from `prev` to the admissible state `next` has
/// the effect of a forward move.
proof fn lemma_merge_is_move(prev: Seq<u64>, op: Operation, next: Seq<u64>, gcd: u64, cap: u64)
    requires
        step(prev, op, next),
        admissible(next, gcd, cap),
        op is Merge,
    ensures
        moves_to(prev, next, gcd, cap),
{
    reveal(step);
    reveal(moves_to);
    let parts = parts_seq(op->Merge_input);
    let c = canonical(parts);
    lemma_canonical(parts);
    lemma_total_canonical(parts);
    lemma_parts_total(op->Merge_input);
    assert(2 <= parts.len() <= 3);
    lemma_merge_ops_complete(prev, c);
    let merges = merge_ops(prev);
    let j = choose|j: int| 0 <= j < merges.len() && #[trigger] merges[j] == merge_op(c);
    let other = merge_op(c);
    assert(other.consumed() =~= c);
    assert(other.produced() =~= op.produced());
    lemma_same_effect(prev, op, next, other);
    lemma_kept_forward_holds(prev, merges, gcd, cap, j);
    let kept = kept_forward(prev, merges, gcd, cap);
    let k = choose|k: int| 0 <= k < kept.len() && #[trigger] kept[k] == other;
    let split_part = kept_forward(prev, split_ops(distinct(prev)), gcd, cap);
    assert(forward_moves(prev, gcd, cap)[split_part.len() + k] == other);
    assert(next == move_result(prev, gcd, cap, split_part.len() + k));
}

/// Each backward move from an admissible state comes from a state of which
/// some forward move makes that state.
pub proof fn lemma_backward_move_is_forward_move(s: Seq<u64>, gcd: u64, cap: u64, j: int)
    requires
        ascending(s),
        admissible(s, gcd, cap),
        0 <= j < backward_moves(s, gcd, cap).len(),
    ensures
        moves_to(unapply(s, backward_moves(s, gcd, cap)[j]), s, gcd, cap),
{
    let rop = backward_moves(s, gcd, cap)[j];
    let prev = unapply(s, rop);
    let op = rop.spec_forward();
    lemma_backward_moves_sound(s, gcd, cap, j);
    let split_part = kept_backward(s, rev_split_ops(distinct(s), gcd), gcd, cap);
    if j < split_part.len() {
        lemma_kept_backward_member(s, rev_split_ops(distinct(s), gcd), gcd, cap, j);
        let q = choose|q: int|
            0 <= q < rev_split_ops(distinct(s), gcd).len() && rev_split_ops(distinct(s), gcd)[q]
                == rop;
        lemma_rev_splits_sound(s, gcd, q);
        lemma_merge_is_move(prev, op, s, gcd, cap);
    } else {
        lemma_kept_backward_member(
            s,
            rev_merge_ops(s, distinct(s)),
            gcd,
            cap,
            j - split_part.len(),
        );
        let q = choose|q: int|
            0 <= q < rev_merge_ops(s, distinct(s)).len() && rev_merge_ops(s, distinct(s))[q]
                == rop;
        lemma_rev_merges_sound(s, q);
        lemma_split_is_move(prev, op, s, gcd, cap);
    }
}

/// The result of a forward move is a state that a forward move makes.
pub proof fn lemma_move_result_moves(prev: Seq<u64>, gcd: u64, cap: u64, k: int)
    requires
        0 <= k < forward_moves(prev, gcd, cap).len(),
    ensures
        moves_to(prev, move_result(prev, gcd, cap, k), gcd, cap),
{
    reveal(moves_to);
}

/// A state that a forward move makes of `prev` is the result of one of the
/// forward moves of `prev`.
pub proof fn lemma_moves_to_witness(prev: Seq<u64>, next: Seq<u64>, gcd: u64, cap: u64) -> (k: int)
    requires
        moves_to(prev, next, gcd, cap),
    ensures
        0 <= k < forward_moves(prev, gcd, cap).len(),
        next == move_result(prev, gcd, cap, k),
{
    reveal(moves_to);
    choose|k: int|
        0 <= k < forward_moves(prev, gcd, cap).len() && next == #[trigger] move_result(
            prev,
            gcd,
            cap,
            k,
        )
}

/// Forward expansions after forward expansions are forward expansions.
pub proof fn lemma_grown_forward_twice(a: SearchTable, b: SearchTable, c: SearchTable)
    requires
        grown_forward(a, b),
        grown_forward(b, c),
    ensures
        grown_forward(a, c),
{
    assert forall|n: int| 0 <= n < a.len() implies #[trigger] carried_forward(a, c, n) by {
        assert(carried_forward(a, b, n));
        assert(carried_forward(b, c, n));
    }
}

/// Backward expansions after backward expansions are backward expansions.
pub proof fn lemma_grown_backward_twice(a: SearchTable, b: SearchTable, c: SearchTable)
    requires
        grown_backward(a, b),
        grown_backward(b, c),
    ensures
        grown_backward(a, c),
{
    assert forall|n: int| 0 <= n < a.len() implies #[trigger] carried_backward(a, c, n) by {
        assert(carried_backward(a, b, n));
        assert(carried_backward(b, c, n));
    }
}

/// What is newly reached forwards in two stages waits once it waited after
/// its stage.
pub proof fn lemma_fresh_forward_twice(
    a: SearchTable,
    b: SearchTable,
    c: SearchTable,
    mid: Seq<Entry>,
    frontier: Seq<Entry>,
)
    requires
        a.len() <= b.len() <= c.len(),
        fresh_forward_pending(a, b, mid),
        fresh_forward_pending(b, c, frontier),
        extended(mid, frontier),
    ensures
        fresh_forward_pending(a, c, frontier),
{
    assert forall|n: int| 0 <= n < c.len() && (#[trigger] c.fwd_cost@[n]) is Some implies (n
        < a.len() && a.fwd_cost@[n] is Some) || pending(frontier, n) by {
        if !pending(frontier, n) {
            assert(n < b.len() && b.fwd_cost@[n] is Some);
            if pending(mid, n) {
                lemma_pending_extended(mid, frontier, n);
            }
        }
    }
}

/// What is newly reached backwards in two stages waits once it waited after
/// its stage.
pub proof fn lemma_fresh_backward_twice(
    a: SearchTable,
    b: SearchTable,
    c: SearchTable,
    mid: Seq<Entry>,
    frontier: Seq<Entry>,
)
    requires
        a.len() <= b.len() <= c.len(),
        fresh_backward_pending(a, b, mid),
        fresh_backward_pending(b, c, frontier),
        extended(mid, frontier),
    ensures
        fresh_backward_pending(a, c, frontier),
{
    assert forall|n: int| 0 <= n < c.len() && (#[trigger] c.bkwd_cost@[n]) is Some implies (n
        < a.len() && a.bkwd_cost@[n] is Some) || pending(frontier, n) by {
        if !pending(frontier, n) {
            assert(n < b.len() && b.bkwd_cost@[n] is Some);
            if pending(mid, n) {
                lemma_pending_extended(mid, frontier, n);
            }
        }
    }
}

} // verus!
