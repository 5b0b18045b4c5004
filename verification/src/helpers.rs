//! Canonical states, the divisor gate, and the generators of successor and
//! predecessor states.

use vstd::prelude::*;
use vstd::arithmetic::power2::{lemma_pow2_pos, pow2};
use vstd::bits::lemma_u64_shl_is_mul;
use vstd::seq_lib::{to_multiset_build, to_multiset_insert};
use crate::balancer::BalancerState;
use crate::divisors::{
    divides, gcd_of, gcd_over, lemma_common_power, lemma_gcd_divides, lemma_gcd_odd_pow2,
    lemma_gcd_subtract, lemma_gcd_symmetric, lemma_strip_trailing_zeros, lemma_xor_swap,
};
use crate::model::{
    apply, ascending, canonical, distinct, lemma_canonical, lemma_canonical_unique,
    lemma_push_contains, lemma_without_absent, lemma_without_at_first, total, unapply, without,
    without_all,
};
use crate::operation::{parts_seq, Operation, Parts, ReverseOperation};

verus! {

/// Greatest common divisor by shifts and subtractions; `gcd(0, 0)` is 0.
pub fn gcd(a: u64, b: u64) -> (g: u64)
    ensures
        g == gcd_of(a as nat, b as nat),
{
    if a == 0 {
        proof {
            assert(gcd_of(0, b as nat) == b) by {
                reveal_with_fuel(gcd_of, 3);
            }
        }
        return b;
    } else if b == 0 {
        return a;
    }
    let i: u32 = a.trailing_zeros();
    let j: u32 = b.trailing_zeros();
    let k: u32 = if i < j {
        i
    } else {
        j
    };
    proof {
        lemma_strip_trailing_zeros(a);
        lemma_strip_trailing_zeros(b);
    }
    let mut x: u64 = a >> i;
    let mut y: u64 = b >> j;
    proof {
        lemma_common_power(x as nat, y as nat, i as nat, j as nat);
    }
    loop
        invariant
            x % 2 == 1,
            y % 2 == 1,
            k < 64,
            gcd_of(x as nat, y as nat) * pow2(k as nat) == gcd_of(a as nat, b as nat),
            a > 0,
        decreases x + y,
    {
        if x > y {
            proof {
                lemma_xor_swap(x, y);
                lemma_gcd_symmetric(x as nat, y as nat);
            }
            x ^= y;
            y ^= x;
            x ^= y;
        }
        proof {
            lemma_gcd_subtract(x as nat, y as nat);
        }
        y -= x;
        if y == 0 {
            proof {
                lemma_gcd_divides(a as nat, b as nat);
                lemma_u64_shl_is_mul(x, k as u64);
                assert(x << k == x << (k as u64));
            }
            return x << k;
        }
        proof {
            lemma_strip_trailing_zeros(y);
            lemma_gcd_odd_pow2(x as nat, (y >> y.trailing_zeros()) as nat, y.trailing_zeros() as nat);
            lemma_pow2_pos(y.trailing_zeros() as nat);
            assert((y >> y.trailing_zeros()) <= y) by (nonlinear_arith)
                requires
                    y == (y >> y.trailing_zeros()) * pow2(y.trailing_zeros() as nat),
                    pow2(y.trailing_zeros() as nat) > 0,
            ;
        }
        y >>= y.trailing_zeros();
    }
}

/// Greatest common divisor of all values; 0 for no values.
pub fn gcd_vec(a: Vec<u64>) -> (g: u64)
    ensures
        g == gcd_over(a@),
{
    let mut res: u64 = 0;
    let mut i: usize = 0;
    while i < a.len()
        invariant
            i <= a.len(),
            res == gcd_over(a@.take(i as int)),
        decreases a.len() - i,
    {
        proof {
            assert(a@.take(i + 1).drop_last() =~= a@.take(i as int));
        }
        res = gcd(a[i], res);
        i += 1;
    }
    proof {
        assert(a@.take(a.len() as int) =~= a@);
    }
    res
}

/// The state with the given values in ascending order.
pub fn multiset(state: Vec<u64>) -> (s: BalancerState)
    ensures
        s@ == canonical(state@),
{
    let mut sorted: Vec<u64> = Vec::new();
    let mut i: usize = 0;
    proof {
        assert(sorted@ =~= state@.take(0));
    }
    while i < state.len()
        invariant
            i <= state.len(),
            ascending(sorted@),
            sorted@.to_multiset() == state@.take(i as int).to_multiset(),
        decreases state.len() - i,
    {
        let x: u64 = state[i];
        let mut j: usize = sorted.len();
        while j > 0 && sorted[j - 1] > x
            invariant
                j <= sorted.len(),
                forall|k: int| j <= k < sorted.len() ==> sorted@[k] > x,
            decreases j,
        {
            j -= 1;
        }
        proof {
            let before = sorted@;
            let after = before.insert(j as int, x);
            to_multiset_insert(before, j as int, x);
            assert(state@.take(i + 1) =~= state@.take(i as int).push(x));
            to_multiset_build(state@.take(i as int), x);
            assert forall|p: int, q: int| 0 <= p <= q < after.len() implies after[p] <= after[q] by {
                if p < j && q > j {
                    assert(after[p] == before[p] && after[q] == before[q - 1]);
                } else if p < j && q == j {
                    assert(before[p] <= before[j - 1]);
                } else if p == j && q > j {
                    assert(after[q] == before[q - 1]);
                } else if p > j {
                    assert(after[p] == before[p - 1] && after[q] == before[q - 1]);
                }
            }
        }
        sorted.insert(j, x);
        i += 1;
    }
    proof {
        assert(state@.take(state.len() as int) =~= state@);
        lemma_canonical_unique(state@, sorted@);
    }
    BalancerState::new(sorted)
}

/// A state passes the divisor gate when it is not empty and each of its
/// values is a multiple of `gcd` and not below it.
pub open spec fn valid_state(s: Seq<u64>, gcd: u64) -> bool {
    &&& s.len() > 0
    &&& forall|i: int| 0 <= i < s.len() ==> gcd <= #[trigger] s[i] && divides(gcd as nat, s[i] as nat)
}

/// The empty state never passes the divisor gate.
pub proof fn lemma_empty_state_is_invalid(gcd: u64)
    ensures
        !valid_state(Seq::<u64>::empty(), gcd),
{
}

/// A state with a value that is below `gcd`, or no multiple of it, does not
/// pass the divisor gate.
pub proof fn lemma_offending_value_is_invalid(s: Seq<u64>, gcd: u64, i: int)
    requires
        0 <= i < s.len(),
        s[i] < gcd || !divides(gcd as nat, s[i] as nat),
    ensures
        !valid_state(s, gcd),
{
}

/// Whether `state` passes the divisor gate.
pub fn validate_state(state: &BalancerState, gcd: u64) -> (ok: bool)
    ensures
        ok == valid_state(state@, gcd),
{
    if state.len() == 0 {
        return false;
    }
    let mut i: usize = 0;
    while i < state.len()
        invariant
            i <= state@.len(),
            state@.len() > 0,
            forall|k: int| 0 <= k < i ==> gcd <= #[trigger] state@[k] && divides(gcd as nat, state@[k] as nat),
        decreases state@.len() - i,
    {
        let val: u64 = state.values[i];
        if gcd > val {
            return false;
        }
        if gcd == 0 {
            if val != 0 {
                return false;
            }
        } else if val % gcd != 0 {
            return false;
        }
        i += 1;
    }
    true
}

/// The values of `state` without repetition, in the order of their first
/// occurrence.
pub fn distinct_values(state: &Vec<u64>) -> (values: Vec<u64>)
    ensures
        values@ == distinct(state@),
{
    let mut values: Vec<u64> = Vec::new();
    let mut i: usize = 0;
    proof {
        assert(state@.take(0) =~= Seq::<u64>::empty());
    }
    while i < state.len()
        invariant
            i <= state.len(),
            values@ == distinct(state@.take(i as int)),
        decreases state.len() - i,
    {
        let x: u64 = state[i];
        let ghost seen = state@.take(i as int);
        let mut found: bool = false;
        let mut j: usize = 0;
        while j < i
            invariant
                j <= i <= state.len(),
                x == state@[i as int],
                found <==> exists|k: int| 0 <= k < j && state@[k] == x,
            decreases i - j,
        {
            if state[j] == x {
                found = true;
            }
            j += 1;
        }
        proof {
            assert(state@.take(i + 1).drop_last() =~= seen);
            assert(state@.take(i + 1).last() == x);
            if found {
                let k = choose|k: int| 0 <= k < i && state@[k] == x;
                assert(seen[k] == x);
            }
            if seen.contains(x) {
                let k = choose|k: int| 0 <= k < seen.len() && seen[k] == x;
                assert(state@[k] == x);
            }
        }
        if !found {
            values.push(x);
        }
        i += 1;
    }
    proof {
        assert(state@.take(state.len() as int) =~= state@);
    }
    values
}

/// Takes the first occurrence of `x` out of `values`, if there is one.
pub fn remove_value(values: &mut Vec<u64>, x: u64)
    ensures
        final(values)@ == without(old(values)@, x),
{
    let mut i: usize = 0;
    while i < values.len()
        invariant
            i <= values.len(),
            values@ == old(values)@,
            forall|k: int| 0 <= k < i ==> values@[k] != x,
        decreases values.len() - i,
    {
        if values[i] == x {
            proof {
                lemma_without_at_first(values@, x, i as int);
            }
            values.remove(i);
            return ;
        }
        i += 1;
    }
    proof {
        lemma_without_absent(values@, x);
    }
}

/// The filled slots, in slot order.
pub fn parts_to_vec(p: Parts) -> (values: Vec<u64>)
    ensures
        values@ == parts_seq(p),
{
    let mut values: Vec<u64> = Vec::new();
    if let Some(a) = p.0 {
        values.push(a);
    }
    if let Some(b) = p.1 {
        values.push(b);
    }
    if let Some(c) = p.2 {
        values.push(c);
    }
    proof {
        assert(values@ =~= parts_seq(p));
    }
    values
}

/// The canonical state that holds the values of `state`, but for one
/// occurrence of each value of `out`, together with the values of `inn`.
pub fn replace_values(state: &Vec<u64>, out: &Vec<u64>, inn: &Vec<u64>) -> (next: BalancerState)
    ensures
        next@ == crate::model::replaced(state@, out@, inn@),
{
    let mut values: Vec<u64> = state.clone();
    let mut i: usize = 0;
    proof {
        assert(values@ =~= state@);
        assert(out@.subrange(0, out.len() as int) =~= out@);
    }
    while i < out.len()
        invariant
            i <= out.len(),
            without_all(values@, out@.subrange(i as int, out.len() as int)) == without_all(
                state@,
                out@,
            ),
        decreases out.len() - i,
    {
        proof {
            let rest = out@.subrange(i as int, out.len() as int);
            assert(rest[0] == out@[i as int]);
            assert(rest.drop_first() =~= out@.subrange(i + 1, out.len() as int));
        }
        remove_value(&mut values, out[i]);
        i += 1;
    }
    let mut j: usize = 0;
    let ghost kept = values@;
    while j < inn.len()
        invariant
            j <= inn.len(),
            values@ == kept + inn@.take(j as int),
        decreases inn.len() - j,
    {
        proof {
            assert(inn@.take(j + 1) =~= inn@.take(j as int).push(inn@[j as int]));
        }
        values.push(inn[j]);
        j += 1;
    }
    proof {
        assert(inn@.take(inn.len() as int) =~= inn@);
        assert(out@.subrange(out.len() as int, out.len() as int) =~= Seq::<u64>::empty());
    }
    multiset(values)
}

/// The state that `op` makes of `state`.
pub fn apply_operation(state: &Vec<u64>, op: &Operation) -> (next: BalancerState)
    ensures
        next@ == apply(state@, *op),
{
    match op {
        Operation::Split { input, output } => {
            let mut out: Vec<u64> = Vec::new();
            out.push(*input);
            let inn = parts_to_vec(*output);
            proof {
                assert(out@ =~= op.consumed());
            }
            replace_values(state, &out, &inn)
        },
        Operation::Merge { input, output } => {
            let out = parts_to_vec(*input);
            let mut inn: Vec<u64> = Vec::new();
            inn.push(*output);
            proof {
                assert(inn@ =~= op.produced());
            }
            replace_values(state, &out, &inn)
        },
    }
}

/// The state of which the forward operation of `rop` makes `state`.
pub fn unapply_operation(state: &Vec<u64>, rop: &ReverseOperation) -> (prev: BalancerState)
    ensures
        prev@ == unapply(state@, *rop),
{
    match rop {
        ReverseOperation::Split { input, output } => {
            let mut out: Vec<u64> = Vec::new();
            out.push(*input);
            let inn = parts_to_vec(*output);
            proof {
                assert(out@ =~= rop.spec_forward().produced());
            }
            replace_values(state, &out, &inn)
        },
        ReverseOperation::Merge { input, output } => {
            let out = parts_to_vec(*input);
            let mut inn: Vec<u64> = Vec::new();
            inn.push(*output);
            proof {
                assert(inn@ =~= rop.spec_forward().consumed());
            }
            replace_values(state, &out, &inn)
        },
    }
}

/// `r` holds the operations `ops`, in order, each with the state that it
/// makes of `s`.
pub open spec fn forward_candidates(
    r: Seq<(Operation, BalancerState)>,
    s: Seq<u64>,
    ops: Seq<Operation>,
) -> bool {
    &&& r.len() == ops.len()
    &&& forall|k: int| 0 <= k < r.len() ==> (#[trigger] r[k]).0 == ops[k] && r[k].1@ == apply(s, ops[k])
}

/// `r` holds the reverse operations `rops`, in order, each with the state of
/// which its forward operation makes `s`.
pub open spec fn backward_candidates(
    r: Seq<(ReverseOperation, BalancerState)>,
    s: Seq<u64>,
    rops: Seq<ReverseOperation>,
) -> bool {
    &&& r.len() == rops.len()
    &&& forall|k: int|
        0 <= k < r.len() ==> (#[trigger] r[k]).0 == rops[k] && r[k].1@ == unapply(s, rops[k])
}

/// The exact splits of one value: into halves where it is even, into thirds
/// where it is a multiple of three. A split that would leave a remainder is
/// not proposed.
pub open spec fn split_ops_of(v: u64) -> Seq<Operation> {
    (if v % 2 == 0 {
        seq![Operation::Split { input: v, output: (Some((v / 2) as u64), Some((v / 2) as u64), None) }]
    } else {
        Seq::<Operation>::empty()
    }) + (if v % 3 == 0 {
        seq![
            Operation::Split {
                input: v,
                output: (Some((v / 3) as u64), Some((v / 3) as u64), Some((v / 3) as u64)),
            },
        ]
    } else {
        Seq::<Operation>::empty()
    })
}

/// The exact splits of each of `vals`, value by value.
pub open spec fn split_ops(vals: Seq<u64>) -> Seq<Operation>
    decreases vals.len(),
{
    if vals.len() == 0 {
        Seq::<Operation>::empty()
    } else {
        split_ops(vals.drop_last()) + split_ops_of(vals.last())
    }
}

/// Every exact split of one occurrence of each distinct value of `state`.
pub fn splits(state: &Vec<u64>) -> (res: Vec<(Operation, BalancerState)>)
    ensures
        forward_candidates(res@, state@, split_ops(distinct(state@))),
{
    let mut res: Vec<(Operation, BalancerState)> = Vec::new();
    let values = distinct_values(state);
    let mut i: usize = 0;
    proof {
        assert(values@.take(0) =~= Seq::<u64>::empty());
    }
    while i < values.len()
        invariant
            i <= values.len(),
            forward_candidates(res@, state@, split_ops(values@.take(i as int))),
        decreases values.len() - i,
    {
        let val: u64 = values[i];
        let ghost before = split_ops(values@.take(i as int));
        let ghost mut ops = before;
        if val % 2 == 0 {
            let half: u64 = val / 2;
            let op = Operation::Split { input: val, output: (Some(half), Some(half), None) };
            let next = apply_operation(state, &op);
            res.push((op, next));
            proof {
                ops = ops.push(op);
            }
        }
        if val % 3 == 0 {
            let third: u64 = val / 3;
            let op = Operation::Split { input: val, output: (Some(third), Some(third), Some(third)) };
            let next = apply_operation(state, &op);
            res.push((op, next));
            proof {
                ops = ops.push(op);
            }
        }
        proof {
            assert(values@.take(i + 1).drop_last() =~= values@.take(i as int));
            assert(ops =~= before + split_ops_of(val));
        }
        i += 1;
    }
    proof {
        assert(values@.take(values.len() as int) =~= values@);
    }
    res
}

/// Each of `ops` with the state that it makes of `state`.
pub fn forward_states(state: &Vec<u64>, ops: Vec<Operation>) -> (res: Vec<
    (Operation, BalancerState),
>)
    ensures
        forward_candidates(res@, state@, ops@),
{
    let mut res: Vec<(Operation, BalancerState)> = Vec::new();
    let mut i: usize = 0;
    while i < ops.len()
        invariant
            i <= ops.len(),
            forward_candidates(res@, state@, ops@.take(i as int)),
        decreases ops.len() - i,
    {
        let op = ops[i];
        let next = apply_operation(state, &op);
        res.push((op, next));
        i += 1;
    }
    proof {
        assert(ops@.take(ops.len() as int) =~= ops@);
    }
    res
}

/// Each of `rops` with the state of which its forward operation makes
/// `state`.
pub fn backward_states(state: &Vec<u64>, rops: Vec<ReverseOperation>) -> (res: Vec<
    (ReverseOperation, BalancerState),
>)
    ensures
        backward_candidates(res@, state@, rops@),
{
    let mut res: Vec<(ReverseOperation, BalancerState)> = Vec::new();
    let mut i: usize = 0;
    while i < rops.len()
        invariant
            i <= rops.len(),
            backward_candidates(res@, state@, rops@.take(i as int)),
        decreases rops.len() - i,
    {
        let rop = rops[i];
        let prev = unapply_operation(state, &rop);
        res.push((rop, prev));
        i += 1;
    }
    proof {
        assert(rops@.take(rops.len() as int) =~= rops@);
    }
    res
}

/// The reverse split of `v` into `x` units of `unit` and the rest.
pub open spec fn rev_pair(v: u64, unit: u64, x: int) -> ReverseOperation {
    ReverseOperation::Split {
        input: v,
        output: (Some((x * unit) as u64), Some((v - x * unit) as u64), None),
    }
}

/// The reverse split of `v` into `y` units, `x` units and the rest.
pub open spec fn rev_triple(v: u64, unit: u64, x: int, y: int) -> ReverseOperation {
    ReverseOperation::Split {
        input: v,
        output: (
            Some((y * unit) as u64),
            Some((v - x * unit - y * unit) as u64),
            Some((x * unit) as u64),
        ),
    }
}

/// The reverse splits of `v` into two parts: `x` units and the rest, for
/// `x` from 1 to half the number of units in `v`.
pub open spec fn rev_pairs(v: u64, unit: u64) -> Seq<ReverseOperation> {
    if unit == 0 {
        Seq::<ReverseOperation>::empty()
    } else {
        Seq::new((v / unit / 2) as nat, |i: int| rev_pair(v, unit, i + 1))
    }
}

/// The reverse splits of `v` into three parts of which the last is `x`
/// units: the first is `y` units, for `y` from 1 to half the number of
/// units in what `x` units leave of `v`.
pub open spec fn rev_triples_with(v: u64, unit: u64, x: int) -> Seq<ReverseOperation> {
    if unit == 0 {
        Seq::<ReverseOperation>::empty()
    } else {
        Seq::new(((v - x * unit) / (unit as int) / 2) as nat, |j: int| rev_triple(v, unit, x, j + 1))
    }
}

/// The reverse splits of `v` into three parts of which the last is at most
/// `n` units, by rising last part.
pub open spec fn rev_triples_upto(v: u64, unit: u64, n: nat) -> Seq<ReverseOperation>
    decreases n,
{
    if n == 0 {
        Seq::<ReverseOperation>::empty()
    } else {
        rev_triples_upto(v, unit, (n - 1) as nat) + rev_triples_with(v, unit, n as int)
    }
}

/// The reverse splits of one value: those into two parts, then those into
/// three, whose last part runs from 1 unit to a third of the units in `v`.
pub open spec fn rev_split_ops_of(v: u64, unit: u64) -> Seq<ReverseOperation> {
    if unit == 0 {
        Seq::<ReverseOperation>::empty()
    } else {
        rev_pairs(v, unit) + rev_triples_upto(v, unit, (v / unit / 3) as nat)
    }
}

/// The reverse splits of each of `vals`, value by value.
pub open spec fn rev_split_ops(vals: Seq<u64>, unit: u64) -> Seq<ReverseOperation>
    decreases vals.len(),
{
    if vals.len() == 0 {
        Seq::<ReverseOperation>::empty()
    } else {
        rev_split_ops(vals.drop_last(), unit) + rev_split_ops_of(vals.last(), unit)
    }
}

proof fn lemma_units_fit(v: u64, unit: u64, x: u64)
    requires
        unit > 0,
        x <= v / unit,
    ensures
        x * unit <= v,
{
    vstd::arithmetic::div_mod::lemma_fundamental_div_mod(v as int, unit as int);
    vstd::arithmetic::mul::lemma_mul_inequality(x as int, (v / unit) as int, unit as int);
    vstd::arithmetic::mul::lemma_mul_is_commutative(unit as int, (v / unit) as int);
}

fn rev_split_ops_for(v: u64, unit: u64) -> (rops: Vec<ReverseOperation>)
    requires
        unit > 0,
    ensures
        rops@ == rev_split_ops_of(v, unit),
{
    let mut rops: Vec<ReverseOperation> = Vec::new();
    let units: u64 = v / unit;
    let half: u64 = units / 2;
    let mut x: u64 = 1;
    while x <= half
        invariant
            1 <= x <= half + 1,
            unit > 0,
            units == v / unit,
            half == units / 2,
            rops@ == rev_pairs(v, unit).take(x - 1),
        decreases half + 1 - x,
    {
        proof {
            lemma_units_fit(v, unit, x);
        }
        let part: u64 = x * unit;
        rops.push(
            ReverseOperation::Split { input: v, output: (Some(part), Some(v - part), None) },
        );
        proof {
            assert(rops@ =~= rev_pairs(v, unit).take(x as int));
        }
        x += 1;
    }
    proof {
        assert(rev_pairs(v, unit).take(half as int) =~= rev_pairs(v, unit));
    }
    let third: u64 = units / 3;
    let ghost pairs = rops@;
    x = 1;
    while x <= third
        invariant
            1 <= x <= third + 1,
            unit > 0,
            units == v / unit,
            third == units / 3,
            rops@ == pairs + rev_triples_upto(v, unit, (x - 1) as nat),
        decreases third + 1 - x,
    {
        proof {
            lemma_units_fit(v, unit, x);
        }
        let last: u64 = x * unit;
        let rest: u64 = v - last;
        let limit: u64 = rest / unit / 2;
        let ghost before = rops@;
        let mut y: u64 = 1;
        while y <= limit
            invariant
                1 <= y <= limit + 1,
                unit > 0,
                last == x * unit,
                rest == v - last,
                limit == rest / unit / 2,
                rops@ == before + rev_triples_with(v, unit, x as int).take(y - 1),
            decreases limit + 1 - y,
        {
            proof {
                lemma_units_fit(rest, unit, y);
            }
            let first: u64 = y * unit;
            rops.push(
                ReverseOperation::Split {
                    input: v,
                    output: (Some(first), Some(rest - first), Some(last)),
                },
            );
            proof {
                assert(rops@ =~= before + rev_triples_with(v, unit, x as int).take(y as int));
            }
            y += 1;
        }
        proof {
            let with = rev_triples_with(v, unit, x as int);
            assert(with.take(limit as int) =~= with);
            assert(rops@ =~= pairs + rev_triples_upto(v, unit, x as nat));
        }
        x += 1;
    }
    rops
}

/// Every way in which a merge of two or three multiples of `gcd` could have
/// produced one occurrence of a distinct value of `state`; none where `gcd`
/// is 0.
pub fn rev_splits(state: &Vec<u64>, gcd: u64) -> (res: Vec<(ReverseOperation, BalancerState)>)
    ensures
        backward_candidates(res@, state@, rev_split_ops(distinct(state@), gcd)),
{
    let values = distinct_values(state);
    let mut rops: Vec<ReverseOperation> = Vec::new();
    let mut i: usize = 0;
    proof {
        assert(values@.take(0) =~= Seq::<u64>::empty());
    }
    while i < values.len()
        invariant
            i <= values.len(),
            rops@ == rev_split_ops(values@.take(i as int), gcd),
        decreases values.len() - i,
    {
        proof {
            assert(values@.take(i + 1).drop_last() =~= values@.take(i as int));
        }
        if gcd > 0 {
            let mut more = rev_split_ops_for(values[i], gcd);
            rops.append(&mut more);
        }
        proof {
            assert(rops@ =~= rev_split_ops(values@.take(i + 1), gcd));
        }
        i += 1;
    }
    proof {
        assert(values@.take(values.len() as int) =~= values@);
    }
    backward_states(state, rops)
}

/// The rows of a vector of vectors as sequences.
pub open spec fn rows_view(v: Seq<Vec<u64>>) -> Seq<Seq<u64>> {
    Seq::new(v.len(), |i: int| v[i]@)
}

/// Each of `rows` with `x` put in front.
pub open spec fn with_first(x: u64, rows: Seq<Seq<u64>>) -> Seq<Seq<u64>> {
    Seq::new(rows.len(), |i: int| seq![x] + rows[i])
}

/// The selections of `n` values of `s` by rising position, those that start
/// earlier first. There is none for `n == 0` or `n > s.len()`.
pub open spec fn combos(s: Seq<u64>, n: nat) -> Seq<Seq<u64>>
    decreases s.len(),
{
    if n == 0 || n > s.len() {
        Seq::<Seq<u64>>::empty()
    } else if n == s.len() {
        seq![s]
    } else if n == 1 {
        Seq::new(s.len(), |i: int| seq![s[i]])
    } else {
        with_first(s[0], combos(s.drop_first(), (n - 1) as nat)) + combos(s.drop_first(), n)
    }
}

/// Every selection holds `n` values, and no value more often than `s`.
pub proof fn lemma_combos(s: Seq<u64>, n: nat, i: int)
    requires
        0 <= i < combos(s, n).len(),
    ensures
        combos(s, n)[i].len() == n,
        combos(s, n)[i].to_multiset().subset_of(s.to_multiset()),
    decreases s.len(),
{
    broadcast use vstd::multiset::group_multiset_axioms;

    let row = combos(s, n)[i];
    if n == s.len() {
    } else if n == 1 {
        assert(row =~= Seq::<u64>::empty().push(s[i]));
        to_multiset_build(Seq::<u64>::empty(), s[i]);
        vstd::seq_lib::to_multiset_contains(s, s[i]);
        assert(s.contains(s[i]));
        assert(Seq::<u64>::empty().to_multiset() =~= vstd::multiset::Multiset::<u64>::empty()) by {
            vstd::seq_lib::to_multiset_len(Seq::<u64>::empty());
        }
    } else {
        let rest = s.drop_first();
        let firsts = with_first(s[0], combos(rest, (n - 1) as nat));
        assert(s =~= seq![s[0]] + rest);
        vstd::seq_lib::lemma_multiset_commutative(seq![s[0]], rest);
        if i < firsts.len() {
            let sub = combos(rest, (n - 1) as nat)[i];
            lemma_combos(rest, (n - 1) as nat, i);
            assert(row == seq![s[0]] + sub);
            vstd::seq_lib::lemma_multiset_commutative(seq![s[0]], sub);
            assert forall|x: u64| row.to_multiset().count(x) <= s.to_multiset().count(x) by {
                assert(sub.to_multiset().count(x) <= rest.to_multiset().count(x));
            }
        } else {
            lemma_combos(rest, n, i - firsts.len());
            assert forall|x: u64| row.to_multiset().count(x) <= s.to_multiset().count(x) by {
                assert(row.to_multiset().count(x) <= rest.to_multiset().count(x));
            }
        }
    }
}

fn combinations_from(state: &Vec<u64>, start: usize, n: u32) -> (res: Vec<Vec<u64>>)
    requires
        start <= state.len(),
    ensures
        rows_view(res@) == combos(state@.subrange(start as int, state.len() as int), n as nat),
    decreases state.len() - start,
{
    let ghost tail = state@.subrange(start as int, state.len() as int);
    let len: usize = state.len() - start;
    let mut res: Vec<Vec<u64>> = Vec::new();
    if n == 0 || n as usize > len {
        proof {
            assert(rows_view(res@) =~= combos(tail, n as nat));
        }
        return res;
    }
    if n as usize == len {
        let mut all: Vec<u64> = Vec::new();
        let mut i: usize = start;
        while i < state.len()
            invariant
                start <= i <= state.len(),
                all@ == state@.subrange(start as int, i as int),
            decreases state.len() - i,
        {
            all.push(state[i]);
            proof {
                assert(all@ =~= state@.subrange(start as int, i + 1));
            }
            i += 1;
        }
        res.push(all);
        proof {
            assert(rows_view(res@) =~= combos(tail, n as nat));
        }
        return res;
    }
    if n == 1 {
        let mut i: usize = start;
        while i < state.len()
            invariant
                start <= i <= state.len(),
                res@.len() == i - start,
                forall|k: int| 0 <= k < res@.len() ==> (#[trigger] res@[k])@ == seq![state@[start + k]],
            decreases state.len() - i,
        {
            let mut one: Vec<u64> = Vec::new();
            one.push(state[i]);
            proof {
                assert(one@ =~= seq![state@[i as int]]);
            }
            res.push(one);
            i += 1;
        }
        proof {
            assert(rows_view(res@) =~= combos(tail, n as nat));
        }
        return res;
    }
    let first: u64 = state[start];
    let subs = combinations_from(state, start + 1, n - 1);
    let ghost rest = state@.subrange(start + 1, state.len() as int);
    proof {
        assert(tail.drop_first() =~= rest);
    }
    let mut i: usize = 0;
    while i < subs.len()
        invariant
            i <= subs.len(),
            res@.len() == i,
            forall|k: int| 0 <= k < i ==> (#[trigger] res@[k])@ == seq![first] + subs@[k]@,
        decreases subs.len() - i,
    {
        let mut row: Vec<u64> = Vec::new();
        row.push(first);
        let sub = &subs[i];
        let mut j: usize = 0;
        while j < sub.len()
            invariant
                j <= sub.len(),
                row@ == seq![first] + sub@.take(j as int),
            decreases sub.len() - j,
        {
            row.push(sub[j]);
            proof {
                assert(row@ =~= seq![first] + sub@.take(j + 1));
            }
            j += 1;
        }
        proof {
            assert(sub@.take(sub.len() as int) =~= sub@);
        }
        res.push(row);
        i += 1;
    }
    let ghost firsts = res@;
    let mut later = combinations_from(state, start + 1, n);
    let ghost laters = later@;
    res.append(&mut later);
    proof {
        assert(res@ =~= firsts + laters);
        assert(rows_view(firsts) =~= with_first(first, combos(rest, (n - 1) as nat))) by {
            assert forall|k: int| 0 <= k < firsts.len() implies rows_view(firsts)[k] == with_first(
                first,
                combos(rest, (n - 1) as nat),
            )[k] by {
                assert(rows_view(subs@)[k] == subs@[k]@);
            }
        }
        assert(rows_view(res@) =~= rows_view(firsts) + rows_view(laters));
    }
    res
}

/// The selections of `n` values of `state` by rising position.
pub fn combinations(state: &Vec<u64>, n: u32) -> (res: Vec<Vec<u64>>)
    ensures
        rows_view(res@) == combos(state@, n as nat),
{
    proof {
        assert(state@.subrange(0, state.len() as int) =~= state@);
    }
    combinations_from(state, 0, n)
}

/// The canonical form of each row.
pub open spec fn canonical_rows(rows: Seq<Seq<u64>>) -> Seq<Seq<u64>> {
    Seq::new(rows.len(), |i: int| canonical(rows[i]))
}

/// The merge of the two or three values of `c` into their sum.
pub open spec fn merge_op(c: Seq<u64>) -> Operation {
    Operation::Merge {
        input: (
            Some(c[0]),
            Some(c[1]),
            if c.len() == 3 {
                Some(c[2])
            } else {
                None
            },
        ),
        output: total(c) as u64,
    }
}

/// One merge for each row whose canonical form no earlier row has and whose
/// sum fits in 64 bits, in the order of the rows.
pub open spec fn merge_ops_from(rows: Seq<Seq<u64>>) -> Seq<Operation>
    decreases rows.len(),
{
    if rows.len() == 0 {
        Seq::<Operation>::empty()
    } else {
        let earlier = merge_ops_from(rows.drop_last());
        let c = canonical(rows.last());
        if canonical_rows(rows.drop_last()).contains(c) || total(c) > u64::MAX {
            earlier
        } else {
            earlier.push(merge_op(c))
        }
    }
}

/// The merges of two values of `s`, then those of three: one for each
/// distinct multiset of values that can be drawn from `s` and whose sum
/// fits in 64 bits.
pub open spec fn merge_ops(s: Seq<u64>) -> Seq<Operation> {
    merge_ops_from(combos(s, 2)) + merge_ops_from(combos(s, 3))
}

/// The total of two or three values is their sum.
pub proof fn lemma_total_small(c: Seq<u64>)
    ensures
        c.len() == 2 ==> total(c) == c[0] + c[1],
        c.len() == 3 ==> total(c) == c[0] + c[1] + c[2],
{
    if c.len() == 2 {
        assert(c =~= seq![c[0]].push(c[1]));
        crate::model::lemma_total_push(seq![c[0]], c[1]);
        crate::model::lemma_total_push(Seq::<u64>::empty(), c[0]);
        assert(seq![c[0]] =~= Seq::<u64>::empty().push(c[0]));
    }
    if c.len() == 3 {
        let two = seq![c[0]].push(c[1]);
        assert(c =~= two.push(c[2]));
        crate::model::lemma_total_push(two, c[2]);
        crate::model::lemma_total_push(seq![c[0]], c[1]);
        crate::model::lemma_total_push(Seq::<u64>::empty(), c[0]);
        assert(seq![c[0]] =~= Seq::<u64>::empty().push(c[0]));
    }
}

fn contains_state(seen: &Vec<BalancerState>, c: &BalancerState) -> (found: bool)
    ensures
        found <==> exists|k: int| 0 <= k < seen@.len() && (#[trigger] seen@[k])@ == c@,
{
    let mut k: usize = 0;
    while k < seen.len()
        invariant
            k <= seen.len(),
            forall|j: int| 0 <= j < k ==> (#[trigger] seen@[j])@ != c@,
        decreases seen.len() - k,
    {
        if seen[k] == *c {
            return true;
        }
        k += 1;
    }
    false
}

fn merge_operations(rows: &Vec<Vec<u64>>) -> (ops: Vec<Operation>)
    requires
        forall|i: int| 0 <= i < rows@.len() ==> 2 <= (#[trigger] rows@[i])@.len() <= 3,
    ensures
        ops@ == merge_ops_from(rows_view(rows@)),
{
    let ghost all = rows_view(rows@);
    let mut ops: Vec<Operation> = Vec::new();
    let mut seen: Vec<BalancerState> = Vec::new();
    let mut i: usize = 0;
    proof {
        assert(all.take(0) =~= Seq::<Seq<u64>>::empty());
    }
    while i < rows.len()
        invariant
            i <= rows.len(),
            all == rows_view(rows@),
            forall|k: int| 0 <= k < rows@.len() ==> 2 <= (#[trigger] rows@[k])@.len() <= 3,
            ops@ == merge_ops_from(all.take(i as int)),
            forall|c: Seq<u64>|
                (exists|k: int| 0 <= k < seen@.len() && (#[trigger] seen@[k])@ == c)
                    <==> canonical_rows(all.take(i as int)).contains(c),
        decreases rows.len() - i,
    {
        let c = multiset(rows[i].clone());
        let ghost earlier = all.take(i as int);
        let ghost seen_before = seen@;
        proof {
            assert(all.take(i + 1).drop_last() =~= earlier);
            assert(all.take(i + 1).last() == rows@[i as int]@);
            lemma_canonical(rows@[i as int]@);
            lemma_total_small(c@);
        }
        let known = contains_state(&seen, &c);
        if !known {
            let a: u64 = c.values[0];
            let b: u64 = c.values[1];
            let mut sum: Option<u64> = a.checked_add(b);
            let third: Option<u64> = if c.values.len() == 3 {
                Some(c.values[2])
            } else {
                None
            };
            if let Some(t) = third {
                sum = match sum {
                    Some(ab) => ab.checked_add(t),
                    None => None,
                };
            }
            if let Some(merged) = sum {
                ops.push(Operation::Merge { input: (Some(a), Some(b), third), output: merged });
            }
            seen.push(c);
        }
        proof {
            let cv = canonical(rows@[i as int]@);
            let now = canonical_rows(all.take(i + 1));
            let was = canonical_rows(earlier);
            assert(now =~= was.push(cv));
            assert forall|x: Seq<u64>|
                (exists|k: int| 0 <= k < seen@.len() && (#[trigger] seen@[k])@ == x)
                    <==> now.contains(x) by {
                crate::model::lemma_push_contains(was, cv, x);
                if known {
                    assert(seen@ == seen_before);
                    assert(was.contains(cv));
                } else {
                    assert(seen@ == seen_before.push(c));
                    if exists|k: int| 0 <= k < seen@.len() && (#[trigger] seen@[k])@ == x {
                        let k = choose|k: int| 0 <= k < seen@.len() && (#[trigger] seen@[k])@ == x;
                        if k < seen_before.len() {
                            assert(seen_before[k]@ == x);
                        }
                    }
                    if was.contains(x) {
                        let k = choose|k: int|
                            0 <= k < seen_before.len() && (#[trigger] seen_before[k])@ == x;
                        assert(seen@[k]@ == x);
                    }
                    if x == cv {
                        assert(seen@[seen_before.len() as int]@ == x);
                    }
                }
            }
        }
        i += 1;
    }
    proof {
        assert(all.take(rows.len() as int) =~= all);
    }
    ops
}

/// One merge for each distinct pair and each distinct triple of values that
/// can be drawn from `state`, with the state that it leaves.
pub fn merges(state: &Vec<u64>) -> (res: Vec<(Operation, BalancerState)>)
    ensures
        forward_candidates(res@, state@, merge_ops(state@)),
{
    let pairs = combinations(state, 2);
    let triples = combinations(state, 3);
    proof {
        assert forall|i: int| 0 <= i < pairs@.len() implies 2 <= (#[trigger] pairs@[i])@.len()
            <= 3 by {
            assert(rows_view(pairs@)[i] == pairs@[i]@);
            lemma_combos(state@, 2, i);
        }
        assert forall|i: int| 0 <= i < triples@.len() implies 2 <= (#[trigger] triples@[i])@.len()
            <= 3 by {
            assert(rows_view(triples@)[i] == triples@[i]@);
            lemma_combos(state@, 3, i);
        }
    }
    let mut ops = merge_operations(&pairs);
    let mut more = merge_operations(&triples);
    ops.append(&mut more);
    forward_states(state, ops)
}

/// The reverse merges of the value `k` in `s`: of two occurrences into
/// `2k` where `k` occurs twice, of three into `3k` where it occurs three
/// times, each only where the result fits in 64 bits.
pub open spec fn rev_merge_ops_of(s: Seq<u64>, k: u64) -> Seq<ReverseOperation> {
    (if s.to_multiset().count(k) >= 2 && 2 * k <= u64::MAX {
        seq![ReverseOperation::Merge { input: (Some(k), Some(k), None), output: (2 * k) as u64 }]
    } else {
        Seq::<ReverseOperation>::empty()
    }) + (if s.to_multiset().count(k) >= 3 && 3 * k <= u64::MAX {
        seq![ReverseOperation::Merge { input: (Some(k), Some(k), Some(k)), output: (3 * k) as u64 }]
    } else {
        Seq::<ReverseOperation>::empty()
    })
}

/// The reverse merges in `s` of each of `vals`, value by value.
pub open spec fn rev_merge_ops(s: Seq<u64>, vals: Seq<u64>) -> Seq<ReverseOperation>
    decreases vals.len(),
{
    if vals.len() == 0 {
        Seq::<ReverseOperation>::empty()
    } else {
        rev_merge_ops(s, vals.drop_last()) + rev_merge_ops_of(s, vals.last())
    }
}

/// How often `x` occurs in `state`.
pub fn count_value(state: &Vec<u64>, x: u64) -> (n: usize)
    ensures
        n == state@.to_multiset().count(x),
{
    broadcast use vstd::multiset::group_multiset_axioms;

    let mut n: usize = 0;
    let mut i: usize = 0;
    proof {
        assert(state@.take(0) =~= Seq::<u64>::empty());
        vstd::seq_lib::to_multiset_len(Seq::<u64>::empty());
        assert(Seq::<u64>::empty().to_multiset() =~= vstd::multiset::Multiset::<u64>::empty());
    }
    while i < state.len()
        invariant
            i <= state.len(),
            n <= i,
            n == state@.take(i as int).to_multiset().count(x),
        decreases state.len() - i,
    {
        proof {
            assert(state@.take(i + 1) =~= state@.take(i as int).push(state@[i as int]));
            to_multiset_build(state@.take(i as int), state@[i as int]);
        }
        if state[i] == x {
            n += 1;
        }
        i += 1;
    }
    proof {
        assert(state@.take(state.len() as int) =~= state@);
    }
    n
}

/// Every way in which a split into two or three equal parts could have
/// produced two or three occurrences of a distinct value of `state`.
pub fn rev_merges(state: &Vec<u64>) -> (res: Vec<(ReverseOperation, BalancerState)>)
    ensures
        backward_candidates(res@, state@, rev_merge_ops(state@, distinct(state@))),
{
    let values = distinct_values(state);
    let mut rops: Vec<ReverseOperation> = Vec::new();
    let mut i: usize = 0;
    proof {
        assert(values@.take(0) =~= Seq::<u64>::empty());
    }
    while i < values.len()
        invariant
            i <= values.len(),
            rops@ == rev_merge_ops(state@, values@.take(i as int)),
        decreases values.len() - i,
    {
        let k: u64 = values[i];
        let n = count_value(state, k);
        let ghost before = rops@;
        if n >= 2 {
            if let Some(double) = k.checked_mul(2) {
                rops.push(
                    ReverseOperation::Merge { input: (Some(k), Some(k), None), output: double },
                );
            }
        }
        if n >= 3 {
            if let Some(triple) = k.checked_mul(3) {
                rops.push(
                    ReverseOperation::Merge { input: (Some(k), Some(k), Some(k)), output: triple },
                );
            }
        }
        proof {
            assert(values@.take(i + 1).drop_last() =~= values@.take(i as int));
            assert(rops@ =~= before + rev_merge_ops_of(state@, k));
        }
        i += 1;
    }
    proof {
        assert(values@.take(values.len() as int) =~= values@);
    }
    backward_states(state, rops)
}

/// Everything that `op` takes out of a state is in `s`.
pub open spec fn takes_from(op: Operation, s: Seq<u64>) -> bool {
    op.consumed().to_multiset().subset_of(s.to_multiset())
}

/// Everything that `op` puts into a state is in `s`.
pub open spec fn yields_into(op: Operation, s: Seq<u64>) -> bool {
    op.produced().to_multiset().subset_of(s.to_multiset())
}

proof fn lemma_single_subset(s: Seq<u64>, v: u64)
    requires
        s.contains(v),
    ensures
        seq![v].to_multiset().subset_of(s.to_multiset()),
{
    broadcast use vstd::multiset::group_multiset_axioms;

    assert(seq![v] =~= Seq::<u64>::empty().push(v));
    to_multiset_build(Seq::<u64>::empty(), v);
    vstd::seq_lib::to_multiset_len(Seq::<u64>::empty());
    assert(Seq::<u64>::empty().to_multiset() =~= vstd::multiset::Multiset::<u64>::empty());
    vstd::seq_lib::to_multiset_contains(s, v);
}

proof fn lemma_repeated_subset(s: Seq<u64>, c: Seq<u64>, v: u64)
    requires
        c.len() <= s.to_multiset().count(v),
        forall|i: int| 0 <= i < c.len() ==> c[i] == v,
    ensures
        c.to_multiset().subset_of(s.to_multiset()),
    decreases c.len(),
{
    broadcast use vstd::multiset::group_multiset_axioms;

    vstd::seq_lib::to_multiset_len(c);
    if c.len() == 0 {
        assert(c.to_multiset() =~= vstd::multiset::Multiset::<u64>::empty());
    } else {
        assert forall|x: u64| c.to_multiset().count(x) <= s.to_multiset().count(x) by {
            if x != v {
                vstd::seq_lib::to_multiset_contains(c, x);
                if c.contains(x) {
                    let i = choose|i: int| 0 <= i < c.len() && c[i] == x;
                    assert(c[i] == v);
                }
            } else {
                assert(c.to_multiset().count(x) <= c.to_multiset().len());
            }
        }
    }
}

/// Each exact split of a distinct value of `s` keeps the total and takes a
/// value that `s` holds.
pub proof fn lemma_splits_sound(s: Seq<u64>, i: int)
    requires
        0 <= i < split_ops(distinct(s)).len(),
    ensures
        split_ops(distinct(s))[i].conserves(),
        takes_from(split_ops(distinct(s))[i], s),
{
    crate::model::lemma_distinct(s);
    lemma_split_ops_member(distinct(s), i);
    let op = split_ops(distinct(s))[i];
    let v = op->Split_input;
    assert(op.consumed() =~= seq![v]);
    lemma_single_subset(s, v);
}

proof fn lemma_split_ops_member(vals: Seq<u64>, i: int)
    requires
        0 <= i < split_ops(vals).len(),
    ensures
        split_ops(vals)[i] is Split,
        split_ops(vals)[i].conserves(),
        vals.contains(split_ops(vals)[i]->Split_input),
    decreases vals.len(),
{
    let earlier = split_ops(vals.drop_last());
    if i < earlier.len() {
        lemma_split_ops_member(vals.drop_last(), i);
        let v = earlier[i]->Split_input;
        let k = choose|k: int| 0 <= k < vals.drop_last().len() && vals.drop_last()[k] == v;
        assert(vals[k] == v);
    } else {
        assert(vals[vals.len() - 1] == vals.last());
    }
}

/// Each merge drawn from `s` keeps the total and takes values that `s`
/// holds.
pub proof fn lemma_merges_sound(s: Seq<u64>, i: int)
    requires
        0 <= i < merge_ops(s).len(),
    ensures
        merge_ops(s)[i].conserves(),
        takes_from(merge_ops(s)[i], s),
{
    let pairs = merge_ops_from(combos(s, 2));
    assert(combos(s, 2).take(combos(s, 2).len() as int) =~= combos(s, 2));
    assert(combos(s, 3).take(combos(s, 3).len() as int) =~= combos(s, 3));
    if i < pairs.len() {
        lemma_merge_ops_member(s, 2, combos(s, 2), i);
    } else {
        lemma_merge_ops_member(s, 3, combos(s, 3), i - pairs.len());
    }
}

proof fn lemma_merge_ops_member(s: Seq<u64>, n: nat, rows: Seq<Seq<u64>>, i: int)
    requires
        2 <= n <= 3,
        rows.len() <= combos(s, n).len(),
        rows == combos(s, n).take(rows.len() as int),
        0 <= i < merge_ops_from(rows).len(),
    ensures
        merge_ops_from(rows)[i].conserves(),
        takes_from(merge_ops_from(rows)[i], s),
    decreases rows.len(),
{
    let earlier = merge_ops_from(rows.drop_last());
    if i < earlier.len() {
        assert(rows.drop_last() =~= combos(s, n).take(rows.len() - 1));
        lemma_merge_ops_member(s, n, rows.drop_last(), i);
    } else {
        let row = rows.last();
        let c = canonical(row);
        assert(row == combos(s, n)[rows.len() - 1]);
        lemma_combos(s, n, rows.len() - 1);
        lemma_canonical(row);
        lemma_total_small(c);
        let op = merge_op(c);
        assert(op.consumed() =~= c);
    }
}

proof fn lemma_rev_split_ops_of_member(v: u64, unit: u64, i: int)
    requires
        0 <= i < rev_split_ops_of(v, unit).len(),
    ensures
        rev_split_ops_of(v, unit)[i].spec_forward().conserves(),
        rev_split_ops_of(v, unit)[i].spec_forward().produced() == seq![v],
{
    let pairs = rev_pairs(v, unit);
    if i < pairs.len() {
        let x = (i + 1) as u64;
        lemma_units_fit(v, unit, x);
    } else {
        lemma_rev_triples_member(v, unit, (v / unit / 3) as nat, i - pairs.len());
    }
}

proof fn lemma_rev_triples_member(v: u64, unit: u64, n: nat, i: int)
    requires
        unit > 0,
        n <= v / unit / 3,
        0 <= i < rev_triples_upto(v, unit, n).len(),
    ensures
        rev_triples_upto(v, unit, n)[i].spec_forward().conserves(),
        rev_triples_upto(v, unit, n)[i].spec_forward().produced() == seq![v],
    decreases n,
{
    let earlier = rev_triples_upto(v, unit, (n - 1) as nat);
    if i < earlier.len() {
        lemma_rev_triples_member(v, unit, (n - 1) as nat, i);
    } else {
        let j = i - earlier.len();
        lemma_units_fit(v, unit, n as u64);
        let last = (n * unit) as u64;
        let rest = (v - last) as u64;
        lemma_units_fit(rest, unit, (j + 1) as u64);
    }
}

/// The forward merge of each reverse split of a distinct value of `s` keeps
/// the total and yields a value that `s` holds.
pub proof fn lemma_rev_splits_sound(s: Seq<u64>, unit: u64, i: int)
    requires
        0 <= i < rev_split_ops(distinct(s), unit).len(),
    ensures
        rev_split_ops(distinct(s), unit)[i].spec_forward().conserves(),
        yields_into(rev_split_ops(distinct(s), unit)[i].spec_forward(), s),
        rev_split_ops(distinct(s), unit)[i].spec_forward() is Merge,
{
    crate::model::lemma_distinct(s);
    lemma_rev_split_ops_member(distinct(s), unit, i);
    let op = rev_split_ops(distinct(s), unit)[i].spec_forward();
    let v = op->Merge_output;
    lemma_single_subset(s, v);
}

proof fn lemma_rev_split_ops_member(vals: Seq<u64>, unit: u64, i: int)
    requires
        0 <= i < rev_split_ops(vals, unit).len(),
    ensures
        rev_split_ops(vals, unit)[i].spec_forward() is Merge,
        rev_split_ops(vals, unit)[i].spec_forward().conserves(),
        rev_split_ops(vals, unit)[i].spec_forward().produced() == seq![
            rev_split_ops(vals, unit)[i].spec_forward()->Merge_output,
        ],
        vals.contains(rev_split_ops(vals, unit)[i].spec_forward()->Merge_output),
    decreases vals.len(),
{
    let earlier = rev_split_ops(vals.drop_last(), unit);
    if i < earlier.len() {
        lemma_rev_split_ops_member(vals.drop_last(), unit, i);
        let v = earlier[i].spec_forward()->Merge_output;
        let k = choose|k: int| 0 <= k < vals.drop_last().len() && vals.drop_last()[k] == v;
        assert(vals[k] == v);
    } else {
        lemma_rev_split_ops_of_member(vals.last(), unit, i - earlier.len());
        assert(vals[vals.len() - 1] == vals.last());
        let op = rev_split_ops(vals, unit)[i].spec_forward();
        assert(op.produced() =~= seq![vals.last()]);
        assert(op.produced()[0] == vals.last());
        assert(op->Merge_output == vals.last());
    }
}

/// The forward split of each reverse merge in `s` keeps the total and
/// yields values that `s` holds.
pub proof fn lemma_rev_merges_sound(s: Seq<u64>, i: int)
    requires
        0 <= i < rev_merge_ops(s, distinct(s)).len(),
    ensures
        rev_merge_ops(s, distinct(s))[i].spec_forward().conserves(),
        yields_into(rev_merge_ops(s, distinct(s))[i].spec_forward(), s),
        rev_merge_ops(s, distinct(s))[i].spec_forward() is Split,
        split_ops_of(rev_merge_ops(s, distinct(s))[i].spec_forward()->Split_input).contains(
            rev_merge_ops(s, distinct(s))[i].spec_forward(),
        ),
{
    lemma_rev_merge_ops_member(s, distinct(s), i);
}

proof fn lemma_rev_merge_ops_member(s: Seq<u64>, vals: Seq<u64>, i: int)
    requires
        0 <= i < rev_merge_ops(s, vals).len(),
    ensures
        rev_merge_ops(s, vals)[i].spec_forward().conserves(),
        yields_into(rev_merge_ops(s, vals)[i].spec_forward(), s),
        rev_merge_ops(s, vals)[i].spec_forward() is Split,
        split_ops_of(rev_merge_ops(s, vals)[i].spec_forward()->Split_input).contains(
            rev_merge_ops(s, vals)[i].spec_forward(),
        ),
    decreases vals.len(),
{
    let earlier = rev_merge_ops(s, vals.drop_last());
    if i < earlier.len() {
        lemma_rev_merge_ops_member(s, vals.drop_last(), i);
    } else {
        let found = rev_merge_ops(s, vals)[i].spec_forward();
        let w = found->Split_input;
        let of_w = split_ops_of(w);
        if found->Split_output.2 is None {
            assert(of_w[0] == found);
        } else {
            assert(of_w[of_w.len() - 1] == found);
        }
        let k = vals.last();
        let op = rev_merge_ops(s, vals)[i].spec_forward();
        let c = op.produced();
        assert(forall|j: int| 0 <= j < c.len() ==> c[j] == k);
        lemma_repeated_subset(s, c, k);
    }
}

proof fn lemma_subset_len(a: Seq<u64>, b: Seq<u64>)
    requires
        a.to_multiset().subset_of(b.to_multiset()),
    ensures
        a.len() <= b.len(),
        a.len() == b.len() ==> a.to_multiset() == b.to_multiset(),
{
    broadcast use vstd::multiset::group_multiset_axioms;

    let ma = a.to_multiset();
    let mb = b.to_multiset();
    let rest = mb.sub(ma);
    vstd::seq_lib::to_multiset_len(a);
    vstd::seq_lib::to_multiset_len(b);
    assert(mb =~= ma.add(rest));
    if a.len() == b.len() {
        assert(rest.len() == 0);
        assert(ma =~= mb) by {
            assert forall|x: u64| ma.count(x) == mb.count(x) by {
                assert(rest.count(x) <= rest.len());
            }
        }
    }
}

/// Every choice of values that `s` holds, each no more often than `s` holds
/// it, is the content of some selection.
pub proof fn lemma_combos_complete(s: Seq<u64>, c: Seq<u64>)
    requires
        c.len() >= 1,
        c.to_multiset().subset_of(s.to_multiset()),
    ensures
        exists|r: int|
            0 <= r < combos(s, c.len()).len() && (#[trigger] combos(s, c.len())[r]).to_multiset()
                == c.to_multiset(),
    decreases s.len(),
{
    broadcast use vstd::multiset::group_multiset_axioms;

    let n = c.len();
    let m = c.to_multiset();
    let ms = s.to_multiset();
    lemma_subset_len(c, s);
    if n == s.len() {
        assert(combos(s, n)[0] == s);
    } else if n == 1 {
        let x = c[0];
        assert(c =~= seq![x]);
        assert(c.contains(x));
        vstd::seq_lib::to_multiset_contains(c, x);
        vstd::seq_lib::to_multiset_contains(s, x);
        let i = choose|i: int| 0 <= i < s.len() && s[i] == x;
        assert(combos(s, n)[i] == seq![s[i]]);
    } else {
        let first = s[0];
        let rest = s.drop_first();
        let firsts = with_first(first, combos(rest, (n - 1) as nat));
        assert(s =~= seq![first] + rest);
        vstd::seq_lib::lemma_multiset_commutative(seq![first], rest);
        lemma_single_multiset(first);
        let mr = rest.to_multiset();
        assert(ms =~= mr.insert(first));
        if m.subset_of(mr) {
            lemma_combos_complete(rest, c);
            let r = choose|r: int|
                0 <= r < combos(rest, n).len() && (#[trigger] combos(rest, n)[r]).to_multiset()
                    == m;
            assert(combos(s, n)[firsts.len() + r] == combos(rest, n)[r]);
        } else {
            let x = choose|x: u64| m.count(x) > mr.count(x);
            assert(m.count(x) <= ms.count(x));
            assert(x == first);
            let less = without(c, first);
            crate::model::lemma_without_present(c, first);
            assert(less.to_multiset().subset_of(mr)) by {
                assert forall|y: u64| less.to_multiset().count(y) <= mr.count(y) by {
                    assert(m.count(y) <= ms.count(y));
                }
            }
            lemma_combos_complete(rest, less);
            let r = choose|r: int|
                0 <= r < combos(rest, less.len()).len() && (#[trigger] combos(
                    rest,
                    less.len(),
                )[r]).to_multiset() == less.to_multiset();
            let sub = combos(rest, (n - 1) as nat)[r];
            assert(combos(s, n)[r] == seq![first] + sub);
            vstd::seq_lib::lemma_multiset_commutative(seq![first], sub);
            assert((seq![first] + sub).to_multiset() =~= m);
        }
    }
}

proof fn lemma_single_multiset(v: u64)
    ensures
        seq![v].to_multiset() == vstd::multiset::Multiset::<u64>::empty().insert(v),
{
    broadcast use vstd::multiset::group_multiset_axioms;

    assert(seq![v] =~= Seq::<u64>::empty().push(v));
    to_multiset_build(Seq::<u64>::empty(), v);
    vstd::seq_lib::to_multiset_len(Seq::<u64>::empty());
    assert(Seq::<u64>::empty().to_multiset() =~= vstd::multiset::Multiset::<u64>::empty());
}

/// A row whose sum fits yields the merge of its canonical form.
pub proof fn lemma_merge_ops_from_holds(rows: Seq<Seq<u64>>, r: int)
    requires
        0 <= r < rows.len(),
        total(canonical(rows[r])) <= u64::MAX,
    ensures
        exists|j: int|
            0 <= j < merge_ops_from(rows).len() && #[trigger] merge_ops_from(rows)[j] == merge_op(
                canonical(rows[r]),
            ),
    decreases rows.len(),
{
    let c = canonical(rows[r]);
    let init = rows.drop_last();
    let earlier = merge_ops_from(init);
    if r < rows.len() - 1 {
        lemma_merge_ops_from_holds(init, r);
        let j = choose|j: int| 0 <= j < earlier.len() && #[trigger] earlier[j] == merge_op(c);
        assert(merge_ops_from(rows)[j] == merge_op(c));
    } else if canonical_rows(init).contains(c) {
        let q = choose|q: int| 0 <= q < canonical_rows(init).len() && canonical_rows(init)[q] == c;
        lemma_merge_ops_from_holds(init, q);
        let j = choose|j: int| 0 <= j < earlier.len() && #[trigger] earlier[j] == merge_op(c);
        assert(merge_ops_from(rows)[j] == merge_op(c));
    } else {
        assert(merge_ops_from(rows)[earlier.len() as int] == merge_op(c));
    }
}

/// The merge of any two or three values that `s` holds, in ascending order
/// and with a sum that fits, is among the merges of `s`.
pub proof fn lemma_merge_ops_complete(s: Seq<u64>, c: Seq<u64>)
    requires
        2 <= c.len() <= 3,
        ascending(c),
        c.to_multiset().subset_of(s.to_multiset()),
        total(c) <= u64::MAX,
    ensures
        exists|j: int| 0 <= j < merge_ops(s).len() && #[trigger] merge_ops(s)[j] == merge_op(c),
{
    lemma_combos_complete(s, c);
    let rows = combos(s, c.len());
    let r = choose|r: int| 0 <= r < rows.len() && (#[trigger] rows[r]).to_multiset() == c.to_multiset();
    lemma_canonical_unique(rows[r], c);
    lemma_merge_ops_from_holds(rows, r);
    let j = choose|j: int|
        0 <= j < merge_ops_from(rows).len() && #[trigger] merge_ops_from(rows)[j] == merge_op(c);
    let pairs = merge_ops_from(combos(s, 2));
    if c.len() == 2 {
        assert(merge_ops(s)[j] == merge_op(c));
    } else {
        assert(merge_ops(s)[pairs.len() + j] == merge_op(c));
    }
}

/// Each exact split of a value among `vals` is among the splits of `vals`.
pub proof fn lemma_split_ops_complete(vals: Seq<u64>, v: u64, i: int)
    requires
        vals.contains(v),
        0 <= i < split_ops_of(v).len(),
    ensures
        exists|j: int| 0 <= j < split_ops(vals).len() && #[trigger] split_ops(vals)[j] == split_ops_of(v)[i],
    decreases vals.len(),
{
    let init = vals.drop_last();
    let earlier = split_ops(init);
    if vals.last() == v {
        assert(split_ops(vals)[earlier.len() + i] == split_ops_of(v)[i]);
    } else {
        let q = choose|q: int| 0 <= q < vals.len() && vals[q] == v;
        assert(init[q] == v);
        lemma_split_ops_complete(init, v, i);
        let j = choose|j: int| 0 <= j < earlier.len() && #[trigger] earlier[j] == split_ops_of(v)[i];
        assert(split_ops(vals)[j] == split_ops_of(v)[i]);
    }
}

} // verus!
