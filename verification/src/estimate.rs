//! The estimate of what it costs to get from one state to another, by which
//! the frontiers of a search are ordered.

use vstd::prelude::*;
use vstd::seq_lib::to_multiset_build;
use crate::balancer::Balancer;
use crate::helpers::{count_value, distinct_values};
use crate::divisors::divides;
use crate::model::{distinct, lemma_distinct, lemma_push_contains};

verus! {

/// What one missing occurrence of `v` is estimated to cost: 3 where `v` is
/// a multiple of `gcd` or `state` holds a larger multiple of `v`, else 2
/// where `state` holds a multiple of `v`, else 1.
pub open spec fn creation_cost(state: Seq<u64>, v: u64, gcd: u64) -> nat {
    if divides(gcd as nat, v as nat) {
        3
    } else if exists|i: int| 0 <= i < state.len() && state[i] > v && divides(v as nat, state[i] as nat) {
        3
    } else if exists|i: int| 0 <= i < state.len() && divides(v as nat, state[i] as nat) {
        2
    } else {
        1
    }
}

/// How many occurrences of `v` the target holds beyond those in `state`.
pub open spec fn deficit(state: Seq<u64>, target: Seq<u64>, v: u64) -> nat {
    let need = target.to_multiset().count(v);
    let have = state.to_multiset().count(v);
    if have < need {
        (need - have) as nat
    } else {
        0
    }
}

/// The estimated cost of the occurrences that `state` lacks of each of
/// `vals`.
pub open spec fn deficit_cost(state: Seq<u64>, target: Seq<u64>, gcd: u64, vals: Seq<u64>) -> nat
    decreases vals.len(),
{
    if vals.len() == 0 {
        0
    } else {
        deficit_cost(state, target, gcd, vals.drop_last()) + deficit(state, target, vals.last())
            * creation_cost(state, vals.last(), gcd)
    }
}

/// Half the number of channels that `state` has beyond the target.
pub open spec fn surplus_penalty(state: Seq<u64>, target: Seq<u64>) -> nat {
    if state.len() > target.len() {
        ((state.len() - target.len()) / 2) as nat
    } else {
        0
    }
}

/// The estimate of what it costs to get from `state` to `target`. It may
/// exceed the true cost.
pub open spec fn heuristic_cost(state: Seq<u64>, target: Seq<u64>, gcd: u64) -> nat {
    deficit_cost(state, target, gcd, distinct(target)) + surplus_penalty(state, target)
}

/// How often the values of `vals` occur in `t`, all together.
spec fn count_sum(t: Seq<u64>, vals: Seq<u64>) -> nat
    decreases vals.len(),
{
    if vals.len() == 0 {
        0
    } else {
        count_sum(t, vals.drop_last()) + t.to_multiset().count(vals.last())
    }
}

proof fn lemma_count_sum_push(t: Seq<u64>, x: u64, vals: Seq<u64>)
    requires
        vals.no_duplicates(),
    ensures
        count_sum(t.push(x), vals) == count_sum(t, vals) + if vals.contains(x) {
            1nat
        } else {
            0nat
        },
    decreases vals.len(),
{
    broadcast use vstd::multiset::group_multiset_axioms;

    if vals.len() > 0 {
        let init = vals.drop_last();
        let v = vals.last();
        assert(vals =~= init.push(v));
        lemma_count_sum_push(t, x, init);
        to_multiset_build(t, x);
        lemma_push_contains(init, v, x);
        if init.contains(x) && x == v {
            let k = choose|k: int| 0 <= k < init.len() && init[k] == x;
            assert(vals[k] == vals[vals.len() - 1]);
        }
    }
}

proof fn lemma_count_sum_bound(t: Seq<u64>, vals: Seq<u64>)
    requires
        vals.no_duplicates(),
    ensures
        count_sum(t, vals) <= t.len(),
    decreases t.len(),
{
    if t.len() == 0 {
        lemma_count_sum_empty(t, vals);
    } else {
        lemma_count_sum_bound(t.drop_last(), vals);
        lemma_count_sum_push(t.drop_last(), t.last(), vals);
        assert(t =~= t.drop_last().push(t.last()));
    }
}

proof fn lemma_count_sum_empty(t: Seq<u64>, vals: Seq<u64>)
    requires
        t.len() == 0,
    ensures
        count_sum(t, vals) == 0,
    decreases vals.len(),
{
    broadcast use vstd::multiset::group_multiset_axioms;

    if vals.len() > 0 {
        lemma_count_sum_empty(t, vals.drop_last());
        vstd::seq_lib::to_multiset_len(t);
        assert(t.to_multiset().count(vals.last()) <= t.to_multiset().len());
    }
}

proof fn lemma_deficit_cost_bound(state: Seq<u64>, target: Seq<u64>, gcd: u64, vals: Seq<u64>)
    ensures
        deficit_cost(state, target, gcd, vals) <= 3 * count_sum(target, vals),
    decreases vals.len(),
{
    if vals.len() > 0 {
        lemma_deficit_cost_bound(state, target, gcd, vals.drop_last());
        let d = deficit(state, target, vals.last());
        let c = creation_cost(state, vals.last(), gcd);
        assert(d * c <= 3 * target.to_multiset().count(vals.last())) by (nonlinear_arith)
            requires
                d <= target.to_multiset().count(vals.last()),
                c <= 3,
        ;
    }
}

fn is_multiple(d: u64, n: u64) -> (r: bool)
    ensures
        r == divides(d as nat, n as nat),
{
    if d == 0 {
        n == 0
    } else {
        n % d == 0
    }
}

fn creation_cost_of(state: &Vec<u64>, v: u64, gcd: u64) -> (c: u128)
    ensures
        c == creation_cost(state@, v, gcd),
        1 <= c <= 3,
{
    if is_multiple(gcd, v) {
        return 3;
    }
    let mut any_multiple: bool = false;
    let mut i: usize = 0;
    while i < state.len()
        invariant
            i <= state.len(),
            forall|k: int| 0 <= k < i ==> !(state@[k] > v && divides(v as nat, state@[k] as nat)),
            any_multiple <==> exists|k: int| 0 <= k < i && divides(v as nat, state@[k] as nat),
        decreases state.len() - i,
    {
        if is_multiple(v, state[i]) {
            if state[i] > v {
                return 3;
            }
            any_multiple = true;
        }
        i += 1;
    }
    if any_multiple {
        2
    } else {
        1
    }
}

impl Balancer {
    /// The estimate by which the frontiers are ordered.
    pub fn heuristic(state: &Vec<u64>, target: &Vec<u64>, gcd: u64) -> (h: u128)
        ensures
            h == heuristic_cost(state@, target@, gcd),
            h <= 3 * target@.len() + state@.len(),
            h <= 4 * 0xffff_ffff_ffff_ffff,
    {
        let mut estimated: u128 = if state.len() > target.len() {
            ((state.len() - target.len()) / 2) as u128
        } else {
            0
        };
        let ghost penalty = surplus_penalty(state@, target@);
        let values = distinct_values(target);
        let mut i: usize = 0;
        proof {
            lemma_distinct(target@);
        }
        while i < values.len()
            invariant
                i <= values.len(),
                values@ == distinct(target@),
                values@.no_duplicates(),
                target@.len() <= usize::MAX,
                penalty == surplus_penalty(state@, target@),
                penalty <= state@.len() <= usize::MAX,
                estimated == penalty + deficit_cost(state@, target@, gcd, values@.take(i as int)),
            decreases values.len() - i,
        {
            let v: u64 = values[i];
            let needed = count_value(target, v);
            let available = count_value(state, v);
            proof {
                let done = values@.take(i as int);
                let now = values@.take(i + 1);
                assert(now.drop_last() =~= done);
                lemma_deficit_cost_bound(state@, target@, gcd, done);
                lemma_count_sum_bound(target@, done);
            }
            if available < needed {
                let lacking: usize = needed - available;
                let each = creation_cost_of(state, v, gcd);
                assert(lacking * each <= 3 * lacking) by (nonlinear_arith)
                    requires
                        each <= 3,
                ;
                assert(lacking <= target@.len()) by {
                    vstd::seq_lib::to_multiset_len(target@);
                    broadcast use vstd::multiset::group_multiset_axioms;

                    assert(target@.to_multiset().count(v) <= target@.to_multiset().len());
                }
                estimated = estimated + (lacking as u128) * each;
            }
            i += 1;
        }
        proof {
            assert(values@.take(values.len() as int) =~= values@);
            lemma_deficit_cost_bound(state@, target@, gcd, values@);
            lemma_count_sum_bound(target@, values@);
        }
        estimated
    }
}

} // verus!
