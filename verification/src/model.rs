//! The mathematical model that the contracts of this crate speak of:
//! sequences of flow values, their canonical form and their total.

use vstd::prelude::*;
use vstd::multiset::Multiset;
use vstd::relations::{sorted_by, total_ordering};
use vstd::seq_lib::{
    lemma_multiset_commutative, lemma_sorted_unique, to_multiset_contains, to_multiset_len,
    to_multiset_remove,
};
use crate::operation::{Operation, ReverseOperation};

verus! {

/// The order on flow values as a relation.
pub open spec fn leq() -> spec_fn(u64, u64) -> bool {
    |a: u64, b: u64| a <= b
}

/// No value is followed by a smaller one.
pub open spec fn ascending(s: Seq<u64>) -> bool {
    forall|i: int, j: int| 0 <= i <= j < s.len() ==> s[i] <= s[j]
}

/// The unique ascending arrangement of the values of `s`.
pub open spec fn canonical(s: Seq<u64>) -> Seq<u64> {
    s.sort_by(leq())
}

/// The sum of the values of `s`.
pub open spec fn total(s: Seq<u64>) -> int
    decreases s.len(),
{
    if s.len() == 0 {
        0
    } else {
        total(s.drop_last()) + s.last()
    }
}

/// The order on flow values is total.
pub proof fn lemma_leq_is_total_order()
    ensures
        total_ordering(leq()),
{
    let r = leq();
    assert(vstd::relations::reflexive(r));
    assert(vstd::relations::antisymmetric(r));
    assert(vstd::relations::transitive(r));
    assert(vstd::relations::strongly_connected(r));
}

/// A sequence is ascending exactly when it is sorted by the order on flow
/// values.
pub proof fn lemma_ascending_is_sorted(s: Seq<u64>)
    ensures
        ascending(s) <==> sorted_by(s, leq()),
{
    if sorted_by(s, leq()) {
        assert forall|i: int, j: int| 0 <= i <= j < s.len() implies s[i] <= s[j] by {
            if i < j {
                assert(leq()(s[i], s[j]));
            }
        }
    }
    if ascending(s) {
        assert forall|i: int, j: int| 0 <= i < j < s.len() implies #[trigger] leq()(s[i], s[j]) by {
            assert(s[i] <= s[j]);
        }
    }
}

/// The canonical form is ascending and holds the values of `s`, each as
/// often as `s` does.
pub proof fn lemma_canonical(s: Seq<u64>)
    ensures
        ascending(canonical(s)),
        canonical(s).to_multiset() == s.to_multiset(),
        canonical(s).len() == s.len(),
{
    lemma_leq_is_total_order();
    s.lemma_sort_by_ensures(leq());
    lemma_ascending_is_sorted(canonical(s));
    to_multiset_len(s);
    to_multiset_len(canonical(s));
}

/// An ascending arrangement of the values of `s` is the canonical one.
pub proof fn lemma_canonical_unique(s: Seq<u64>, c: Seq<u64>)
    requires
        ascending(c),
        c.to_multiset() == s.to_multiset(),
    ensures
        c == canonical(s),
{
    lemma_canonical(s);
    lemma_leq_is_total_order();
    lemma_ascending_is_sorted(c);
    lemma_ascending_is_sorted(canonical(s));
    lemma_sorted_unique(c, canonical(s), leq());
}

/// Canonicalizing twice is canonicalizing once.
pub proof fn lemma_canonical_idempotent(s: Seq<u64>)
    ensures
        canonical(canonical(s)) == canonical(s),
{
    lemma_canonical(s);
    lemma_canonical_unique(canonical(s), canonical(s));
}

/// Two arrangements of the same multiset of values have the same canonical
/// form.
pub proof fn lemma_canonical_of_permutation(a: Seq<u64>, b: Seq<u64>)
    requires
        a.to_multiset() == b.to_multiset(),
    ensures
        canonical(a) == canonical(b),
{
    lemma_canonical(a);
    lemma_canonical_unique(b, canonical(a));
}

/// A value put at the end adds itself to the total.
pub proof fn lemma_total_push(s: Seq<u64>, x: u64)
    ensures
        total(s.push(x)) == total(s) + x,
{
    assert(s.push(x).drop_last() =~= s);
}

/// The total of a concatenation is the sum of the totals.
pub proof fn lemma_total_concat(a: Seq<u64>, b: Seq<u64>)
    ensures
        total(a + b) == total(a) + total(b),
    decreases b.len(),
{
    if b.len() == 0 {
        assert(a + b =~= a);
    } else {
        lemma_total_concat(a, b.drop_last());
        assert((a + b).drop_last() =~= a + b.drop_last());
    }
}

/// A value taken out takes itself off the total.
pub proof fn lemma_total_remove(s: Seq<u64>, i: int)
    requires
        0 <= i < s.len(),
    ensures
        total(s.remove(i)) == total(s) - s[i],
{
    let front = s.subrange(0, i);
    let back = s.subrange(i + 1, s.len() as int);
    assert(s =~= front.push(s[i]) + back);
    assert(s.remove(i) =~= front + back);
    lemma_total_concat(front.push(s[i]), back);
    lemma_total_concat(front, back);
    lemma_total_push(front, s[i]);
}

/// The total of a sequence depends on its multiset of values alone.
pub proof fn lemma_total_of_permutation(a: Seq<u64>, b: Seq<u64>)
    requires
        a.to_multiset() == b.to_multiset(),
    ensures
        total(a) == total(b),
    decreases a.len(),
{
    to_multiset_len(a);
    to_multiset_len(b);
    if a.len() > 0 {
        let x = a.last();
        assert(a.contains(x)) by {
            assert(a[a.len() - 1] == x);
        }
        to_multiset_contains(a, x);
        to_multiset_contains(b, x);
        let i = choose|i: int| 0 <= i < b.len() && b[i] == x;
        to_multiset_remove(a, a.len() - 1);
        to_multiset_remove(b, i);
        assert(a.remove(a.len() - 1) =~= a.drop_last());
        lemma_total_of_permutation(a.drop_last(), b.remove(i));
        lemma_total_remove(b, i);
    }
}

/// Canonicalizing keeps the total.
pub proof fn lemma_total_canonical(s: Seq<u64>)
    ensures
        total(canonical(s)) == total(s),
{
    lemma_canonical(s);
    lemma_total_of_permutation(canonical(s), s);
}

/// A total of `n` values of 64 bits is below `n * 2^64`.
pub proof fn lemma_total_bound(s: Seq<u64>)
    ensures
        0 <= total(s) <= s.len() * 0xffff_ffff_ffff_ffff,
    decreases s.len(),
{
    if s.len() > 0 {
        lemma_total_bound(s.drop_last());
    }
}

/// The values of `s` without repetition, in the order of their first
/// occurrence.
pub open spec fn distinct<T>(s: Seq<T>) -> Seq<T>
    decreases s.len(),
{
    if s.len() == 0 {
        s
    } else if s.drop_last().contains(s.last()) {
        distinct(s.drop_last())
    } else {
        distinct(s.drop_last()).push(s.last())
    }
}

/// `s` with the first occurrence of `v` taken out; `s` itself where `v`
/// does not occur.
pub open spec fn without(s: Seq<u64>, v: u64) -> Seq<u64>
    decreases s.len(),
{
    if s.len() == 0 {
        s
    } else if s[0] == v {
        s.drop_first()
    } else {
        seq![s[0]] + without(s.drop_first(), v)
    }
}

/// `s` with one occurrence of each value of `c` taken out, front to back.
pub open spec fn without_all(s: Seq<u64>, c: Seq<u64>) -> Seq<u64>
    decreases c.len(),
{
    if c.len() == 0 {
        s
    } else {
        without_all(without(s, c[0]), c.drop_first())
    }
}

/// The canonical state that holds the values of `s`, but for one occurrence
/// of each value of `out`, together with the values of `inn`.
pub open spec fn replaced(s: Seq<u64>, out: Seq<u64>, inn: Seq<u64>) -> Seq<u64> {
    canonical(without_all(s, out) + inn)
}

/// The state that `op` makes of `s`.
pub open spec fn apply(s: Seq<u64>, op: Operation) -> Seq<u64> {
    replaced(s, op.consumed(), op.produced())
}

/// The state of which the forward operation of `rop` makes `s`.
pub open spec fn unapply(s: Seq<u64>, rop: ReverseOperation) -> Seq<u64> {
    replaced(s, rop.spec_forward().produced(), rop.spec_forward().consumed())
}

/// `op` leads from `prev` to `next`: it keeps the total, everything it
/// takes is in `prev`, and `next` is the ascending arrangement of what
/// remains together with what it puts in.
#[verifier::opaque]
pub open spec fn step(prev: Seq<u64>, op: Operation, next: Seq<u64>) -> bool {
    &&& op.conserves()
    &&& op.consumed().to_multiset().subset_of(prev.to_multiset())
    &&& next.to_multiset().add(op.consumed().to_multiset()) == prev.to_multiset().add(
        op.produced().to_multiset(),
    )
    &&& ascending(next)
}

/// `distinct(s)` repeats nothing and holds exactly the values of `s`.
pub proof fn lemma_distinct<T>(s: Seq<T>)
    ensures
        distinct(s).no_duplicates(),
        forall|v: T| distinct(s).contains(v) <==> s.contains(v),
    decreases s.len(),
{
    if s.len() > 0 {
        let init = s.drop_last();
        let x = s.last();
        let d = distinct(init);
        lemma_distinct(init);
        assert(s =~= init.push(x));
        assert forall|v: T| distinct(s).contains(v) <==> s.contains(v) by {
            lemma_push_contains(init, x, v);
            if !init.contains(x) {
                lemma_push_contains(d, x, v);
            }
            assert(d.contains(v) <==> init.contains(v));
        }
        if !init.contains(x) {
            assert(!d.contains(x));
            assert forall|i: int, j: int|
                0 <= i < d.push(x).len() && 0 <= j < d.push(x).len() && i != j implies d.push(
                x,
            )[i] != d.push(x)[j] by {
                if i < d.len() && j < d.len() {
                } else if i < d.len() {
                    assert(d.contains(d[i]));
                } else {
                    assert(d.contains(d[j]));
                }
            }
        }
    }
}

/// A sequence with `x` put at its end holds what it held, and `x`.
pub proof fn lemma_push_contains<T>(s: Seq<T>, x: T, v: T)
    ensures
        s.push(x).contains(v) <==> (s.contains(v) || v == x),
{
    if s.contains(v) {
        let i = choose|i: int| 0 <= i < s.len() && s[i] == v;
        assert(s.push(x)[i] == v);
    }
    if v == x {
        assert(s.push(x)[s.len() as int] == v);
    }
    if s.push(x).contains(v) {
        let i = choose|i: int| 0 <= i < s.push(x).len() && s.push(x)[i] == v;
        if i < s.len() {
            assert(s[i] == v);
        }
    }
}

/// Taking out the value at the first index that holds `v` is `without`.
pub proof fn lemma_without_at_first(s: Seq<u64>, v: u64, i: int)
    requires
        0 <= i < s.len(),
        s[i] == v,
        forall|k: int| 0 <= k < i ==> s[k] != v,
    ensures
        without(s, v) == s.remove(i),
    decreases i,
{
    if i == 0 {
        assert(s.remove(0) =~= s.drop_first());
    } else {
        lemma_without_at_first(s.drop_first(), v, i - 1);
        assert(s.remove(i) =~= seq![s[0]] + s.drop_first().remove(i - 1));
    }
}

/// Taking out a value that does not occur changes nothing.
pub proof fn lemma_without_absent(s: Seq<u64>, v: u64)
    requires
        !s.contains(v),
    ensures
        without(s, v) == s,
    decreases s.len(),
{
    if s.len() > 0 {
        assert(s[0] != v);
        assert forall|k: int| 0 <= k < s.drop_first().len() implies s.drop_first()[k] != v by {
            assert(s[k + 1] != v);
        }
        lemma_without_absent(s.drop_first(), v);
        assert(seq![s[0]] + s.drop_first() =~= s);
    }
}

/// Taking out a value that occurs lowers its count by one and the total by
/// the value.
pub proof fn lemma_without_present(s: Seq<u64>, v: u64)
    requires
        s.to_multiset().count(v) > 0,
    ensures
        without(s, v).to_multiset() == s.to_multiset().remove(v),
        without(s, v).len() == s.len() - 1,
        total(without(s, v)) == total(s) - v,
{
    to_multiset_contains(s, v);
    lemma_first_index_exists(s, v);
    let i = choose|i: int|
        0 <= i < s.len() && s[i] == v && forall|k: int| 0 <= k < i ==> s[k] != v;
    lemma_without_at_first(s, v, i);
    to_multiset_remove(s, i);
    lemma_total_remove(s, i);
}

proof fn lemma_first_index_exists(s: Seq<u64>, v: u64)
    requires
        s.contains(v),
    ensures
        exists|i: int| 0 <= i < s.len() && s[i] == v && forall|k: int| 0 <= k < i ==> s[k] != v,
    decreases s.len(),
{
    if s[0] == v {
        assert(0 <= 0 < s.len() && s[0] == v && forall|k: int| 0 <= k < 0 ==> s[k] != v);
    } else {
        let j = choose|j: int| 0 <= j < s.len() && s[j] == v;
        assert(s.drop_first()[j - 1] == v);
        lemma_first_index_exists(s.drop_first(), v);
        let i = choose|i: int|
            0 <= i < s.drop_first().len() && s.drop_first()[i] == v && forall|k: int|
                0 <= k < i ==> s.drop_first()[k] != v;
        assert forall|k: int| 0 <= k < i + 1 implies s[k] != v by {
            if k > 0 {
                assert(s.drop_first()[k - 1] != v);
            }
        }
        assert(0 <= i + 1 < s.len() && s[i + 1] == v);
    }
}

/// Taking out values that all occur, each as often as it is taken, removes
/// exactly them.
pub proof fn lemma_without_all(s: Seq<u64>, c: Seq<u64>)
    requires
        c.to_multiset().subset_of(s.to_multiset()),
    ensures
        without_all(s, c).to_multiset().add(c.to_multiset()) == s.to_multiset(),
        total(without_all(s, c)) == total(s) - total(c),
    decreases c.len(),
{
    broadcast use vstd::multiset::group_multiset_axioms;

    if c.len() == 0 {
        assert(c.to_multiset() =~= Multiset::<u64>::empty()) by {
            to_multiset_len(c);
        }
        assert(without_all(s, c).to_multiset().add(c.to_multiset()) =~= s.to_multiset());
    } else {
        let v = c[0];
        let rest = c.drop_first();
        assert(c =~= seq![v] + rest);
        lemma_multiset_commutative(seq![v], rest);
        assert(seq![v].to_multiset() =~= Multiset::<u64>::empty().insert(v)) by {
            assert(seq![v] =~= Seq::<u64>::empty().push(v));
            vstd::seq_lib::to_multiset_build(Seq::<u64>::empty(), v);
            assert(Seq::<u64>::empty().to_multiset() =~= Multiset::<u64>::empty()) by {
                to_multiset_len(Seq::<u64>::empty());
            }
        }
        assert(c.to_multiset().count(v) > 0);
        assert(s.to_multiset().count(v) > 0);
        lemma_without_present(s, v);
        assert(rest.to_multiset().subset_of(without(s, v).to_multiset())) by {
            assert forall|x: u64| rest.to_multiset().count(x) <= without(s, v).to_multiset().count(
                x,
            ) by {
                assert(c.to_multiset().count(x) <= s.to_multiset().count(x));
            }
        }
        lemma_without_all(without(s, v), rest);
        assert(without_all(s, c).to_multiset().add(c.to_multiset()) =~= s.to_multiset());
        lemma_total_concat(seq![v], rest);
        assert(total(seq![v]) == v) by {
            lemma_total_push(Seq::<u64>::empty(), v);
            assert(seq![v] =~= Seq::<u64>::empty().push(v));
        }
    }
}

/// Replacing values that occur by others yields a state that is ascending and
/// holds exactly what remains and what was put in.
pub proof fn lemma_replaced(s: Seq<u64>, out: Seq<u64>, inn: Seq<u64>)
    requires
        out.to_multiset().subset_of(s.to_multiset()),
    ensures
        ascending(replaced(s, out, inn)),
        replaced(s, out, inn).to_multiset().add(out.to_multiset()) == s.to_multiset().add(
            inn.to_multiset(),
        ),
        total(replaced(s, out, inn)) == total(s) - total(out) + total(inn),
        replaced(s, out, inn).len() == s.len() - out.len() + inn.len(),
{
    broadcast use vstd::multiset::group_multiset_axioms;

    let kept = without_all(s, out);
    lemma_without_all(s, out);
    lemma_canonical(kept + inn);
    lemma_multiset_commutative(kept, inn);
    lemma_total_canonical(kept + inn);
    lemma_total_concat(kept, inn);
    assert(replaced(s, out, inn).to_multiset().add(out.to_multiset()) =~= s.to_multiset().add(
        inn.to_multiset(),
    ));
    to_multiset_len(kept);
    to_multiset_len(s);
    to_multiset_len(out);
}

/// The total of the filled slots as a sequence is their sum.
pub proof fn lemma_parts_total(p: crate::operation::Parts)
    ensures
        total(crate::operation::parts_seq(p)) == crate::operation::parts_sum(p),
{
    let a = match p.0 {
        Some(a) => seq![a],
        None => Seq::<u64>::empty(),
    };
    let b = match p.1 {
        Some(b) => seq![b],
        None => Seq::<u64>::empty(),
    };
    let c = match p.2 {
        Some(c) => seq![c],
        None => Seq::<u64>::empty(),
    };
    lemma_total_concat(a + b, c);
    lemma_total_concat(a, b);
    lemma_total_single(a);
    lemma_total_single(b);
    lemma_total_single(c);
}

proof fn lemma_total_single(s: Seq<u64>)
    requires
        s.len() <= 1,
    ensures
        s.len() == 0 ==> total(s) == 0,
        s.len() == 1 ==> total(s) == s[0],
{
    if s.len() == 1 {
        assert(total(s.drop_last()) == 0);
    }
}

/// A conserving operation consumes as much as it produces.
pub proof fn lemma_conserving_totals(op: Operation)
    requires
        op.conserves(),
    ensures
        total(op.consumed()) == total(op.produced()),
{
    match op {
        Operation::Split { input, output } => {
            lemma_parts_total(output);
            lemma_total_single(seq![input]);
        },
        Operation::Merge { input, output } => {
            lemma_parts_total(input);
            lemma_total_single(seq![output]);
        },
    }
}

/// A step keeps the total of the state.
pub proof fn lemma_step_keeps_total(prev: Seq<u64>, op: Operation, next: Seq<u64>)
    requires
        step(prev, op, next),
    ensures
        total(next) == total(prev),
{
    reveal(step);
    lemma_conserving_totals(op);
    lemma_multiset_commutative(next, op.consumed());
    lemma_multiset_commutative(prev, op.produced());
    lemma_total_of_permutation(next + op.consumed(), prev + op.produced());
    lemma_total_concat(next, op.consumed());
    lemma_total_concat(prev, op.produced());
}

/// Applying a conserving operation whose inputs are present is a step.
pub proof fn lemma_apply_is_step(s: Seq<u64>, op: Operation)
    requires
        op.conserves(),
        op.consumed().to_multiset().subset_of(s.to_multiset()),
    ensures
        step(s, op, apply(s, op)),
{
    reveal(step);
    lemma_replaced(s, op.consumed(), op.produced());
}

/// Undoing a conserving operation whose outputs are present yields a state
/// from which the operation is a step back.
pub proof fn lemma_unapply_is_step(s: Seq<u64>, rop: ReverseOperation)
    requires
        rop.spec_forward().conserves(),
        rop.spec_forward().produced().to_multiset().subset_of(s.to_multiset()),
        ascending(s),
    ensures
        step(unapply(s, rop), rop.spec_forward(), s),
{
    reveal(step);
    broadcast use vstd::multiset::group_multiset_axioms;

    let op = rop.spec_forward();
    lemma_replaced(s, op.produced(), op.consumed());
    assert(op.consumed().to_multiset().subset_of(unapply(s, rop).to_multiset())) by {
        assert forall|x: u64| op.consumed().to_multiset().count(x) <= unapply(
            s,
            rop,
        ).to_multiset().count(x) by {
            assert(unapply(s, rop).to_multiset().add(op.produced().to_multiset()).count(x)
                == s.to_multiset().add(op.consumed().to_multiset()).count(x));
            assert(op.produced().to_multiset().count(x) <= s.to_multiset().count(x));
        }
    }
}

/// What a step says of the two states and the operation between them.
pub proof fn lemma_step_facts(prev: Seq<u64>, op: Operation, next: Seq<u64>)
    requires
        step(prev, op, next),
    ensures
        op.conserves(),
        op.consumed().to_multiset().subset_of(prev.to_multiset()),
        next.to_multiset().add(op.consumed().to_multiset()) == prev.to_multiset().add(
            op.produced().to_multiset(),
        ),
        ascending(next),
{
    reveal(step);
}

} // verus!
