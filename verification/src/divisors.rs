//! Divisibility and the greatest common divisor.

use vstd::prelude::*;
use vstd::arithmetic::div_mod::{
    lemma_fundamental_div_mod, lemma_mod_is_zero, lemma_mod_multiples_basic,
    lemma_mod_multiples_vanish, lemma_mod_self_0, lemma_mul_mod_noop_general, lemma_small_mod,
    lemma_truncate_middle,
};
use vstd::arithmetic::power2::{lemma2_to64, lemma_pow2_adds, lemma_pow2_pos, lemma_pow2_unfold, pow2};
use vstd::bits::lemma_u64_shr_is_div;

verus! {

/// `d` divides `n`; zero divides only zero.
pub open spec fn divides(d: nat, n: nat) -> bool {
    if d == 0 {
        n == 0
    } else {
        n % d == 0
    }
}

/// The greatest common divisor of `a` and `b`, with `gcd_of(0, 0) == 0`.
pub open spec fn gcd_of(a: nat, b: nat) -> nat
    decreases b,
{
    if b == 0 {
        a
    } else {
        gcd_of(b, a % b)
    }
}

/// The greatest common divisor of all values of `s`; 0 for the empty
/// sequence.
pub open spec fn gcd_over(s: Seq<u64>) -> nat
    decreases s.len(),
{
    if s.len() == 0 {
        0
    } else {
        gcd_of(s.last() as nat, gcd_over(s.drop_last()))
    }
}

proof fn lemma_divides_remainder(a: nat, b: nat, d: nat)
    requires
        b > 0,
        d > 0,
        b % d == 0,
    ensures
        (a % d == 0) <==> ((a % b) % d == 0),
{
    let q = a / b;
    let r = a % b;
    let m = b / d;
    lemma_fundamental_div_mod(a as int, b as int);
    lemma_fundamental_div_mod(b as int, d as int);
    assert(b == d * m);
    assert(a == d * (m * q) + r) by (nonlinear_arith)
        requires
            a == b * q + r,
            b == d * m,
    ;
    lemma_mod_multiples_vanish((m * q) as int, r as int, d as int);
    assert(d * (m * q) + r == (m * q) * d + r) by (nonlinear_arith);
}

/// The result of `gcd_of` divides both arguments.
pub proof fn lemma_gcd_divides(a: nat, b: nat)
    ensures
        divides(gcd_of(a, b), a),
        divides(gcd_of(a, b), b),
        (a > 0 || b > 0) ==> gcd_of(a, b) > 0,
        gcd_of(a, b) <= a || a == 0,
        gcd_of(a, b) <= b || b == 0,
    decreases b,
{
    if b == 0 {
        if a > 0 {
            lemma_mod_self_0(a as int);
        }
    } else {
        lemma_gcd_divides(b, a % b);
        let g = gcd_of(a, b);
        assert(g > 0);
        assert(b % g == 0);
        lemma_divides_remainder(a, b, g);
        if a > 0 {
            lemma_mod_is_zero(a, g);
        }
    }
}

/// Every common divisor of the arguments divides the result of `gcd_of`.
pub proof fn lemma_gcd_greatest(a: nat, b: nat, d: nat)
    requires
        divides(d, a),
        divides(d, b),
    ensures
        divides(d, gcd_of(a, b)),
    decreases b,
{
    if b != 0 {
        if d == 0 {
            assert(false);
        } else {
            lemma_divides_remainder(a, b, d);
            lemma_gcd_greatest(b, a % b, d);
        }
    }
}

/// `gcd_over(s)` divides every value of `s`.
pub proof fn lemma_gcd_over_divides(s: Seq<u64>, i: int)
    requires
        0 <= i < s.len(),
    ensures
        divides(gcd_over(s), s[i] as nat),
    decreases s.len(),
{
    let rest = gcd_over(s.drop_last());
    let g = gcd_over(s);
    lemma_gcd_divides(s.last() as nat, rest);
    if i < s.len() - 1 {
        lemma_gcd_over_divides(s.drop_last(), i);
        lemma_divides_transitive(g, rest, s[i] as nat);
    }
}

/// Every common divisor of the values of `s` divides `gcd_over(s)`.
pub proof fn lemma_gcd_over_greatest(s: Seq<u64>, d: nat)
    requires
        forall|i: int| 0 <= i < s.len() ==> divides(d, #[trigger] s[i] as nat),
    ensures
        divides(d, gcd_over(s)),
    decreases s.len(),
{
    if s.len() > 0 {
        assert forall|i: int| 0 <= i < s.drop_last().len() implies divides(
            d,
            #[trigger] s.drop_last()[i] as nat,
        ) by {
            assert(s.drop_last()[i] == s[i]);
        }
        lemma_gcd_over_greatest(s.drop_last(), d);
        assert(divides(d, s[s.len() - 1] as nat));
        lemma_gcd_greatest(s.last() as nat, gcd_over(s.drop_last()), d);
    }
}

/// What divides a divisor of a number divides the number.
pub proof fn lemma_divides_transitive(a: nat, b: nat, c: nat)
    requires
        divides(a, b),
        divides(b, c),
    ensures
        divides(a, c),
{
    if a != 0 && b != 0 {
        lemma_divides_remainder(c, b, a);
        assert(c % b == 0);
        lemma_small_mod(0, a);
    }
}


/// A multiple of `d` is divided by `d`.
pub proof fn lemma_multiple_divides(d: nat, k: nat)
    ensures
        divides(d, k * d),
{
    if d > 0 {
        lemma_mod_multiples_basic(k as int, d as int);
    } else {
        assert(k * d == 0) by (nonlinear_arith)
            requires
                d == 0,
        ;
    }
}

/// What `d` divides is a multiple of `d`.
pub proof fn lemma_divides_multiple(d: nat, n: nat) -> (k: nat)
    requires
        divides(d, n),
    ensures
        n == k * d,
{
    if d > 0 {
        lemma_fundamental_div_mod(n as int, d as int);
        let k = n / d;
        assert(n == k * d) by (nonlinear_arith)
            requires
                n == d * k + 0,
        ;
        k
    } else {
        0
    }
}

/// Numbers that divide each other are equal.
pub proof fn lemma_divides_antisymmetric(x: nat, y: nat)
    requires
        divides(x, y),
        divides(y, x),
    ensures
        x == y,
{
    let p = lemma_divides_multiple(x, y);
    let q = lemma_divides_multiple(y, x);
    if x != 0 && y != 0 {
        assert(p >= 1 && q >= 1 && x == y) by (nonlinear_arith)
            requires
                y == p * x,
                x == q * y,
                x > 0,
                y > 0,
        ;
    } else {
        assert(x == 0 && y == 0) by (nonlinear_arith)
            requires
                y == p * x,
                x == q * y,
                x == 0 || y == 0,
        ;
    }
}

/// What divides two numbers divides their sum.
pub proof fn lemma_divides_sum(d: nat, x: nat, y: nat)
    requires
        divides(d, x),
        divides(d, y),
    ensures
        divides(d, x + y),
{
    let p = lemma_divides_multiple(d, x);
    let q = lemma_divides_multiple(d, y);
    assert(x + y == (p + q) * d) by (nonlinear_arith)
        requires
            x == p * d,
            y == q * d,
    ;
    lemma_multiple_divides(d, p + q);
}

/// What divides a number and a sum with it divides the other summand.
pub proof fn lemma_divides_difference(d: nat, x: nat, y: nat)
    requires
        divides(d, x),
        divides(d, x + y),
    ensures
        divides(d, y),
{
    let p = lemma_divides_multiple(d, x);
    let q = lemma_divides_multiple(d, x + y);
    if d > 0 {
        assert(q >= p && y == (q - p) * d) by (nonlinear_arith)
            requires
                x == p * d,
                x + y == q * d,
                d > 0,
        ;
        lemma_multiple_divides(d, (q - p) as nat);
    }
}

/// The order of the arguments does not matter.
pub proof fn lemma_gcd_symmetric(a: nat, b: nat)
    ensures
        gcd_of(a, b) == gcd_of(b, a),
{
    lemma_gcd_divides(a, b);
    lemma_gcd_divides(b, a);
    lemma_gcd_greatest(b, a, gcd_of(a, b));
    lemma_gcd_greatest(a, b, gcd_of(b, a));
    lemma_divides_antisymmetric(gcd_of(a, b), gcd_of(b, a));
}

/// Taking one argument off the other does not change the result.
pub proof fn lemma_gcd_subtract(a: nat, b: nat)
    requires
        a <= b,
    ensures
        gcd_of(a, (b - a) as nat) == gcd_of(a, b),
{
    let d = (b - a) as nat;
    let g1 = gcd_of(a, d);
    let g2 = gcd_of(a, b);
    lemma_gcd_divides(a, d);
    lemma_gcd_divides(a, b);
    lemma_divides_sum(g1, a, d);
    lemma_gcd_greatest(a, b, g1);
    lemma_divides_difference(g2, a, d);
    lemma_gcd_greatest(a, d, g2);
    lemma_divides_antisymmetric(g1, g2);
}

/// A product is odd exactly when both factors are.
proof fn lemma_product_parity(x: nat, y: nat)
    ensures
        (x * y) % 2 == 1 <==> x % 2 == 1 && y % 2 == 1,
{
    lemma_mul_mod_noop_general(x as int, y as int, 2);
    let p = x % 2;
    let q = y % 2;
    assert(p * q == if p == 1 && q == 1 {
        1nat
    } else {
        0nat
    }) by (nonlinear_arith)
        requires
            0 <= p < 2,
            0 <= q < 2,
    ;
}

/// An odd number that divides the double of a number divides the number.
pub proof fn lemma_odd_divides_half(d: nat, c: nat)
    requires
        d % 2 == 1,
        divides(d, 2 * c),
    ensures
        divides(d, c),
{
    let k = lemma_divides_multiple(d, 2 * c);
    lemma_product_parity(k, d);
    assert((2 * c) % 2 == 0);
    let m = k / 2;
    assert(c == m * d) by (nonlinear_arith)
        requires
            2 * c == k * d,
            k == 2 * m,
    ;
    lemma_multiple_divides(d, m);
}

/// A divisor of an odd number is odd.
pub proof fn lemma_divisor_of_odd(d: nat, a: nat)
    requires
        a % 2 == 1,
        divides(d, a),
    ensures
        d % 2 == 1,
{
    let k = lemma_divides_multiple(d, a);
    lemma_product_parity(k, d);
}

/// Halving the other argument of an odd one does not change the result.
pub proof fn lemma_gcd_odd_double(a: nat, c: nat)
    requires
        a % 2 == 1,
    ensures
        gcd_of(a, 2 * c) == gcd_of(a, c),
{
    let g1 = gcd_of(a, 2 * c);
    let g2 = gcd_of(a, c);
    lemma_gcd_divides(a, 2 * c);
    lemma_gcd_divides(a, c);
    lemma_divides_sum(g2, c, c);
    lemma_gcd_greatest(a, 2 * c, g2);
    lemma_divisor_of_odd(g1, a);
    lemma_odd_divides_half(g1, c);
    lemma_gcd_greatest(a, c, g1);
    lemma_divides_antisymmetric(g1, g2);
}

/// Factors of two in the other argument of an odd one do not change the
/// result.
pub proof fn lemma_gcd_odd_pow2(a: nat, c: nat, t: nat)
    requires
        a % 2 == 1,
    ensures
        gcd_of(a, c * pow2(t)) == gcd_of(a, c),
    decreases t,
{
    if t == 0 {
        assert(pow2(0) == 1) by {
            lemma2_to64();
        }
        assert(c * 1 == c);
    } else {
        lemma_pow2_unfold(t);
        let half = c * pow2((t - 1) as nat);
        assert(c * pow2(t) == 2 * half) by (nonlinear_arith)
            requires
                pow2(t) == 2 * pow2((t - 1) as nat),
                half == c * pow2((t - 1) as nat),
        ;
        lemma_gcd_odd_double(a, half);
        lemma_gcd_odd_pow2(a, c, (t - 1) as nat);
    }
}

/// A common factor of the arguments is a factor of the result.
pub proof fn lemma_gcd_scale(p: nat, x: nat, y: nat)
    requires
        p > 0,
    ensures
        gcd_of(p * x, p * y) == p * gcd_of(x, y),
    decreases y,
{
    if y == 0 {
        assert(p * y == 0) by (nonlinear_arith)
            requires
                y == 0,
        ;
    } else {
        assert(p * y > 0) by (nonlinear_arith)
            requires
                p > 0,
                y > 0,
        ;
        lemma_truncate_middle(x as int, p as int, y as int);
        assert((p * x) % (p * y) == p * (x % y));
        lemma_gcd_scale(p, y, x % y);
    }
}

/// A number whose `t` lowest bits are zero is a multiple of `2^t`.
proof fn lemma_low_bits_zero(a: u64, t: u64)
    requires
        t < 64,
        forall|j: u64| 0 <= j < t ==> #[trigger] (a >> j) & 1u64 == 0u64,
    ensures
        a as nat % pow2(t as nat) == 0,
    decreases t,
{
    if t == 0 {
        assert(pow2(0) == 1) by {
            lemma2_to64();
        }
    } else {
        let s = (t - 1) as u64;
        lemma_low_bits_zero(a, s);
        let q = a as nat / pow2(s as nat);
        lemma_pow2_pos(s as nat);
        lemma_pow2_unfold(t as nat);
        lemma_u64_shr_is_div(a, s);
        let shifted = a >> s;
        assert(shifted & 1u64 == 0u64);
        assert(shifted & 1u64 == shifted % 2) by (bit_vector);
        lemma_fundamental_div_mod(a as int, pow2(s as nat) as int);
        let m = q / 2;
        assert(a == (m * pow2(t as nat))) by (nonlinear_arith)
            requires
                a == pow2(s as nat) * q,
                q == 2 * m,
                pow2(t as nat) == 2 * pow2(s as nat),
        ;
        lemma_mod_multiples_basic(m as int, pow2(t as nat) as int);
    }
}

/// Shifting the trailing zeros out of a number that is not 0 leaves an odd
/// number, of which the number is a multiple by a power of two.
pub proof fn lemma_strip_trailing_zeros(a: u64)
    requires
        a != 0,
    ensures
        a.trailing_zeros() < 64,
        (a >> a.trailing_zeros()) % 2 == 1,
        a == (a >> a.trailing_zeros()) * pow2(a.trailing_zeros() as nat),
{
    vstd::std_specs::bits::axiom_u64_trailing_zeros(a);
    let t = a.trailing_zeros() as u64;
    assert(a >> a.trailing_zeros() == a >> t);
    let shifted = a >> t;
    assert(shifted & 1u64 == shifted % 2) by (bit_vector);
    lemma_low_bits_zero(a, t);
    lemma_u64_shr_is_div(a, t);
    lemma_pow2_pos(t as nat);
    lemma_fundamental_div_mod(a as int, pow2(t as nat) as int);
    assert(a == shifted * pow2(t as nat)) by (nonlinear_arith)
        requires
            a == pow2(t as nat) * shifted + 0,
    ;
}

/// Three exclusive-ors exchange two values.
pub proof fn lemma_xor_swap(a: u64, b: u64)
    ensures
        b ^ (a ^ b) == a,
        (a ^ b) ^ (b ^ (a ^ b)) == b,
{
    assert(b ^ (a ^ b) == a) by (bit_vector);
    assert((a ^ b) ^ (b ^ (a ^ b)) == b) by (bit_vector);
}

/// The powers of two that two numbers share are a factor of their greatest
/// common divisor; those that only one of them has do not matter to it where
/// the rest of both is odd.
pub proof fn lemma_common_power(x: nat, y: nat, i: nat, j: nat)
    requires
        x % 2 == 1,
        y % 2 == 1,
    ensures
        gcd_of(x * pow2(i), y * pow2(j)) == gcd_of(x, y) * pow2(
            if i < j {
                i
            } else {
                j
            },
        ),
{
    if i <= j {
        let e = (j - i) as nat;
        let p = pow2(i);
        lemma_pow2_pos(i);
        lemma_pow2_adds(i, e);
        assert(y * pow2(j) == p * (y * pow2(e))) by (nonlinear_arith)
            requires
                pow2(j) == p * pow2(e),
        ;
        assert(x * p == p * x) by (nonlinear_arith);
        lemma_gcd_scale(p, x, y * pow2(e));
        lemma_gcd_odd_pow2(x, y, e);
        assert(p * gcd_of(x, y) == gcd_of(x, y) * p) by (nonlinear_arith);
    } else {
        let e = (i - j) as nat;
        let p = pow2(j);
        lemma_pow2_pos(j);
        lemma_pow2_adds(j, e);
        assert(x * pow2(i) == p * (x * pow2(e))) by (nonlinear_arith)
            requires
                pow2(i) == p * pow2(e),
        ;
        assert(y * p == p * y) by (nonlinear_arith);
        lemma_gcd_scale(p, x * pow2(e), y);
        lemma_gcd_symmetric(x * pow2(e), y);
        lemma_gcd_odd_pow2(y, x, e);
        lemma_gcd_symmetric(y, x);
        assert(p * gcd_of(x, y) == gcd_of(x, y) * p) by (nonlinear_arith);
    }
}

} // verus!
