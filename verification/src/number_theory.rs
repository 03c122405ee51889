//! Divisibility, greatest common divisors and residues, as far as the field
//! arithmetic needs them.

use crate::integer::{trunc_div, trunc_rem};
use vstd::arithmetic::div_mod::*;
use vstd::arithmetic::mul::*;
use vstd::prelude::*;

verus! {

/// The distance of `x` from zero.
pub open spec fn abs(x: int) -> int {
    if x < 0 {
        -x
    } else {
        x
    }
}

/// `d` divides `n`. Zero divides zero only.
pub open spec fn divides(d: int, n: int) -> bool {
    if d == 0 {
        n == 0
    } else {
        n % abs(d) == 0
    }
}

/// `d` divides both `x` and `y`.
pub open spec fn common_divisor(d: int, x: int, y: int) -> bool {
    divides(d, x) && divides(d, y)
}

/// `g` is the greatest common divisor of `a` and `b`: it is not negative, it
/// divides both, and every common divisor divides it.
pub open spec fn is_gcd(g: int, a: int, b: int) -> bool {
    &&& g >= 0
    &&& divides(g, a)
    &&& divides(g, b)
    &&& forall|d: int| #[trigger] divides(d, a) && divides(d, b) ==> divides(d, g)
}

/// `a` and `b` have no common divisor but one and its negative.
pub open spec fn coprime(a: int, b: int) -> bool {
    is_gcd(1, a, b)
}

/// The remainder that rounds toward zero differs from the residue in
/// `[0, m)` by one `m` at most: it is the residue itself, or, where it is
/// negative, the residue less `m`.
pub proof fn lemma_trunc_rem_residue(a: int, m: int)
    requires
        m > 0,
    ensures
        -m < trunc_rem(a, m) < m,
        trunc_rem(a, m) >= 0 ==> trunc_rem(a, m) == a % m,
        trunc_rem(a, m) < 0 ==> trunc_rem(a, m) + m == a % m,
{
    if a >= 0 {
        lemma_fundamental_div_mod(a, m);
        lemma_mod_bound(a, m);
    } else {
        let q = (-a) / m;
        let r = (-a) % m;
        lemma_fundamental_div_mod(-a, m);
        lemma_mod_bound(-a, m);
        assert(trunc_div(a, m) == -q);
        assert(m * (-q) == -(m * q)) by (nonlinear_arith);
        assert(trunc_rem(a, m) == -r);
        if r == 0 {
            assert(a == (-q) * m + 0) by (nonlinear_arith)
                requires
                    -a == m * q + r,
                    r == 0,
            ;
            lemma_fundamental_div_mod_converse(a, m, -q, 0);
        } else {
            assert(a == (-q - 1) * m + (m - r)) by (nonlinear_arith)
                requires
                    -a == m * q + r,
            ;
            lemma_fundamental_div_mod_converse(a, m, -q - 1, m - r);
        }
    }
}

/// The remainder that rounds toward zero is nearer to zero than the divisor.
pub proof fn lemma_trunc_rem_bound(a: int, b: int)
    requires
        b != 0,
    ensures
        abs(trunc_rem(a, b)) < abs(b),
{
    let m = abs(b);
    let n = abs(a);
    lemma_fundamental_div_mod(n, m);
    lemma_mod_bound(n, m);
    let q = n / m;
    let r = n % m;
    if a >= 0 {
        if b > 0 {
        } else {
            assert(b * (-q) == m * q) by (nonlinear_arith)
                requires
                    m == -b,
            ;
        }
    } else {
        if b > 0 {
            assert(b * (-q) == -(m * q)) by (nonlinear_arith)
                requires
                    m == b,
            ;
        } else {
            assert(b * q == -(m * q)) by (nonlinear_arith)
                requires
                    m == -b,
            ;
        }
    }
}

/// A multiple of `d` is divisible by `d`.
pub proof fn lemma_divides_multiple(d: int, k: int)
    ensures
        divides(d, k * d),
{
    if d == 0 {
        assert(k * d == 0) by (nonlinear_arith)
            requires
                d == 0,
        ;
    } else {
        let m = abs(d);
        if d > 0 {
            lemma_mod_multiples_basic(k, m);
        } else {
            assert(k * d == (-k) * m) by (nonlinear_arith)
                requires
                    m == -d,
            ;
            lemma_mod_multiples_basic(-k, m);
        }
    }
}

/// What `d` divides is a multiple of `d`.
pub proof fn lemma_divides_witness(d: int, n: int) -> (k: int)
    requires
        divides(d, n),
    ensures
        n == k * d,
{
    if d == 0 {
        0
    } else {
        let m = abs(d);
        lemma_fundamental_div_mod(n, m);
        let q = n / m;
        if d > 0 {
            assert(m * q == q * d) by (nonlinear_arith)
                requires
                    m == d,
            ;
            q
        } else {
            assert(m * q == (-q) * d) by (nonlinear_arith)
                requires
                    m == -d,
            ;
            -q
        }
    }
}

/// What divides two numbers divides every combination of them.
pub proof fn lemma_divides_combination(d: int, x: int, y: int, p: int, q: int)
    requires
        divides(d, x),
        divides(d, y),
    ensures
        divides(d, p * x + q * y),
{
    let kx = lemma_divides_witness(d, x);
    let ky = lemma_divides_witness(d, y);
    assert(p * x + q * y == (p * kx + q * ky) * d) by (nonlinear_arith)
        requires
            x == kx * d,
            y == ky * d,
    ;
    lemma_divides_multiple(d, p * kx + q * ky);
}

/// Two numbers that are not negative and divide each other are equal.
pub proof fn lemma_divides_antisymmetric(x: int, y: int)
    requires
        x >= 0,
        y >= 0,
        divides(x, y),
        divides(y, x),
    ensures
        x == y,
{
    let k = lemma_divides_witness(x, y);
    let l = lemma_divides_witness(y, x);
    if x == 0 || y == 0 {
        assert(k * 0 == 0);
        assert(l * 0 == 0);
    } else {
        assert(x == y) by (nonlinear_arith)
            requires
                x > 0,
                y > 0,
                y == k * x,
                x == l * y,
        ;
    }
}

/// Two numbers have one greatest common divisor.
pub proof fn lemma_gcd_unique(g: int, h: int, a: int, b: int)
    requires
        is_gcd(g, a, b),
        is_gcd(h, a, b),
    ensures
        g == h,
{
    assert(divides(g, a) && divides(g, b));
    assert(divides(h, a) && divides(h, b));
    lemma_divides_antisymmetric(g, h);
}

/// A number that is a combination of `a` and `b` and divides both is, once
/// made non-negative, their greatest common divisor.
pub proof fn lemma_bezout_gcd(g: int, a: int, b: int, x: int, y: int)
    requires
        g >= 0,
        g == x * a + y * b,
        divides(g, a),
        divides(g, b),
    ensures
        is_gcd(g, a, b),
{
    assert forall|d: int| #[trigger] divides(d, a) && divides(d, b) implies divides(d, g) by {
        lemma_divides_combination(d, a, b, x, y);
    }
}

/// Where `1` is a combination of `a` and `m`, the coefficient of `a`, and
/// its residue modulo `m`, invert `a` modulo `m`.
pub proof fn lemma_bezout_inverse(a: int, m: int, x: int, y: int)
    requires
        m > 0,
        1 == a * x + m * y,
    ensures
        (a * (x % m)) % m == 1int % m,
{
    lemma_mul_mod_noop_right(a, x, m);
    assert(a * x == 1 + (-y) * m) by (nonlinear_arith)
        requires
            1 == a * x + m * y,
    ;
    lemma_mod_multiples_vanish(-y, 1, m);
}

/// One step of Euclid's algorithm keeps both remainders combinations of
/// `a` and `b`: taking `q` times the one from the other does the same to the
/// coefficients.
pub proof fn lemma_bezout_step(
    a: int,
    b: int,
    r0: int,
    s0: int,
    t0: int,
    r1: int,
    s1: int,
    t1: int,
    q: int,
)
    requires
        r0 == a * s0 + b * t0,
        r1 == a * s1 + b * t1,
    ensures
        r0 - r1 * q == a * (s0 - q * s1) + b * (t0 - q * t1),
{
    assert(r1 * q == (a * s1) * q + (b * t1) * q) by (nonlinear_arith)
        requires
            r1 == a * s1 + b * t1,
    ;
    assert((a * s1) * q == a * (q * s1)) by (nonlinear_arith);
    assert((b * t1) * q == b * (q * t1)) by (nonlinear_arith);
    assert(a * (s0 - q * s1) == a * s0 - a * (q * s1)) by (nonlinear_arith);
    assert(b * (t0 - q * t1) == b * t0 - b * (q * t1)) by (nonlinear_arith);
}

} // verus!
