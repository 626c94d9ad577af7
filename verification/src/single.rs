//! Single-precision arithmetic on integers.
//!
//! Every similarity score of the stitcher is a number of the binary32 format: a
//! significand of at most twenty-four bits, rounded to nearest with ties going to the
//! even significand. The finite numbers of that format are all whole multiples of
//! two to the power of minus 149. A [`Single`] is therefore modelled by one integer,
//! the number of such units it is worth, and each operation is the exact
//! result over the integers followed by one rounding.

use vstd::arithmetic::div_mod::{
    lemma_fundamental_div_mod, lemma_fundamental_div_mod_converse, lemma_mod_bound,
};
use vstd::arithmetic::power2::{
    lemma2_to64, lemma_pow2_adds, lemma_pow2_pos, lemma_pow2_strictly_increases,
    lemma_pow2_unfold, pow2,
};
use vstd::prelude::*;

verus! {

/// The number of significands that fit into twenty-four bits.
pub const SIGNIFICANDS: u32 = 0x100_0000;

/// The smallest significand of a normal number.
pub const LEADING: u32 = 0x80_0000;

/// The exponent field of an infinity, counted in units.
pub const TOP: u32 = 254;

/// How many units one is worth, as a power of two.
pub const ONE_EXPONENT: u32 = 149;

/// The distance between neighbouring numbers around a magnitude whose whole part is `q`.
pub open spec fn quantum(q: nat) -> nat
    decreases q,
{
    if q < SIGNIFICANDS {
        1
    } else {
        2 * quantum(q / 2)
    }
}

/// The integer nearest to `n / d`, the even one of two that are equally near.
pub open spec fn half_even(n: nat, d: nat) -> nat {
    let q = n / d;
    let r = n % d;
    if 2 * r < d {
        q
    } else if 2 * r > d {
        q + 1
    } else {
        q + q % 2
    }
}

/// The magnitude nearest to `n / d` units, before the upper end of the range is observed.
pub open spec fn round_ratio(n: nat, d: nat) -> nat {
    let u = quantum(n / d);
    half_even(n, d * u) * u
}

/// The units of an infinity.
pub open spec fn limit() -> nat {
    pow2(277)
}

/// The units that one is worth.
pub open spec fn one() -> nat {
    pow2(149)
}

/// The magnitude nearest to `n / d` units; what is too large becomes an infinity.
pub open spec fn round_magnitude(n: nat, d: nat) -> nat {
    if round_ratio(n, d) < limit() {
        round_ratio(n, d)
    } else {
        limit()
    }
}

/// The absolute value of an integer.
pub open spec fn magnitude(n: int) -> nat {
    if n < 0 {
        (-n) as nat
    } else {
        n as nat
    }
}

/// The number nearest to `n / d` units.
pub open spec fn rounded(n: int, d: nat) -> int {
    if n < 0 {
        -round_magnitude(magnitude(n), d)
    } else {
        round_magnitude(magnitude(n), d) as int
    }
}

/// The integer nearest to a number of `n` units, ties going away from zero.
pub open spec fn nearest_integer(n: int) -> int {
    let whole = (2 * magnitude(n) + one()) / (2 * one());
    if n < 0 {
        -whole
    } else {
        whole as int
    }
}

/// Whether `n` units are an infinity.
pub open spec fn infinite(n: int) -> bool {
    n >= limit() || n <= -limit()
}

/// The sum of two numbers of `a` and `b` units.
pub open spec fn sum(a: int, b: int) -> int {
    if infinite(a) {
        a
    } else if infinite(b) {
        b
    } else {
        rounded(a + b, 1)
    }
}

/// The product of two finite numbers of `a` and `b` units.
pub open spec fn product(a: int, b: int) -> int {
    rounded(a * b, one())
}

/// The quotient of a number of `a` units and a finite positive number of `b` units.
pub open spec fn quotient(a: int, b: int) -> int {
    if infinite(a) {
        a
    } else {
        rounded(a * one(), b as nat)
    }
}

/// The value of `n` confined to `low` and `high`.
pub open spec fn confined(n: int, low: int, high: int) -> int {
    if n < low {
        low
    } else if n > high {
        high
    } else {
        n
    }
}

/// A binary32 number that is not a NaN. There is one zero.
#[derive(Clone, Copy, Debug)]
pub struct Single {
    negative: bool,
    significand: u32,
    exponent: u32,
}

// ---------------------------------------------------------------------------------
// Powers of two and rounding
// ---------------------------------------------------------------------------------

proof fn lemma_scaled_division(n: nat, d: nat, c: nat)
    requires
        d > 0,
        c > 0,
    ensures
        (n * c) / (d * c) == n / d,
        (n * c) % (d * c) == (n % d) * c,
        d * c > 0,
{
    let q: int = (n / d) as int;
    let r: int = (n % d) as int;
    lemma_fundamental_div_mod(n as int, d as int);
    lemma_mod_bound(n as int, d as int);
    assert(n * c == q * (d * c) + r * c) by (nonlinear_arith)
        requires
            n == d * q + r,
    ;
    assert(0 <= r * c < d * c) by (nonlinear_arith)
        requires
            0 <= r < d,
            c > 0,
    ;
    lemma_fundamental_div_mod_converse((n * c) as int, (d * c) as int, q, r * c);
}

proof fn lemma_half_even_scaled(n: nat, d: nat, c: nat)
    requires
        d > 0,
        c > 0,
    ensures
        half_even(n * c, d * c) == half_even(n, d),
{
    lemma_scaled_division(n, d, c);
    let r = n % d;
    assert((2 * r < d) == (2 * (r * c) < d * c)) by (nonlinear_arith)
        requires
            c > 0,
    ;
    assert((2 * r > d) == (2 * (r * c) > d * c)) by (nonlinear_arith)
        requires
            c > 0,
    ;
}

proof fn lemma_quantum_positive(q: nat)
    ensures
        quantum(q) > 0,
    decreases q,
{
    if q >= SIGNIFICANDS {
        lemma_quantum_positive(q / 2);
    }
}

/// Doubling a magnitude of full precision doubles what it is rounded to.
proof fn lemma_round_doubled(n: nat, d: nat)
    requires
        d > 0,
        n / d >= LEADING,
    ensures
        round_ratio(2 * n, d) == 2 * round_ratio(n, d),
        (2 * n) / d >= LEADING,
{
    let q = n / d;
    let u = quantum(q);
    lemma_quantum_positive(q);
    lemma_fundamental_div_mod(n as int, d as int);
    lemma_mod_bound(n as int, d as int);
    let r: int = (n % d) as int;
    if 2 * r < d {
        assert(2 * n == (2 * q) * d + 2 * r) by (nonlinear_arith)
            requires
                n == d * q + r,
        ;
        lemma_fundamental_div_mod_converse((2 * n) as int, d as int, (2 * q) as int, 2 * r);
    } else {
        assert(2 * n == (2 * q + 1) * d + (2 * r - d)) by (nonlinear_arith)
            requires
                n == d * q + r,
        ;
        lemma_fundamental_div_mod_converse(
            (2 * n) as int,
            d as int,
            (2 * q + 1) as int,
            2 * r - d,
        );
    }
    let q2 = (2 * n) / d;
    assert(q2 == 2 * q || q2 == 2 * q + 1);
    assert(q2 / 2 == q);
    assert(quantum(q2) == 2 * u);
    assert(d * u > 0) by (nonlinear_arith)
        requires
            d > 0,
            u > 0,
    ;
    lemma_half_even_scaled(n, d * u, 2);
    assert((d * u) * 2 == d * (2 * u)) by (nonlinear_arith);
    assert(n * 2 == 2 * n);
    let h = half_even(n, d * u);
    assert(h * (2 * u) == 2 * (h * u)) by (nonlinear_arith);
}

/// Scaling a magnitude of full precision by a power of two scales what it is rounded to.
proof fn lemma_round_scaled(n: nat, d: nat, s: nat)
    requires
        d > 0,
        s == 0 || n / d >= LEADING,
    ensures
        round_ratio(n * pow2(s), d) == round_ratio(n, d) * pow2(s),
    decreases s,
{
    lemma2_to64();
    if s == 0 {
        assert(n * pow2(0) == n) by (nonlinear_arith)
            requires
                pow2(0) == 1,
        ;
        assert(round_ratio(n, d) * pow2(0) == round_ratio(n, d)) by (nonlinear_arith)
            requires
                pow2(0) == 1,
        ;
    } else {
        let t = (s - 1) as nat;
        lemma_pow2_unfold(s);
        lemma_round_doubled(n, d);
        lemma_round_scaled(2 * n, d, t);
        let p = pow2(t);
        assert(n * (2 * p) == (2 * n) * p) by (nonlinear_arith);
        let r = round_ratio(n, d);
        assert((2 * r) * p == r * (2 * p)) by (nonlinear_arith);
    }
}

/// The quantum is the least power of two that brings the whole part below the bound.
proof fn lemma_quantum_is(q: nat, k: nat)
    requires
        q / pow2(k) < SIGNIFICANDS,
        k == 0 || q / pow2((k - 1) as nat) >= SIGNIFICANDS,
    ensures
        quantum(q) == pow2(k),
    decreases k,
{
    lemma2_to64();
    if k == 0 {
        assert(q / 1 == q);
    } else {
        let t = (k - 1) as nat;
        lemma_pow2_pos(t);
        lemma_pow2_unfold(k);
        lemma_halved(q, t);
        if k > 1 {
            let v = (k - 2) as nat;
            lemma_pow2_unfold(t);
            lemma_pow2_pos(v);
            lemma_halved(q, v);
        } else {
            assert(q / 1 == q);
        }
        vstd::arithmetic::div_mod::lemma_div_nonincreasing(q as int, pow2(t) as int);
        lemma_quantum_is(q / 2, t);
    }
}

proof fn lemma_halved(q: nat, t: nat)
    ensures
        (q / 2) / pow2(t) == q / (2 * pow2(t)),
        q / (2 * pow2(t)) == (q / pow2(t)) / 2,
{
    lemma_pow2_pos(t);
    vstd::arithmetic::div_mod::lemma_div_denominator(q as int, 2, pow2(t) as int);
    vstd::arithmetic::div_mod::lemma_div_denominator(q as int, pow2(t) as int, 2);
    assert(pow2(t) * 2 == 2 * pow2(t)) by (nonlinear_arith);
}

proof fn lemma_quantum_power(q: nat) -> (k: nat)
    ensures
        quantum(q) == pow2(k),
        k > 0 ==> q >= LEADING * pow2(k),
        q < SIGNIFICANDS * pow2(k),
    decreases q,
{
    lemma2_to64();
    if q < SIGNIFICANDS {
        0
    } else {
        let t = lemma_quantum_power(q / 2);
        lemma_pow2_unfold(t + 1);
        if t == 0 {
            assert(q >= 0x80_0000 * 2);
        }
        t + 1
    }
}

/// A ratio that is at most a number of the format is rounded to at most that number.
pub proof fn lemma_rounded_at_most(n: nat, d: nat, m: nat, e: nat)
    requires
        d > 0,
        m < SIGNIFICANDS,
        n <= (m * pow2(e)) * d,
    ensures
        round_magnitude(n, d) <= m * pow2(e),
{
    let b = m * pow2(e);
    let q = n / d;
    lemma_fundamental_div_mod(n as int, d as int);
    lemma_mod_bound(n as int, d as int);
    assert(q <= b) by (nonlinear_arith)
        requires
            n == d * q + n % d,
            n % d >= 0,
            n <= b * d,
            d > 0,
    ;
    let k = lemma_quantum_power(q);
    let u = pow2(k);
    lemma_pow2_pos(k);
    lemma_pow2_pos(e);
    if k > e {
        lemma_pow2_unfold(k);
        if k - 1 > e {
            lemma_pow2_strictly_increases(e, (k - 1) as nat);
        }
        assert(false) by (nonlinear_arith)
            requires
                q >= 0x80_0000 * u,
                u >= 2 * pow2(e),
                q <= m * pow2(e),
                m < 0x100_0000,
                pow2(e) > 0,
        ;
    }
    lemma_pow2_adds(k, (e - k) as nat);
    let c = m * pow2((e - k) as nat);
    assert(b == c * u) by (nonlinear_arith)
        requires
            b == m * (u * pow2((e - k) as nat)),
            c == m * pow2((e - k) as nat),
    ;
    let du = d * u;
    assert(du > 0 && n <= c * du) by (nonlinear_arith)
        requires
            du == d * u,
            d > 0,
            u > 0,
            n <= b * d,
            b == c * u,
    ;
    lemma_fundamental_div_mod(n as int, du as int);
    lemma_mod_bound(n as int, du as int);
    assert(n / du <= c && (n / du == c ==> n % du == 0)) by (nonlinear_arith)
        requires
            n == du * (n / du) + n % du,
            n % du >= 0,
            n <= c * du,
            du > 0,
    ;
    let h = half_even(n, du);
    assert(h <= c);
    assert(h * u <= c * u) by (nonlinear_arith)
        requires
            h <= c,
            u > 0,
    ;
}

/// An integer below the number of significands is represented exactly.
pub proof fn lemma_whole_exact(n: nat)
    requires
        n < SIGNIFICANDS,
    ensures
        rounded((n * one()) as int, 1) == n * one(),
        0 <= n * one() < limit(),
{
    lemma2_to64();
    lemma_pow2_pos(149);
    if n == 0 {
        lemma_round_zero(1);
        lemma_pow2_pos(277);
    } else {
        lemma_exponent_dominates(n, 149, 254);
        lemma_limit();
        lemma_rounded_at_most(n * one(), 1, n, 149);
        lemma_round_whole(n, 149);
        assert(n * one() > 0) by (nonlinear_arith)
            requires
                n > 0,
                one() > 0,
        ;
    }
}

/// Every number of the format is its own rounding, also when its significand is short.
proof fn lemma_round_whole(m: nat, e: nat)
    requires
        m < SIGNIFICANDS,
    ensures
        round_ratio(m * pow2(e), 1) == m * pow2(e),
    decreases e,
{
    if e == 0 || m >= LEADING {
        lemma_round_exact(m, e);
    } else {
        lemma_pow2_unfold(e);
        lemma_round_whole(2 * m, (e - 1) as nat);
        let p = pow2((e - 1) as nat);
        assert((2 * m) * p == m * (2 * p)) by (nonlinear_arith);
    }
}

/// A whole number from 1 up to 2^64 is rounded to a number between the same bounds.
pub proof fn lemma_whole_bounds(n: nat)
    requires
        0 < n <= 0xffff_ffff_ffff_ffff,
    ensures
        one() <= rounded((n * one()) as int, 1) <= pow2(213),
{
    lemma_whole_positive(n);
    lemma2_to64();
    lemma_pow2_pos(149);
    lemma_pow2_adds(64, 149);
    let v: nat = n * one();
    let p: nat = pow2(64);
    let unit: nat = one();
    assert(v <= p * unit && v >= unit) by (nonlinear_arith)
        requires
            v == n * unit,
            1 <= n <= p,
    ;
    assert(1 * pow2(213) == pow2(213));
    lemma_rounded_at_most(v, 1, 1, 213);
    let k = lemma_quantum_power(v / 1);
    assert(v / 1 == v);
    let u = pow2(k);
    lemma_pow2_pos(k);
    if k <= 149 {
        lemma_pow2_adds(k, (149 - k) as nat);
        let c: nat = pow2((149 - k) as nat);
        assert(c * u == u * c) by (nonlinear_arith);
        assert(v / u >= c) by (nonlinear_arith)
            requires
                v >= c * u,
                u > 0,
        ;
        let h = half_even(v, 1 * u);
        assert(1 * u == u);
        assert(h >= c);
        assert(h * u >= c * u) by (nonlinear_arith)
            requires
                h >= c,
        ;
    } else {
        let h = half_even(v, 1 * u);
        assert(1 * u == u);
        assert(v / u >= 1) by (nonlinear_arith)
            requires
                v >= u,
                u > 0,
        ;
        assert(h * u >= u) by (nonlinear_arith)
            requires
                h >= 1,
        ;
        lemma_pow2_adds(149, (k - 149) as nat);
        lemma_pow2_pos((k - 149) as nat);
        assert(u >= unit) by (nonlinear_arith)
            requires
                u == unit * pow2((k - 149) as nat),
                pow2((k - 149) as nat) >= 1,
        ;
    }
}

/// Whether a number lies within a power of two units from zero.
pub open spec fn within(n: int, e: nat) -> bool {
    magnitude(n) <= pow2(e)
}

/// A sum lies within twice the bound of its summands.
pub proof fn lemma_sum_within(a: int, b: int, e: nat)
    requires
        e < 253,
        within(a, e),
        within(b, e),
    ensures
        within(sum(a, b), (e + 1) as nat),
        pow2(e) < limit(),
        pow2(e + 1) < limit(),
{
    lemma_pow2_unfold(e + 1);
    lemma_pow2_pos(e);
    assert(1 * pow2(e) == pow2(e));
    assert(1 * pow2(e + 1) == pow2(e + 1));
    lemma_bound_finite(1, e);
    lemma_bound_finite(1, e + 1);
    let n = magnitude(a + b);
    assert(n <= (1 * pow2(e + 1)) * 1);
    lemma_rounded_at_most(n, 1, 1, e + 1);
}

/// A number within a bound lies within every larger one.
pub proof fn lemma_within_more(n: int, e: nat, f: nat)
    requires
        within(n, e),
        e <= f,
    ensures
        within(n, f),
{
    if e < f {
        vstd::arithmetic::power2::lemma_pow2_strictly_increases(e, f);
    }
}

/// A whole number below 2^32 lies within 2^32.
pub proof fn lemma_whole_within(n: nat)
    requires
        n <= 0xffff_ffff,
    ensures
        within(rounded((n * one()) as int, 1), 181),
        rounded((n * one()) as int, 1) >= 0,
{
    lemma2_to64();
    lemma_pow2_pos(149);
    lemma_pow2_adds(32, 149);
    let v: nat = n * one();
    let p: nat = pow2(32);
    let unit: nat = one();
    assert(0 <= v <= p * unit) by (nonlinear_arith)
        requires
            v == n * unit,
            0 <= n <= p,
    ;
    assert(1 * pow2(181) == pow2(181));
    lemma_rounded_at_most(v, 1, 1, 181);
}

/// A small whole number of ones, divided by one, is that number of units.
pub proof fn lemma_scaled_exact(n: nat)
    requires
        n < SIGNIFICANDS,
    ensures
        rounded(((n * one()) * one()) as int, one()) == n * one(),
{
    lemma_pow2_pos(149);
    lemma_whole_exact(n);
    let v: nat = n * one();
    let unit: nat = one();
    assert(v * unit == (v * unit));
    lemma_scaled_division(v, 1, unit);
    assert(1 * unit == unit);
    let u = quantum(v);
    lemma_quantum_positive(v);
    assert(v / 1 == v);
    assert(1 * u == u);
    lemma_half_even_scaled(v, u, unit);
    assert(u * unit == unit * u) by (nonlinear_arith);
    assert(v * unit >= 0) by (nonlinear_arith);
}

/// A number below 2^64 divided by a whole number is finite.
pub proof fn lemma_part_finite(n: nat, d: nat)
    requires
        n <= 0xffff_ffff_ffff_ffff,
        0 < d,
    ensures
        0 <= rounded((n * one()) as int, d) < limit(),
{
    lemma2_to64();
    lemma_pow2_pos(149);
    lemma_pow2_adds(64, 149);
    let v: nat = n * one();
    let p: nat = pow2(64);
    let unit: nat = one();
    let top: nat = pow2(213);
    assert(0 <= v <= (1 * top) * d) by (nonlinear_arith)
        requires
            v == n * unit,
            0 <= n <= p,
            top == p * unit,
            1 <= d,
    ;
    lemma_rounded_at_most(v, d, 1, 213);
    lemma_bound_finite(1, 213);
}

/// A part of at least one in 2^64 is positive.
pub proof fn lemma_part_positive(n: nat, d: nat)
    requires
        0 < n <= 0xffff_ffff,
        0 < d <= 0xffff_ffff,
    ensures
        0 < rounded((n * one()) as int, d),
{
    lemma2_to64();
    lemma_pow2_pos(149);
    lemma_pow2_adds(32, 117);
    lemma_pow2_pos(117);
    let v: nat = n * one();
    let unit: nat = one();
    let part: nat = pow2(117);
    let q = v / d;
    assert(part <= q) by (nonlinear_arith)
        requires
            q == v / d,
            v == n * unit,
            unit == 0x1_0000_0000 * part,
            1 <= n,
            0 < d <= 0x1_0000_0000,
    ;
    let k = lemma_quantum_power(q);
    let u = pow2(k);
    lemma_pow2_pos(k);
    assert(q >= u);
    assert(v / (d * u) >= 1) by (nonlinear_arith)
        requires
            v / d >= u,
            d > 0,
            u > 0,
    ;
    let h = half_even(v, d * u);
    assert(h >= 1);
    assert(h * u > 0) by (nonlinear_arith)
        requires
            h >= 1,
            u > 0,
    ;
    lemma_pow2_pos(277);
}

/// Nothing divided by anything is nothing.
pub proof fn lemma_zero_rounded(d: nat)
    requires
        d > 0,
    ensures
        rounded(0, d) == 0,
{
    lemma_pow2_pos(277);
    assert(0nat / d == 0) by (nonlinear_arith)
        requires
            d > 0,
    ;
    assert(d * 1 == d);
    assert(0nat % d == 0) by (nonlinear_arith)
        requires
            d > 0,
    ;
    assert(quantum(0) == 1);
    assert(half_even(0, d * 1) == 0);
    assert(round_ratio(0, d) == 0);
}

/// The sum of numbers that are not negative is not negative.
pub proof fn lemma_sum_not_negative(a: int, b: int)
    requires
        0 <= a,
        0 <= b,
    ensures
        0 <= sum(a, b),
{
}

/// A number that is not negative has quotients that are not negative.
pub proof fn lemma_quotient_not_negative(a: int, b: int)
    requires
        0 <= a,
    ensures
        0 <= quotient(a, b),
{
    assert(a * one() >= 0) by (nonlinear_arith)
        requires
            a >= 0,
    ;
}

/// A positive whole number is rounded to a positive number, and one below 2^64 to a finite
/// one.
pub proof fn lemma_whole_positive(n: nat)
    requires
        0 < n <= 0xffff_ffff_ffff_ffff,
    ensures
        0 < rounded((n * one()) as int, 1) < limit(),
{
    lemma2_to64();
    lemma_pow2_pos(149);
    let v: nat = n * one();
    assert(v > 0) by (nonlinear_arith)
        requires
            n > 0,
            one() > 0,
            v == n * one(),
    ;
    let k = lemma_quantum_power(v / 1);
    let u = pow2(k);
    lemma_pow2_pos(k);
    assert(v / 1 == v);
    assert(v / u >= 1) by (nonlinear_arith)
        requires
            v >= u,
            u > 0,
    ;
    let h = half_even(v, 1 * u);
    assert(1 * u == u);
    assert(h >= 1);
    assert(h * u > 0) by (nonlinear_arith)
        requires
            h >= 1,
            u > 0,
    ;
    lemma_pow2_adds(64, 149);
    lemma_pow2_pos(277);
    assert(pow2(64) == 0x1_0000_0000_0000_0000);
    assert(v <= (1 * pow2(213)) * 1) by (nonlinear_arith)
        requires
            v == n * one(),
            n <= pow2(64),
            pow2(64) * one() == pow2(213),
            one() > 0,
    ;
    lemma_rounded_at_most(v, 1, 1, 213);
    lemma_bound_finite(1, 213);
}

/// A number with a short significand and a moderate exponent is finite.
pub proof fn lemma_bound_finite(m: nat, e: nat)
    requires
        m < SIGNIFICANDS,
        e < 254,
    ensures
        0 <= m * pow2(e) < limit(),
{
    lemma_exponent_dominates(m, e, 254);
    lemma_limit();
}

/// Half of one, in units.
pub open spec fn half() -> nat {
    pow2(148)
}

/// A number of halves below the number of significands is represented exactly.
pub proof fn lemma_halves_exact(n: int)
    requires
        -SIGNIFICANDS < n < SIGNIFICANDS,
    ensures
        one() == 2 * half(),
        half() > 0,
        rounded(n * half(), 1) == n * half(),
        !infinite(n * half()),
{
    lemma_pow2_unfold(149);
    lemma_pow2_pos(148);
    let m = magnitude(n);
    lemma_bound_finite(m, 148);
    lemma_round_whole(m, 148);
    let h = half() as int;
    assert(n < 0 ==> n * h < 0 && (-n) * h == -(n * h)) by (nonlinear_arith)
        requires
            h > 0,
    ;
    assert(n >= 0 ==> n * h >= 0) by (nonlinear_arith)
        requires
            h > 0,
    ;
}

/// The sum of two numbers of halves is exact.
pub proof fn lemma_halves_sum(a: int, b: int)
    requires
        -SIGNIFICANDS < a < SIGNIFICANDS,
        -SIGNIFICANDS < b < SIGNIFICANDS,
        -SIGNIFICANDS < a + b < SIGNIFICANDS,
    ensures
        sum(a * half(), b * half()) == (a + b) * half(),
{
    lemma_halves_exact(a);
    lemma_halves_exact(b);
    lemma_halves_exact(a + b);
    let h = half() as int;
    assert(a * h + b * h == (a + b) * h) by (nonlinear_arith);
}

/// Three halves are represented exactly.
pub proof fn lemma_three_halves()
    ensures
        rounded((3 * one()) as int, 2) == 3 * half(),
{
    lemma_halves_exact(3);
    let v: nat = 3 * half();
    assert(3 * one() == v * 2);
    lemma_scaled_division(v, 1, 2);
    let u = quantum(v);
    lemma_quantum_positive(v);
    assert(v / 1 == v);
    assert(1 * u == u);
    lemma_half_even_scaled(v, u, 2);
    assert(u * 2 == 2 * u);
}

/// The integer nearest to a number of halves.
pub proof fn lemma_halves_nearest(n: int)
    ensures
        nearest_integer(n * half()) == if n < 0 {
            -((-n + 1) / 2)
        } else {
            (n + 1) / 2
        },
{
    lemma_pow2_unfold(149);
    lemma_pow2_pos(148);
    let h = half();
    let m = magnitude(n);
    assert(magnitude(n * h) == m * h) by (nonlinear_arith)
        requires
            h > 0,
            m == magnitude(n),
            n * h < 0 ==> magnitude(n * h) == -(n * h),
            n * h >= 0 ==> magnitude(n * h) == n * h,
            n < 0 ==> m == -n,
            n >= 0 ==> m == n,
    ;
    assert(n * h < 0 <==> n < 0) by (nonlinear_arith)
        requires
            h > 0,
    ;
    assert(2 * (m * h) + 2 * h == (m + 1) * (2 * h)) by (nonlinear_arith);
    assert(2 * (2 * h) == 2 * (2 * h));
    lemma_scaled_division(m + 1, 2, 2 * h);
}

/// A sum of numbers that are not negative stays below a bound on the exact sum.
pub proof fn lemma_sum_bounded(a: int, b: int, m: nat, e: nat)
    requires
        m < SIGNIFICANDS,
        e < 254,
        0 <= a,
        0 <= b,
        a + b <= m * pow2(e),
    ensures
        0 <= sum(a, b) <= m * pow2(e) < limit(),
{
    lemma_bound_finite(m, e);
    assert((m * pow2(e)) * 1 == m * pow2(e));
    lemma_rounded_at_most((a + b) as nat, 1, m, e);
}

/// The distance of two numbers below a bound stays below it.
pub proof fn lemma_distance_bounded(a: int, b: int, m: nat, e: nat)
    requires
        m < SIGNIFICANDS,
        e < 254,
        0 <= a <= m * pow2(e),
        0 <= b <= m * pow2(e),
    ensures
        0 <= magnitude(sum(a, -b)) <= m * pow2(e) < limit(),
        a >= b ==> sum(a, -b) >= 0,
{
    lemma_bound_finite(m, e);
    assert((m * pow2(e)) * 1 == m * pow2(e));
    lemma_rounded_at_most(magnitude(a - b), 1, m, e);
}

/// A product stays below a bound on the exact product.
pub proof fn lemma_product_bounded(a: int, b: int, m: nat, e: nat)
    requires
        m < SIGNIFICANDS,
        e < 254,
        0 <= a,
        0 <= b,
        a * b <= (m * pow2(e)) * one(),
    ensures
        0 <= product(a, b) <= m * pow2(e) < limit(),
{
    lemma_bound_finite(m, e);
    lemma_pow2_pos(149);
    assert(a * b >= 0) by (nonlinear_arith)
        requires
            a >= 0,
            b >= 0,
    ;
    lemma_rounded_at_most((a * b) as nat, one(), m, e);
}

/// A quotient stays below a bound on the exact quotient.
pub proof fn lemma_quotient_bounded(a: int, b: int, m: nat, e: nat)
    requires
        m < SIGNIFICANDS,
        e < 254,
        0 <= a < limit(),
        0 < b,
        a * one() <= (m * pow2(e)) * b,
    ensures
        0 <= quotient(a, b) <= m * pow2(e) < limit(),
{
    lemma_bound_finite(m, e);
    lemma_pow2_pos(149);
    assert(a * one() >= 0) by (nonlinear_arith)
        requires
            a >= 0,
            one() > 0,
    ;
    lemma_rounded_at_most((a * one()) as nat, b as nat, m, e);
}

/// A significand and an exponent whose number is `n * 2^s / d`, rounded.
proof fn lemma_round_parts(n: nat, d: nat, s: nat, k: nat)
    requires
        d > 0,
        s == 0 || n / d >= LEADING,
        (n / d) / pow2(k) < SIGNIFICANDS,
        k == 0 || (n / d) / pow2((k - 1) as nat) >= SIGNIFICANDS,
    ensures
        round_ratio(n * pow2(s), d) == half_even(n, d * pow2(k)) * pow2(k + s),
        half_even(n, d * pow2(k)) <= SIGNIFICANDS,
        (k > 0 || s > 0) ==> half_even(n, d * pow2(k)) >= LEADING,
{
    let q = n / d;
    let p = pow2(k);
    lemma_pow2_pos(k);
    lemma_quantum_is(q, k);
    lemma_round_scaled(n, d, s);
    lemma_pow2_adds(k, s);
    let m = half_even(n, d * p);
    assert((m * p) * pow2(s) == m * (p * pow2(s))) by (nonlinear_arith);
    vstd::arithmetic::div_mod::lemma_div_denominator(n as int, d as int, p as int);
    assert(n / (d * p) == q / p);
    if k > 0 {
        lemma_halved(q, (k - 1) as nat);
        lemma_pow2_unfold(k);
    } else {
        lemma2_to64();
        assert(q / 1 == q);
    }
}

/// A larger exponent outweighs every significand.
proof fn lemma_exponent_dominates(m: nat, e: nat, f: nat)
    requires
        m < SIGNIFICANDS,
        e < f,
    ensures
        m * pow2(e) < LEADING * pow2(f),
{
    lemma_pow2_unfold((e + 1) as nat);
    if e + 1 < f {
        lemma_pow2_strictly_increases((e + 1) as nat, f);
    }
    lemma_pow2_pos(e);
    assert(m * pow2(e) < LEADING * pow2(f)) by (nonlinear_arith)
        requires
            m < 0x100_0000,
            LEADING == 0x80_0000,
            2 * pow2(e) <= pow2(f),
            pow2(e) > 0,
    ;
}

proof fn lemma_shift_bounded(d: nat, k: nat)
    requires
        d > 0,
        d * pow2(k) < 0x100_0000_0000_0000_0000_0000_0000_0000,
    ensures
        k < 120,
{
    lemma2_to64();
    lemma_pow2_adds(60, 60);
    if k > 120 {
        lemma_pow2_strictly_increases(120, k);
    }
    assert(d * pow2(k) >= pow2(k)) by (nonlinear_arith)
        requires
            d > 0,
    ;
    vstd::arithmetic::power2::lemma2_to64_rest();
    assert(pow2(120) == 0x100_0000_0000_0000_0000_0000_0000_0000);
}

proof fn lemma_limit()
    ensures
        limit() == LEADING * pow2(254),
{
    lemma2_to64();
    lemma_pow2_adds(23, 254);
}

impl Single {
    #[verifier::type_invariant]
    spec fn canonical(self) -> bool {
        &&& self.significand < SIGNIFICANDS
        &&& self.exponent <= TOP
        &&& self.exponent > 0 ==> self.significand >= LEADING
        &&& self.exponent == TOP ==> self.significand == LEADING
        &&& self.significand == 0 ==> !self.negative
    }

    /// The absolute value in units.
    pub closed spec fn size(self) -> nat {
        self.significand as nat * pow2(self.exponent as nat)
    }

    /// The value in units.
    pub closed spec fn units(self) -> int {
        if self.negative {
            -(self.size() as int)
        } else {
            self.size() as int
        }
    }

    /// Whether the number is not an infinity.
    pub open spec fn is_finite(self) -> bool {
        -limit() < self.units() < limit()
    }

    proof fn lemma_size(self)
        requires
            self.canonical(),
        ensures
            self.size() <= limit(),
            self.exponent < TOP ==> self.size() < limit(),
            self.exponent == TOP ==> self.size() == limit(),
            (self.size() == 0) == (self.significand == 0),
            self.significand == 0 ==> self.exponent == 0,
            magnitude(self.units()) == self.size(),
            self.is_finite() == (self.exponent < TOP),
    {
        lemma_limit();
        lemma_pow2_pos(self.exponent as nat);
        if self.exponent < TOP {
            lemma_exponent_dominates(self.significand as nat, self.exponent as nat, 254);
        }
        let p = pow2(self.exponent as nat);
        let m = self.significand as nat;
        assert((m * p == 0) == (m == 0)) by (nonlinear_arith)
            requires
                p > 0,
        ;
    }

    /// The number of the given sign whose magnitude is `n * 2^s / d`, rounded.
    fn compose(negative: bool, n: u128, d: u128, s: u32) -> (result: Single)
        requires
            d > 0,
            n < 0x100_0000_0000_0000_0000_0000_0000_0000,
            s <= 1000,
            s == 0 || n as nat / d as nat >= LEADING,
        ensures
            result.size() == round_magnitude(n as nat * pow2(s as nat), d as nat),
            result.units() == if negative { -(result.size() as int) } else {
                result.size() as int
            },
    {
        let quotient: u128 = n / d;
        let mut reduced: u128 = quotient;
        let mut divisor: u128 = d;
        let mut k: u32 = 0;
        proof {
            lemma2_to64();
            assert(quotient / 1 == quotient);
            assert(d * 1 == d);
        }
        while reduced >= SIGNIFICANDS as u128
            invariant
                d > 0,
                n < 0x100_0000_0000_0000_0000_0000_0000_0000,
                quotient == n / d,
                reduced as nat == quotient as nat / pow2(k as nat),
                divisor as nat == d as nat * pow2(k as nat),
                reduced as nat == n as nat / divisor as nat,
                divisor > 0,
                k == 0 || quotient as nat / pow2((k - 1) as nat) >= SIGNIFICANDS,
                k <= 120,
            decreases reduced,
        {
            proof {
                lemma_pow2_unfold((k + 1) as nat);
                lemma_halved(quotient as nat, k as nat);
                lemma_fundamental_div_mod(n as int, divisor as int);
                assert(2 * divisor <= n) by (nonlinear_arith)
                    requires
                        n == divisor * reduced + (n as int % divisor as int),
                        n as int % divisor as int >= 0,
                        reduced >= 2,
                        divisor > 0,
                ;
                assert(d as nat * (2 * pow2(k as nat)) == 2 * (d as nat * pow2(k as nat)))
                    by (nonlinear_arith);
                vstd::arithmetic::div_mod::lemma_div_denominator(
                    n as int,
                    divisor as int,
                    2,
                );
                lemma_shift_bounded(d as nat, (k + 1) as nat);
            }
            reduced = reduced / 2;
            divisor = divisor * 2;
            k = k + 1;
        }
        let rest: u128 = n % divisor;
        proof {
            vstd::arithmetic::div_mod::lemma_mod_decreases(n as nat, divisor as nat);
        }
        let up: bool = 2 * rest > divisor || (2 * rest == divisor && reduced % 2 == 1);
        let m: u32 = reduced as u32 + if up { 1 } else { 0 };
        proof {
            lemma_round_parts(n as nat, d as nat, s as nat, k as nat);
            assert(m == half_even(n as nat, d as nat * pow2(k as nat)));
            lemma_limit();
            lemma_pow2_unfold((k + s + 1) as nat);
            assert(0x100_0000 * pow2((k + s) as nat) == 0x80_0000 * pow2((k + s + 1) as nat));
        }
        let (significand, exponent): (u32, u32) = if m == SIGNIFICANDS {
            (LEADING, k + s + 1)
        } else {
            (m, k + s)
        };
        assert(significand as nat * pow2(exponent as nat) == round_ratio(
            n as nat * pow2(s as nat),
            d as nat,
        ));
        if exponent >= TOP {
            proof {
                if exponent > TOP {
                    lemma_pow2_strictly_increases(254, exponent as nat);
                }
                assert(significand as nat * pow2(exponent as nat) >= LEADING * pow2(254))
                    by (nonlinear_arith)
                    requires
                        significand >= LEADING,
                        pow2(exponent as nat) >= pow2(254),
                ;
            }
            Single { negative, significand: LEADING, exponent: TOP }
        } else {
            let result = Single {
                negative: negative && significand != 0,
                significand,
                exponent,
            };
            proof {
                result.lemma_size();
            }
            result
        }
    }

    /// The number zero.
    pub fn zero() -> (result: Single)
        ensures
            result.units() == 0,
    {
        let result = Single { negative: false, significand: 0, exponent: 0 };
        proof {
            result.lemma_size();
        }
        result
    }

    /// The positive infinity.
    pub fn infinity() -> (result: Single)
        ensures
            result.units() == limit(),
    {
        proof {
            lemma_limit();
        }
        Single { negative: false, significand: LEADING, exponent: TOP }
    }

    /// The number nearest to `n / d`.
    pub fn ratio(n: u64, d: u32) -> (result: Single)
        requires
            d > 0,
        ensures
            result.units() == rounded(n * one(), d as nat),
            result.units() >= 0,
    {
        if n == 0 {
            proof {
                lemma_round_zero(d as nat);
            }
            return Single::zero();
        }
        let scaled: u128 = n as u128 * 0x100_0000_0000_0000;
        proof {
            lemma2_to64();
            vstd::arithmetic::power2::lemma2_to64_rest();
            lemma_pow2_adds(56, 93);
            assert(scaled as nat * pow2(93) == n as nat * one()) by (nonlinear_arith)
                requires
                    scaled == n * pow2(56),
                    one() == pow2(56) * pow2(93),
            ;
            assert(n * one() >= 0) by (nonlinear_arith)
                requires
                    n >= 0,
            ;
            lemma_quotient_at_least(scaled as nat, d as nat, 0x80_0000);
        }
        Single::compose(false, scaled, d as u128, 93)
    }

    /// The number nearest to the integer `n`.
    pub fn whole(n: u64) -> (result: Single)
        ensures
            result.units() == rounded(n * one(), 1),
            result.units() >= 0,
    {
        Single::ratio(n, 1)
    }

    /// The number of the opposite sign.
    pub fn negated(self) -> (result: Single)
        ensures
            result.units() == -self.units(),
    {
        proof {
            use_type_invariant(&self);
            self.lemma_size();
        }
        Single {
            negative: !self.negative && self.significand != 0,
            significand: self.significand,
            exponent: self.exponent,
        }
    }

    /// The absolute value.
    pub fn absolute(self) -> (result: Single)
        ensures
            result.units() == magnitude(self.units()),
    {
        proof {
            use_type_invariant(&self);
            self.lemma_size();
        }
        Single { negative: false, significand: self.significand, exponent: self.exponent }
    }

    /// Whether the number is not an infinity.
    pub fn finite(self) -> (result: bool)
        ensures
            result == self.is_finite(),
    {
        proof {
            use_type_invariant(&self);
            self.lemma_size();
        }
        self.exponent < TOP
    }

    fn size_below(self, other: Single) -> (result: bool)
        ensures
            result == (self.size() < other.size()),
    {
        proof {
            use_type_invariant(&self);
            use_type_invariant(&other);
            if self.exponent < other.exponent {
                lemma_exponent_dominates(
                    self.significand as nat,
                    self.exponent as nat,
                    other.exponent as nat,
                );
                lemma_pow2_pos(other.exponent as nat);
                assert(LEADING * pow2(other.exponent as nat) <= other.size())
                    by (nonlinear_arith)
                    requires
                        other.size() == other.significand * pow2(other.exponent as nat),
                        other.significand >= LEADING,
                ;
            } else if self.exponent > other.exponent {
                lemma_exponent_dominates(
                    other.significand as nat,
                    other.exponent as nat,
                    self.exponent as nat,
                );
                lemma_pow2_pos(self.exponent as nat);
                assert(LEADING * pow2(self.exponent as nat) <= self.size())
                    by (nonlinear_arith)
                    requires
                        self.size() == self.significand * pow2(self.exponent as nat),
                        self.significand >= LEADING,
                ;
            } else {
                let p = pow2(self.exponent as nat);
                lemma_pow2_pos(self.exponent as nat);
                let a = self.significand as nat;
                let b = other.significand as nat;
                assert((a < b) == (a * p < b * p)) by (nonlinear_arith)
                    requires
                        p > 0,
                ;
            }
        }
        self.exponent < other.exponent || (self.exponent == other.exponent && self.significand
            < other.significand)
    }

    /// Whether the number is less than `other`.
    pub fn below(self, other: Single) -> (result: bool)
        ensures
            result == (self.units() < other.units()),
    {
        proof {
            use_type_invariant(&self);
            use_type_invariant(&other);
            self.lemma_size();
            other.lemma_size();
        }
        if self.negative {
            !other.negative || other.size_below(self)
        } else {
            !other.negative && self.size_below(other)
        }
    }

    /// The greater of two numbers.
    pub fn greater(self, other: Single) -> (result: Single)
        ensures
            result.units() == if self.units() < other.units() {
                other.units()
            } else {
                self.units()
            },
    {
        if self.below(other) {
            other
        } else {
            self
        }
    }

    /// The lesser of two numbers.
    pub fn lesser(self, other: Single) -> (result: Single)
        ensures
            result.units() == if other.units() < self.units() {
                other.units()
            } else {
                self.units()
            },
    {
        if other.below(self) {
            other
        } else {
            self
        }
    }
}

proof fn lemma_round_zero(d: nat)
    requires
        d > 0,
    ensures
        round_magnitude(0, d) == 0,
        rounded(0, d) == 0,
        0 * one() == 0,
{
    assert(0nat / d == 0) by (nonlinear_arith)
        requires
            d > 0,
    ;
    assert(quantum(0) == 1);
    assert(d * 1 == d);
    assert(0nat % d == 0) by (nonlinear_arith)
        requires
            d > 0,
    ;
    lemma_pow2_pos(277);
}

proof fn lemma_quotient_at_least(n: nat, d: nat, b: nat)
    requires
        d > 0,
        n >= b * d,
    ensures
        n / d >= b,
{
    lemma_fundamental_div_mod(n as int, d as int);
    lemma_mod_bound(n as int, d as int);
    assert(n / d >= b) by (nonlinear_arith)
        requires
            n == d * (n / d) + n % d,
            n % d < d,
            n >= b * d,
            d > 0,
    ;
}

/// A factor common to both sides of a ratio does not change what it is rounded to.
proof fn lemma_round_cancel(n: nat, d: nat, c: nat)
    requires
        d > 0,
        c > 0,
    ensures
        round_ratio(n * c, d * c) == round_ratio(n, d),
        d * c > 0,
{
    lemma_scaled_division(n, d, c);
    let u = quantum(n / d);
    lemma_quantum_positive(n / d);
    assert((d * c) * u == (d * u) * c) by (nonlinear_arith);
    assert(d * u > 0) by (nonlinear_arith)
        requires
            d > 0,
            u > 0,
    ;
    lemma_half_even_scaled(n, d * u, c);
}

/// A ratio below one half is rounded to zero.
proof fn lemma_round_tiny(n: nat, d: nat)
    requires
        2 * n < d,
    ensures
        round_magnitude(n, d) == 0,
{
    assert(n / d == 0 && n % d == n) by (nonlinear_arith)
        requires
            n < d,
    ;
    assert(quantum(0) == 1);
    assert(d * 1 == d);
    lemma_pow2_pos(277);
}

/// A number with a significand of full precision is already rounded.
proof fn lemma_round_exact(m: nat, e: nat)
    requires
        m < SIGNIFICANDS,
        e == 0 || m >= LEADING,
    ensures
        round_ratio(m * pow2(e), 1) == m * pow2(e),
{
    lemma2_to64();
    assert(m / 1 == m);
    assert(m % 1 == 0);
    assert(quantum(m) == 1);
    assert(round_ratio(m, 1) == m);
    lemma_round_scaled(m, 1, e);
}

/// An addend below a quarter of the last place does not change the sum.
proof fn lemma_round_far(m: nat, small: nat, d: nat, e: nat)
    requires
        LEADING <= m < SIGNIFICANDS,
        0 < small < SIGNIFICANDS,
        d >= 26,
    ensures
        round_ratio((m * pow2(d) + small) as nat * pow2(e), 1) == (m * pow2(d)) * pow2(e),
        round_ratio((m * pow2(d) - small) as nat * pow2(e), 1) == (m * pow2(d)) * pow2(e),
        m * pow2(d) > small,
{
    let p = pow2(d);
    let t = (d - 1) as nat;
    let h = pow2(t);
    lemma2_to64();
    lemma_pow2_unfold(d);
    lemma_pow2_unfold(t);
    if d > 26 {
        lemma_pow2_strictly_increases(26, d);
    }
    assert(p == 2 * h && h >= 0x200_0000);
    let above = (m * p + small) as nat;
    assert(m * p >= 0x80_0000 * p) by (nonlinear_arith)
        requires
            m >= 0x80_0000,
            p >= 0,
    ;
    assert(p * m == m * p) by (nonlinear_arith);
    lemma_fundamental_div_mod_converse(above as int, p as int, m as int, small as int);
    assert(above / 1 == above);
    lemma_halved(above, t);
    assert(above / h >= SIGNIFICANDS);
    lemma_quantum_is(above, d);
    assert(1 * p == p);
    assert(round_ratio(above, 1) == m * p);
    lemma_round_scaled(above, 1, e);

    let under = (m * p - small) as nat;
    assert(under / 1 == under);
    if m > LEADING {
        assert(under == p * (m - 1) + (p - small)) by (nonlinear_arith)
            requires
                under == m * p - small,
        ;
        lemma_fundamental_div_mod_converse(under as int, p as int, m - 1, p - small);
        lemma_halved(under, t);
        lemma_quantum_is(under, d);
        assert(round_ratio(under, 1) == m * p);
    } else {
        let w = (d - 2) as nat;
        assert(m * p == 0x100_0000 * h);
        assert(under == h * 0xff_ffff + (h - small));
        lemma_fundamental_div_mod_converse(under as int, h as int, 0xff_ffff, h - small);
        lemma_halved(under, w);
        assert(h == 2 * pow2(w));
        lemma_quantum_is(under, t);
        assert(1 * h == h);
        assert(half_even(under, h) == 0x100_0000);
        assert(round_ratio(under, 1) == m * p);
    }
    lemma_round_scaled(under, 1, e);
}

/// Two to the power of `e`.
fn power(e: u32) -> (result: u128)
    requires
        e <= 120,
    ensures
        result == pow2(e as nat),
{
    proof {
        lemma2_to64();
        vstd::arithmetic::power2::lemma2_to64_rest();
    }
    if e < 63 {
        proof {
            lemma_pow2_strictly_increases(e as nat, 63);
            vstd::bits::lemma_u64_shl_is_mul(1, e as u64);
        }
        (1u64 << (e as u64)) as u128
    } else {
        let rest: u32 = e - 63;
        proof {
            lemma_pow2_strictly_increases(rest as nat, 63);
            vstd::bits::lemma_u64_shl_is_mul(1, rest as u64);
            lemma_pow2_adds(63, rest as nat);
            assert(pow2(63) * pow2(rest as nat) <= 0x8000_0000_0000_0000 * 0x8000_0000_0000_0000)
                by (nonlinear_arith)
                requires
                    pow2(63) == 0x8000_0000_0000_0000,
                    pow2(rest as nat) <= 0x8000_0000_0000_0000,
            ;
        }
        0x8000_0000_0000_0000u128 * ((1u64 << (rest as u64)) as u128)
    }
}

impl Single {
    /// The sum of two numbers that are not infinities of opposite signs.
    pub fn plus(self, other: Single) -> (result: Single)
        requires
            self.is_finite() || other.is_finite() || (self.units() < 0) == (other.units() < 0),
        ensures
            result.units() == sum(self.units(), other.units()),
    {
        proof {
            use_type_invariant(&self);
            use_type_invariant(&other);
            self.lemma_size();
            other.lemma_size();
        }
        if self.exponent == TOP {
            return self;
        }
        if other.exponent == TOP {
            return other;
        }
        if other.exponent <= self.exponent {
            Single::plus_ordered(self, other)
        } else {
            Single::plus_ordered(other, self)
        }
    }

    fn plus_ordered(wide: Single, narrow: Single) -> (result: Single)
        requires
            wide.is_finite(),
            narrow.is_finite(),
            narrow.exponent <= wide.exponent,
        ensures
            result.units() == rounded(wide.units() + narrow.units(), 1),
    {
        proof {
            use_type_invariant(&wide);
            use_type_invariant(&narrow);
            wide.lemma_size();
            narrow.lemma_size();
            lemma2_to64();
        }
        let gap: u32 = wide.exponent - narrow.exponent;
        let ghost e = narrow.exponent as nat;
        let ghost a = wide.significand as nat;
        let ghost b = narrow.significand as nat;
        let ghost g = gap as nat;
        proof {
            lemma_pow2_adds(g, e);
            assert(wide.size() == (a * pow2(g)) * pow2(e)) by (nonlinear_arith)
                requires
                    wide.size() == a * pow2(g + e),
                    pow2(g + e) == pow2(g) * pow2(e),
            ;
        }
        if narrow.significand == 0 {
            proof {
                lemma_round_exact(a, wide.exponent as nat);
            }
            return wide;
        }
        if gap >= 26 {
            proof {
                lemma_round_far(a, b, g, e);
                let w = a * pow2(g);
                let p = pow2(e);
                assert((w + b) as nat * p == w * p + b * p) by (nonlinear_arith);
                assert((w - b) as nat * p == w * p - b * p) by (nonlinear_arith)
                    requires
                        w > b,
                ;
                lemma_pow2_pos(e);
                assert(w * p > b * p) by (nonlinear_arith)
                    requires
                        w > b,
                        p > 0,
                ;
                assert(wide.size() > narrow.size());
            }
            return wide;
        }
        proof {
            if gap > 0 {
                lemma_pow2_strictly_increases(g, 26);
            } else {
                lemma_pow2_strictly_increases(0, 26);
            }
            assert(a * pow2(g) <= 0x100_0000 * 0x400_0000) by (nonlinear_arith)
                requires
                    a <= 0x100_0000,
                    pow2(g) <= 0x400_0000,
            ;
        }
        let high: u128 = wide.significand as u128 * power(gap);
        let low: u128 = narrow.significand as u128;
        let (negative, total): (bool, u128) = if wide.negative == narrow.negative {
            (wide.negative, high + low)
        } else if high >= low {
            (wide.negative, high - low)
        } else {
            (narrow.negative, low - high)
        };
        let ghost exact = wide.units() + narrow.units();
        proof {
            let p = pow2(e);
            assert((high + low) as nat * p == high as nat * p + low as nat * p)
                by (nonlinear_arith);
            if high >= low {
                assert((high - low) as nat * p == high as nat * p - low as nat * p)
                    by (nonlinear_arith)
                    requires
                        high >= low,
                ;
            } else {
                assert((low - high) as nat * p == low as nat * p - high as nat * p)
                    by (nonlinear_arith)
                    requires
                        high < low,
                ;
            }
            assert(magnitude(exact) == total as nat * p);
            lemma_pow2_pos(e);
            assert(total as nat * p == 0 <==> total == 0) by (nonlinear_arith)
                requires
                    p > 0,
            ;
        }
        if total == 0 {
            proof {
                lemma_round_zero(1);
            }
            return Single::zero();
        }
        Single::settle(negative, total, narrow.exponent)
    }

    /// The number of the given sign whose magnitude is `total * 2^e`, rounded.
    fn settle(negative: bool, total: u128, e: u32) -> (result: Single)
        requires
            0 < total <= 0x4_0000_0000_0000 + 0x100_0000,
            e <= TOP,
        ensures
            result.size() == round_magnitude(total as nat * pow2(e as nat), 1),
            result.units() == if negative { -(result.size() as int) } else {
                result.size() as int
            },
    {
        let mut n: u128 = total;
        let mut s: u32 = e;
        while n < LEADING as u128 && s > 0
            invariant
                0 < n <= 0x4_0000_0000_0000 + 0x100_0000,
                s <= TOP,
                n as nat * pow2(s as nat) == total as nat * pow2(e as nat),
            decreases s,
        {
            proof {
                lemma_pow2_unfold(s as nat);
                let p = pow2((s - 1) as nat);
                assert((n * 2) as nat * p == n as nat * (2 * p)) by (nonlinear_arith);
            }
            n = n * 2;
            s = s - 1;
        }
        proof {
            assert(n as nat / 1 == n);
        }
        Single::compose(negative, n, 1, s)
    }

    /// The difference of two numbers that are not equal infinities.
    pub fn minus(self, other: Single) -> (result: Single)
        requires
            self.is_finite() || other.is_finite() || (self.units() < 0) != (other.units() < 0),
        ensures
            result.units() == sum(self.units(), -other.units()),
    {
        proof {
            use_type_invariant(&self);
            use_type_invariant(&other);
            self.lemma_size();
            other.lemma_size();
        }
        self.plus(other.negated())
    }

    /// The product of two finite numbers.
    pub fn times(self, other: Single) -> (result: Single)
        requires
            self.is_finite(),
            other.is_finite(),
        ensures
            result.units() == product(self.units(), other.units()),
    {
        proof {
            use_type_invariant(&self);
            use_type_invariant(&other);
            self.lemma_size();
            other.lemma_size();
            lemma2_to64();
            lemma_pow2_pos(149);
        }
        let ghost exact = self.units() * other.units();
        let ghost ea = self.exponent as nat;
        let ghost eb = other.exponent as nat;
        let ghost a = self.significand as nat;
        let ghost b = other.significand as nat;
        if self.significand == 0 || other.significand == 0 {
            proof {
                assert(exact == 0) by (nonlinear_arith)
                    requires
                        exact == self.units() * other.units(),
                        self.units() == 0 || other.units() == 0,
                ;
                lemma_round_zero(one());
            }
            return Single::zero();
        }
        proof {
            assert(a * b <= 0x100_0000 * 0x100_0000) by (nonlinear_arith)
                requires
                    a <= 0x100_0000,
                    b <= 0x100_0000,
            ;
        }
        let n: u128 = self.significand as u128 * other.significand as u128;
        let total: u32 = self.exponent + other.exponent;
        let negative: bool = self.negative != other.negative;
        proof {
            assert(n > 0) by (nonlinear_arith)
                requires
                    n == a * b,
                    a > 0,
                    b > 0,
            ;
            lemma_pow2_adds(ea, eb);
            assert((a * pow2(ea)) * (b * pow2(eb)) == (a * b) * (pow2(ea) * pow2(eb)))
                by (nonlinear_arith);
            assert(magnitude(exact) == self.size() * other.size()) by (nonlinear_arith)
                requires
                    exact == self.units() * other.units(),
                    self.units() == self.size() || self.units() == -self.size(),
                    other.units() == other.size() || other.units() == -other.size(),
                    magnitude(exact) == exact || magnitude(exact) == -exact,
                    magnitude(exact) >= 0,
                    self.size() >= 0,
                    other.size() >= 0,
            ;
            assert((exact < 0) == negative) by (nonlinear_arith)
                requires
                    exact == self.units() * other.units(),
                    (self.units() < 0) == self.negative,
                    (other.units() < 0) == other.negative,
                    self.units() != 0,
                    other.units() != 0,
                    negative == (self.negative != other.negative),
            ;
            assert(magnitude(exact) == n as nat * pow2(total as nat));
        }
        if total >= ONE_EXPONENT {
            let s: u32 = total - ONE_EXPONENT;
            proof {
                lemma_pow2_adds(s as nat, 149);
                let p = pow2(s as nat);
                assert(n as nat * (p * one()) == (n as nat * p) * one()) by (nonlinear_arith);
                lemma_round_cancel(n as nat * p, 1, one());
                assert(1 * one() == one());
                assert(n as nat / 1 == n);
                if s > 0 {
                    assert(n >= 0x80_0000) by (nonlinear_arith)
                        requires
                            n == a * b,
                            a >= 1,
                            b >= 1,
                            a >= 0x80_0000 || b >= 0x80_0000,
                    ;
                }
            }
            Single::compose(negative, n, 1, s)
        } else {
            let t: u32 = ONE_EXPONENT - total;
            proof {
                lemma_pow2_adds(t as nat, total as nat);
                lemma_pow2_pos(t as nat);
                lemma_pow2_pos(total as nat);
                lemma_round_cancel(n as nat, pow2(t as nat), pow2(total as nat));
            }
            if t >= 60 {
                proof {
                    if t > 60 {
                        lemma_pow2_strictly_increases(60, t as nat);
                    }
                    vstd::arithmetic::power2::lemma2_to64_rest();
                    lemma_round_tiny(n as nat, pow2(t as nat));
                }
                return Single::zero();
            }
            proof {
                assert(n as nat * pow2(0) == n as nat) by (nonlinear_arith)
                    requires
                        pow2(0) == 1,
                ;
            }
            Single::compose(negative, n, power(t), 0)
        }
    }

    /// The quotient of a number and a finite positive one.
    pub fn over(self, other: Single) -> (result: Single)
        requires
            0 < other.units() < limit(),
        ensures
            result.units() == quotient(self.units(), other.units()),
    {
        proof {
            use_type_invariant(&self);
            use_type_invariant(&other);
            self.lemma_size();
            other.lemma_size();
            lemma2_to64();
            vstd::arithmetic::power2::lemma2_to64_rest();
            lemma_pow2_pos(149);
        }
        if self.exponent == TOP {
            return self;
        }
        let ghost exact = self.units() * one();
        let ghost ea = self.exponent as nat;
        let ghost eb = other.exponent as nat;
        let ghost a = self.significand as nat;
        let ghost b = other.significand as nat;
        if self.significand == 0 {
            proof {
                lemma_round_zero(other.units() as nat);
            }
            return Single::zero();
        }
        let n: u128 = self.significand as u128 * 0x1000_0000_0000_0000;
        let d: u128 = other.significand as u128;
        proof {
            assert(magnitude(exact) == self.size() * one() && (exact < 0) == self.negative)
                by (nonlinear_arith)
                requires
                    exact == self.units() * one(),
                    self.units() == if self.negative {
                        -(self.size() as int)
                    } else {
                        self.size() as int
                    },
                    self.size() > 0,
                    one() > 0,
                    magnitude(exact) == if exact < 0 {
                        -exact
                    } else {
                        exact
                    },
            ;
            lemma_pow2_adds(60, 89);
            lemma_pow2_adds(ea, 89);
            assert((a * pow2(ea)) * (pow2(60) * pow2(89)) == (a * pow2(60)) * (pow2(ea)
                * pow2(89))) by (nonlinear_arith);
            assert(magnitude(exact) == n as nat * pow2(ea + 89));
            assert(other.units() == d as nat * pow2(eb));
            lemma_pow2_pos(eb);
            lemma_quotient_at_least(n as nat, d as nat, 0x80_0000);
        }
        if self.exponent + 89 >= other.exponent {
            let s: u32 = self.exponent + 89 - other.exponent;
            proof {
                lemma_pow2_adds(s as nat, eb);
                let p = pow2(s as nat);
                assert(n as nat * (p * pow2(eb)) == (n as nat * p) * pow2(eb))
                    by (nonlinear_arith);
                lemma_round_cancel(n as nat * p, d as nat, pow2(eb));
            }
            Single::compose(self.negative, n, d, s)
        } else {
            let t: u32 = other.exponent - self.exponent - 89;
            proof {
                lemma_pow2_adds(t as nat, ea + 89);
                let p = pow2(t as nat);
                lemma_pow2_pos(t as nat);
                lemma_pow2_pos(ea + 89);
                assert(d as nat * (p * pow2(ea + 89)) == (d as nat * p) * pow2(ea + 89))
                    by (nonlinear_arith);
                assert(d as nat * p >= p) by (nonlinear_arith)
                    requires
                        d >= 1,
                ;
                lemma_round_cancel(n as nat, d as nat * p, pow2(ea + 89));
            }
            if t >= 86 {
                proof {
                    lemma_pow2_adds(60, 26);
                    if t > 86 {
                        lemma_pow2_strictly_increases(86, t as nat);
                    }
                    lemma_round_tiny(n as nat, d as nat * pow2(t as nat));
                }
                return Single::zero();
            }
            let shift: u128 = power(t);
            proof {
                lemma_pow2_adds(60, 26);
                lemma_pow2_strictly_increases(t as nat, 86);
                assert(d * shift <= 0x100_0000 * (0x1000_0000_0000_0000 * 0x400_0000))
                    by (nonlinear_arith)
                    requires
                        d <= 0x100_0000,
                        shift <= 0x1000_0000_0000_0000 * 0x400_0000,
                ;
                assert(n as nat * pow2(0) == n as nat) by (nonlinear_arith)
                    requires
                        pow2(0) == 1,
                ;
            }
            Single::compose(self.negative, n, d * shift, 0)
        }
    }

    /// The nearest integer, ties going away from zero, confined to `low` and `high`.
    pub fn round_within(self, low: i64, high: i64) -> (result: i64)
        requires
            -0x100_0000_0000 <= low <= high <= 0x100_0000_0000,
        ensures
            result == confined(nearest_integer(self.units()), low as int, high as int),
    {
        proof {
            use_type_invariant(&self);
            self.lemma_size();
            lemma2_to64();
            lemma_pow2_pos(149);
        }
        let ghost m = self.significand as nat;
        let ghost e = self.exponent as nat;
        let whole: i64;
        if self.exponent >= ONE_EXPONENT + 20 {
            let ghost s = (e - 149) as nat;
            proof {
                lemma_pow2_adds(s, 149);
                let p = pow2(s);
                assert(self.size() == (m * p) * one()) by (nonlinear_arith)
                    requires
                        self.size() == m * (p * one()),
                ;
                lemma_nearest_whole(m * p);
                if s > 20 {
                    lemma_pow2_strictly_increases(20, s);
                }
                assert(m * p >= 0x80_0000 * 0x10_0000) by (nonlinear_arith)
                    requires
                        m >= 0x80_0000,
                        p >= 0x10_0000,
                ;
            }
            whole = 0x100_0000_0000;
        } else if self.exponent >= ONE_EXPONENT {
            let s: u32 = self.exponent - ONE_EXPONENT;
            proof {
                lemma_pow2_adds(s as nat, 149);
                let p = pow2(s as nat);
                assert(self.size() == (m * p) * one()) by (nonlinear_arith)
                    requires
                        self.size() == m * (p * one()),
                ;
                lemma_nearest_whole(m * p);
                lemma_pow2_strictly_increases(s as nat, 20);
                assert(m * p <= 0x100_0000 * 0x10_0000) by (nonlinear_arith)
                    requires
                        m <= 0x100_0000,
                        p <= 0x10_0000,
                ;
            }
            whole = (self.significand as u128 * power(s)) as i64;
        } else {
            let t: u32 = ONE_EXPONENT - self.exponent;
            proof {
                lemma_pow2_adds(t as nat, e);
                lemma_pow2_pos(e);
                lemma_pow2_pos(t as nat);
                let p = pow2(t as nat);
                let c = pow2(e);
                assert(2 * (m * c) + p * c == (2 * m + p) * c) by (nonlinear_arith);
                assert(2 * (p * c) == (2 * p) * c) by (nonlinear_arith);
                lemma_scaled_division(2 * m + p, 2 * p, c);
            }
            if t >= 26 {
                proof {
                    if t > 26 {
                        lemma_pow2_strictly_increases(26, t as nat);
                    }
                    let p = pow2(t as nat);
                    assert((2 * m + p) / (2 * p) == 0) by (nonlinear_arith)
                        requires
                            2 * m < p,
                            m >= 0,
                    ;
                }
                whole = 0;
            } else {
                let p: u128 = power(t);
                proof {
                    lemma_pow2_strictly_increases(t as nat, 26);
                    assert((2 * m + p as nat) / (2 * p as nat) <= 2 * m + p as nat)
                        by (nonlinear_arith)
                        requires
                            p >= 1,
                            m >= 0,
                    ;
                }
                whole = ((2 * self.significand as u128 + p) / (2 * p)) as i64;
            }
        }
        let signed: i64 = if self.negative {
            -whole
        } else {
            whole
        };
        if signed < low {
            low
        } else if signed > high {
            high
        } else {
            signed
        }
    }

    /// The number that a binary32 pattern stands for, unless it is a NaN.
    pub fn from_bits(bits: u32) -> (result: Option<Single>)
        ensures
            result is Some <==> !pattern_is_nan(bits),
            result matches Some(number) ==> number.units() == pattern_units(bits),
    {
        proof {
            lemma2_to64();
        }
        let field: u32 = (bits / LEADING) % 256;
        let fraction: u32 = bits % LEADING;
        let negative: bool = bits >= 0x8000_0000;
        if field == 255 {
            if fraction != 0 {
                return None;
            }
            proof {
                lemma_limit();
            }
            return Some(Single { negative, significand: LEADING, exponent: TOP });
        }
        let (significand, exponent): (u32, u32) = if field == 0 {
            (fraction, 0)
        } else {
            (fraction + LEADING, field - 1)
        };
        Some(Single { negative: negative && significand != 0, significand, exponent })
    }

    /// The binary32 pattern of the number.
    pub fn to_bits(self) -> (bits: u32)
        ensures
            !pattern_is_nan(bits),
            pattern_units(bits) == self.units(),
    {
        proof {
            use_type_invariant(&self);
            lemma_limit();
            lemma2_to64();
        }
        let high: u32 = if self.negative {
            0x8000_0000
        } else {
            0
        };
        if self.significand < LEADING {
            let bits: u32 = high + self.significand;
            proof {
                assert(self.exponent == 0);
                assert(bits / LEADING == if self.negative { 256int } else { 0int });
                assert(bits % LEADING == self.significand);
                assert(self.significand * 1 == self.significand);
            }
            bits
        } else {
            let fraction: u32 = self.significand - LEADING;
            let field: u32 = self.exponent + 1;
            let bits: u32 = high + field * LEADING + fraction;
            proof {
                assert(bits / LEADING == (if self.negative { 256int } else { 0int }) + field);
                assert(bits % LEADING == fraction);
            }
            bits
        }
    }
}

/// Whether a binary32 pattern is a NaN.
pub open spec fn pattern_is_nan(bits: u32) -> bool {
    (bits / LEADING) % 256 == 255 && bits % LEADING != 0
}

/// The units of the number that a binary32 pattern stands for.
pub open spec fn pattern_units(bits: u32) -> int {
    let field = (bits / LEADING) % 256;
    let fraction = bits % LEADING;
    let size = if field == 0 {
        fraction as nat
    } else {
        (fraction + LEADING) as nat * pow2((field - 1) as nat)
    };
    if bits >= 0x8000_0000 {
        -(size as int)
    } else {
        size as int
    }
}

proof fn lemma_nearest_whole(w: nat)
    ensures
        (2 * (w * one()) + one()) / (2 * one()) == w,
{
    lemma_pow2_pos(149);
    let o = one();
    assert(2 * (w * o) + o == w * (2 * o) + o) by (nonlinear_arith);
    lemma_fundamental_div_mod_converse((2 * (w * o) + o) as int, (2 * o) as int, w as int, o as int);
}

/// One divided by a power of two is represented exactly.
pub proof fn lemma_power_exact(k: nat)
    requires
        k <= 149,
    ensures
        rounded((1 * one()) as int, pow2(k)) == pow2((149 - k) as nat),
        0 < pow2((149 - k) as nat) < limit(),
{
    let e = (149 - k) as nat;
    lemma_pow2_adds(e, k);
    lemma_pow2_pos(k);
    lemma_pow2_pos(e);
    assert(1 * pow2(e) == pow2(e));
    assert(1 * pow2(k) == pow2(k));
    lemma_round_cancel(pow2(e), 1, pow2(k));
    lemma_round_whole(1, e);
    lemma_bound_finite(1, e);
}

proof fn lemma_half_even_ordered(a: nat, b: nat, d: nat)
    requires
        a <= b,
        d > 0,
    ensures
        half_even(a, d) <= half_even(b, d),
{
    lemma_fundamental_div_mod(a as int, d as int);
    lemma_fundamental_div_mod(b as int, d as int);
    lemma_mod_bound(a as int, d as int);
    lemma_mod_bound(b as int, d as int);
    let (p, q) = (a / d, b / d);
    assert(p <= q) by (nonlinear_arith)
        requires
            a == d * p + a % d,
            b == d * q + b % d,
            0 <= a % d,
            b % d < d,
            a <= b,
            d > 0,
    ;
    if p == q {
        assert(a % d <= b % d);
    } else {
        assert(p + 1 <= q);
    }
}

/// Rounding keeps the order of numbers.
pub proof fn lemma_rounding_ordered(a: nat, b: nat, d: nat)
    requires
        a <= b,
        d > 0,
    ensures
        round_magnitude(a, d) <= round_magnitude(b, d),
{
    let p = a / d;
    let q = b / d;
    lemma_fundamental_div_mod(a as int, d as int);
    lemma_fundamental_div_mod(b as int, d as int);
    lemma_mod_bound(a as int, d as int);
    lemma_mod_bound(b as int, d as int);
    assert(p <= q) by (nonlinear_arith)
        requires
            a == d * p + a % d,
            b == d * q + b % d,
            0 <= a % d,
            b % d < d,
            a <= b,
            d > 0,
    ;
    let k = lemma_quantum_power(p);
    let l = lemma_quantum_power(q);
    let u = quantum(p);
    let v = quantum(q);
    lemma_quantum_positive(p);
    lemma_quantum_positive(q);
    assert(d * u > 0) by (nonlinear_arith)
        requires
            d > 0,
            u > 0,
    ;
    assert(d * v > 0) by (nonlinear_arith)
        requires
            d > 0,
            v > 0,
    ;
    if k == l {
        lemma_half_even_ordered(a, b, d * u);
        let (x, y) = (half_even(a, d * u), half_even(b, d * u));
        assert(x * u <= y * u) by (nonlinear_arith)
            requires
                x <= y,
                u > 0,
        ;
    } else {
        if k > l {
            lemma_pow2_strictly_increases(l, k);
            lemma_pow2_unfold(k);
            if l + 1 < k {
                lemma_pow2_strictly_increases(l + 1, k);
            }
            lemma_pow2_unfold(l + 1);
            assert(false) by (nonlinear_arith)
                requires
                    p >= LEADING * pow2(k),
                    q < SIGNIFICANDS * pow2(l),
                    p <= q,
                    pow2(k) >= 2 * pow2(l),
                    LEADING * 2 == SIGNIFICANDS,
            ;
        }
        lemma_pow2_unfold(k + 1);
        if k + 1 < l {
            lemma_pow2_strictly_increases(k + 1, l);
        }
        lemma_exact_multiple(a, d, u, SIGNIFICANDS as nat);
        lemma_exact_least(b, d, v, LEADING as nat);
        let (x, y) = (half_even(a, d * u), half_even(b, d * v));
        assert(x * u <= y * v) by (nonlinear_arith)
            requires
                x <= SIGNIFICANDS,
                y >= LEADING,
                v >= 2 * u,
                u > 0,
                LEADING * 2 == SIGNIFICANDS,
        ;
    }
}

/// What lies below a multiple of the distance between neighbours is rounded to at most that.
proof fn lemma_exact_multiple(n: nat, d: nat, u: nat, m: nat)
    requires
        d > 0,
        u > 0,
        n / d < m * u,
    ensures
        half_even(n, d * u) <= m,
{
    let c = d * u;
    assert(c > 0) by (nonlinear_arith)
        requires
            d > 0,
            u > 0,
            c == d * u,
    ;
    lemma_fundamental_div_mod(n as int, d as int);
    lemma_mod_bound(n as int, d as int);
    lemma_fundamental_div_mod(n as int, c as int);
    lemma_mod_bound(n as int, c as int);
    let q = n / d;
    let r = n / c;
    assert(n < m * c) by (nonlinear_arith)
        requires
            n == d * q + n % d,
            n % d < d,
            q + 1 <= m * u,
            c == d * u,
            d > 0,
    ;
    assert(r < m) by (nonlinear_arith)
        requires
            n < m * c,
            n == c * r + n % c,
            0 <= n % c,
            c > 0,
    ;
}

/// What is not below a multiple of the distance between neighbours is rounded to at least that.
proof fn lemma_exact_least(n: nat, d: nat, u: nat, m: nat)
    requires
        d > 0,
        u > 0,
        n / d >= m * u,
    ensures
        half_even(n, d * u) >= m,
{
    let c = d * u;
    assert(c > 0) by (nonlinear_arith)
        requires
            d > 0,
            u > 0,
            c == d * u,
    ;
    lemma_fundamental_div_mod(n as int, d as int);
    lemma_mod_bound(n as int, d as int);
    let q = n / d;
    assert(n >= m * c) by (nonlinear_arith)
        requires
            n == d * q + n % d,
            n % d >= 0,
            q >= m * u,
            c == d * u,
            d > 0,
    ;
    lemma_quotient_at_least(n, c, m);
}

proof fn lemma_half_even_near(n: nat, d: nat)
    requires
        d > 0,
    ensures
        2 * n - d <= 2 * (half_even(n, d) * d) <= 2 * n + d,
{
    lemma_fundamental_div_mod(n as int, d as int);
    lemma_mod_bound(n as int, d as int);
    let q = n / d;
    let r = n % d;
    let h = half_even(n, d);
    assert(h * d == q * d || h * d == q * d + d) by (nonlinear_arith)
        requires
            h == q || h == q + 1,
    ;
    assert(d * q == q * d) by (nonlinear_arith);
    if h == q + 1 {
        assert(h * d == q * d + d) by (nonlinear_arith)
            requires
                h == q + 1,
        ;
        assert(2 * r >= d);
    } else {
        assert(h == q);
        assert(2 * r <= d);
    }
}

/// A number is rounded by at most half a unit, or by the part of it that twenty-four bits leave
/// out.
pub proof fn lemma_rounding_near(n: nat, d: nat)
    requires
        d > 0,
    ensures
        ({
            let off = if d * LEADING < n {
                n / (LEADING as nat)
            } else {
                d
            };
            2 * n - off <= 2 * (round_ratio(n, d) * d) <= 2 * n + off
        }),
{
    let q = n / d;
    let k = lemma_quantum_power(q);
    let u = quantum(q);
    lemma_quantum_positive(q);
    assert(d * u > 0) by (nonlinear_arith)
        requires
            d > 0,
            u > 0,
    ;
    lemma_half_even_near(n, d * u);
    let h = half_even(n, d * u);
    assert(h * u * d == h * (d * u)) by (nonlinear_arith);
    lemma_fundamental_div_mod(n as int, d as int);
    lemma_mod_bound(n as int, d as int);
    if k == 0 {
        vstd::arithmetic::power2::lemma2_to64();
        assert(d * u == d) by (nonlinear_arith)
            requires
                u == 1,
        ;
        if d * LEADING < n {
            lemma_quotient_at_least(n, LEADING as nat, d);
        }
    } else {
        assert(n >= (d * u) * LEADING) by (nonlinear_arith)
            requires
                n == d * q + n % d,
                n % d >= 0,
                q >= LEADING * u,
                d > 0,
        ;
        lemma_quotient_at_least(n, LEADING as nat, d * u);
        assert(u >= 2) by {
            lemma_pow2_unfold(k);
            lemma_pow2_pos((k - 1) as nat);
        }
        assert(d * LEADING < (d * u) * LEADING) by (nonlinear_arith)
            requires
                u >= 2,
                d > 0,
                LEADING > 0,
        ;
    }
}

/// A whole multiple of a whole number is divided by it exactly.
pub proof fn lemma_ratio_exact(n: nat, d: nat)
    requires
        n < SIGNIFICANDS,
        0 < d < SIGNIFICANDS,
        n * d < SIGNIFICANDS,
    ensures
        quotient((n * d) * one() as int, (d * one()) as int) == n * one(),
{
    lemma_whole_exact(n * d);
    lemma_whole_exact(n);
    lemma_pow2_pos(149);
    let unit = one();
    let c = d * unit;
    assert(c > 0) by (nonlinear_arith)
        requires
            c == d * unit,
            d > 0,
            unit > 0,
    ;
    assert(((n * d) * unit) * unit == (n * unit) * c) by (nonlinear_arith)
        requires
            c == d * unit,
    ;
    assert(1 * c == c);
    lemma_round_cancel(n * unit, 1, c);
    assert((n * unit) * c >= 0) by (nonlinear_arith);
}

/// A whole number is rounded as it is, whatever divisor it is a multiple of.
pub proof fn lemma_ratio_whole(n: nat, d: nat)
    requires
        n < SIGNIFICANDS,
        0 < d,
    ensures
        round_magnitude((d * (n * one())) as nat, d) == n * one(),
{
    lemma_whole_exact(n);
    let v = n * one();
    assert(d * v == v * d) by (nonlinear_arith);
    assert(1 * d == d);
    lemma_round_cancel(v, 1, d);
}

/// One is worth many units.
pub proof fn lemma_one_large()
    ensures
        one() >= 0x8000_0000_0000_0000,
{
    lemma2_to64();
    lemma_pow2_strictly_increases(64, 149);
}

/// How far a fraction below one is rounded, at most.
pub proof fn lemma_fraction_near(n: nat, d: nat)
    requires
        n <= d,
        0 < d <= 0x1_0000,
    ensures
        ({
            let r = rounded((n * one()) as int, d);
            &&& 0 <= r <= one()
            &&& 0x100_0000 * (n * one()) - n * one() <= 0x100_0000 * (r * d)
            &&& 0x100_0000 * (r * d) <= 0x100_0000 * (n * one()) + n * one()
        }),
{
    let unit = one();
    lemma_one_large();
    let v: nat = n * unit;
    assert(v >= 0) by (nonlinear_arith)
        requires
            v == n * unit,
    ;
    assert(1 * pow2(149) == unit);
    assert(v <= (1 * pow2(149)) * d) by (nonlinear_arith)
        requires
            v == n * unit,
            n <= d,
            pow2(149) == unit,
    ;
    lemma_rounded_at_most(v, d, 1, 149);
    lemma_bound_finite(1, 149);
    let r = round_magnitude(v, d);
    if n == 0 {
        lemma_round_zero(d);
        assert(v == 0) by (nonlinear_arith)
            requires
                v == n * unit,
                n == 0,
        ;
        assert(r * d == 0) by (nonlinear_arith)
            requires
                r == 0,
        ;
    } else {
        lemma_rounding_near(v, d);
        lemma_rounding_ordered(v, (1 * pow2(149)) * d, d);
        assert(r == round_ratio(v, d));
        assert(d * LEADING < v) by (nonlinear_arith)
            requires
                v == n * unit,
                n >= 1,
                d <= 0x1_0000,
                unit >= 0x8000_0000_0000_0000,
        ;
        lemma_fundamental_div_mod(v as int, LEADING as int);
        lemma_mod_bound(v as int, LEADING as int);
    }
}

/// Fractions of small numbers keep their order when they are rounded, and stay apart.
pub proof fn lemma_ratios_ordered(a: nat, b: nat, c: nat, d: nat)
    requires
        a <= b,
        c <= d,
        0 < b <= 1024,
        0 < d <= 1024,
    ensures
        rounded((a * one()) as int, b) < rounded((c * one()) as int, d) <==> a * d < c * b,
        rounded((a * one()) as int, b) == rounded((c * one()) as int, d) <==> a * d == c * b,
{
    let unit = one();
    lemma_pow2_pos(149);
    let r = rounded((a * unit) as int, b);
    let s = rounded((c * unit) as int, d);
    lemma_fraction_near(a, b);
    lemma_fraction_near(c, d);
    if a * d < c * b {
        lemma_ratio_less(a, b, c, d, r, s, unit as int);
    } else if a * d > c * b {
        lemma_ratio_less(c, d, a, b, s, r, unit as int);
    } else {
        assert((a * unit) * d == (c * unit) * b) by (nonlinear_arith)
            requires
                a * d == c * b,
        ;
        lemma_round_cancel(a * unit, b, d);
        lemma_round_cancel(c * unit, d, b);
        assert(b * d == d * b) by (nonlinear_arith);
        assert(a * unit >= 0 && c * unit >= 0) by (nonlinear_arith)
            requires
                unit > 0,
        ;
    }
}

proof fn lemma_ratio_less(a: nat, b: nat, c: nat, d: nat, r: int, s: int, unit: int)
    requires
        a <= b,
        c <= d,
        0 < b <= 1024,
        0 < d <= 1024,
        0 < unit,
        a * d < c * b,
        0x100_0000 * (r * b) <= 0x100_0000 * (a * unit) + a * unit,
        0x100_0000 * (c * unit) - c * unit <= 0x100_0000 * (s * d),
    ensures
        r < s,
{
    if r >= s {
        assert(r * b * d >= s * d * b) by (nonlinear_arith)
            requires
                r >= s,
                b > 0,
                d > 0,
        ;
        assert(0x100_0000 * (r * b * d) <= 0x100_0001 * (a * d * unit)) by (nonlinear_arith)
            requires
                0x100_0000 * (r * b) <= 0x100_0001 * (a * unit),
                d > 0,
        ;
        assert(0xff_ffff * (c * b * unit) <= 0x100_0000 * (s * d * b)) by (nonlinear_arith)
            requires
                0xff_ffff * (c * unit) <= 0x100_0000 * (s * d),
                b > 0,
        ;
        assert(0xff_ffff * (c * b * unit) <= 0x100_0001 * (a * d * unit));
        assert(c * b * unit >= a * d * unit + unit) by (nonlinear_arith)
            requires
                a * d + 1 <= c * b,
                unit > 0,
        ;
        assert(a * d * unit <= 0x10_0000 * unit) by (nonlinear_arith)
            requires
                a <= 1024,
                d <= 1024,
                unit > 0,
        ;
        assert(0xff_ffff * (a * d * unit) + 0xff_ffff * unit <= 0x100_0001 * (a * d * unit));
        assert(false);
    }
}

/// A share of a whole number, rounded to a whole number, is at most one off.
pub proof fn lemma_share_near(h: nat, n: nat, d: nat)
    requires
        h <= 0x10_0000,
        n <= d,
        0 < d <= 1000,
    ensures
        ({
            let share = nearest_integer(
                product(rounded((h * one()) as int, 1), rounded((n * one()) as int, d)),
            );
            &&& 0 <= share
            &&& h * n - d <= share * d <= h * n + d
        }),
{
    let unit = one();
    lemma_pow2_pos(149);
    lemma_whole_exact(h);
    lemma_fraction_near(n, d);
    let f = rounded((n * unit) as int, d);
    let v: nat = h * unit;
    let e: int = v * f;
    assert(e >= 0) by (nonlinear_arith)
        requires
            e == v * f,
            v >= 0,
            f >= 0,
    ;
    assert(e <= (h * unit) * unit) by (nonlinear_arith)
        requires
            e == v * f,
            v == h * unit,
            f <= unit,
    ;
    lemma_product_near(e as nat, h);
    let p = product(v as int, f);
    let w = (2 * p + unit) / (2 * unit as int);
    assert(magnitude(p) == p);
    assert(nearest_integer(p) == w);
    lemma_fundamental_div_mod(2 * p + unit, 2 * unit as int);
    lemma_mod_bound(2 * p + unit, 2 * unit as int);
    lemma_share_bounds(h, n, d, f, p, w, unit as int);
}

proof fn lemma_product_near(e: nat, h: nat)
    requires
        e <= (h * one()) * one(),
        h <= 0x10_0000,
    ensures
        ({
            let p = round_magnitude(e, one());
            16 * e - one() * one() <= 16 * (p * one()) <= 16 * e + one() * one()
        }),
{
    let unit = one();
    lemma_one_large();
    lemma_rounding_near(e, unit);
    assert(e <= (h * pow2(149)) * unit);
    lemma_rounded_at_most(e, unit, h, 149);
    lemma_bound_finite(h, 149);
    assert(round_ratio(e, unit) == round_magnitude(e, unit));
    lemma_fundamental_div_mod(e as int, LEADING as int);
    lemma_mod_bound(e as int, LEADING as int);
    let q = e / (LEADING as nat);
    let square = unit * unit;
    assert(e <= 0x10_0000 * square) by (nonlinear_arith)
        requires
            e <= (h * unit) * unit,
            h <= 0x10_0000,
            square == unit * unit,
    ;
    assert(8 * q <= square);
    assert(8 * unit <= square) by (nonlinear_arith)
        requires
            square == unit * unit,
            unit >= 8,
    ;
}

proof fn lemma_share_bounds(h: nat, n: nat, d: nat, f: int, p: int, w: int, unit: int)
    requires
        h <= 0x10_0000,
        n <= d,
        0 < d <= 1000,
        0 < unit,
        0 <= f,
        0 <= p,
        0x100_0000 * (n * unit) - n * unit <= 0x100_0000 * (f * d),
        0x100_0000 * (f * d) <= 0x100_0000 * (n * unit) + n * unit,
        16 * ((h * unit) * f) - unit * unit <= 16 * (p * unit),
        16 * (p * unit) <= 16 * ((h * unit) * f) + unit * unit,
        w == (2 * p + unit) / (2 * unit),
    ensures
        0 <= w,
        h * n - d <= w * d <= h * n + d,
{
    lemma_fundamental_div_mod(2 * p + unit, 2 * unit);
    lemma_mod_bound(2 * p + unit, 2 * unit);
    let k = w * unit;
    assert(2 * k <= 2 * p + unit < 2 * k + 2 * unit) by (nonlinear_arith)
        requires
            k == w * unit,
            2 * p + unit == 2 * unit * w + (2 * p + unit) % (2 * unit),
            0 <= (2 * p + unit) % (2 * unit) < 2 * unit,
    ;
    assert(0 <= w) by (nonlinear_arith)
        requires
            2 * p + unit < 2 * (w * unit) + 2 * unit,
            0 <= p,
            0 < unit,
    ;
    let x = h * f;
    assert(16 * x - unit <= 16 * p && 16 * p <= 16 * x + unit) by (nonlinear_arith)
        requires
            x == h * f,
            16 * ((h * unit) * f) - unit * unit <= 16 * (p * unit),
            16 * (p * unit) <= 16 * ((h * unit) * f) + unit * unit,
            unit > 0,
    ;
    let m = h * (n * unit);
    let y = h * (f * d);
    assert(0x100_0000 * m - m <= 0x100_0000 * y && 0x100_0000 * y <= 0x100_0000 * m + m)
        by (nonlinear_arith)
        requires
            m == h * (n * unit),
            y == h * (f * d),
            0x100_0000 * (n * unit) - n * unit <= 0x100_0000 * (f * d),
            0x100_0000 * (f * d) <= 0x100_0000 * (n * unit) + n * unit,
            h >= 0,
    ;
    let g = d * unit;
    assert(m <= 0x10_0000 * g) by (nonlinear_arith)
        requires
            m == h * (n * unit),
            g == d * unit,
            h <= 0x10_0000,
            n <= d,
            unit > 0,
    ;
    assert(x * d == y) by (nonlinear_arith)
        requires
            x == h * f,
            y == h * (f * d),
    ;
    assert(16 * (k * d) <= 16 * (x * d) + 9 * g && 16 * (x * d) - 9 * g <= 16 * (k * d))
        by (nonlinear_arith)
        requires
            16 * k <= 16 * x + 9 * unit,
            16 * x - 9 * unit <= 16 * k,
            g == d * unit,
            d > 0,
    ;
    assert(16 * (k * d) <= 16 * m + 16 * g);
    assert(16 * m - 16 * g <= 16 * (k * d));
    assert(h * n - d <= w * d && w * d <= h * n + d) by (nonlinear_arith)
        requires
            k == w * unit,
            m == h * (n * unit),
            g == d * unit,
            k * d <= m + g,
            m - g <= k * d,
            unit > 0,
    ;
}

/// The quotient of two whole numbers is their ratio, rounded once.
pub proof fn lemma_quotient_of_wholes(n: nat, d: nat)
    requires
        n < SIGNIFICANDS,
        0 < d < SIGNIFICANDS,
    ensures
        quotient((n * one()) as int, (d * one()) as int) == rounded((n * one()) as int, d),
{
    lemma_whole_exact(n);
    lemma_pow2_pos(149);
    lemma_round_cancel(n * one(), d, one());
    assert((n * one()) * one() >= 0 && n * one() >= 0) by (nonlinear_arith);
}

} // verus!
