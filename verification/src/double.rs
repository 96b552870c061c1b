//! Arithmetic with 53 significant bits, as the double format has it, in integers.
//!
//! A number is a whole multiple of some power of two that is fine enough for it. An
//! operation gives the number nearest its exact result, of two equally near the one whose
//! last bit is even. Rounding to significant bits does not depend on the unit, so the unit
//! of a result may be chosen freely. The exponents that occur here are far from the ends
//! of the format's range.

use vstd::arithmetic::div_mod::{
    lemma_div_denominator, lemma_fundamental_div_mod, lemma_fundamental_div_mod_converse,
};
use vstd::prelude::*;

use crate::bytes::pow2n;
use crate::hilbert::{lemma_pow2n_factor, lemma_pow2n_monotone, lemma_pow2n_positive};

verus! {

/// Two to the number of significant bits.
pub const LIMIT: u64 = 0x20_0000_0000_0000;

/// How many bits a number has beyond the significant ones.
pub open spec fn excess(q: nat) -> nat
    decreases q,
{
    if q < LIMIT {
        0
    } else {
        1 + excess(q / 2)
    }
}

/// The whole number nearest `n / d`, of two the even one.
pub open spec fn nearest_even(n: nat, d: nat) -> nat {
    let q = n / d;
    let r = n % d;
    if 2 * r < d || (2 * r == d && q % 2 == 0) {
        q
    } else {
        q + 1
    }
}

/// `n / d` rounded to the significant bits, where it is whole or has that many before the
/// point.
pub open spec fn round_ratio(n: nat, d: nat) -> nat {
    let unit = pow2n(excess(n / d));
    nearest_even(n, d * unit) * unit
}

/// A whole number rounded to the significant bits.
pub open spec fn round_whole(n: nat) -> nat {
    round_ratio(n, 1)
}

pub open spec fn round_signed(v: int) -> int {
    if v >= 0 {
        round_whole(v as nat) as int
    } else {
        -(round_whole((-v) as nat) as int)
    }
}

// ---- rounding and the unit ----

pub proof fn lemma_excess(q: nat)
    ensures
        q < LIMIT * pow2n(excess(q)),
        excess(q) > 0 ==> 2 * q >= LIMIT * pow2n(excess(q)),
    decreases q,
{
    if q >= LIMIT {
        lemma_excess(q / 2);
        let k = excess(q / 2);
        assert(pow2n(k + 1) == 2 * pow2n(k));
        assert(excess(q) == k + 1);
        if k == 0 {
            assert(pow2n(0) == 1);
        }
    }
}

pub proof fn lemma_div_scale(n: nat, d: nat, c: nat)
    requires
        d > 0,
        c > 0,
    ensures
        d * c > 0,
        (n * c) / (d * c) == n / d,
        (n * c) % (d * c) == (n % d) * c,
{
    let q = n / d;
    let r = n % d;
    lemma_fundamental_div_mod(n as int, d as int);
    assert(n * c == q * (d * c) + r * c && 0 <= r * c < d * c && d * c > 0) by (nonlinear_arith)
        requires
            n == d * q + r,
            0 <= r < d,
            c > 0,
            d > 0,
    ;
    lemma_fundamental_div_mod_converse((n * c) as int, (d * c) as int, q as int, (r * c) as int);
}

proof fn lemma_nearest_scale(n: nat, d: nat, c: nat)
    requires
        d > 0,
        c > 0,
    ensures
        nearest_even(n * c, d * c) == nearest_even(n, d),
{
    lemma_div_scale(n, d, c);
    let r = n % d;
    assert(2 * (r * c) < d * c <==> 2 * r < d) by (nonlinear_arith)
        requires
            c > 0,
    ;
    assert(2 * (r * c) == d * c <==> 2 * r == d) by (nonlinear_arith)
        requires
            c > 0,
    ;
}

/// A common factor cancels.
pub proof fn ratio_cancels(n: nat, d: nat, c: nat)
    requires
        d > 0,
        c > 0,
    ensures
        round_ratio(n * c, d * c) == round_ratio(n, d),
{
    lemma_div_scale(n, d, c);
    let u = pow2n(excess(n / d));
    lemma_pow2n_positive(excess(n / d));
    assert(d * c * u == d * u * c) by (nonlinear_arith);
    assert(d * u > 0) by (nonlinear_arith)
        requires
            d > 0,
            u > 0,
    ;
    lemma_nearest_scale(n, d * u, c);
}

proof fn lemma_nearest_whole(n: nat)
    ensures
        nearest_even(n, 1) == n,
{
}

/// Rounding does not depend on the sign.
pub proof fn rounding_mirrors(v: int)
    ensures
        round_signed(-v) == -round_signed(v),
{
    if v == 0 {
        assert(pow2n(0) == 1);
        lemma_nearest_whole(0);
        assert(0nat / 1 == 0);
        assert(excess(0) == 0);
        assert(1 * pow2n(0) == 1);
        assert(nearest_even(0, 1) == 0);
        assert(round_ratio(0, 1) == 0);
        assert(round_whole(0) == 0);
    }
}

proof fn lemma_ratio_doubles(n: nat, d: nat)
    requires
        d > 0,
        d == 1 || 2 * (n / d) >= LIMIT,
    ensures
        round_ratio(2 * n, d) == 2 * round_ratio(n, d),
{
    let q = n / d;
    let u = pow2n(excess(q));
    if 2 * q >= LIMIT {
        lemma_fundamental_div_mod(n as int, d as int);
        lemma_div_denominator((2 * n) as int, d as int, 2);
        lemma_div_denominator((2 * n) as int, 2, d as int);
        assert(((2 * n) / d) / 2 == q) by {
            assert((2 * n) / 2 == n);
            assert(d * 2 == 2 * d);
        }
        let q2 = (2 * n) / d;
        assert(q2 >= LIMIT);
        assert(excess(q2) == 1 + excess(q));
        assert(pow2n(excess(q2)) == 2 * u);
        lemma_pow2n_positive(excess(q));
        assert(d * u > 0) by (nonlinear_arith)
            requires
                d > 0,
                u > 0,
        ;
        assert(d * (2 * u) == (d * u) * 2) by (nonlinear_arith);
        lemma_nearest_scale(n, d * u, 2);
        assert(n * 2 == 2 * n);
        let m = nearest_even(n, d * u);
        assert(nearest_even(2 * n, d * (2 * u)) == m);
        assert(m * (2 * u) == 2 * (m * u)) by (nonlinear_arith);
    } else {
        assert(u == 1);
        assert(n / 1 == n && (2 * n) / 1 == 2 * n);
        assert(excess(2 * n) == 0);
        lemma_nearest_whole(n);
        lemma_nearest_whole(2 * n);
        assert(d * u == 1 && n * u == n && (2 * n) * u == 2 * n) by (nonlinear_arith)
            requires
                d == 1,
                u == 1,
        ;
    }
}

/// Rounding to significant bits does not depend on the unit.
pub proof fn ratio_scales(n: nat, d: nat, j: nat)
    requires
        d > 0,
        d == 1 || 2 * (n / d) >= LIMIT,
    ensures
        round_ratio(n * pow2n(j), d) == round_ratio(n, d) * pow2n(j),
    decreases j,
{
    if j == 0 {
        assert(n * pow2n(0) == n && round_ratio(n, d) * pow2n(0) == round_ratio(n, d))
            by (nonlinear_arith)
            requires
                pow2n(0) == 1,
        ;
    } else {
        let p = pow2n((j - 1) as nat);
        ratio_scales(n, d, (j - 1) as nat);
        lemma_pow2n_positive((j - 1) as nat);
        assert(n * p >= n) by (nonlinear_arith)
            requires
                p >= 1,
        ;
        assert((n * p) / d >= n / d) by {
            vstd::arithmetic::div_mod::lemma_div_is_ordered(n as int, (n * p) as int, d as int);
        }
        lemma_ratio_doubles(n * p, d);
        assert(n * (2 * p) == 2 * (n * p)) by (nonlinear_arith);
        let r = round_ratio(n, d);
        assert(r * (2 * p) == 2 * (r * p)) by (nonlinear_arith);
    }
}

proof fn lemma_nearest_bound(n: nat, d: nat, x: nat)
    requires
        d > 0,
        n <= x * d,
    ensures
        nearest_even(n, d) <= x,
{
    let q = n / d;
    let r = n % d;
    lemma_fundamental_div_mod(n as int, d as int);
    assert(q <= x && (q == x ==> r == 0)) by (nonlinear_arith)
        requires
            n == d * q + r,
            0 <= r < d,
            n <= x * d,
            d > 0,
    ;
}

/// What is at most a power of two stays so.
pub proof fn ratio_bounded(n: nat, d: nat, j: nat)
    requires
        d > 0,
        n <= d * pow2n(j),
        j >= 53,
    ensures
        round_ratio(n, d) <= pow2n(j),
        excess(n / d) <= j,
{
    let q = n / d;
    let k = excess(q);
    lemma_excess(q);
    assert(q <= pow2n(j)) by {
        vstd::arithmetic::div_mod::lemma_div_is_ordered(
            n as int,
            (d * pow2n(j)) as int,
            d as int,
        );
        vstd::arithmetic::div_mod::lemma_div_multiples_vanish(pow2n(j) as int, d as int);
    }
    if k > j {
        lemma_pow2n_monotone(j, k);
        assert(false);
    }
    lemma_pow2n_factor(k, j);
    let u = pow2n(k);
    let x = pow2n((j - k) as nat);
    lemma_pow2n_positive(k);
    assert(d * pow2n(j) == x * (d * u) && d * u > 0) by (nonlinear_arith)
        requires
            pow2n(j) == x * u,
            d > 0,
            u > 0,
    ;
    lemma_nearest_bound(n, d * u, x);
    let m = nearest_even(n, d * u);
    assert(m * u <= x * u) by (nonlinear_arith)
        requires
            m <= x,
            u > 0,
    ;
}

/// Rounding takes away less than half.
pub proof fn rounding_keeps_half(n: nat)
    ensures
        2 * round_whole(n) >= n,
        round_whole(n) == 0 <==> n == 0,
{
    let k = excess(n);
    let u = pow2n(k);
    assert(n / 1 == n);
    lemma_excess(n);
    lemma_pow2n_positive(k);
    let m = nearest_even(n, u);
    assert(1 * u == u);
    if k == 0 {
        lemma_nearest_whole(n);
        assert(m * u == m) by (nonlinear_arith)
            requires
                u == 1,
        ;
    } else {
        let q = n / u;
        lemma_fundamental_div_mod(n as int, u as int);
        assert(q >= 1) by (nonlinear_arith)
            requires
                n == u * q + n % u,
                0 <= n % u < u,
                2 * n >= LIMIT * u,
                u > 0,
        ;
        assert(2 * (m * u) >= n && m * u > 0) by (nonlinear_arith)
            requires
                n == u * q + n % u,
                0 <= n % u < u,
                q >= 1,
                m >= q,
                u > 0,
        ;
    }
}

// ---- rounding ----

/// A number in `m * 2^k`.
#[derive(Clone, Copy)]
pub struct Rounded {
    pub m: u64,
    pub k: u32,
}

impl Rounded {
    pub open spec fn value(&self) -> nat {
        (self.m * pow2n(self.k as nat)) as nat
    }
}

/// `n / d` rounded to the significant bits.
pub fn round(n: u128, d: u128) -> (r: Rounded)
    requires
        d > 0,
    ensures
        r.value() == round_ratio(n as nat, d as nat),
        r.k == excess(n as nat / d as nat),
        r.k <= 75,
        r.m <= LIMIT,
        2 * (n / d) >= LIMIT ==> 2 * r.m >= LIMIT,
{
    let whole: u128 = n / d;
    let mut q: u128 = whole;
    let mut u: u128 = 1;
    let mut k: u32 = 0;
    assert(pow2n(0) == 1);
    assert(whole as int / 1 == whole);
    while q >= LIMIT as u128
        invariant
            whole == n / d,
            d > 0,
            excess(whole as nat) == k + excess(q as nat),
            u == pow2n(k as nat),
            u > 0,
            q == whole as int / u as int,
            k > 0 ==> 2 * q >= LIMIT,
            2 * whole >= LIMIT ==> 2 * q >= LIMIT,
            q <= whole,
            k + q <= u128::MAX,
            k <= 128,
            q * u <= whole,
        decreases q,
    {
        proof {
            lemma_div_denominator(whole as int, u as int, 2);
            let h = q as int / 2;
            assert(u * 2 <= whole && h * (u * 2) <= whole) by (nonlinear_arith)
                requires
                    q * u <= whole,
                    q >= 2,
                    2 * h <= q,
                    u > 0,
            ;
            assert(pow2n((k + 1) as nat) == 2 * pow2n(k as nat));
            if k >= 127 {
                lemma_pow2n_monotone(127, k as nat);
                lemma_pow2n_values();
            }
        }
        q = q / 2;
        u = u * 2;
        k = k + 1;
    }
    proof {
        lemma_fundamental_div_mod(n as int, d as int);
        assert(d * whole <= n);
        if k == 0 {
            assert(d * u == d) by (nonlinear_arith)
                requires
                    u == 1,
            ;
        } else {
            assert(d * u <= n) by (nonlinear_arith)
                requires
                    d * whole <= n,
                    q * u <= whole,
                    q >= 1,
                    d > 0,
                    u > 0,
            ;
        }
        assert(d * u > 0) by (nonlinear_arith)
            requires
                d > 0,
                u > 0,
        ;
        lemma_div_denominator(n as int, d as int, u as int);
    }
    proof {
        lemma_excess(whole as nat);
        if k > 75 {
            lemma_pow2n_monotone(76, k as nat);
            lemma_pow2n_values();
        }
    }
    let unit: u128 = d * u;
    let r: u128 = n % unit;
    let low: u64 = (n / unit) as u64;
    let up: bool = r > unit - r || (r == unit - r && low % 2 == 1);
    let m: u64 = if up {
        low + 1
    } else {
        low
    };
    Rounded { m, k }
}

/// A whole number rounded to the significant bits.
pub fn round_of(n: u128) -> (r: Rounded)
    ensures
        r.value() == round_whole(n as nat),
        r.k <= 75,
        r.m <= LIMIT,
{
    round(n, 1)
}

impl Rounded {
    /// The number times a whole one, rounded.
    pub fn times(self, c: u64) -> (r: Self)
        requires
            self.m <= LIMIT,
            self.k <= 1000,
        ensures
            r.value() == round_whole(self.value() * c as nat),
            r.k <= self.k + 75,
            r.m <= LIMIT,
    {
        let ghost p = pow2n(self.k as nat);
        assert(self.m * c <= u128::MAX) by (nonlinear_arith)
            requires
                self.m <= LIMIT,
        ;
        let product: u128 = (self.m as u128) * (c as u128);
        let r = round_of(product);
        proof {
            ratio_scales(product as nat, 1, self.k as nat);
            let (m, c) = (self.m as nat, c as nat);
            assert((m * c) * p == (m * p) * c) by (nonlinear_arith);
            lemma_pow2n_joins(r.k as nat, self.k as nat);
            let (m, a) = (r.m as nat, pow2n(r.k as nat));
            assert(m * (a * p) == (m * a) * p) by (nonlinear_arith);
        }
        Rounded { m: r.m, k: r.k + self.k }
    }
}

/// Two to the power of `k`.
pub fn pow2(k: u32) -> (r: u128)
    requires
        k <= 127,
    ensures
        r == pow2n(k as nat),
        r > 0,
{
    let mut r: u128 = 1;
    let mut i: u32 = 0;
    assert(pow2n(0) == 1);
    while i < k
        invariant
            i <= k <= 127,
            r == pow2n(i as nat),
        decreases k - i,
    {
        proof {
            lemma_pow2n_monotone((i + 1) as nat, 127);
            lemma_pow2n_values();
        }
        r = r * 2;
        i = i + 1;
    }
    proof {
        lemma_pow2n_positive(k as nat);
    }
    r
}

impl Rounded {
    /// The number itself, where it is whole and small enough.
    pub fn whole(self) -> (r: u128)
        requires
            self.k <= 127,
            self.value() <= u128::MAX,
        ensures
            r == self.value(),
    {
        (self.m as u128) * pow2(self.k)
    }
}

pub proof fn lemma_pow2n_joins(a: nat, b: nat)
    ensures
        pow2n(a + b) == pow2n(a) * pow2n(b),
{
    lemma_pow2n_factor(b, a + b);
}

/// Some powers of two.
pub proof fn lemma_pow2n_values()
    ensures
        pow2n(20) == 0x10_0000,
        pow2n(32) == 0x1_0000_0000,
        pow2n(50) == 0x4_0000_0000_0000,
        pow2n(51) == 0x8_0000_0000_0000,
        pow2n(52) == 0x10_0000_0000_0000,
        pow2n(55) == 0x80_0000_0000_0000,
        pow2n(62) == 0x4000_0000_0000_0000,
        pow2n(63) == 0x8000_0000_0000_0000,
        pow2n(64) == 0x1_0000_0000_0000_0000,
        pow2n(72) == 0x100_0000_0000_0000_0000,
        pow2n(76) == 0x1000_0000_0000_0000_0000,
        pow2n(81) == 0x2_0000_0000_0000_0000_0000,
        pow2n(104) == 0x100_0000_0000_0000_0000_0000_0000,
        pow2n(106) == 0x400_0000_0000_0000_0000_0000_0000,
        pow2n(117) == 0x20_0000_0000_0000_0000_0000_0000_0000,
        pow2n(126) == 0x4000_0000_0000_0000_0000_0000_0000_0000,
        pow2n(127) == 0x8000_0000_0000_0000_0000_0000_0000_0000,
{
    reveal_with_fuel(pow2n, 11);
    assert(pow2n(10) == 0x400);
    assert(pow2n(20) == 0x10_0000);
    assert(pow2n(30) == 0x4000_0000);
    assert(pow2n(32) == 0x1_0000_0000);
    assert(pow2n(40) == 0x100_0000_0000);
    assert(pow2n(50) == 0x4_0000_0000_0000);
    assert(pow2n(51) == 0x8_0000_0000_0000);
    assert(pow2n(52) == 0x10_0000_0000_0000);
    assert(pow2n(55) == 0x80_0000_0000_0000);
    assert(pow2n(60) == 0x1000_0000_0000_0000);
    assert(pow2n(62) == 0x4000_0000_0000_0000);
    assert(pow2n(63) == 0x8000_0000_0000_0000);
    assert(pow2n(64) == 0x1_0000_0000_0000_0000);
    assert(pow2n(70) == 0x40_0000_0000_0000_0000);
    assert(pow2n(72) == 0x100_0000_0000_0000_0000);
    assert(pow2n(76) == 0x1000_0000_0000_0000_0000);
    assert(pow2n(80) == 0x1_0000_0000_0000_0000_0000);
    assert(pow2n(81) == 0x2_0000_0000_0000_0000_0000);
    assert(pow2n(90) == 0x400_0000_0000_0000_0000_0000);
    assert(pow2n(100) == 0x10_0000_0000_0000_0000_0000_0000);
    assert(pow2n(104) == 0x100_0000_0000_0000_0000_0000_0000);
    assert(pow2n(106) == 0x400_0000_0000_0000_0000_0000_0000);
    assert(pow2n(110) == 0x4000_0000_0000_0000_0000_0000_0000);
    assert(pow2n(117) == 0x20_0000_0000_0000_0000_0000_0000_0000);
    assert(pow2n(120) == 0x100_0000_0000_0000_0000_0000_0000_0000);
    assert(pow2n(126) == 0x4000_0000_0000_0000_0000_0000_0000_0000);
}

} // verus!
