//! How straight a turn is.

use vstd::prelude::*;

use crate::bytes::pow2n;
use crate::double::{
    excess, lemma_pow2n_joins, lemma_pow2n_values, nearest_even, ratio_cancels, ratio_scales,
    round_ratio, round_signed, round_whole, rounding_mirrors, LIMIT,
};
use crate::hilbert::lemma_pow2n_positive;
use crate::turn::{
    cosine, is_nearest_root, lemma_quarterings, lemma_root_unique, lemma_zero_ratio, length,
    nearest_root, part, quarterings, root,
};
use crate::weld_model::least_cosine;

verus! {

// ---- symmetry ----

/// A turn is as straight seen from the other side.
pub proof fn turns_are_symmetric(u: (int, int), v: (int, int))
    ensures
        cosine(u, v) == cosine(v, u),
{
    reveal(cosine);
    let (a, b) = (length(u), length(v));
    let (p, q) = (part(u.0, a), part(u.1, a));
    let (r, s) = (part(v.0, b), part(v.1, b));
    assert(p * r == r * p) by (nonlinear_arith);
    assert(q * s == s * q) by (nonlinear_arith);
}

proof fn lemma_part_mirrors(c: int, length: nat)
    ensures
        part(-c, length) == -part(c, length),
{
    if length > 0 && c == 0 {
        lemma_zero_ratio(length);
        assert(0 * pow2n(200) == 0);
    }
}

/// To turn round is to be as far from straight as one was near it.
pub proof fn turning_round_mirrors(u: (int, int), v: (int, int))
    ensures
        cosine((-u.0, -u.1), v) == -cosine(u, v),
        cosine(u, (-v.0, -v.1)) == -cosine(u, v),
        cosine((-u.0, -u.1), (-v.0, -v.1)) == cosine(u, v),
{
    lemma_mirrors(u, v);
    lemma_mirrors(v, u);
    turns_are_symmetric(u, v);
    turns_are_symmetric(u, (-v.0, -v.1));
    lemma_mirrors(u, (-v.0, -v.1));
}

proof fn lemma_mirrors(u: (int, int), v: (int, int))
    ensures
        cosine((-u.0, -u.1), v) == -cosine(u, v),
{
    reveal(cosine);
    let w = (-u.0, -u.1);
    assert((-u.0) * (-u.0) == u.0 * u.0 && (-u.1) * (-u.1) == u.1 * u.1) by (nonlinear_arith);
    let (a, b) = (length(u), length(v));
    assert(length(w) == a);
    lemma_part_mirrors(u.0, a);
    lemma_part_mirrors(u.1, a);
    let (p, q) = (part(u.0, a), part(u.1, a));
    let (r, s) = (part(v.0, b), part(v.1, b));
    assert((-p) * r == -(p * r) && (-q) * s == -(q * s)) by (nonlinear_arith);
    rounding_mirrors(p * r);
    rounding_mirrors(q * s);
    rounding_mirrors(round_signed(p * r) + round_signed(q * s));
}

/// A turn is as straight when both directions are mirrored on a diagonal.
pub proof fn turns_transpose(u: (int, int), v: (int, int))
    ensures
        cosine((u.1, u.0), (v.1, v.0)) == cosine(u, v),
{
    reveal(cosine);
}

// ---- right angles ----

/// A right angle to an axis is neither forward nor back.
pub proof fn right_angles_are_none(x: int, y: int)
    ensures
        cosine((x, 0), (0, y)) == 0,
        cosine((0, y), (x, 0)) == 0,
{
    reveal(cosine);
    let (a, b) = (length((x, 0)), length((0, y)));
    lemma_part_mirrors(0, a);
    lemma_part_mirrors(0, b);
    assert(part(0, a) == 0 && part(0, b) == 0);
    let (p, q) = (part(x, a), part(y, b));
    assert(p * 0 == 0 && 0 * q == 0) by (nonlinear_arith);
    lemma_round_zero();
    turns_are_symmetric((x, 0), (0, y));
}

proof fn lemma_round_zero()
    ensures
        round_signed(0) == 0,
{
    lemma_small_whole(0);
}

proof fn lemma_small_whole(n: nat)
    requires
        n < LIMIT,
    ensures
        round_whole(n) == n,
{
    assert(excess(n) == 0);
    assert(pow2n(0) == 1);
    assert(nearest_even(n, 1) == n);
}

proof fn lemma_round_pow2n(j: nat)
    ensures
        round_whole(pow2n(j)) == pow2n(j),
        round_signed(pow2n(j) as int) == pow2n(j),
{
    lemma_small_whole(1);
    ratio_scales(1, 1, j);
    assert(1 * pow2n(j) == pow2n(j));
}

// ---- straight on ----

proof fn lemma_axis_length(x: int)
    requires
        0 < x < 0x400_0000,
    ensures
        length((x, 0)) == x * pow2n(52),
        length((0, x)) == x * pow2n(52),
        length((-x, 0)) == x * pow2n(52),
{
    let s = (x * x) as nat;
    assert(0 < x * x < 0x10_0000_0000_0000) by (nonlinear_arith)
        requires
            0 < x < 0x400_0000,
    ;
    assert((-x) * (-x) == x * x) by (nonlinear_arith);
    lemma_small_whole(s);
    lemma_small_whole(0);
    assert(0int * 0int == 0);
    let k = quarterings(s);
    lemma_quarterings(s);
    lemma_pow2n_values();
    if k >= 26 {
        crate::double::lemma_pow2n_joins(52, (2 * k - 52) as nat);
        lemma_pow2n_positive((2 * k - 52) as nat);
        assert(pow2n(2 * k) >= pow2n(52)) by (nonlinear_arith)
            requires
                pow2n(2 * k) == pow2n(52) * pow2n((2 * k - 52) as nat),
                pow2n((2 * k - 52) as nat) >= 1,
        ;
    }
    let half = (52 - k) as nat;
    let m = (x * pow2n(half)) as nat;
    lemma_pow2n_positive(half);
    assert(x * pow2n(half) > 0) by (nonlinear_arith)
        requires
            x > 0,
            pow2n(half) > 0,
    ;
    lemma_pow2n_joins(half, half);
    assert(half + half == 104 - 2 * k);
    let n = s * pow2n((104 - 2 * k) as nat);
    assert(n == m * m) by (nonlinear_arith)
        requires
            n == (x * x) * (pow2n(half) * pow2n(half)),
            m == x * pow2n(half),
    ;
    assert(is_nearest_root(n, m));
    lemma_root_unique(n, m, nearest_root(n));
    assert(root(s) == m * pow2n(k));
    lemma_pow2n_joins(half, k);
    assert(half + k == 52);
    assert(m * pow2n(k) == x * pow2n(52)) by (nonlinear_arith)
        requires
            m == x * pow2n(half),
            pow2n(52) == pow2n(half) * pow2n(k),
    ;
}

proof fn lemma_axis_part(x: int)
    requires
        0 < x < 0x400_0000,
    ensures
        part(x, (x * pow2n(52)) as nat) == pow2n(148),
        part(-x, (x * pow2n(52)) as nat) == -(pow2n(148) as int),
{
    let l = (x * pow2n(52)) as nat;
    lemma_pow2n_positive(52);
    lemma_pow2n_joins(148, 52);
    assert(x * pow2n(52) > 0) by (nonlinear_arith)
        requires
            x > 0,
            pow2n(52) > 0,
    ;
    assert(x * pow2n(200) == pow2n(148) * l) by (nonlinear_arith)
        requires
            l == x * pow2n(52),
            pow2n(200) == pow2n(148) * pow2n(52),
    ;
    ratio_cancels(pow2n(148), 1, l);
    assert(1 * l == l);
    lemma_round_pow2n(148);
    lemma_part_mirrors(x, l);
}

/// Straight on along an axis is one, whatever the steps, and straight back is minus one;
/// the least cosine at a junction is half of straight on.
pub proof fn straight_on_is_one(x: int, y: int)
    requires
        0 < x < 0x400_0000,
        0 < y < 0x400_0000,
    ensures
        cosine((x, 0), (y, 0)) == 2 * least_cosine(),
        cosine((0, x), (0, y)) == 2 * least_cosine(),
        cosine((-x, 0), (-y, 0)) == 2 * least_cosine(),
        cosine((0, -x), (0, -y)) == 2 * least_cosine(),
        cosine((x, 0), (-y, 0)) == -2 * least_cosine(),
        cosine((0, x), (0, -y)) == -2 * least_cosine(),
        least_cosine() > 0,
{
    let one = pow2n(148) as int;
    lemma_axis_length(x);
    lemma_axis_length(y);
    lemma_axis_part(x);
    lemma_axis_part(y);
    lemma_pow2n_joins(148, 148);
    lemma_pow2n_joins(295, 1);
    assert(pow2n(1) == 2 * pow2n(0) && pow2n(0) == 1);
    lemma_pow2n_positive(295);
    lemma_round_pow2n(296);
    lemma_round_zero();
    let (a, b) = (length((x, 0)), length((y, 0)));
    lemma_part_mirrors(0, a);
    lemma_part_mirrors(0, b);
    assert(cosine((x, 0), (y, 0)) == pow2n(296)) by {
        reveal(cosine);
        assert(part(0, a) * part(0, b) == 0) by (nonlinear_arith)
            requires
                part(0, a) == 0,
        ;
        assert(round_signed(one * one) == pow2n(296));
    }
    turns_transpose((x, 0), (y, 0));
    turning_round_mirrors((x, 0), (y, 0));
    turning_round_mirrors((0, x), (0, y));
}

// ---- rounding ----

/// Whole numbers of up to 53 bits are kept as they are, and larger ones move by no more
/// than their `2^53`rd part.
pub proof fn rounding_is_close(n: nat)
    ensures
        n < 0x20_0000_0000_0000 ==> round_whole(n) == n,
        (round_whole(n) - n) * 0x20_0000_0000_0000 <= n,
        (n - round_whole(n)) * 0x20_0000_0000_0000 <= n,
{
    if n < LIMIT {
        lemma_small_whole(n);
    } else {
        let unit = pow2n(excess(n)) as int;
        crate::double::lemma_excess(n);
        lemma_pow2n_positive(excess(n));
        assert(excess(n / 1) == excess(n));
        assert(excess(n) > 0);
        assert(2 * n >= LIMIT * unit);
        let q = n as int / unit;
        let r = n as int % unit;
        vstd::arithmetic::div_mod::lemma_fundamental_div_mod(n as int, unit);
        assert(1 * pow2n(excess(n)) == pow2n(excess(n)));
        let m = nearest_even(n, pow2n(excess(n))) as int;
        assert(m == q || m == q + 1);
        assert(q * unit + unit == (q + 1) * unit) by (nonlinear_arith);
        assert(unit * q == q * unit) by (nonlinear_arith);
        assert(round_whole(n) == m * unit);
        assert(2 * (m * unit - n) <= unit && 2 * (n - m * unit) <= unit);
    }
}

// ---- other angles ----

proof fn lemma_exact_length(x: int, y: int, l: int)
    requires
        x * x + y * y == l * l,
        0 < l < 0x400_0000,
    ensures
        length((x, y)) == l * pow2n(52),
{
    let s = (l * l) as nat;
    assert(0 < l * l < 0x10_0000_0000_0000) by (nonlinear_arith)
        requires
            0 < l < 0x400_0000,
    ;
    assert(0 <= x * x && 0 <= y * y) by (nonlinear_arith);
    lemma_small_whole((x * x) as nat);
    lemma_small_whole((y * y) as nat);
    lemma_small_whole(s);
    lemma_square_root(l);
}

proof fn lemma_square_root(x: int)
    requires
        0 < x < 0x400_0000,
    ensures
        root((x * x) as nat) == x * pow2n(52),
{
    lemma_axis_length(x);
    assert(0 < x * x < 0x10_0000_0000_0000) by (nonlinear_arith)
        requires
            0 < x < 0x400_0000,
    ;
    lemma_small_whole((x * x) as nat);
    lemma_small_whole(0);
    assert(0int * 0int == 0);
    assert(length((x, 0)) == root((x * x) as nat));
}

proof fn lemma_ratio_close(n: nat, d: nat)
    requires
        d > 0,
        n / d >= LIMIT,
    ensures
        (round_ratio(n, d) * d - n) * LIMIT <= n,
        (n - round_ratio(n, d) * d) * LIMIT <= n,
{
    let q = n as int / d as int;
    let unit = pow2n(excess(n / d)) as int;
    crate::double::lemma_excess(n / d);
    lemma_pow2n_positive(excess(n / d));
    assert(excess(n / d) > 0);
    assert(2 * q >= LIMIT * unit);
    vstd::arithmetic::div_mod::lemma_fundamental_div_mod(n as int, d as int);
    let w = d * unit;
    assert(w > 0) by (nonlinear_arith)
        requires
            w == d * unit,
            d > 0,
            unit >= 1,
    ;
    assert(w * LIMIT <= 2 * n) by (nonlinear_arith)
        requires
            w == d * unit,
            2 * q >= LIMIT * unit,
            n >= d * q,
            d > 0,
    ;
    vstd::arithmetic::div_mod::lemma_fundamental_div_mod(n as int, w);
    let m = nearest_even(n, (d * pow2n(excess(n / d))) as nat) as int;
    let (a, r) = (n as int / w, n as int % w);
    assert(m == a || m == a + 1);
    assert(m * unit * d == m * w) by (nonlinear_arith)
        requires
            w == d * unit,
    ;
    assert(round_ratio(n, d) * d == m * w);
    assert(a * w == w * a && (a + 1) * w == w * a + w) by (nonlinear_arith);
    assert(2 * (m * w - n) <= w && 2 * (n - m * w) <= w);
    assert((m * w - n) * LIMIT <= n && (n - m * w) * LIMIT <= n) by (nonlinear_arith)
        requires
            2 * (m * w - n) <= w,
            2 * (n - m * w) <= w,
            w * LIMIT <= 2 * n,
            LIMIT == 0x20_0000_0000_0000,
    ;
}

/// For a step of whole length the cosine of its turn from an axis is its coordinate along
/// the axis over its length, to within the last of the 53 bits of a double.
pub proof fn cosines_are_ratios(x: int, y: int, l: int, m: int)
    requires
        x * x + y * y == l * l,
        0 < x <= l < 0x400_0000,
        0 < m < 0x400_0000,
    ensures
        -(x * pow2n(296)) <= (l * cosine((x, y), (m, 0)) - x * pow2n(296)) * 0x4_0000_0000_0000
            <= x * pow2n(296),
{
    lemma_exact_length(x, y, l);
    lemma_axis_length(m);
    lemma_axis_part(m);
    let ll = (l * pow2n(52)) as nat;
    lemma_pow2n_positive(52);
    assert(l * pow2n(52) > 0) by (nonlinear_arith)
        requires
            l > 0,
            pow2n(52) > 0,
    ;
    let n = (x * pow2n(148)) as nat;
    let d = l as nat;
    lemma_pow2n_joins(148, 52);
    assert(x * pow2n(200) == n * pow2n(52)) by (nonlinear_arith)
        requires
            n == x * pow2n(148),
            pow2n(200) == pow2n(148) * pow2n(52),
    ;
    ratio_cancels(n, d, pow2n(52));
    let p = round_ratio(n, d);
    assert(part(x, ll) == p);
    lemma_pow2n_values();
    lemma_pow2n_joins(104, 44);
    lemma_pow2n_positive(44);
    assert(n / d >= LIMIT) by {
        assert(n >= d * LIMIT) by (nonlinear_arith)
            requires
                n == x * pow2n(148),
                x >= 1,
                pow2n(148) == pow2n(104) * pow2n(44),
                pow2n(44) >= 1,
                pow2n(104) == 0x100_0000_0000_0000_0000_0000_0000,
                d < 0x400_0000,
                LIMIT == 0x20_0000_0000_0000,
        ;
        vstd::arithmetic::div_mod::lemma_div_is_ordered(d * LIMIT, n as int, d as int);
        vstd::arithmetic::div_mod::lemma_div_multiples_vanish(LIMIT as int, d as int);
    }
    lemma_ratio_close(n, d);
    let one = pow2n(148);
    lemma_pow2n_positive(148);
    let a = (p * one) as nat;
    rounding_is_close(a);
    let c1 = round_whole(a);
    rounding_is_close(c1);
    let c = round_whole(c1);
    assert(cosine((x, y), (m, 0)) == c) by {
        reveal(cosine);
        lemma_part_mirrors(0, (m * pow2n(52)) as nat);
        let py = part(y, ll);
        assert(py * 0 == 0) by (nonlinear_arith);
        lemma_round_zero();
        assert(p * one >= 0) by (nonlinear_arith)
            requires
                p >= 0,
                one >= 0,
        ;
    }
    lemma_pow2n_joins(148, 148);
    let t = x * pow2n(296);
    let la = l * a;
    let lc1 = l * c1;
    let lc = l * c;
    assert(n * one == t && (p * d) * one == la) by (nonlinear_arith)
        requires
            n == x * pow2n(148),
            one == pow2n(148),
            t == x * pow2n(296),
            pow2n(296) == pow2n(148) * pow2n(148),
            a == p * one,
            la == l * a,
            d == l,
    ;
    assert((la - t) * LIMIT <= t && (t - la) * LIMIT <= t) by (nonlinear_arith)
        requires
            (p * d - n) * LIMIT <= n,
            (n - p * d) * LIMIT <= n,
            n * one == t,
            (p * d) * one == la,
            one >= 0,
    ;
    assert((lc1 - la) * LIMIT <= la && (la - lc1) * LIMIT <= la) by (nonlinear_arith)
        requires
            (c1 - a) * 0x20_0000_0000_0000 <= a,
            (a - c1) * 0x20_0000_0000_0000 <= a,
            lc1 == l * c1,
            la == l * a,
            l > 0,
            LIMIT == 0x20_0000_0000_0000,
    ;
    assert((lc - lc1) * LIMIT <= lc1 && (lc1 - lc) * LIMIT <= lc1) by (nonlinear_arith)
        requires
            (c - c1) * 0x20_0000_0000_0000 <= c1,
            (c1 - c) * 0x20_0000_0000_0000 <= c1,
            lc1 == l * c1,
            lc == l * c,
            l > 0,
            LIMIT == 0x20_0000_0000_0000,
    ;
    lemma_pow2n_positive(296);
    assert(t >= 0) by (nonlinear_arith)
        requires
            t == x * pow2n(296),
            x > 0,
            pow2n(296) > 0,
    ;
}

} // verus!
