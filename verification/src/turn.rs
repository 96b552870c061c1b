//! How straight one direction continues another: the cosine of the turn, in doubles.

use vstd::prelude::*;

use crate::bytes::pow2n;
use crate::double::{
    excess, lemma_excess, lemma_pow2n_joins, lemma_pow2n_values, pow2, ratio_bounded, ratio_cancels,
    ratio_scales, round, round_of, round_ratio, round_signed, round_whole, rounding_keeps_half,
    rounding_mirrors, Rounded, LIMIT,
};
use crate::hilbert::{lemma_pow2n_monotone, lemma_pow2n_positive};

verus! {

// ---- lengths ----

/// `r` is the whole number nearest the square root of `n`.
pub open spec fn is_nearest_root(n: nat, r: nat) -> bool {
    n <= r * r + r && (r > 0 ==> r * r < n + r)
}

pub open spec fn nearest_root(n: nat) -> nat {
    choose|r: nat| is_nearest_root(n, r)
}

/// How often a number can be divided by four.
pub open spec fn quarterings(s: nat) -> nat
    decreases s,
{
    if s < 4 {
        0
    } else {
        1 + quarterings(s / 4)
    }
}

/// The square root of a whole number below `2^64` as a double, in units of `2^-52`.
pub open spec fn root(s: nat) -> nat {
    let k = quarterings(s);
    nearest_root(s * pow2n((104 - 2 * k) as nat)) * pow2n(k)
}

/// The length of a direction as a double, in units of `2^-52`.
pub open spec fn length(u: (int, int)) -> nat {
    let s = round_whole(
        round_whole((u.0 * u.0) as nat) + round_whole((u.1 * u.1) as nat),
    );
    if s == 0 {
        0
    } else {
        root(s)
    }
}

// ---- the cosine ----

/// A coordinate of a direction over its length as a double, in units of `2^-148`; nothing
/// of a direction of no length.
pub open spec fn part(c: int, length: nat) -> int {
    if length == 0 {
        0
    } else if c >= 0 {
        round_ratio((c * pow2n(200)) as nat, length) as int
    } else {
        -(round_ratio(((-c) * pow2n(200)) as nat, length) as int)
    }
}

/// The cosine of the turn from `u` to `v` as a double, in units of `2^-296`.
#[verifier::opaque]
pub open spec fn cosine(u: (int, int), v: (int, int)) -> int {
    let (a, b) = (length(u), length(v));
    round_signed(
        round_signed(part(u.0, a) * part(v.0, b)) + round_signed(part(u.1, a) * part(v.1, b)),
    )
}

pub proof fn lemma_root_unique(n: nat, a: nat, b: nat)
    requires
        is_nearest_root(n, a),
        is_nearest_root(n, b),
    ensures
        a == b,
{
    if a < b {
        assert(a * a + a <= b * b - b) by (nonlinear_arith)
            requires
                a < b,
        ;
    } else if b < a {
        assert(b * b + b <= a * a - a) by (nonlinear_arith)
            requires
                b < a,
        ;
    }
}

pub proof fn lemma_quarterings(s: nat)
    requires
        s > 0,
    ensures
        pow2n(2 * quarterings(s)) <= s < pow2n(2 * quarterings(s) + 2),
    decreases s,
{
    let k = quarterings(s);
    reveal_with_fuel(pow2n, 3);
    if s >= 4 {
        lemma_quarterings(s / 4);
    }
}

/// The square root of a whole number.
fn root_of(s: u128) -> (r: Rounded)
    requires
        0 < s < 0x1_0000_0000_0000_0000,
    ensures
        r.value() == root(s as nat),
        r.m <= LIMIT <= 2 * r.m,
        r.k <= 31,
        s * pow2n(104) <= 2 * (r.value() * r.value()),
{
    let mut q: u128 = s;
    let mut k: u32 = 0;
    while q >= 4
        invariant
            quarterings(s as nat) == k + quarterings(q as nat),
            q > 0,
            k + q <= s,
            0 < s < 0x1_0000_0000_0000_0000,
            k <= 31,
        decreases q,
    {
        proof {
            lemma_quarterings(s as nat);
            if k >= 31 {
                lemma_pow2n_monotone(64, (2 * quarterings(s as nat)) as nat);
                lemma_pow2n_values();
            }
        }
        q = q / 4;
        k = k + 1;
    }
    let scale: u128 = pow2(104 - 2 * k);
    proof {
        lemma_quarterings(s as nat);
        lemma_pow2n_joins((2 * k) as nat, (104 - 2 * k) as nat);
        lemma_pow2n_joins((2 * k + 2) as nat, (104 - 2 * k) as nat);
        lemma_pow2n_values();
        let (low, high) = (pow2n((2 * k) as nat), pow2n((2 * k + 2) as nat));
        assert(low * scale <= s * scale && s * scale < high * scale) by (nonlinear_arith)
            requires
                low <= s,
                s < high,
                scale > 0,
        ;
    }
    let n: u128 = s * scale;
    let mut lo: u64 = 0x10_0000_0000_0000;
    let mut hi: u64 = LIMIT;
    assert(lo * lo == 0x100_0000_0000_0000_0000_0000_0000 && hi * hi
        == 0x400_0000_0000_0000_0000_0000_0000) by (nonlinear_arith)
        requires
            lo == 0x10_0000_0000_0000,
            hi == LIMIT,
    ;
    while hi - lo > 1
        invariant
            0x10_0000_0000_0000 <= lo < hi <= LIMIT,
            lo * lo <= n < hi * hi,
        decreases hi - lo,
    {
        let mid: u64 = lo + (hi - lo) / 2;
        assert(mid * mid <= u128::MAX) by (nonlinear_arith)
            requires
                mid <= LIMIT,
        ;
        if (mid as u128) * (mid as u128) <= n {
            lo = mid;
        } else {
            hi = mid;
        }
    }
    assert(lo * lo <= u128::MAX) by (nonlinear_arith)
        requires
            lo <= LIMIT,
    ;
    let rest: u128 = n - (lo as u128) * (lo as u128);
    let m: u64 = if rest > lo as u128 {
        lo + 1
    } else {
        lo
    };
    proof {
        let (l, r) = (lo as int, m as int);
        assert((l + 1) * (l + 1) == l * l + 2 * l + 1) by (nonlinear_arith);
        assert(is_nearest_root(n as nat, r as nat));
        lemma_root_unique(n as nat, r as nat, nearest_root(n as nat));
        // The root is at least one, so `r <= r * r`.
        let p = pow2n(k as nat) as int;
        lemma_pow2n_joins(k as nat, k as nat);
        lemma_pow2n_joins((2 * k) as nat, (104 - 2 * k) as nat);
        assert(s * pow2n(104) == n * (p * p)) by (nonlinear_arith)
            requires
                n == s * scale,
                pow2n(104) == (p * p) * scale,
        ;
        assert(n * (p * p) <= 2 * ((r * p) * (r * p))) by (nonlinear_arith)
            requires
                n <= r * r + r,
                r >= 1,
        ;
    }
    Rounded { m, k }
}

/// A direction whose coordinates 32 bits hold.
pub open spec fn is_small(u: (i64, i64)) -> bool {
    -0x8000_0000 <= u.0 <= 0x8000_0000 && -0x8000_0000 <= u.1 <= 0x8000_0000
}

pub open spec fn dir_view(u: (i64, i64)) -> (int, int) {
    (u.0 as int, u.1 as int)
}

fn size_of(c: i64) -> (r: u128)
    requires
        -0x8000_0000 <= c <= 0x8000_0000,
    ensures
        r == if c >= 0 {
            c as int
        } else {
            -(c as int)
        },
{
    if c >= 0 {
        c as u128
    } else {
        (-c) as u128
    }
}

/// The square of a coordinate, rounded.
fn square_of(c: i64) -> (r: u128)
    requires
        -0x8000_0000 <= c <= 0x8000_0000,
    ensures
        r == round_whole((c * c) as nat),
        r <= 0x4000_0000_0000_0000,
        2 * r >= c * c,
{
    let n: u128 = size_of(c);
    assert(n * n == c * c && n * n <= 0x4000_0000_0000_0000) by (nonlinear_arith)
        requires
            n == c || n == -c,
            n <= 0x8000_0000,
    ;
    let square: u128 = n * n;
    let r = round_of(square);
    proof {
        lemma_pow2n_values();
        ratio_bounded(square as nat, 1, 62);
        rounding_keeps_half(square as nat);
    }
    r.whole()
}

/// The length of a direction.
fn length_of(u: (i64, i64)) -> (r: Rounded)
    requires
        is_small(u),
    ensures
        r.value() == length(dir_view(u)),
        r.m == 0 <==> length(dir_view(u)) == 0,
        u.0 != 0 || u.1 != 0 ==> r.m <= LIMIT <= 2 * r.m && r.k <= 31,
        -r.value() <= u.0 * pow2n(50) <= r.value(),
        -r.value() <= u.1 * pow2n(50) <= r.value(),
{
    let (a, b) = (square_of(u.0), square_of(u.1));
    let sum: u128 = a + b;
    let rounded = round_of(sum);
    proof {
        lemma_pow2n_values();
        ratio_bounded(sum as nat, 1, 63);
        rounding_keeps_half(sum as nat);
    }
    let s: u128 = rounded.whole();
    if s == 0 {
        proof {
            let (x, y) = (u.0 as int, u.1 as int);
            assert(x == 0 && y == 0) by (nonlinear_arith)
                requires
                    x * x <= 0,
                    y * y <= 0,
            ;
            assert(0 * pow2n(0) == 0) by (nonlinear_arith);
        }
        return Rounded { m: 0, k: 0 };
    }
    let r = root_of(s);
    proof {
        let l = r.value() as int;
        lemma_pow2n_positive(r.k as nat);
        let (m, p) = (r.m as int, pow2n(r.k as nat) as int);
        assert(m * p > 0) by (nonlinear_arith)
            requires
                m > 0,
                p > 0,
        ;
        lemma_pow2n_joins(52, 52);
        lemma_long_enough(u.0 as int, s as int, l);
        lemma_long_enough(u.1 as int, s as int, l);
    }
    r
}

proof fn lemma_long_enough(x: int, s: int, l: int)
    requires
        x * x <= 4 * s,
        s * pow2n(104) <= 2 * (l * l),
        l > 0,
    ensures
        -l <= x * pow2n(50) <= l,
{
    lemma_pow2n_values();
    lemma_pow2n_joins(52, 52);
    let p = pow2n(50) as int;
    let w = pow2n(104) as int;
    assert(w == 16 * (p * p));
    let z = x * p;
    assert((x * x) * w <= (4 * s) * w) by (nonlinear_arith)
        requires
            x * x <= 4 * s,
            w > 0,
    ;
    assert(16 * (z * z) <= 8 * (l * l)) by (nonlinear_arith)
        requires
            (x * x) * w <= (4 * s) * w,
            s * w <= 2 * (l * l),
            w == 16 * (p * p),
            z == x * p,
    ;
    assert(-l <= z <= l) by (nonlinear_arith)
        requires
            16 * (z * z) <= 8 * (l * l),
            l > 0,
    ;
}

/// A coordinate of a unit direction.
#[derive(Clone, Copy)]
struct Part {
    negative: bool,
    size: Rounded,
}

impl Part {
    spec fn value(&self) -> int {
        if self.negative {
            -(self.size.value() as int)
        } else {
            self.size.value() as int
        }
    }

    /// Nothing, or a number with all significant bits between `2^-32` and 4.
    spec fn in_range(&self) -> bool {
        self.size.m == 0 || (self.size.m <= LIMIT <= 2 * self.size.m && 63 <= self.size.k <= 98)
    }
}

/// A quotient with its numerator shifted up to the top.
proof fn lemma_shifted_quotient(c: nat, a: nat, s: nat, l: Rounded)
    requires
        a == c * pow2n(s),
        s <= 62,
        LIMIT <= 2 * l.m,
        l.m <= LIMIT,
        l.k <= 31,
        0x4000_0000_0000_0000 <= a < 0x8000_0000_0000_0000,
    ensures
        round_ratio(c * pow2n(200), l.value()) == round_ratio(a * pow2n(64), l.m as nat) * pow2n(
            (136 - s - l.k) as nat,
        ),
        21 <= excess((a * pow2n(64)) / l.m as nat),
        LIMIT <= 2 * ((a * pow2n(64)) / l.m as nat),
{
    let m = l.m as nat;
    let k = l.k as nat;
    let j = (136 - s - k) as nat;
    let n = a * pow2n(64);
    let q = n / m;
    lemma_pow2n_values();
    assert(q >= 0x200_0000_0000_0000_0000) by {
        vstd::arithmetic::div_mod::lemma_fundamental_div_mod(n as int, m as int);
        assert(q >= 0x200_0000_0000_0000_0000) by (nonlinear_arith)
            requires
                n == m * q + n % m,
                0 <= n % m < m,
                m <= LIMIT,
                n >= 0x4000_0000_0000_0000 * 0x1_0000_0000_0000_0000,
        ;
    }
    lemma_excess(q);
    if excess(q) < 21 {
        lemma_pow2n_monotone(excess(q), 20);
    }
    ratio_scales(n, m, j);
    lemma_pow2n_joins(j, k);
    lemma_pow2n_joins(s, (64 + j + k) as nat);
    lemma_pow2n_joins(64, (j + k) as nat);
    assert(s + (64 + j + k) == 200);
    let (ps, p64, pj, pk) = (pow2n(s), pow2n(64), pow2n(j), pow2n(k));
    assert(c * (ps * (p64 * (pj * pk))) == ((c * ps) * p64 * pj) * pk) by (nonlinear_arith);
    lemma_pow2n_positive(k);
    ratio_cancels(n * pj, m, pk);
}

/// A coordinate over the length of its direction.
fn part_of(c: i64, l: Rounded) -> (r: Part)
    requires
        -0x8000_0000 <= c <= 0x8000_0000,
        -l.value() <= c * pow2n(50) <= l.value(),
        l.m == 0 <==> l.value() == 0,
        c != 0 ==> l.m <= LIMIT <= 2 * l.m && l.k <= 31,
    ensures
        r.value() == part(c as int, l.value()),
        r.in_range(),
{
    let negative: bool = c < 0;
    if c == 0 {
        proof {
            assert(0 * pow2n(0) == 0 && 0 * pow2n(200) == 0) by (nonlinear_arith);
            if l.value() > 0 {
                lemma_zero_ratio(l.value());
            }
        }
        return Part { negative, size: Rounded { m: 0, k: 0 } };
    }
    let size: u128 = size_of(c);
    let mut a: u128 = size;
    let mut s: u32 = 0;
    assert(size * pow2n(0) == size) by (nonlinear_arith)
        requires
            pow2n(0) == 1,
    ;
    while a < 0x4000_0000_0000_0000
        invariant
            1 <= size,
            1 <= a,
            a == size * pow2n(s as nat),
            a < 0x8000_0000_0000_0000,
            s <= 62,
            pow2n(s as nat) <= a,
        decreases 0x8000_0000_0000_0000 - a,
    {
        let ghost p = pow2n(s as nat);
        assert(pow2n((s + 1) as nat) == 2 * p);
        assert(size * (2 * p) == 2 * (size * p)) by (nonlinear_arith);
        proof {
            lemma_pow2n_values();
        }
        a = a * 2;
        s = s + 1;
    }
    proof {
        lemma_shifted_quotient(size as nat, a as nat, s as nat, l);
        lemma_pow2n_values();
    }
    let q = round(a * 0x1_0000_0000_0000_0000, l.m as u128);
    let k: u32 = q.k + (136 - s - l.k);
    let r = Rounded { m: q.m, k };
    proof {
        let (pq, pj) = (pow2n(q.k as nat), pow2n((136 - s - l.k) as nat));
        lemma_pow2n_joins(q.k as nat, (136 - s - l.k) as nat);
        let m = q.m as nat;
        assert(m * (pq * pj) == (m * pq) * pj) by (nonlinear_arith);
        // Four is an upper bound.
        let n = (size * pow2n(200)) as nat;
        lemma_pow2n_joins(50, 150);
        let (p50, p150) = (pow2n(50) as int, pow2n(150) as int);
        let lv = l.value() as int;
        assert(size * p50 <= lv) by (nonlinear_arith)
            requires
                size == c || size == -c,
                -lv <= c * p50 <= lv,
        ;
        lemma_pow2n_positive(150);
        assert(size * (p50 * p150) <= lv * p150) by (nonlinear_arith)
            requires
                size * p50 <= lv,
                p150 > 0,
        ;
        ratio_bounded(n, l.value(), 150);
        if k > 98 {
            lemma_pow2n_monotone(99, k as nat);
            lemma_pow2n_joins(51, 99);
            lemma_pow2n_values();
            let (p99, pk) = (pow2n(99) as int, pow2n(k as nat) as int);
            lemma_pow2n_positive(99);
            assert(m * pk > 0x8_0000_0000_0000 * p99) by (nonlinear_arith)
                requires
                    m >= 0x10_0000_0000_0000,
                    pk >= p99,
                    p99 > 0,
            ;
            assert(false);
        }
    }
    Part { negative, size: r }
}

pub proof fn lemma_zero_ratio(d: nat)
    requires
        d > 0,
    ensures
        round_ratio(0, d) == 0,
{
    assert(pow2n(0) == 1);
    assert(0nat / d == 0 && 0nat % d == 0) by {
        vstd::arithmetic::div_mod::lemma_fundamental_div_mod_converse(0, d as int, 0, 0);
    }
    assert(d * pow2n(0) == d && 0 * pow2n(0) == 0) by (nonlinear_arith)
        requires
            pow2n(0) == 1,
    ;
}

/// The product of two parts, in units of `2^-118`.
fn product_of(a: Part, b: Part) -> (r: i128)
    requires
        a.in_range(),
        b.in_range(),
    ensures
        r * pow2n(178) == round_signed(a.value() * b.value()),
        -0x2000_0000_0000_0000_0000_0000_0000_0000 <= r <= 0x2000_0000_0000_0000_0000_0000_0000_0000,
{
    let ghost (pa, pb) = (pow2n(a.size.k as nat) as int, pow2n(b.size.k as nat) as int);
    let ghost (ma, mb) = (a.size.m as int, b.size.m as int);
    if a.size.m == 0 || b.size.m == 0 {
        proof {
            assert(a.value() * b.value() == 0) by (nonlinear_arith)
                requires
                    a.value() == ma * pa || a.value() == -(ma * pa),
                    b.value() == mb * pb || b.value() == -(mb * pb),
                    ma == 0 || mb == 0,
            ;
            rounding_keeps_half(0);
            assert(0 * pow2n(178) == 0) by (nonlinear_arith);
        }
        return 0;
    }
    assert(0x100_0000_0000_0000_0000_0000_0000 <= ma * mb <= 0x400_0000_0000_0000_0000_0000_0000)
        by (nonlinear_arith)
        requires
            0x10_0000_0000_0000 <= ma <= LIMIT,
            0x10_0000_0000_0000 <= mb <= LIMIT,
    ;
    let n: u128 = (a.size.m as u128) * (b.size.m as u128);
    let q = round(n, 1);
    proof {
        assert(n as nat / 1 == n as nat);
        lemma_excess(n as nat);
        lemma_pow2n_values();
        if q.k < 52 {
            lemma_pow2n_monotone(q.k as nat, 51);
        }
        if q.k > 54 {
            lemma_pow2n_monotone(55, q.k as nat);
        }
    }
    let shift: u32 = q.k + a.size.k + b.size.k - 178;
    let scale: u128 = pow2(shift);
    let ghost (m, p) = (q.m as int, pow2n(178) as int);
    proof {
        lemma_pow2n_monotone(shift as nat, 72);
        lemma_pow2n_values();
        assert(q.m * scale <= 0x2000_0000_0000_0000_0000_0000_0000_0000) by (nonlinear_arith)
            requires
                q.m <= LIMIT,
                scale <= 0x100_0000_0000_0000_0000,
        ;
    }
    let size: i128 = ((q.m as u128) * scale) as i128;
    proof {
        let e = (a.size.k + b.size.k) as nat;
        lemma_pow2n_joins(a.size.k as nat, b.size.k as nat);
        lemma_pow2n_joins(q.k as nat, e);
        lemma_pow2n_joins(shift as nat, 178);
        ratio_scales(n as nat, 1, e);
        let pq = pow2n(q.k as nat) as int;
        assert((ma * pa) * (mb * pb) == (ma * mb) * (pa * pb)) by (nonlinear_arith);
        assert(m * (pq * (pa * pb)) == (m * pq) * (pa * pb)) by (nonlinear_arith);
        assert((m * scale) * p == m * (scale * p)) by (nonlinear_arith);
        let v = (ma * pa) * (mb * pb);
        assert(size * p == round_signed(v)) by {
            assert(v == n * (pa * pb));
            assert(v >= 0) by (nonlinear_arith)
                requires
                    v == n * (pa * pb),
                    n >= 0,
                    pa >= 0,
                    pb >= 0,
            ;
        }
        rounding_mirrors(v);
        let (x, y) = (a.value(), b.value());
        assert(x * y == if a.negative == b.negative {
            v
        } else {
            -v
        }) by (nonlinear_arith)
            requires
                v == (ma * pa) * (mb * pb),
                x == if a.negative {
                    -(ma * pa)
                } else {
                    ma * pa
                },
                y == if b.negative {
                    -(mb * pb)
                } else {
                    mb * pb
                },
        ;
        assert((-size) * p == -(size * p)) by (nonlinear_arith);
    }
    if a.negative == b.negative {
        size
    } else {
        -size
    }
}

/// The cosine of the turn from `u` to `v`, in units of `2^-118`.
pub fn cosine_of(u: (i64, i64), v: (i64, i64)) -> (r: i128)
    requires
        is_small(u),
        is_small(v),
    ensures
        r * pow2n(178) == cosine(dir_view(u), dir_view(v)),
{
    let (lu, lv) = (length_of(u), length_of(v));
    let x: i128 = product_of(part_of(u.0, lu), part_of(v.0, lv));
    let y: i128 = product_of(part_of(u.1, lu), part_of(v.1, lv));
    let sum: i128 = x + y;
    let size: u128 = if sum >= 0 {
        sum as u128
    } else {
        (-sum) as u128
    };
    let rounded = round_of(size);
    let ghost p = pow2n(178) as int;
    proof {
        reveal(cosine);
        lemma_pow2n_values();
        ratio_bounded(size as nat, 1, 126);
        ratio_scales(size as nat, 1, 178);
        assert((x + y) * p == x * p + y * p) by (nonlinear_arith);
        let (n, w) = (size as int, rounded.value() as int);
        lemma_pow2n_positive(178);
        assert(n * p >= 0) by (nonlinear_arith)
            requires
                n >= 0,
                p >= 0,
        ;
        assert((-n) * p == -(n * p) && (-w) * p == -(w * p)) by (nonlinear_arith);
        rounding_mirrors(n * p);
    }
    let whole: i128 = rounded.whole() as i128;
    if sum >= 0 {
        whole
    } else {
        -whole
    }
}

} // verus!
