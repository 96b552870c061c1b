//! Tile ids along the Hilbert curve.

use vstd::arithmetic::div_mod::{lemma_fundamental_div_mod, lemma_fundamental_div_mod_converse};
use vstd::prelude::*;

use crate::bytes::pow2n;

verus! {

/// The position of a quadrant along the curve; `rx` and `ry` say whether it is the
/// right and the lower one.
pub open spec fn quadrant(rx: int, ry: int) -> int {
    if rx == 0 && ry == 0 {
        0
    } else if rx == 0 {
        1
    } else if ry == 1 {
        2
    } else {
        3
    }
}

/// A point of a quadrant of side `h` in the quadrant's own frame: the upper quadrants
/// are mirrored on a diagonal.
pub open spec fn oriented(h: int, rx: int, ry: int, x: int, y: int) -> (int, int) {
    if ry == 1 {
        (x, y)
    } else if rx == 1 {
        (h - 1 - y, h - 1 - x)
    } else {
        (y, x)
    }
}

/// The Hilbert index of `(x, y)` in a square of side `2^z`: the quadrant, then the
/// index within it.
pub open spec fn hilbert_index(z: nat, x: int, y: int) -> int
    decreases z,
{
    if z == 0 {
        0
    } else {
        let h = pow2n((z - 1) as nat) as int;
        let rx = x / h;
        let ry = y / h;
        let (u, v) = oriented(h, rx, ry, x % h, y % h);
        quadrant(rx, ry) * (h * h) + hilbert_index((z - 1) as nat, u, v)
    }
}

/// The point with a Hilbert index.
pub open spec fn hilbert_point(z: nat, d: int) -> (int, int)
    decreases z,
{
    if z == 0 {
        (0, 0)
    } else {
        let h = pow2n((z - 1) as nat) as int;
        let q = d / (h * h);
        let (u, v) = hilbert_point((z - 1) as nat, d % (h * h));
        let rx = if q >= 2 {
            1int
        } else {
            0
        };
        let ry = if q == 1 || q == 2 {
            1int
        } else {
            0
        };
        let (x, y) = oriented(h, rx, ry, u, v);
        (rx * h + x, ry * h + y)
    }
}

pub open spec fn in_square(z: nat, x: int, y: int) -> bool {
    0 <= x < pow2n(z) && 0 <= y < pow2n(z)
}

pub proof fn lemma_pow2n_positive(z: nat)
    ensures
        pow2n(z) >= 1,
    decreases z,
{
    if z > 0 {
        lemma_pow2n_positive((z - 1) as nat);
    }
}

proof fn lemma_split(z: nat, x: int)
    requires
        z > 0,
        0 <= x < pow2n(z),
    ensures
        ({
            let h = pow2n((z - 1) as nat) as int;
            &&& h >= 1
            &&& 0 <= x / h <= 1
            &&& 0 <= x % h < h
            &&& x == (x / h) * h + x % h
        }),
{
    let h = pow2n((z - 1) as nat) as int;
    lemma_pow2n_positive((z - 1) as nat);
    lemma_fundamental_div_mod(x, h);
    let q = x / h;
    assert(h * q == q * h) by (nonlinear_arith);
    assert(0 <= q <= 1) by (nonlinear_arith)
        requires
            x == q * h + x % h,
            0 <= x % h < h,
            0 <= x < 2 * h,
            h >= 1,
    ;
}

proof fn lemma_unit_square()
    ensures
        pow2n(0) == 1,
        pow2n(0) * pow2n(0) == 1,
{
    assert(pow2n(0) * pow2n(0) == 1) by (nonlinear_arith)
        requires
            pow2n(0) == 1,
    ;
}

proof fn lemma_area(z: nat)
    requires
        z > 0,
    ensures
        pow2n(z) * pow2n(z) == 4 * (pow2n((z - 1) as nat) * pow2n((z - 1) as nat)),
        pow2n((z - 1) as nat) * pow2n((z - 1) as nat) >= 1,
{
    let h = pow2n((z - 1) as nat);
    lemma_pow2n_positive((z - 1) as nat);
    assert((2 * h) * (2 * h) == 4 * (h * h)) by (nonlinear_arith);
    assert(h * h >= 1) by (nonlinear_arith)
        requires
            h >= 1,
    ;
}

/// The index of a point is below the area of the square, and the point with that index
/// is the point.
pub proof fn hilbert_roundtrip(z: nat, x: int, y: int)
    requires
        in_square(z, x, y),
    ensures
        0 <= hilbert_index(z, x, y) < pow2n(z) * pow2n(z),
        hilbert_point(z, hilbert_index(z, x, y)) == (x, y),
    decreases z,
{
    if z == 0 {
        lemma_unit_square();
    } else {
        let h = pow2n((z - 1) as nat) as int;
        lemma_split(z, x);
        lemma_split(z, y);
        lemma_area(z);
        let rx = x / h;
        let ry = y / h;
        let (u, v) = oriented(h, rx, ry, x % h, y % h);
        hilbert_roundtrip((z - 1) as nat, u, v);
        let r = hilbert_index((z - 1) as nat, u, v);
        let a = h * h;
        let q = quadrant(rx, ry);
        let d = q * a + r;
        assert(0 <= d < 4 * a) by (nonlinear_arith)
            requires
                d == q * a + r,
                0 <= q <= 3,
                0 <= r < a,
        ;
        assert(d == a * q + r) by (nonlinear_arith)
            requires
                d == q * a + r,
        ;
        lemma_fundamental_div_mod_converse(d, a, q, r);
    }
}

/// The point with an index is in the square, and its index is that index.
pub proof fn hilbert_point_roundtrip(z: nat, d: int)
    requires
        0 <= d < pow2n(z) * pow2n(z),
    ensures
        ({
            let (x, y) = hilbert_point(z, d);
            in_square(z, x, y) && hilbert_index(z, x, y) == d
        }),
    decreases z,
{
    if z == 0 {
        lemma_unit_square();
    } else {
        let h = pow2n((z - 1) as nat) as int;
        lemma_pow2n_positive((z - 1) as nat);
        lemma_area(z);
        let a = h * h;
        lemma_fundamental_div_mod(d, a);
        let q = d / a;
        let r = d % a;
        assert(0 <= q <= 3) by (nonlinear_arith)
            requires
                d == a * q + r,
                0 <= r < a,
                0 <= d < 4 * a,
        ;
        hilbert_point_roundtrip((z - 1) as nat, r);
        let (u, v) = hilbert_point((z - 1) as nat, r);
        let rx = if q >= 2 {
            1int
        } else {
            0
        };
        let ry = if q == 1 || q == 2 {
            1int
        } else {
            0
        };
        let (px, py) = oriented(h, rx, ry, u, v);
        let x = rx * h + px;
        let y = ry * h + py;
        assert(0 <= px < h && 0 <= py < h);
        lemma_fundamental_div_mod_converse(x, h, rx, px);
        lemma_fundamental_div_mod_converse(y, h, ry, py);
        assert(oriented(h, rx, ry, px, py) == (u, v));
        assert(quadrant(rx, ry) == q);
        assert(q * a == a * q) by (nonlinear_arith);
    }
}

/// Whether two cells share a side.
pub open spec fn adjacent(x1: int, y1: int, x2: int, y2: int) -> bool {
    ||| x1 == x2 && (y1 + 1 == y2 || y2 + 1 == y1)
    ||| y1 == y2 && (x1 + 1 == x2 || x2 + 1 == x1)
}

/// A point of the curve seen from one level up: its quadrant and its place there.
proof fn lemma_point_in(z: nat, q: int, r: int)
    requires
        z > 0,
        0 <= q <= 3,
        0 <= r < pow2n((z - 1) as nat) * pow2n((z - 1) as nat),
    ensures
        ({
            let h = pow2n((z - 1) as nat) as int;
            let (u, v) = hilbert_point((z - 1) as nat, r);
            hilbert_point(z, q * (h * h) + r) == (if q == 0 {
                (v, u)
            } else if q == 1 {
                (u, h + v)
            } else if q == 2 {
                (h + u, h + v)
            } else {
                (h + (h - 1 - v), h - 1 - u)
            })
        }),
{
    let h = pow2n((z - 1) as nat) as int;
    let a = h * h;
    let d = q * a + r;
    assert(d == a * q + r) by (nonlinear_arith)
        requires
            d == q * a + r,
    ;
    lemma_fundamental_div_mod_converse(d, a, q, r);
}

/// The curve starts in the upper left corner and ends in the upper right one.
proof fn lemma_curve_ends(z: nat)
    ensures
        hilbert_point(z, 0) == (0int, 0int),
        hilbert_point(z, pow2n(z) * pow2n(z) - 1) == (pow2n(z) - 1, 0int),
    decreases z,
{
    if z == 0 {
        lemma_unit_square();
    } else {
        let h = pow2n((z - 1) as nat) as int;
        let a = h * h;
        lemma_area(z);
        lemma_curve_ends((z - 1) as nat);
        lemma_point_in(z, 0, 0);
        lemma_point_in(z, 3, a - 1);
    }
}

/// A step of the curve.
proof fn lemma_curve_step(z: nat, d: int)
    requires
        0 <= d,
        d + 1 < pow2n(z) * pow2n(z),
    ensures
        ({
            let (x1, y1) = hilbert_point(z, d);
            let (x2, y2) = hilbert_point(z, d + 1);
            adjacent(x1, y1, x2, y2)
        }),
    decreases z,
{
    if z == 0 {
        lemma_unit_square();
    } else {
        let h = pow2n((z - 1) as nat) as int;
        let a = h * h;
        lemma_area(z);
        lemma_fundamental_div_mod(d, a);
        let q = d / a;
        let r = d % a;
        assert(0 <= q <= 3) by (nonlinear_arith)
            requires
                d == a * q + r,
                0 <= r < a,
                0 <= d < 4 * a,
        ;
        assert(a * q == q * a) by (nonlinear_arith);
        lemma_point_in(z, q, r);
        if r + 1 < a {
            lemma_curve_step((z - 1) as nat, r);
            lemma_point_in(z, q, r + 1);
        } else {
            assert((q + 1) * a == q * a + a) by (nonlinear_arith);
            assert(q < 3);
            lemma_curve_ends((z - 1) as nat);
            lemma_point_in(z, q + 1, 0);
        }
    }
}

/// Two cells whose indices are one apart share a side.
pub proof fn hilbert_neighbours(z: nat, x1: int, y1: int, x2: int, y2: int)
    requires
        in_square(z, x1, y1),
        in_square(z, x2, y2),
        hilbert_index(z, x1, y1) + 1 == hilbert_index(z, x2, y2),
    ensures
        adjacent(x1, y1, x2, y2),
{
    hilbert_roundtrip(z, x1, y1);
    hilbert_roundtrip(z, x2, y2);
    lemma_curve_step(z, hilbert_index(z, x1, y1));
}

/// How many tiles lie at the zooms below `z`.
pub open spec fn zoom_offset(z: nat) -> nat
    decreases z,
{
    if z == 0 {
        0
    } else {
        4 * zoom_offset((z - 1) as nat) + 1
    }
}

/// The id of a tile: the tiles of all coarser zooms, then its Hilbert index.
pub open spec fn tile_id_of(z: nat, x: int, y: int) -> int {
    zoom_offset(z) + hilbert_index(z, x, y)
}

pub proof fn lemma_zoom_offset_step(z: nat)
    ensures
        zoom_offset(z + 1) == zoom_offset(z) + pow2n(z) * pow2n(z),
    decreases z,
{
    if z > 0 {
        lemma_zoom_offset_step((z - 1) as nat);
        lemma_area(z);
    } else {
        lemma_unit_square();
        assert(zoom_offset(1) == 4 * zoom_offset(0) + 1);
    }
}

proof fn lemma_zoom_offset_monotone(a: nat, b: nat)
    requires
        a <= b,
    ensures
        zoom_offset(a) <= zoom_offset(b),
    decreases b,
{
    if a < b {
        lemma_zoom_offset_monotone(a, (b - 1) as nat);
    }
}

/// Tiles have distinct ids, and all ids of a zoom lie between the offsets of that zoom
/// and the next.
pub proof fn tile_id_injective(z1: nat, x1: int, y1: int, z2: nat, x2: int, y2: int)
    requires
        in_square(z1, x1, y1),
        in_square(z2, x2, y2),
    ensures
        zoom_offset(z1) <= tile_id_of(z1, x1, y1) < zoom_offset(z1 + 1),
        tile_id_of(z1, x1, y1) == tile_id_of(z2, x2, y2) ==> (z1, x1, y1) == (z2, x2, y2),
{
    hilbert_roundtrip(z1, x1, y1);
    hilbert_roundtrip(z2, x2, y2);
    lemma_zoom_offset_step(z1);
    lemma_zoom_offset_step(z2);
    if z1 < z2 {
        lemma_zoom_offset_monotone(z1 + 1, z2);
    } else if z2 < z1 {
        lemma_zoom_offset_monotone(z2 + 1, z1);
    }
}

proof fn lemma_bit(x: int, h: int, n: int, m: int)
    requires
        h >= 1,
        n == m * (2 * h),
        0 <= x < n,
    ensures
        (x / h) % 2 == (x % (2 * h)) / h,
        (x % (2 * h)) % h == x % h,
        (n - 1 - x) % h == h - 1 - x % h,
{
    let q = x / (2 * h);
    let r = x % (2 * h);
    lemma_fundamental_div_mod(x, 2 * h);
    lemma_fundamental_div_mod(r, h);
    let b = r / h;
    let s = r % h;
    assert(0 <= b <= 1) by (nonlinear_arith)
        requires
            r == h * b + s,
            0 <= s < h,
            0 <= r < 2 * h,
    ;
    assert(x == h * (2 * q + b) + s) by (nonlinear_arith)
        requires
            x == (2 * h) * q + r,
            r == h * b + s,
    ;
    lemma_fundamental_div_mod_converse(x, h, 2 * q + b, s);
    let k = 2 * m - 1 - (2 * q + b);
    assert(n - 1 - x == h * k + (h - 1 - s)) by (nonlinear_arith)
        requires
            n == m * (2 * h),
            x == h * (2 * q + b) + s,
            k == 2 * m - 1 - (2 * q + b),
    ;
    lemma_fundamental_div_mod_converse(n - 1 - x, h, k, h - 1 - s);
}

pub proof fn lemma_pow2n_factor(a: nat, b: nat)
    requires
        a <= b,
    ensures
        pow2n(b) == pow2n((b - a) as nat) * pow2n(a),
    decreases b - a,
{
    if a < b {
        lemma_pow2n_factor(a, (b - 1) as nat);
        let p = pow2n((b - 1 - a) as nat);
        let q = pow2n(a);
        assert(pow2n((b - a) as nat) == 2 * p);
        assert(2 * (p * q) == (2 * p) * q) by (nonlinear_arith);
    } else {
        assert(pow2n(0) == 1);
        assert(1 * pow2n(a) == pow2n(a));
        assert(pow2n((b - a) as nat) * pow2n(a) == pow2n(a)) by (nonlinear_arith)
            requires
                pow2n((b - a) as nat) == 1,
        ;
    }
}

pub proof fn lemma_pow2n_values()
    ensures
        pow2n(31) == 0x8000_0000,
        pow2n(32) == 0x1_0000_0000,
{
    reveal_with_fuel(pow2n, 33);
}

pub proof fn lemma_pow2n_monotone(a: nat, b: nat)
    requires
        a <= b,
    ensures
        pow2n(a) <= pow2n(b),
    decreases b,
{
    if a < b {
        lemma_pow2n_monotone(a, (b - 1) as nat);
    }
}

/// Standard Hilbert-curve xy→d index at zoom `z`.
pub fn hilbert(z: u8, x: u32, y: u32) -> (d: u64)
    requires
        z < 32,
        in_square(z as nat, x as int, y as int),
    ensures
        d == hilbert_index(z as nat, x as int, y as int),
        d < pow2n(z as nat) * pow2n(z as nat),
{
    let mut n: u32 = 1;
    let mut k: u8 = 0;
    proof {
        assert(pow2n(0) == 1);
        lemma_pow2n_values();
    }
    while k < z
        invariant
            k <= z < 32,
            n == pow2n(k as nat),
            pow2n(31) == 0x8000_0000,
        decreases z - k,
    {
        proof {
            lemma_pow2n_monotone((k + 1) as nat, 31);
        }
        n = n * 2;
        k = k + 1;
    }
    let ghost want = hilbert_index(z as nat, x as int, y as int);
    let ghost area = (pow2n(z as nat) * pow2n(z as nat)) as int;
    let mut x: u32 = x;
    let mut y: u32 = y;
    let mut d: u64 = 0;
    let mut s: u32 = n / 2;
    proof {
        hilbert_roundtrip(z as nat, x as int, y as int);
        lemma_pow2n_monotone(z as nat, 31);
        assert(area <= 0x4000_0000_0000_0000) by (nonlinear_arith)
            requires
                area == n * n,
                0 <= n <= 0x8000_0000,
        ;
        vstd::arithmetic::div_mod::lemma_small_mod(x as nat, n as nat);
        vstd::arithmetic::div_mod::lemma_small_mod(y as nat, n as nat);
    }
    let ghost mut k: nat = z as nat;
    while s > 0
        invariant
            z < 32,
            k <= z,
            n == pow2n(z as nat),
            n <= 0x8000_0000,
            x < n,
            y < n,
            s == if k == 0 {
                0
            } else {
                pow2n((k - 1) as nat)
            },
            want == d + hilbert_index(
                k,
                x as int % pow2n(k) as int,
                y as int % pow2n(k) as int,
            ),
            d <= want < area <= 0x4000_0000_0000_0000,
            area == n * n,
        decreases s,
    {
        let ghost h = s as int;
        let ghost p = pow2n(k) as int;
        let rx: u32 = (x / s) % 2;
        let ry: u32 = (y / s) % 2;
        let quad: u64 = if rx == 0 && ry == 0 {
            0
        } else if rx == 0 {
            1
        } else if ry == 1 {
            2
        } else {
            3
        };
        let ghost a = x as int % p;
        let ghost b = y as int % p;
        proof {
            assert(p == 2 * h);
            lemma_pow2n_factor(k, z as nat);
            let m = pow2n((z - k) as nat) as int;
            lemma_bit(x as int, h, n as int, m);
            lemma_bit(y as int, h, n as int, m);
            assert(rx as int == a / h && ry as int == b / h);
            assert(a % h == x as int % h && b % h == y as int % h);
            lemma_pow2n_positive(k);
            lemma_pow2n_monotone((k - 1) as nat, z as nat);
            let (u, v) = oriented(h, rx as int, ry as int, a % h, b % h);
            hilbert_roundtrip((k - 1) as nat, u, v);
            assert(h * h <= area) by (nonlinear_arith)
                requires
                    area == n * n,
                    0 <= h <= n,
            ;
            assert(0 <= quad * (h * h) <= 3 * (h * h)) by (nonlinear_arith)
                requires
                    0 <= quad <= 3,
                    h >= 0,
            ;
            assert((h * h) * quad == quad * (h * h)) by (nonlinear_arith);
        }
        assert(s as int * s as int <= 0x4000_0000_0000_0000) by (nonlinear_arith)
            requires
                0 <= s <= 0x8000_0000,
        ;
        let step: u64 = (s as u64) * (s as u64);
        assert(step == h * h);
        assert(step * quad == quad * (h * h)) by (nonlinear_arith)
            requires
                step == h * h,
        ;
        assert(d + quad * (h * h) <= want);
        d = d + step * quad;
        let ghost (x0, y0) = (x as int, y as int);
        if ry == 0 {
            if rx == 1 {
                x = n - 1 - x;
                y = n - 1 - y;
            }
            let t: u32 = x;
            x = y;
            y = t;
        }
        proof {
            let (u, v) = oriented(h, rx as int, ry as int, a % h, b % h);
            assert(x as int % h == u && y as int % h == v);
            if k >= 2 {
                assert(pow2n((k - 1) as nat) == 2 * pow2n((k - 2) as nat));
            } else {
                assert(pow2n(0) == 1);
            }
            k = (k - 1) as nat;
        }
        s = s / 2;
    }
    proof {
        if k > 0 {
            lemma_pow2n_positive((k - 1) as nat);
        }
    }
    d
}

/// A tile's id: zoom offset (count of all tiles below `z`) + the Hilbert-curve index
/// within zoom `z`.
pub fn tile_id(z: u8, x: u32, y: u32) -> (id: u64)
    requires
        z < 32,
        in_square(z as nat, x as int, y as int),
    ensures
        id == tile_id_of(z as nat, x as int, y as int),
        id < 0x5555_5555_5555_5555,
{
    let mut offset: u64 = 0;
    let mut k: u8 = 0;
    proof {
        lemma_zoom_offset_bound();
    }
    while k < z
        invariant
            k <= z < 32,
            offset == zoom_offset(k as nat),
            zoom_offset(32) == 0x5555_5555_5555_5555,
        decreases z - k,
    {
        proof {
            lemma_zoom_offset_monotone((k + 1) as nat, 32);
        }
        offset = 4 * offset + 1;
        k = k + 1;
    }
    let d: u64 = hilbert(z, x, y);
    proof {
        lemma_zoom_offset_step(z as nat);
        lemma_zoom_offset_monotone((z + 1) as nat, 32);
    }
    offset + d
}

pub proof fn lemma_zoom_offset_32(z: nat)
    requires
        z < 32,
    ensures
        zoom_offset(z + 1) <= 0x5555_5555_5555_5555,
{
    lemma_zoom_offset_bound();
    lemma_zoom_offset_monotone(z + 1, 32);
}

proof fn lemma_zoom_offset_bound()
    ensures
        zoom_offset(32) == 0x5555_5555_5555_5555,
{
    reveal_with_fuel(zoom_offset, 33);
}

} // verus!
