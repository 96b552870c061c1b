//! Tile and bucket ids: Morton (z-order) codes, and the parameters of a tiling run.

use vstd::arithmetic::div_mod::lemma_fundamental_div_mod;
use vstd::prelude::*;

use crate::bytes::{i16_from_bits, i16_of, pow2n};
use crate::hilbert::{lemma_pow2n_positive, zoom_offset};
use crate::tile::Tile;

verus! {

// ---- Morton codes ----

pub open spec fn pow4n(n: nat) -> nat
    decreases n,
{
    if n == 0 {
        1
    } else {
        4 * pow4n((n - 1) as nat)
    }
}

/// The bits of `n` moved apart: bit `i` to position `2 i`.
pub open spec fn spread_of(n: nat) -> nat
    decreases n,
{
    if n == 0 {
        0
    } else {
        n % 2 + 4 * spread_of(n / 2)
    }
}

/// The even bits of `d` moved together.
pub open spec fn compact_of(d: nat) -> nat
    decreases d,
{
    if d == 0 {
        0
    } else {
        d % 2 + 2 * compact_of(d / 4)
    }
}

/// The bits of `x` and `y` interleaved, those of `x` in the even places.
pub open spec fn morton_of(x: nat, y: nat) -> nat {
    spread_of(x) + 2 * spread_of(y)
}

pub open spec fn demorton_of(d: nat) -> (nat, nat) {
    (compact_of(d), compact_of(d / 2))
}

proof fn lemma_spread_unfold(n: nat)
    ensures
        spread_of(n) == n % 2 + 4 * spread_of(n / 2),
{
    if n == 0 {
        assert(spread_of(0) == 0);
    }
}

proof fn lemma_compact_unfold(d: nat)
    ensures
        compact_of(d) == d % 2 + 2 * compact_of(d / 4),
{
    if d == 0 {
        assert(compact_of(0) == 0);
    }
}

proof fn lemma_compact_spread(a: nat, b: nat)
    ensures
        compact_of(spread_of(a) + 2 * spread_of(b)) == a,
    decreases a + b,
{
    lemma_spread_unfold(a);
    lemma_spread_unfold(b);
    let d = spread_of(a) + 2 * spread_of(b);
    lemma_compact_unfold(d);
    if a + b > 0 {
        lemma_compact_spread(a / 2, b / 2);
        assert(d % 2 == a % 2);
        assert(d / 4 == spread_of(a / 2) + 2 * spread_of(b / 2));
    } else {
        assert(spread_of(0) == 0 && compact_of(0) == 0);
    }
}

/// Decoding a code gives the coordinates back.
pub proof fn morton_roundtrip(x: nat, y: nat)
    ensures
        demorton_of(morton_of(x, y)) == (x, y),
{
    lemma_compact_spread(x, y);
    lemma_spread_unfold(x);
    lemma_compact_spread(y, x / 2);
    assert(morton_of(x, y) / 2 == spread_of(y) + 2 * spread_of(x / 2));
}

/// Every number is the code of the coordinates it decodes to.
pub proof fn demorton_roundtrip(d: nat)
    ensures
        morton_of(demorton_of(d).0, demorton_of(d).1) == d,
    decreases d,
{
    let a = compact_of(d);
    let b = compact_of(d / 2);
    lemma_compact_unfold(d);
    lemma_compact_unfold(d / 2);
    assert(d / 2 / 4 == d / 4 / 2);
    lemma_spread_unfold(a);
    lemma_spread_unfold(b);
    if d > 0 {
        demorton_roundtrip(d / 4);
        assert(a / 2 == compact_of(d / 4));
        assert(b / 2 == compact_of(d / 4 / 2));
    } else {
        assert(compact_of(0) == 0 && spread_of(0) == 0);
    }
}

proof fn lemma_spread_bound(n: nat, k: nat)
    requires
        n < pow2n(k),
    ensures
        3 * spread_of(n) < pow4n(k),
    decreases k,
{
    if k == 0 {
        assert(spread_of(0) == 0);
    } else {
        assert(pow2n(k) == 2 * pow2n((k - 1) as nat));
        lemma_spread_bound(n / 2, (k - 1) as nat);
        lemma_spread_unfold(n);
        lemma_pow4n_mod3((k - 1) as nat);
        lemma_spread_mod(n / 2, (k - 1) as nat);
    }
}

proof fn lemma_pow4n_mod3(k: nat)
    ensures
        pow4n(k) % 3 == 1,
        pow4n(k) >= 1,
    decreases k,
{
    if k > 0 {
        lemma_pow4n_mod3((k - 1) as nat);
    }
}

proof fn lemma_spread_mod(n: nat, k: nat)
    requires
        3 * spread_of(n) < pow4n(k),
    ensures
        3 * spread_of(n) <= pow4n(k) - 1,
{
}

/// Codes of coordinates below `2^k` are below `4^k`.
pub proof fn lemma_morton_bound(x: nat, y: nat, k: nat)
    requires
        x < pow2n(k),
        y < pow2n(k),
    ensures
        morton_of(x, y) < pow4n(k),
{
    lemma_spread_bound(x, k);
    lemma_spread_bound(y, k);
}

proof fn lemma_compact_bound(d: nat, k: nat)
    requires
        d < pow4n(k),
    ensures
        compact_of(d) < pow2n(k),
    decreases k,
{
    lemma_compact_unfold(d);
    if k > 0 {
        lemma_compact_bound(d / 4, (k - 1) as nat);
    } else {
        assert(compact_of(0) == 0);
    }
}

/// Dropping the low bits of both coordinates drops twice as many of the code.
pub proof fn morton_prefix(x: nat, y: nat, k: nat)
    ensures
        morton_of(x, y) / pow4n(k) == morton_of(
            (x as int / pow2n(k) as int) as nat,
            (y as int / pow2n(k) as int) as nat,
        ),
        pow4n(k) > 0,
        pow2n(k) > 0,
    decreases k,
{
    lemma_pow4n_mod3(k);
    lemma_pow2n_positive(k);
    if k == 0 {
        assert(pow4n(0) == 1 && pow2n(0) == 1);
    } else {
        lemma_pow4n_mod3((k - 1) as nat);
        lemma_pow2n_positive((k - 1) as nat);
        morton_prefix(x / 2, y / 2, (k - 1) as nat);
        lemma_spread_unfold(x);
        lemma_spread_unfold(y);
        let m = morton_of(x, y) as int;
        let p4 = pow4n((k - 1) as nat) as int;
        let p2 = pow2n((k - 1) as nat) as int;
        assert(m / 4 == morton_of(x / 2, y / 2));
        vstd::arithmetic::div_mod::lemma_div_denominator(m, 4, p4);
        vstd::arithmetic::div_mod::lemma_div_denominator(x as int, 2, p2);
        vstd::arithmetic::div_mod::lemma_div_denominator(y as int, 2, p2);
    }
}

proof fn lemma_pow_values()
    ensures
        pow4n(16) == 0x1_0000_0000,
        pow4n(31) == 0x4000_0000_0000_0000,
        pow4n(32) == 0x1_0000_0000_0000_0000,
        pow2n(32) == 0x1_0000_0000,
        zoom_offset(32) == 0x5555_5555_5555_5555,
{
    reveal_with_fuel(pow4n, 33);
    reveal_with_fuel(pow2n, 33);
    reveal_with_fuel(zoom_offset, 33);
}

pub proof fn lemma_pow4n_monotone(a: nat, b: nat)
    requires
        a <= b,
    ensures
        1 <= pow4n(a) <= pow4n(b),
    decreases b,
{
    if a < b {
        lemma_pow4n_monotone(a, (b - 1) as nat);
    } else {
        lemma_pow4n_mod3(a);
    }
}

/// Spread the 32 bits of `n` so bit `i` moves to position `2*i`.
fn spread(n: u32) -> (r: u64)
    ensures
        r == spread_of(n as nat),
        3 * r < 0x1_0000_0000_0000_0000,
{
    let mut rest: u32 = n;
    let mut out: u64 = 0;
    let mut weight: u128 = 1;
    let mut left: u32 = 32;
    proof {
        lemma_pow_values();
        lemma_spread_bound(n as nat, 32);
        assert(pow4n(0) == 1);
    }
    while rest > 0
        invariant
            left <= 32,
            rest < pow2n(left as nat),
            weight == pow4n((32 - left) as nat),
            out + weight * spread_of(rest as nat) == spread_of(n as nat),
            3 * spread_of(n as nat) < 0x1_0000_0000_0000_0000,
            pow4n(32) == 0x1_0000_0000_0000_0000,
        decreases rest,
    {
        proof {
            if left == 0 {
                assert(pow2n(0) == 1);
            }
            lemma_spread_unfold(rest as nat);
            let s = spread_of((rest / 2) as nat) as int;
            let b = (rest % 2) as int;
            let w = weight as int;
            assert(w * (b + 4 * s) == w * b + (4 * w) * s) by (nonlinear_arith);
            assert(pow4n((32 - left + 1) as nat) == 4 * pow4n((32 - left) as nat));
            lemma_pow4n_monotone((32 - left) as nat, 32);
            assert((4 * w) * s >= 0) by (nonlinear_arith)
                requires
                    w >= 0,
                    s >= 0,
            ;
            assert(w * b == if rest % 2 == 1 {
                w
            } else {
                0
            }) by (nonlinear_arith)
                requires
                    b == rest % 2,
                    b == 0 || b == 1,
            ;
        }
        if rest % 2 == 1 {
            out = out + weight as u64;
        }
        weight = weight * 4;
        rest = rest / 2;
        left = left - 1;
    }
    proof {
        assert(spread_of(0) == 0);
        assert(weight * 0 == 0);
    }
    out
}

/// Gather the even bits of `n` back into a 32-bit value (inverse of `spread`).
fn compact(n: u64) -> (r: u32)
    ensures
        r == compact_of(n as nat),
{
    let mut rest: u64 = n;
    let mut out: u32 = 0;
    let mut weight: u64 = 1;
    let mut left: u32 = 32;
    proof {
        lemma_pow_values();
        lemma_compact_bound(n as nat, 32);
        assert(pow2n(0) == 1);
    }
    while rest > 0
        invariant
            left <= 32,
            rest < pow4n(left as nat),
            weight == pow2n((32 - left) as nat),
            out + weight * compact_of(rest as nat) == compact_of(n as nat),
            compact_of(n as nat) < 0x1_0000_0000,
            pow2n(32) == 0x1_0000_0000,
        decreases rest,
    {
        proof {
            if left == 0 {
                assert(pow4n(0) == 1);
            }
            lemma_compact_unfold(rest as nat);
            let s = compact_of((rest / 4) as nat) as int;
            let b = (rest % 2) as int;
            let w = weight as int;
            assert(w * (b + 2 * s) == w * b + (2 * w) * s) by (nonlinear_arith);
            assert(pow2n((32 - left + 1) as nat) == 2 * pow2n((32 - left) as nat));
            crate::hilbert::lemma_pow2n_monotone((32 - left) as nat, 32);
            assert((2 * w) * s >= 0) by (nonlinear_arith)
                requires
                    w >= 0,
                    s >= 0,
            ;
            assert(w * b == if rest % 2 == 1 {
                w
            } else {
                0
            }) by (nonlinear_arith)
                requires
                    b == rest % 2,
                    b == 0 || b == 1,
            ;
        }
        if rest % 2 == 1 {
            out = out + weight as u32;
        }
        weight = weight * 2;
        rest = rest / 4;
        left = left - 1;
    }
    proof {
        assert(compact_of(0) == 0);
        assert(weight * 0 == 0);
    }
    out
}

/// Interleave the bits of `x` and `y` into a Morton (z-order) code, keeping spatially
/// close tiles close in id space.
pub fn morton2(x: u32, y: u32) -> (r: u64)
    ensures
        r == morton_of(x as nat, y as nat),
{
    spread(x) + 2 * spread(y)
}

/// Decode a Morton code back to tile `(x, y)`.
pub fn demorton2(d: u64) -> (r: (u32, u32))
    ensures
        (r.0 as nat, r.1 as nat) == demorton_of(d as nat),
{
    (compact(d), compact(d / 2))
}

// ---- ids across zooms ----

/// The zoom whose band of ids holds `id`: the ids of zoom `z` run from the number of
/// tiles at coarser zooms up to that at the next.
pub open spec fn in_band(id: nat, z: nat) -> bool {
    zoom_offset(z) <= id < zoom_offset(z + 1)
}

pub proof fn lemma_zoom_offset_monotone(a: nat, b: nat)
    requires
        a <= b,
    ensures
        zoom_offset(a) <= zoom_offset(b),
    decreases b,
{
    if a < b {
        lemma_zoom_offset_monotone(a, (b - 1) as nat);
    }
}

/// An id falls in one band only.
pub proof fn band_unique(id: nat, a: nat, b: nat)
    requires
        in_band(id, a),
        in_band(id, b),
    ensures
        a == b,
{
    if a < b {
        lemma_zoom_offset_monotone(a + 1, b);
    } else if b < a {
        lemma_zoom_offset_monotone(b + 1, a);
    }
}

proof fn lemma_band_width(z: nat)
    ensures
        zoom_offset(z + 1) == zoom_offset(z) + pow4n(z),
    decreases z,
{
    if z > 0 {
        lemma_band_width((z - 1) as nat);
    } else {
        assert(pow4n(0) == 1 && zoom_offset(0) == 0);
        assert(zoom_offset(1) == 4 * zoom_offset(0) + 1);
    }
}

/// Number of tiles at all zooms below `lz`: also the id of the first tile at zoom `lz`.
fn local_zoom_offset(lz: u8) -> (r: u64)
    requires
        lz <= 32,
    ensures
        r == zoom_offset(lz as nat),
{
    let mut r: u64 = 0;
    let mut k: u8 = 0;
    proof {
        lemma_pow_values();
    }
    while k < lz
        invariant
            k <= lz <= 32,
            r == zoom_offset(k as nat),
            zoom_offset(32) == 0x5555_5555_5555_5555,
        decreases lz - k,
    {
        proof {
            lemma_zoom_offset_monotone((k + 1) as nat, 32);
        }
        r = 4 * r + 1;
        k = k + 1;
    }
    r
}

/// The band of an id and the position within it.
fn split_band(id: u64) -> (r: (u8, u64))
    requires
        id < zoom_offset(32),
    ensures
        r.0 < 32,
        in_band(id as nat, r.0 as nat),
        r.1 == id - zoom_offset(r.0 as nat),
        r.1 < pow4n(r.0 as nat),
{
    let mut z: u8 = 0;
    while id >= local_zoom_offset(z + 1)
        invariant
            z < 32,
            id < zoom_offset(32),
            zoom_offset(z as nat) <= id,
        decreases 32 - z,
    {
        z = z + 1;
    }
    proof {
        lemma_band_width(z as nat);
    }
    (z, id - local_zoom_offset(z))
}

fn pow2_u64(n: u8) -> (r: u64)
    requires
        n < 64,
    ensures
        r == pow2n(n as nat),
{
    let mut r: u64 = 1;
    let mut k: u8 = 0;
    proof {
        assert(pow2n(0) == 1);
        lemma_pow2n_63();
    }
    while k < n
        invariant
            k <= n < 64,
            r == pow2n(k as nat),
            pow2n(63) == 0x8000_0000_0000_0000,
        decreases n - k,
    {
        proof {
            crate::hilbert::lemma_pow2n_monotone((k + 1) as nat, 63);
        }
        r = r * 2;
        k = k + 1;
    }
    r
}

proof fn lemma_pow2n_63()
    ensures
        pow2n(63) == 0x8000_0000_0000_0000,
{
    reveal_with_fuel(pow2n, 22);
    assert(pow2n(21) == 0x20_0000);
    assert(pow2n(42) == 0x400_0000_0000);
}

/// Where a tile stands in its bucket: the bucket-local compact id.
pub open spec fn bucket_local_of(lz: nat, x: nat, y: nat) -> nat {
    zoom_offset(lz) + morton_of(
        (x as int % pow2n(lz) as int) as nat,
        (y as int % pow2n(lz) as int) as nat,
    )
}

/// Tile `(x, y)` is in the bucket `lz` zooms above it.
pub open spec fn in_bucket(bucket_index: u32, lz: nat, x: nat, y: nat) -> bool {
    morton_of((x as int / pow2n(lz) as int) as nat, (y as int / pow2n(lz) as int) as nat)
        == bucket_index
}

/// Pack a tile into a bucket-local, all-zoom compact id.
///
/// The id is a tile address rebased to the bucket: zoom-major, Morton within a zoom,
/// offset by the tile count of all coarser local zooms. It is dense from 0 and unique
/// among one bucket's tiles across every zoom `bucket_zoom..=z`, so a per-bucket leaf
/// directory can key on it directly.
///
/// `bucket_index` is the bucket's Morton code at `bucket_zoom`; `x`,`y`,`z` are the
/// global tile coords.
pub fn bucket_local_id(bucket_zoom: u8, bucket_index: u32, x: u32, y: u32, z: u8) -> (r: u64)
    requires
        bucket_zoom <= z,
        z - bucket_zoom < 32,
        in_bucket(bucket_index, (z - bucket_zoom) as nat, x as nat, y as nat),
    ensures
        r == bucket_local_of((z - bucket_zoom) as nat, x as nat, y as nat),
        r < zoom_offset(32),
{
    let lz: u8 = z - bucket_zoom;
    let size: u64 = pow2_u64(lz);
    proof {
        lemma_pow2n_positive(lz as nat);
        lemma_pow_values();
        crate::hilbert::lemma_pow2n_monotone(lz as nat, 32);
        lemma_zoom_offset_monotone((lz + 1) as nat, 32);
        lemma_band_width(lz as nat);
        let a = (x as int % size as int) as nat;
        let b = (y as int % size as int) as nat;
        lemma_morton_bound(a, b, lz as nat);
    }
    let local_x: u32 = (x as u64 % size) as u32;
    let local_y: u32 = (y as u64 % size) as u32;
    local_zoom_offset(lz) + morton2(local_x, local_y)
}

/// Recover global `(x, y, z)` from a bucket-local compact id, given the bucket it came
/// from.
pub fn bucket_local_xyz(bucket_zoom: u8, bucket_index: u32, id: u64) -> (r: (u32, u32, u8))
    requires
        id < zoom_offset(32),
        forall|lz: nat|
            #![trigger in_band(id as nat, lz)]
            in_band(id as nat, lz) ==> bucket_zoom + lz <= 255 && (demorton_of(
                bucket_index as nat,
            ).0 + 1) * pow2n(lz) <= 0x1_0000_0000 && (demorton_of(bucket_index as nat).1 + 1)
                * pow2n(lz) <= 0x1_0000_0000,
    ensures
        exists|lz: nat|
            #![trigger in_band(id as nat, lz)]
            in_band(id as nat, lz) && ({
                let (lx, ly) = demorton_of((id - zoom_offset(lz)) as nat);
                let (bx, by) = demorton_of(bucket_index as nat);
                &&& r.0 == bx * pow2n(lz) + lx
                &&& r.1 == by * pow2n(lz) + ly
                &&& r.2 == bucket_zoom + lz
            }),
{
    let (lz, code) = split_band(id);
    let (local_x, local_y) = demorton2(code);
    let (bx, by) = demorton2(bucket_index as u64);
    let size: u64 = pow2_u64(lz);
    proof {
        assert(in_band(id as nat, lz as nat));
        lemma_compact_bound(code as nat, lz as nat);
        lemma_pow4n_monotone(0, lz as nat);
        lemma_compact_bound((code / 2) as nat, lz as nat);
        assert((bx + 1) * size == bx * size + size) by (nonlinear_arith);
        assert((by + 1) * size == by * size + size) by (nonlinear_arith);
        assert(bx * size >= 0 && by * size >= 0) by (nonlinear_arith);
    }
    let x: u64 = (bx as u64) * size + local_x as u64;
    let y: u64 = (by as u64) * size + local_y as u64;
    (x as u32, y as u32, bucket_zoom + lz)
}

/// A tile's bucket-local id and its bucket give the tile back.
pub proof fn bucket_local_roundtrip(bucket_zoom: u8, bucket_index: u32, x: u32, y: u32, lz: nat)
    requires
        lz < 32,
        in_bucket(bucket_index, lz, x as nat, y as nat),
    ensures
        ({
            let id = bucket_local_of(lz, x as nat, y as nat);
            let (lx, ly) = demorton_of((id - zoom_offset(lz)) as nat);
            let (bx, by) = demorton_of(bucket_index as nat);
            &&& in_band(id, lz)
            &&& x == bx * pow2n(lz) + lx
            &&& y == by * pow2n(lz) + ly
        }),
{
    let p = pow2n(lz) as int;
    lemma_pow2n_positive(lz);
    lemma_fundamental_div_mod(x as int, p);
    lemma_fundamental_div_mod(y as int, p);
    let (qx, qy) = ((x as int / p) as nat, (y as int / p) as nat);
    let (rx, ry) = ((x as int % p) as nat, (y as int % p) as nat);
    morton_roundtrip(qx, qy);
    morton_roundtrip(rx, ry);
    lemma_morton_bound(rx, ry, lz);
    lemma_band_width(lz);
    assert(p * qx == qx * p && p * qy == qy * p) by (nonlinear_arith);
}

/// Fixed parameters for a tiling run.
#[derive(Debug, Clone, Copy, PartialEq, Eq, Structural)]
pub struct TileParams {
    /// Finest zoom tiles are cut at. Higher display zooms come from overzoom.
    pub grid_zoom: u8,
    /// Coarsest materialized zoom (the pyramid floor); below it the client overzooms.
    pub min_zoom: u8,
    /// Coarse Morton prefix zoom that groups tiles into spill buckets.
    pub bucket_zoom: u8,
    /// Tile-local coordinate range; one tile spans `[0, extent]`.
    pub extent: i32,
}

/// The global id of a tile: the tiles of all coarser zooms, then its Morton code.
pub open spec fn global_id(x: nat, y: nat, z: nat) -> nat {
    zoom_offset(z) + morton_of(x, y)
}

/// The bucket of a Morton code at zoom `z`: its prefix at the bucket zoom, kept to 32
/// bits.
pub open spec fn bucket_of(code: nat, z: nat, bucket_zoom: nat) -> nat {
    if z >= bucket_zoom {
        code / pow4n((z - bucket_zoom) as nat) % 0x1_0000_0000
    } else {
        (code * pow4n((bucket_zoom - z) as nat)) % 0x1_0000_0000
    }
}

impl TileParams {
    pub fn new(grid_zoom: u8, min_zoom: u8, bucket_zoom: u8, extent: i32) -> (r: Self)
        ensures
            r == (TileParams { grid_zoom, min_zoom, bucket_zoom, extent }),
    {
        TileParams { grid_zoom, min_zoom, bucket_zoom, extent }
    }

    /// Default configuration: z14 grid (z19 via client overzoom), z3 pyramid floor,
    /// z6 buckets, 8192 extent (~0.3 m at z14).
    pub fn standard() -> (r: Self)
        ensures
            r == (TileParams { grid_zoom: 14, min_zoom: 3, bucket_zoom: 6, extent: 8192 }),
    {
        TileParams { grid_zoom: 14, min_zoom: 3, bucket_zoom: 6, extent: 8192 }
    }

    /// The parameters for clipping at one zoom; bucket routing is left to the base
    /// parameters.
    pub fn at_zoom(&self, z: u8) -> (r: Self)
        ensures
            r == (TileParams { grid_zoom: z, bucket_zoom: 0, ..*self }),
    {
        TileParams { grid_zoom: z, min_zoom: self.min_zoom, bucket_zoom: 0, extent: self.extent }
    }

    /// Total number of spill buckets.
    pub fn bucket_count(&self) -> (r: u32)
        requires
            self.bucket_zoom < 16,
        ensures
            r == pow4n(self.bucket_zoom as nat),
    {
        let mut r: u32 = 1;
        let mut k: u8 = 0;
        proof {
            assert(pow4n(0) == 1);
            lemma_pow_values();
        }
        while k < self.bucket_zoom
            invariant
                k <= self.bucket_zoom < 16,
                r == pow4n(k as nat),
                pow4n(16) == 0x1_0000_0000,
            decreases self.bucket_zoom - k,
        {
            proof {
                lemma_pow4n_monotone((k + 1) as nat, 15);
                assert(pow4n(16) == 4 * pow4n(15));
            }
            r = r * 4;
            k = k + 1;
        }
        r
    }

    /// Global, self-describing tile id.
    pub fn tile_id(&self, x: u32, y: u32, z: u8) -> (r: u64)
        requires
            z < 32,
            global_id(x as nat, y as nat, z as nat) <= u64::MAX,
        ensures
            r == global_id(x as nat, y as nat, z as nat),
    {
        local_zoom_offset(z) + morton2(x, y)
    }

    /// Route a global tile id to its spill bucket.
    pub fn route(&self, tile_id: u64) -> (r: u32)
        requires
            tile_id < zoom_offset(32),
            self.bucket_zoom < 32,
        ensures
            routes_to(tile_id as nat, self.bucket_zoom as nat, r as nat),
    {
        let (z, code) = split_band(tile_id);
        assert(in_band(tile_id as nat, z as nat));
        let mut m: u64 = code;
        let mut k: u8 = 0;
        if z >= self.bucket_zoom {
            let n: u8 = z - self.bucket_zoom;
            assert(pow4n(0) == 1);
            while k < n
                invariant
                    k <= n,
                    m == code as int / pow4n(k as nat) as int,
                decreases n - k,
            {
                proof {
                    lemma_pow4n_mod3(k as nat);
                    vstd::arithmetic::div_mod::lemma_div_denominator(
                        code as int,
                        pow4n(k as nat) as int,
                        4,
                    );
                }
                m = m / 4;
                k = k + 1;
            }
            return (m % 0x1_0000_0000) as u32;
        }
        let n: u8 = self.bucket_zoom - z;
        m = m % 0x1_0000_0000;
        assert(pow4n(0) == 1);
        assert(code * pow4n(0) == code) by (nonlinear_arith)
            requires
                pow4n(0) == 1,
        ;
        while k < n
            invariant
                k <= n,
                m == (code * pow4n(k as nat)) % 0x1_0000_0000,
            decreases n - k,
        {
            proof {
                let p = pow4n(k as nat);
                assert(code * (4 * p) == 4 * (code * p)) by (nonlinear_arith);
                vstd::arithmetic::div_mod::lemma_mul_mod_noop_right(
                    4,
                    (code * p) as int,
                    0x1_0000_0000,
                );
            }
            m = (m * 4) % 0x1_0000_0000;
            k = k + 1;
        }
        m as u32
    }

    /// Decode a global tile id back to the exact tile.
    pub fn tile(&self, tile_id: u64) -> (r: Tile)
        requires
            tile_id < zoom_offset(32),
        ensures
            in_band(tile_id as nat, r.z as nat),
            (r.x as nat, r.y as nat) == demorton_of((tile_id - zoom_offset(r.z as nat)) as nat),
            r.z < 32,
    {
        let (z, code) = split_band(tile_id);
        let (x, y) = demorton2(code);
        Tile::new(x, y, z)
    }

    /// Clamp a rounded tile-local coordinate to the tile extent `[0, extent]`
    /// (edge-exact, no buffer).
    pub fn clamp_local(&self, v: i32) -> (r: i16)
        requires
            self.extent >= 0,
        ensures
            r == i16_of(
                if v < 0 {
                    0int
                } else if v > self.extent {
                    self.extent as int
                } else {
                    v as int
                },
            ),
    {
        let c: i32 = if v < 0 {
            0
        } else if v > self.extent {
            self.extent
        } else {
            v
        };
        i16_from_bits((c as u32 % 0x1_0000) as u16)
    }

    /// Clamp a tile index to the grid.
    pub fn clamp_tile(&self, v: u32) -> (r: u32)
        requires
            self.grid_zoom < 32,
        ensures
            r == if v < pow2n(self.grid_zoom as nat) {
                v as int
            } else {
                pow2n(self.grid_zoom as nat) - 1
            },
    {
        proof {
            lemma_pow_values();
            crate::hilbert::lemma_pow2n_monotone(self.grid_zoom as nat, 32);
            lemma_pow2n_positive(self.grid_zoom as nat);
        }
        let n: u64 = pow2_u64(self.grid_zoom);
        if (v as u64) < n {
            v
        } else {
            (n - 1) as u32
        }
    }
}

/// A tile's global id decodes to the exact tile, with no bucket context.
pub proof fn global_id_roundtrip(x: nat, y: nat, z: nat)
    requires
        x < pow2n(z),
        y < pow2n(z),
    ensures
        in_band(global_id(x, y, z), z),
        demorton_of((global_id(x, y, z) - zoom_offset(z)) as nat) == (x, y),
{
    lemma_morton_bound(x, y, z);
    lemma_band_width(z);
    morton_roundtrip(x, y);
}

/// The bucket of a global tile id.
pub open spec fn routes_to(id: nat, bucket_zoom: nat, bucket: nat) -> bool {
    exists|z: nat|
        #![trigger in_band(id, z)]
        in_band(id, z) && bucket == bucket_of((id - zoom_offset(z)) as nat, z, bucket_zoom)
}

/// All records of a tile go to one bucket.
pub proof fn one_bucket_per_tile(id: nat, bucket_zoom: nat, a: nat, b: nat)
    requires
        routes_to(id, bucket_zoom, a),
        routes_to(id, bucket_zoom, b),
    ensures
        a == b,
{
    let za = choose|z: nat|
        #![trigger in_band(id, z)]
        in_band(id, z) && a == bucket_of((id - zoom_offset(z)) as nat, z, bucket_zoom);
    let zb = choose|z: nat|
        #![trigger in_band(id, z)]
        in_band(id, z) && b == bucket_of((id - zoom_offset(z)) as nat, z, bucket_zoom);
    band_unique(id, za, zb);
}

/// Every tile routes into range; at or below the bucket zoom its bucket is exactly the
/// tile's coarse Morton-prefix cell.
pub proof fn route_in_range(x: nat, y: nat, z: nat, bucket_zoom: nat)
    requires
        x < pow2n(z),
        y < pow2n(z),
        bucket_zoom < 16,
    ensures
        bucket_of(morton_of(x, y), z, bucket_zoom) < pow4n(bucket_zoom),
        z >= bucket_zoom ==> bucket_of(morton_of(x, y), z, bucket_zoom) == morton_of(
            (x as int / pow2n((z - bucket_zoom) as nat) as int) as nat,
            (y as int / pow2n((z - bucket_zoom) as nat) as int) as nat,
        ),
{
    lemma_morton_bound(x, y, z);
    let code = morton_of(x, y) as int;
    lemma_pow_values();
    lemma_pow4n_monotone(bucket_zoom, 16);
    if z >= bucket_zoom {
        let k = (z - bucket_zoom) as nat;
        let p = pow4n(k) as int;
        morton_prefix(x, y, k);
        lemma_pow4n_factor(k, z);
        lemma_fundamental_div_mod(code, p);
        let q = code / p;
        let b = pow4n(bucket_zoom) as int;
        assert(0 <= q < b) by (nonlinear_arith)
            requires
                code == p * q + code % p,
                0 <= code % p,
                0 <= code < b * p,
                p >= 1,
        ;
        vstd::arithmetic::div_mod::lemma_small_mod(q as nat, 0x1_0000_0000);
    } else {
        let k = (bucket_zoom - z) as nat;
        let p = pow4n(k) as int;
        lemma_pow4n_factor(k, bucket_zoom);
        let c = pow4n(z) as int;
        assert(code * p < c * p) by (nonlinear_arith)
            requires
                0 <= code < c,
                p >= 1,
        ;
        assert(code * p >= 0) by (nonlinear_arith)
            requires
                code >= 0,
                p >= 1,
        ;
        vstd::arithmetic::div_mod::lemma_small_mod((code * p) as nat, 0x1_0000_0000);
    }
}

proof fn lemma_pow4n_factor(a: nat, b: nat)
    requires
        a <= b,
    ensures
        pow4n(b) == pow4n((b - a) as nat) * pow4n(a),
        pow4n(a) >= 1,
    decreases b - a,
{
    lemma_pow4n_mod3(a);
    if a < b {
        lemma_pow4n_factor(a, (b - 1) as nat);
        let p = pow4n((b - 1 - a) as nat);
        let q = pow4n(a);
        assert(pow4n((b - a) as nat) == 4 * p);
        assert(4 * (p * q) == (4 * p) * q) by (nonlinear_arith);
    } else {
        assert(pow4n((b - a) as nat) == 1);
        assert(1 * pow4n(a) == pow4n(a));
        assert(pow4n((b - a) as nat) * pow4n(a) == pow4n(a)) by (nonlinear_arith)
            requires
                pow4n((b - a) as nat) == 1,
        ;
    }
}

} // verus!
