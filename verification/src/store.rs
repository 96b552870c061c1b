//! Sparse store: `id -> coordinate` addressed by `rank(id)`.
//!
//! Only referenced ids get a slot, densely packed with no holes, so the store is
//! `set_bits * 8` bytes regardless of how the ids scatter across the id space. The bytes
//! themselves are mapped from a file by the caller; lookups are O(1): `rank(id)` -> slot
//! -> one read.

use vstd::arithmetic::div_mod::{lemma_fundamental_div_mod, lemma_fundamental_div_mod_converse};
use vstd::prelude::*;

use crate::bitset::{rank_strictly_increases, RankedBitSet};
use crate::bytes::{
    bits_of_i32, get_le, i32_bits, i32_from_bits, i32_of, le_bytes, le_roundtrip, le_value,
    lemma_i32_bits, lemma_le_value_bound, lemma_pow256_values, pow2n, put_le,
};
use crate::double::{
    lemma_div_scale, lemma_pow2n_joins, lemma_pow2n_values, pow2, round_of, round_signed,
    rounding_mirrors, Rounded, LIMIT,
};
use crate::hilbert::{lemma_pow2n_monotone, lemma_pow2n_positive};

verus! {

/// A node coordinate packed as fixed-point lon/lat (degrees × 1e7).
///
/// 8 bytes, projection-agnostic (~1 cm precision) — geometry is projected to tiles later,
/// not baked into the cache. Lon range +-180 -> +-1.8e9 fits `i32`.
#[derive(Debug, Clone, Copy, PartialEq, Eq, Structural)]
pub struct PackedCoord {
    pub lon_e7: i32,
    pub lat_e7: i32,
}

/// Bytes of a stored coordinate.
pub const COORD_LEN: usize = 8;

/// The bytes of a coordinate: longitude, then latitude, little-endian.
pub open spec fn coord_bytes(c: PackedCoord) -> Seq<u8> {
    le_bytes(i32_bits(c.lon_e7), 4) + le_bytes(i32_bits(c.lat_e7), 4)
}

/// The coordinate in 8 bytes.
pub open spec fn coord_of(s: Seq<u8>) -> PackedCoord {
    PackedCoord {
        lon_e7: i32_of(le_value(s.subrange(0, 4)) as int),
        lat_e7: i32_of(le_value(s.subrange(4, 8)) as int),
    }
}

/// Unpacking gives back what was packed.
pub proof fn coord_roundtrip(c: PackedCoord)
    ensures
        coord_bytes(c).len() == COORD_LEN,
        coord_of(coord_bytes(c)) == c,
{
    lemma_pow256_values();
    lemma_i32_bits(c.lon_e7);
    lemma_i32_bits(c.lat_e7);
    le_roundtrip(i32_bits(c.lon_e7), 4);
    le_roundtrip(i32_bits(c.lat_e7), 4);
    let s = coord_bytes(c);
    assert(s.subrange(0, 4) =~= le_bytes(i32_bits(c.lon_e7), 4));
    assert(s.subrange(4, 8) =~= le_bytes(i32_bits(c.lat_e7), 4));
}

/// The double nearest one billionth, in units of `2^-82`.
pub const NANO: u64 = 0x11_2e0b_e826_d695;

/// Degrees of nano-degrees, in units of `2^-82`: both the whole number and the product are
/// rounded to doubles.
pub open spec fn degrees(nano: int) -> int {
    round_signed(round_signed(nano) * NANO)
}

/// A multiple of `2^-82` rounded to a whole number, halves up.
pub open spec fn half_up(v: nat) -> nat {
    (v + pow2n(81)) / pow2n(82)
}

/// Degrees in units of 1e-7 degrees: the product as a double, then to the nearest, halves
/// away from zero.
pub open spec fn rounded_e7(nano: int) -> int {
    let v = round_signed(degrees(nano) * 10_000_000);
    if v >= 0 {
        half_up(v as nat) as int
    } else {
        -(half_up((-v) as nat) as int)
    }
}

/// A number as `i32` holds it.
pub open spec fn saturated(v: int) -> i32 {
    if v > i32::MAX {
        i32::MAX
    } else if v < i32::MIN {
        i32::MIN
    } else {
        v as i32
    }
}

/// A number rounded halves up, or `2^32` where it comes to that or more.
fn round_half_up(v: Rounded) -> (r: u64)
    requires
        v.m <= LIMIT,
        v.k <= 1000,
    ensures
        r == half_up(v.value()) || (r == 0x1_0000_0000 && half_up(v.value()) >= 0x1_0000_0000),
{
    let ghost p = pow2n(v.k as nat);
    let ghost m = v.m as nat;
    if v.m == 0 {
        assert(m * p == 0) by (nonlinear_arith)
            requires
                m == 0,
        ;
        proof {
            lemma_pow2n_positive(81);
            assert(pow2n(82) == 2 * pow2n(81));
            lemma_fundamental_div_mod_converse(
                pow2n(81) as int,
                pow2n(82) as int,
                0,
                pow2n(81) as int,
            );
        }
        return 0;
    }
    if v.k >= 82 {
        let over: u32 = v.k - 82;
        proof {
            let (a, b) = (pow2n(82), pow2n(over as nat));
            lemma_pow2n_joins(over as nat, 82);
            lemma_pow2n_positive(82);
            lemma_pow2n_positive(81);
            assert(pow2n(82) == 2 * pow2n(81));
            let x = m * b;
            assert(m * (b * a) == x * a) by (nonlinear_arith)
                requires
                    x == m * b,
            ;
            lemma_fundamental_div_mod_converse(
                (x * a + pow2n(81)) as int,
                a as int,
                x as int,
                pow2n(81) as int,
            );
            assert(half_up(v.value()) == x);
            assert(x >= b) by (nonlinear_arith)
                requires
                    x == m * b,
                    m >= 1,
            ;
            lemma_pow2n_values();
            if over >= 32 {
                lemma_pow2n_monotone(32, over as nat);
            } else {
                lemma_pow2n_monotone(over as nat, 32);
                assert(x <= u128::MAX) by (nonlinear_arith)
                    requires
                        x == m * b,
                        m <= 0x20_0000_0000_0000,
                        b <= 0x1_0000_0000,
                ;
            }
        }
        if over >= 32 {
            return 0x1_0000_0000;
        }
        let x: u128 = (v.m as u128) * pow2(over);
        if x > 0xffff_ffff {
            return 0x1_0000_0000;
        }
        return x as u64;
    }
    let under: u32 = 82 - v.k;
    let half: u128 = pow2(under - 1);
    proof {
        lemma_pow2n_joins(under as nat, v.k as nat);
        lemma_pow2n_joins((under - 1) as nat, v.k as nat);
        lemma_pow2n_positive(v.k as nat);
        lemma_pow2n_positive(under as nat);
        lemma_div_scale(m + half as nat, pow2n(under as nat), p);
        let h = half as nat;
        assert((m + h) * p == m * p + h * p) by (nonlinear_arith);
        assert(pow2n(under as nat) == 2 * h);
        lemma_pow2n_monotone((under - 1) as nat, 81);
        lemma_pow2n_values();
        let x = (m + h) / (2 * h);
        lemma_fundamental_div_mod((m + h) as int, (2 * h) as int);
        assert(x <= m + 1) by (nonlinear_arith)
            requires
                m + h == (2 * h) * x + (m + h) % (2 * h),
                0 <= (m + h) % (2 * h),
                h >= 1,
        ;
    }
    ((v.m as u128 + half) / (half * 2)) as u64
}

fn pack_degrees(nano: i128) -> (r: i32)
    ensures
        r == saturated(rounded_e7(nano as int)),
{
    let size: u128 = if nano >= 0 {
        nano as u128
    } else {
        (-(nano + 1)) as u128 + 1
    };
    let v: u64 = round_half_up(round_of(size).times(NANO).times(10_000_000));
    proof {
        let a = round_signed(size as int);
        let b = round_signed(a * NANO);
        rounding_mirrors(size as int);
        rounding_mirrors(a * NANO);
        rounding_mirrors(b * 10_000_000);
        assert(half_up(0) == 0) by {
            lemma_pow2n_positive(81);
            assert(pow2n(82) == 2 * pow2n(81));
            lemma_fundamental_div_mod_converse(
                pow2n(81) as int,
                pow2n(82) as int,
                0,
                pow2n(81) as int,
            );
        }
    }
    if nano >= 0 {
        if v > 0x7fff_ffff {
            i32::MAX
        } else {
            v as i32
        }
    } else if v >= 0x8000_0000 {
        i32::MIN
    } else {
        -(v as i32)
    }
}

impl PackedCoord {
    /// Pack a longitude and latitude given in nano-degrees.
    pub fn from_lonlat(lon_nano: i128, lat_nano: i128) -> (r: Self)
        ensures
            r == (PackedCoord {
                lon_e7: saturated(rounded_e7(lon_nano as int)),
                lat_e7: saturated(rounded_e7(lat_nano as int)),
            }),
    {
        PackedCoord { lon_e7: pack_degrees(lon_nano), lat_e7: pack_degrees(lat_nano) }
    }

    pub fn to_bytes(&self) -> (r: Vec<u8>)
        ensures
            r@ == coord_bytes(*self),
            r@.len() == COORD_LEN,
    {
        let mut r: Vec<u8> = Vec::new();
        proof {
            lemma_pow256_values();
            lemma_i32_bits(self.lon_e7);
            lemma_i32_bits(self.lat_e7);
        }
        put_le(&mut r, bits_of_i32(self.lon_e7) as u64, 4);
        put_le(&mut r, bits_of_i32(self.lat_e7) as u64, 4);
        proof {
            coord_roundtrip(*self);
        }
        assert(r@ =~= coord_bytes(*self));
        r
    }
}

/// Length of a store's file: one slot per referenced id, and at least one byte (a map of
/// no bytes is not possible).
pub open spec fn store_len(slots: nat) -> nat {
    if slots == 0 {
        1
    } else {
        slots * COORD_LEN as nat
    }
}

/// The bytes of a slot.
pub open spec fn slot_bytes(map: Seq<u8>, slot: nat) -> Seq<u8> {
    map.subrange(8 * slot as int, 8 * slot as int + 8)
}

/// What a store holds for an id: nothing for an id that was never referenced.
pub open spec fn stored(ids: RankedBitSet, map: Seq<u8>, id: u64) -> Option<PackedCoord> {
    if ids.has(id) {
        Some(coord_of(slot_bytes(map, ids.rank_of(id))))
    } else {
        None
    }
}

/// The bytes after a write: the slot of the id is replaced; nothing is for an id that was
/// never referenced.
pub open spec fn written(ids: RankedBitSet, map: Seq<u8>, id: u64, c: PackedCoord) -> Seq<u8> {
    if ids.has(id) {
        let at = 8 * ids.rank_of(id) as int;
        map.take(at) + coord_bytes(c) + map.skip(at + 8)
    } else {
        map
    }
}

/// A read gives back what was last written for the id, whatever is written for others.
pub proof fn read_after_write(ids: RankedBitSet, map: Seq<u8>, id: u64, c: PackedCoord, k: u64)
    requires
        map.len() == store_len(ids.size()),
    ensures
        written(ids, map, id, c).len() == map.len(),
        stored(ids, written(ids, map, id, c), k) == (if k == id && ids.has(id) {
            Some(c)
        } else {
            stored(ids, map, k)
        }),
{
    coord_roundtrip(c);
    if ids.has(id) {
        lemma_slot_in_range(ids, id);
        let w = written(ids, map, id, c);
        let slot = ids.rank_of(id);
        if ids.has(k) {
            lemma_slot_in_range(ids, k);
            let other = ids.rank_of(k);
            if k == id {
                assert(slot_bytes(w, slot) =~= coord_bytes(c));
            } else {
                if k < id {
                    rank_strictly_increases(ids.words(), k as nat, id as nat);
                } else {
                    rank_strictly_increases(ids.words(), id as nat, k as nat);
                }
                assert(slot_bytes(w, other) =~= slot_bytes(map, other));
            }
        }
    }
}

proof fn lemma_slot_in_range(ids: RankedBitSet, id: u64)
    requires
        ids.has(id),
    ensures
        ids.rank_of(id) < ids.size(),
{
    rank_strictly_increases(ids.words(), id as nat, ids.spec_capacity() as nat);
}

/// Length in bytes of the file of a store over `ids`; none if it does not fit in memory.
pub fn file_len(ids: &RankedBitSet) -> (r: Option<usize>)
    requires
        ids.wf(),
    ensures
        match r {
            Some(n) => n == store_len(ids.size()),
            None => store_len(ids.size()) > usize::MAX,
        },
{
    let slots: u64 = ids.len();
    if slots == 0 {
        return Some(1);
    }
    if slots > (usize::MAX / COORD_LEN) as u64 {
        return None;
    }
    Some(slots as usize * COORD_LEN)
}

/// Whether a store file of `file_len` bytes can be reused with `node_count` referenced
/// nodes. The store is addressed by `rank(id)`, so it is only valid for the exact set it
/// was written with, which is checked by its length.
pub fn node_store_matches(file_len: Option<u64>, node_count: u64) -> (r: bool)
    ensures
        r == (file_len matches Some(n) && n == store_len(node_count as nat)),
{
    match file_len {
        Some(n) => if node_count == 0 {
            n == 1
        } else {
            n / 8 == node_count && n % 8 == 0
        },
        None => false,
    }
}

/// Writer side of a sparse store: the address map, for bytes that the caller holds.
pub struct SparseStoreBuilder {
    pub bitset: RankedBitSet,
}

impl SparseStoreBuilder {
    pub fn create(bitset: RankedBitSet) -> (r: Self)
        ensures
            r.bitset == bitset,
    {
        SparseStoreBuilder { bitset }
    }

    /// Store `value` for `id`. No-op if `id` is not a referenced id (bit clear).
    pub fn set(&self, map: &mut [u8], id: u64, value: PackedCoord)
        requires
            self.bitset.wf(),
            old(map)@.len() == store_len(self.bitset.size()),
        ensures
            final(map)@ == written(self.bitset, old(map)@, id, value),
            final(map)@.len() == old(map)@.len(),
    {
        let n: usize = map.len();
        if let Some(slot) = self.bitset.rank_if_set(id) {
            proof {
                lemma_slot_in_range(self.bitset, id);
            }
            let bytes: Vec<u8> = value.to_bytes();
            let at: usize = slot as usize * COORD_LEN;
            let ghost before = map@;
            let mut k: usize = 0;
            while k < COORD_LEN
                invariant
                    k <= COORD_LEN,
                    at + 8 <= n,
                    n == before.len(),
                    map@.len() == n,
                    bytes@.len() == COORD_LEN,
                    forall|i: int|
                        0 <= i < n ==> #[trigger] map@[i] == (if at <= i < at + k {
                            bytes@[i - at]
                        } else {
                            before[i]
                        }),
                decreases COORD_LEN - k,
            {
                map[at + k] = bytes[k];
                k = k + 1;
            }
            assert(map@ =~= written(self.bitset, before, id, value));
        }
    }

    /// The read-only view.
    pub fn finish(self) -> (r: SparseStore)
        ensures
            r.ids == self.bitset,
    {
        SparseStore { ids: self.bitset }
    }
}

/// Reader side of a sparse store.
pub struct SparseStore {
    pub ids: RankedBitSet,
}

/// The node location cache: `node id -> PackedCoord`.
pub type NodeStore = SparseStore;

impl SparseStore {
    /// Address the bytes of an existing store with `bitset`, which must be the same one
    /// it was built with.
    pub fn open(bitset: RankedBitSet) -> (r: Self)
        ensures
            r.ids == bitset,
    {
        SparseStore { ids: bitset }
    }

    /// Fetch the coordinate for `id`, or `None` if `id` was never referenced.
    pub fn get(&self, map: &[u8], id: u64) -> (r: Option<PackedCoord>)
        requires
            self.ids.wf(),
            map@.len() == store_len(self.ids.size()),
        ensures
            r == stored(self.ids, map@, id),
    {
        let n: usize = map.len();
        match self.ids.rank_if_set(id) {
            Some(slot) => {
                proof {
                    lemma_slot_in_range(self.ids, id);
                    lemma_pow256_values();
                }
                let at: usize = slot as usize * COORD_LEN;
                let lon: &[u8] = vstd::slice::slice_subrange(map, at, at + 4);
                let lat: &[u8] = vstd::slice::slice_subrange(map, at + 4, at + 8);
                proof {
                    let s = slot_bytes(map@, slot as nat);
                    assert(s.subrange(0, 4) =~= lon@);
                    assert(s.subrange(4, 8) =~= lat@);
                    lemma_le_value_bound(lon@);
                    lemma_le_value_bound(lat@);
                }
                Some(
                    PackedCoord {
                        lon_e7: i32_from_bits(get_le(lon) as u32),
                        lat_e7: i32_from_bits(get_le(lat) as u32),
                    },
                )
            },
            None => None,
        }
    }

    /// Number of occupied slots.
    pub fn len(&self) -> (r: u64)
        requires
            self.ids.wf(),
        ensures
            r == self.ids.size(),
    {
        self.ids.len()
    }

    pub fn is_empty(&self) -> (r: bool)
        requires
            self.ids.wf(),
        ensures
            r == (self.ids.size() == 0),
    {
        self.ids.is_empty()
    }

    /// Borrow the address map (e.g. to test membership without a lookup).
    pub fn bitset(&self) -> (r: &RankedBitSet)
        ensures
            *r == self.ids,
    {
        &self.ids
    }
}

/// What a store holds for the nodes of a way, without those that it does not hold.
pub open spec fn line_of(ids: RankedBitSet, map: Seq<u8>, refs: Seq<i64>, n: nat) -> Seq<PackedCoord>
    decreases n,
{
    if n == 0 {
        Seq::empty()
    } else {
        let front = line_of(ids, map, refs, (n - 1) as nat);
        match stored(ids, map, refs[n - 1] as u64) {
            Some(c) => front.push(c),
            None => front,
        }
    }
}

/// Resolve the nodes of a way, dropping those that the store does not hold.
pub fn resolve_refs(store: &SparseStore, map: &[u8], refs: &Vec<i64>) -> (r: Vec<PackedCoord>)
    requires
        store.ids.wf(),
        map@.len() == store_len(store.ids.size()),
    ensures
        r@ == line_of(store.ids, map@, refs@, refs@.len()),
{
    let mut r: Vec<PackedCoord> = Vec::new();
    let mut i: usize = 0;
    while i < refs.len()
        invariant
            i <= refs@.len(),
            store.ids.wf(),
            map@.len() == store_len(store.ids.size()),
            r@ == line_of(store.ids, map@, refs@, i as nat),
        decreases refs@.len() - i,
    {
        if let Some(c) = store.get(map, node_key(refs[i])) {
            r.push(c);
        }
        i = i + 1;
    }
    r
}

/// A node id as an index; a negative one is out of every set's reach.
#[verifier::truncate]
fn node_key(id: i64) -> (r: u64)
    ensures
        r == id as u64,
{
    id as u64
}

} // verus!
