//! Reading tiles from an archive: which leaf directories stay resident, which byte
//! ranges to fetch for a batch of tiles, and how to cut the tiles out of them.

use std::sync::Arc;
use vstd::prelude::*;

use crate::archive::METADATA;
use crate::bytes::pow2n;
use crate::hilbert::{in_square, lemma_pow2n_monotone, tile_id, tile_id_of};
use crate::metadata::{listed_levels, other_fields_list_nothing, parse_zoom_levels};
use crate::pmtiles::{
    directory_at, header_at, parse_directory, resolve, resolved, sorted_entries, DirEntry, Header,
    Located,
};
use crate::sort::{is_stable_order, sort_order};
use crate::tile::Tile;

verus! {

/// How many parsed leaf directories to keep resident.
pub const LEAF_CACHE_CAP: usize = 256;

/// When batching tiles, data ranges separated by at most this many bytes are fetched as
/// a single ranged read. Archives cluster tiles by Hilbert id, so a viewport's tiles are
/// usually contiguous (or nearly) in the data section; bridging small gaps trades a
/// little over-read for far fewer round-trips.
pub const COALESCE_GAP: u64 = 65536;

// ---- coalescing ----

pub type ByteRange = (u64, usize);

pub open spec fn range_end(r: ByteRange) -> int {
    r.0 + r.1
}

/// Ranges in the order of their offsets, with ends that fit 64 bits.
pub open spec fn ranges_ok(rs: Seq<ByteRange>) -> bool {
    &&& forall|i: int, j: int| 0 <= i <= j < rs.len() ==> (#[trigger] rs[i]).0 <= (#[trigger] rs[j]).0
    &&& forall|i: int| 0 <= i < rs.len() ==> range_end(#[trigger] rs[i]) <= u64::MAX
}

/// The block `b` grown to take in `r`.
pub open spec fn grown_block(b: ByteRange, r: ByteRange) -> ByteRange {
    let end = if range_end(r) > range_end(b) {
        range_end(r)
    } else {
        range_end(b)
    };
    (b.0, (end - b.0) as usize)
}

/// The ranges merged into blocks: a range no more than `gap` behind the end of the
/// current block joins it.
pub open spec fn coalesced(rs: Seq<ByteRange>, gap: u64) -> Seq<ByteRange>
    decreases rs.len(),
{
    if rs.len() == 0 {
        Seq::empty()
    } else {
        let front = coalesced(rs.drop_last(), gap);
        let r = rs.last();
        if front.len() > 0 && r.0 <= range_end(front.last()) + gap {
            front.update(front.len() - 1, grown_block(front.last(), r))
        } else {
            front.push(r)
        }
    }
}

/// Every block spans no more bytes than `usize` counts.
pub open spec fn spans_fit(rs: Seq<ByteRange>, gap: u64) -> bool
    decreases rs.len(),
{
    rs.len() == 0 || {
        let front = coalesced(rs.drop_last(), gap);
        let r = rs.last();
        &&& spans_fit(rs.drop_last(), gap)
        &&& front.len() > 0 && r.0 <= range_end(front.last()) + gap ==> range_end(r)
            - front.last().0 <= usize::MAX
    }
}

/// Where `usize` has 64 bits, every block's span fits it.
pub proof fn wide_spans_fit(rs: Seq<ByteRange>, gap: u64)
    requires
        ranges_ok(rs),
        usize::MAX >= u64::MAX,
    ensures
        spans_fit(rs, gap),
    decreases rs.len(),
{
    if rs.len() > 0 {
        lemma_ranges_front(rs);
        wide_spans_fit(rs.drop_last(), gap);
        assert(range_end(rs[rs.len() - 1]) <= u64::MAX);
    }
}

/// `r` lies within `b`.
pub open spec fn inside(r: ByteRange, b: ByteRange) -> bool {
    b.0 <= r.0 && range_end(r) <= range_end(b)
}

/// Some block holds the range.
pub open spec fn block_holds(bs: Seq<ByteRange>, r: ByteRange) -> bool {
    exists|b: int| 0 <= b < bs.len() && inside(r, #[trigger] bs[b])
}

/// Some range starts here.
pub open spec fn is_start(rs: Seq<ByteRange>, at: u64) -> bool {
    exists|k: int| 0 <= k < rs.len() && (#[trigger] rs[k]).0 == at
}

/// Some range ends here.
pub open spec fn is_end(rs: Seq<ByteRange>, at: int) -> bool {
    exists|k: int| 0 <= k < rs.len() && range_end(#[trigger] rs[k]) == at
}

spec fn blocks_ok(rs: Seq<ByteRange>, bs: Seq<ByteRange>, gap: u64) -> bool {
    &&& rs.len() > 0 ==> bs.len() > 0 && bs.last().0 <= rs.last().0
    &&& forall|i: int, j: int|
        0 <= i < j < bs.len() ==> range_end(#[trigger] bs[i]) + gap < (#[trigger] bs[j]).0
    &&& forall|k: int| 0 <= k < rs.len() ==> block_holds(bs, #[trigger] rs[k])
}

/// Blocks end where 64 bits count to, and the last starts no later than the last range.
spec fn blocks_bounded(rs: Seq<ByteRange>, bs: Seq<ByteRange>) -> bool {
    &&& rs.len() > 0 ==> bs.len() > 0 && bs.last().0 <= rs.last().0
    &&& forall|b: int| 0 <= b < bs.len() ==> range_end(#[trigger] bs[b]) <= u64::MAX
}

proof fn lemma_blocks_bounded(rs: Seq<ByteRange>, gap: u64)
    requires
        ranges_ok(rs),
    ensures
        blocks_bounded(rs, coalesced(rs, gap)),
    decreases rs.len(),
{
    if rs.len() > 0 {
        let f = rs.drop_last();
        let n = f.len() as int;
        lemma_ranges_front(rs);
        lemma_blocks_bounded(f, gap);
        let a = coalesced(f, gap);
        let b = coalesced(rs, gap);
        assert(range_end(rs[n]) <= u64::MAX);
        if n > 0 {
            assert(rs[n - 1].0 <= rs[n].0);
            assert(f.last() == rs[n - 1]);
        }
        assert forall|m: int| 0 <= m < b.len() implies range_end(#[trigger] b[m]) <= u64::MAX by {
            if m < a.len() {
                assert(range_end(a[m]) <= u64::MAX);
            }
        }
    }
}

proof fn lemma_ranges_front(rs: Seq<ByteRange>)
    requires
        ranges_ok(rs),
        rs.len() > 0,
    ensures
        ranges_ok(rs.drop_last()),
{
    let f = rs.drop_last();
    assert forall|i: int, j: int| 0 <= i <= j < f.len() implies (#[trigger] f[i]).0 <= (
    #[trigger] f[j]).0 by {
        assert(f[i] == rs[i] && f[j] == rs[j]);
    }
    assert forall|i: int| 0 <= i < f.len() implies range_end(#[trigger] f[i]) <= u64::MAX by {
        assert(f[i] == rs[i]);
    }
}

proof fn lemma_blocks(rs: Seq<ByteRange>, gap: u64)
    requires
        ranges_ok(rs),
        spans_fit(rs, gap),
    ensures
        blocks_ok(rs, coalesced(rs, gap), gap),
    decreases rs.len(),
{
    if rs.len() > 0 {
        let f = rs.drop_last();
        let r = rs.last();
        let n = f.len() as int;
        assert(rs[n] == r);
        lemma_ranges_front(rs);
        lemma_blocks(f, gap);
        let a = coalesced(f, gap);
        let b = coalesced(rs, gap);
        assert(range_end(rs[n]) <= u64::MAX);
        if f.len() > 0 {
            assert(f.last() == rs[n - 1]);
            assert(rs[n - 1].0 <= rs[n].0);
        }
        let joins = a.len() > 0 && r.0 <= range_end(a.last()) + gap;
        let last = b.len() - 1;
        if joins {
            assert(a.last().0 <= f.last().0);
            assert(range_end(b[last]) >= range_end(a[last]) && range_end(b[last]) >= range_end(r));
        }
        assert forall|i: int, j: int| 0 <= i < j < b.len() implies range_end(#[trigger] b[i]) + gap < (
        #[trigger] b[j]).0 by {
            if j < a.len() {
                assert(range_end(a[i]) + gap < a[j].0);
            } else if i < a.len() - 1 {
                assert(range_end(a[i]) + gap < a[a.len() - 1].0);
                assert(range_end(a[a.len() - 1]) + gap < r.0);
            }
        }
        assert forall|k: int| 0 <= k < rs.len() implies block_holds(b, #[trigger] rs[k]) by {
            if k < n {
                assert(f[k] == rs[k]);
                assert(block_holds(a, f[k]));
                let m = choose|m: int| 0 <= m < a.len() && inside(f[k], #[trigger] a[m]);
                assert(inside(rs[k], b[m]));
            } else {
                assert(inside(rs[k], b[last]));
            }
        }
    }
}

/// The last block ends where the last range or the block before it was grown does.
proof fn lemma_last_block(rs: Seq<ByteRange>, gap: u64)
    requires
        ranges_ok(rs),
        spans_fit(rs, gap),
        rs.len() > 0,
    ensures
        ({
            let a = coalesced(rs.drop_last(), gap);
            let b = coalesced(rs, gap);
            let r = rs.last();
            if a.len() > 0 && r.0 <= range_end(a.last()) + gap {
                b.len() == a.len() && b.last().0 == a.last().0 && (range_end(b.last()) == range_end(
                    a.last(),
                ) || range_end(b.last()) == range_end(r))
            } else {
                b == a.push(r)
            }
        }),
{
    let f = rs.drop_last();
    lemma_ranges_front(rs);
    lemma_blocks(f, gap);
    let a = coalesced(f, gap);
    if a.len() > 0 {
        if f.len() > 0 {
            assert(f.last() == rs[f.len() - 1]);
            assert(rs[f.len() - 1].0 <= rs[rs.len() - 1].0);
        }
    }
}

proof fn lemma_block_bounds(rs: Seq<ByteRange>, gap: u64)
    requires
        ranges_ok(rs),
        spans_fit(rs, gap),
    ensures
        forall|b: int|
            0 <= b < coalesced(rs, gap).len() ==> is_start(
                rs,
                (#[trigger] coalesced(rs, gap)[b]).0,
            ) && is_end(rs, range_end(coalesced(rs, gap)[b])),
    decreases rs.len(),
{
    if rs.len() > 0 {
        let f = rs.drop_last();
        let r = rs.last();
        let n = f.len() as int;
        assert(rs[n] == r);
        lemma_ranges_front(rs);
        lemma_block_bounds(f, gap);
        lemma_last_block(rs, gap);
        let a = coalesced(f, gap);
        let b = coalesced(rs, gap);
        assert forall|m: int| 0 <= m < b.len() implies is_start(rs, (#[trigger] b[m]).0) && is_end(
            rs,
            range_end(b[m]),
        ) by {
            if m < a.len() {
                assert(a[m].0 == b[m].0);
                assert(is_start(f, a[m].0) && is_end(f, range_end(a[m])));
                let k = choose|k: int| 0 <= k < f.len() && (#[trigger] f[k]).0 == a[m].0;
                assert(rs[k].0 == b[m].0);
                if range_end(b[m]) == range_end(a[m]) {
                    let k = choose|k: int|
                        0 <= k < f.len() && range_end(#[trigger] f[k]) == range_end(a[m]);
                    assert(range_end(rs[k]) == range_end(b[m]));
                } else {
                    assert(range_end(rs[n]) == range_end(b[m]));
                }
            } else {
                assert(rs[n].0 == b[m].0);
                assert(range_end(rs[n]) == range_end(b[m]));
            }
        }
    }
}

/// Every range lies in a block, blocks ascend with more than `gap` bytes between them,
/// and each block starts and ends where some range does; there are none exactly if there
/// are no ranges.
pub proof fn coalesced_blocks_cover(rs: Seq<ByteRange>, gap: u64)
    requires
        ranges_ok(rs),
        spans_fit(rs, gap),
    ensures
        coalesced(rs, gap).len() == 0 <==> rs.len() == 0,
        forall|k: int| 0 <= k < rs.len() ==> block_holds(coalesced(rs, gap), #[trigger] rs[k]),
        forall|i: int, j: int|
            0 <= i < j < coalesced(rs, gap).len() ==> range_end(#[trigger] coalesced(rs, gap)[i])
                + gap < (#[trigger] coalesced(rs, gap)[j]).0,
        forall|b: int|
            0 <= b < coalesced(rs, gap).len() ==> is_start(
                rs,
                (#[trigger] coalesced(rs, gap)[b]).0,
            ) && is_end(rs, range_end(coalesced(rs, gap)[b])),
{
    lemma_blocks(rs, gap);
    lemma_block_bounds(rs, gap);
}

/// The low bits of a span, as many as `usize` has.
#[verifier::truncate]
fn narrow(v: u64) -> (r: usize)
    ensures
        r == v as usize,
{
    v as usize
}

/// Merge sorted data ranges into fetch blocks, bridging any gap of at most `gap` bytes
/// (adjacent/overlapping ranges always merge; a larger gap ends the current block).
/// Returns `(offset, len)` blocks in the same order, non-overlapping and ascending.
pub fn coalesce_blocks(ranges: &[ByteRange], gap: u64) -> (r: Vec<ByteRange>)
    requires
        ranges_ok(ranges@),
    ensures
        r@ == coalesced(ranges@, gap),
{
    let mut blocks: Vec<ByteRange> = Vec::new();
    let mut i: usize = 0;
    let ghost rs = ranges@;
    assert(blocks@ =~= coalesced(rs.take(0), gap));
    while i < ranges.len()
        invariant
            i <= ranges@.len(),
            rs == ranges@,
            ranges_ok(rs),
            blocks@ == coalesced(rs.take(i as int), gap),
        decreases ranges@.len() - i,
    {
        let (off, len) = ranges[i];
        proof {
            lemma_ranges_take(rs, i as int);
            lemma_blocks_bounded(rs.take(i as int), gap);
            let next = rs.take(i + 1);
            assert(next.drop_last() =~= rs.take(i as int));
            assert(next.last() == rs[i as int]);
            assert(range_end(rs[i as int]) <= u64::MAX);
            if i > 0 {
                assert(rs.take(i as int).last() == rs[i - 1]);
                assert(rs[i - 1].0 <= rs[i as int].0);
            }
        }
        let n: usize = blocks.len();
        if n > 0 {
            let last: ByteRange = blocks[n - 1];
            assert(range_end(blocks@[n - 1]) <= u64::MAX);
            let last_end: u64 = last.0 + last.1 as u64;
            let reach: u64 = if gap > u64::MAX - last_end {
                u64::MAX
            } else {
                last_end + gap
            };
            if off <= reach {
                let own_end: u64 = off + len as u64;
                let end: u64 = if own_end > last_end {
                    own_end
                } else {
                    last_end
                };
                blocks[n - 1] = (last.0, narrow(end - last.0));
            } else {
                blocks.push((off, len));
            }
        } else {
            blocks.push((off, len));
        }
        i = i + 1;
    }
    assert(rs.take(i as int) =~= rs);
    blocks
}

proof fn lemma_ranges_take(rs: Seq<ByteRange>, k: int)
    requires
        ranges_ok(rs),
        0 <= k <= rs.len(),
    ensures
        ranges_ok(rs.take(k)),
{
    let f = rs.take(k);
    assert forall|i: int, j: int| 0 <= i <= j < f.len() implies (#[trigger] f[i]).0 <= (
    #[trigger] f[j]).0 by {
        assert(f[i] == rs[i] && f[j] == rs[j]);
    }
    assert forall|i: int| 0 <= i < f.len() implies range_end(#[trigger] f[i]) <= u64::MAX by {
        assert(f[i] == rs[i]);
    }
}

// ---- batches ----

/// Where a tile's bytes are in the data section; none for an absent tile.
pub type Place = Option<(u64, u32)>;

/// The place of a present tile as a range.
pub open spec fn range_of(p: Place) -> ByteRange {
    match p {
        Some((o, n)) => (o, n as usize),
        None => (0, 0),
    }
}

/// Some tile is present at this range.
pub open spec fn is_place(ps: Seq<Place>, r: ByteRange) -> bool {
    exists|i: int| 0 <= i < ps.len() && #[trigger] ps[i] is Some && r == range_of(ps[i])
}

/// Every place ends where 64 bits count to.
pub open spec fn places_ok(ps: Seq<Place>) -> bool {
    forall|i: int| 0 <= i < ps.len() ==> (#[trigger] ps[i] matches Some((o, n)) ==> o + n <= u64::MAX)
}

/// `rs` are the distinct ranges among the places, in order.
pub open spec fn distinct_ranges(rs: Seq<ByteRange>, ps: Seq<Place>) -> bool {
    &&& forall|i: int, j: int|
        0 <= i < j < rs.len() ==> (#[trigger] rs[i]).0 < (#[trigger] rs[j]).0 || (rs[i].0 == rs[j].0
            && rs[i].1 < rs[j].1)
    &&& forall|i: int|
        0 <= i < ps.len() && #[trigger] ps[i] is Some ==> rs.contains(
            range_of(ps[i]),
        )
    &&& forall|k: int|
        0 <= k < rs.len() ==> is_place(ps, #[trigger] rs[k])
}

spec fn place_keys(rs: Seq<ByteRange>) -> Seq<i128> {
    Seq::new(rs.len(), |i: int| (rs[i].0 * 0x1_0000_0000 + rs[i].1) as i128)
}

/// The present places as ranges.
fn present(places: &Vec<Place>) -> (r: Vec<ByteRange>)
    requires
        places_ok(places@),
    ensures
        forall|i: int|
            0 <= i < places@.len() && #[trigger] places@[i] is Some ==> r@.contains(
                range_of(places@[i]),
            ),
        forall|k: int|
            0 <= k < r@.len() ==> is_place(places@, #[trigger] r@[k]),
{
    let mut r: Vec<ByteRange> = Vec::new();
    let mut i: usize = 0;
    while i < places.len()
        invariant
            i <= places@.len(),
            places_ok(places@),
            forall|j: int|
                0 <= j < i && #[trigger] places@[j] is Some ==> r@.contains(
                    range_of(places@[j]),
                ),
            forall|k: int|
                0 <= k < r@.len() ==> is_place(places@, #[trigger] r@[k]),
        decreases places@.len() - i,
    {
        let ghost before = r@;
        if let Some((o, n)) = places[i] {
            assert(places@[i as int] is Some);
            r.push((o, n as usize));
            proof {
                assert forall|j: int| 0 <= j < i + 1 && #[trigger] places@[j] is Some implies r@.contains(
                    range_of(places@[j]),
                ) by {
                    if j < i {
                        let x = range_of(places@[j]);
                        let m = choose|m: int| 0 <= m < before.len() && before[m] == x;
                        assert(r@[m] == x);
                    } else {
                        assert(r@[before.len() as int] == (o, n as usize));
                    }
                }
                assert forall|k: int| 0 <= k < r@.len() implies is_place(places@, #[trigger] r@[k]) by {
                    if k < before.len() {
                        assert(r@[k] == before[k]);
                    } else {
                        assert(places@[i as int] is Some);
                    }
                }
            }
        }
        i = i + 1;
    }
    r
}

/// The distinct ranges among the places, in order. Duplicates arise naturally from
/// content dedup (many tiles, same bytes).
pub fn distinct_sorted(places: &Vec<Place>) -> (r: Vec<ByteRange>)
    requires
        places_ok(places@),
    ensures
        distinct_ranges(r@, places@),
        ranges_ok(r@),
{
    let all: Vec<ByteRange> = present(places);
    let ghost s = all@;
    proof {
        assert forall|k: int| 0 <= k < s.len() implies (#[trigger] s[k]).1 <= u32::MAX && range_end(
            s[k],
        ) <= u64::MAX by {
            let i = choose|i: int|
                0 <= i < places@.len() && #[trigger] places@[i] is Some && s[k] == range_of(places@[i]);
            assert(places@[i] is Some);
        }
    }
    let mut keys: Vec<i128> = Vec::new();
    let mut i: usize = 0;
    while i < all.len()
        invariant
            i <= all@.len(),
            s == all@,
            forall|k: int| 0 <= k < s.len() ==> (#[trigger] s[k]).1 <= u32::MAX,
            keys@ == place_keys(s).take(i as int),
        decreases all@.len() - i,
    {
        assert(s[i as int].1 <= u32::MAX);
        keys.push((all[i].0 as i128) * 0x1_0000_0000 + all[i].1 as i128);
        i = i + 1;
        assert(keys@ =~= place_keys(s).take(i as int));
    }
    assert(place_keys(s).take(i as int) =~= place_keys(s));
    let order: Vec<usize> = sort_order(&keys);
    let mut r: Vec<ByteRange> = Vec::new();
    let mut k: usize = 0;
    while k < order.len()
        invariant
            k <= order@.len(),
            s == all@,
            is_stable_order(order@, place_keys(s)),
            forall|k: int| 0 <= k < s.len() ==> (#[trigger] s[k]).1 <= u32::MAX,
            k > 0 ==> r@.len() > 0 && r@.last() == s[order@[k - 1] as int],
            k == 0 ==> r@.len() == 0,
            forall|i: int, j: int|
                0 <= i < j < r@.len() ==> (#[trigger] r@[i]).0 < (#[trigger] r@[j]).0 || (r@[i].0
                    == r@[j].0 && r@[i].1 < r@[j].1),
            forall|m: int| 0 <= m < k ==> r@.contains(s[(#[trigger] order@[m]) as int]),
            forall|m: int| 0 <= m < r@.len() ==> s.contains(#[trigger] r@[m]),
        decreases order@.len() - k,
    {
        let x: ByteRange = all[order[k]];
        let ghost before = r@;
        let ghost a = order@[k as int] as int;
        assert(s[a] == x);
        assert(s[a].1 <= u32::MAX);
        let n: usize = r.len();
        let same: bool = n > 0 && r[n - 1].0 == x.0 && r[n - 1].1 == x.1;
        if !same {
            r.push(x);
        }
        proof {
            if k > 0 {
                let b = order@[k - 1] as int;
                assert(place_keys(s)[b] <= place_keys(s)[a]);
                assert(s[b].1 <= u32::MAX);
                assert(s[b].0 < s[a].0 || (s[b].0 == s[a].0 && s[b].1 <= s[a].1));
            }
            assert forall|i: int, j: int| 0 <= i < j < r@.len() implies (#[trigger] r@[i]).0 < (
            #[trigger] r@[j]).0 || (r@[i].0 == r@[j].0 && r@[i].1 < r@[j].1) by {
                if j == before.len() {
                    if i < before.len() - 1 {
                        assert(before[i].0 < before[before.len() - 1].0 || (before[i].0
                            == before[before.len() - 1].0 && before[i].1 < before[before.len()
                            - 1].1));
                    }
                }
            }
            assert forall|m: int| 0 <= m < k + 1 implies r@.contains(
                s[(#[trigger] order@[m]) as int],
            ) by {
                if m < k {
                    let y = s[order@[m] as int];
                    assert(before.contains(y));
                    let q = choose|q: int| 0 <= q < before.len() && before[q] == y;
                    assert(r@[q] == y);
                } else if same {
                    assert(r@[n - 1] == x);
                } else {
                    assert(r@[before.len() as int] == x);
                }
            }
            assert forall|m: int| 0 <= m < r@.len() implies s.contains(#[trigger] r@[m]) by {
                if m < before.len() {
                    assert(before[m] == r@[m]);
                }
            }
        }
        k = k + 1;
    }
    proof {
        assert forall|i: int| 0 <= i < places@.len() && #[trigger] places@[i] is Some implies r@.contains(
            range_of(places@[i]),
        ) by {
            let x = range_of(places@[i]);
            let q = choose|q: int| 0 <= q < s.len() && s[q] == x;
            assert(order@.contains(q as usize));
            let m = choose|m: int| 0 <= m < order@.len() && order@[m] == q as usize;
            assert(r@.contains(s[order@[m] as int]));
        }
        assert forall|m: int| 0 <= m < r@.len() implies is_place(places@, #[trigger] r@[m]) by {
            assert(s.contains(r@[m]));
            let q = choose|q: int| 0 <= q < s.len() && s[q] == r@[m];
            let i = choose|i: int|
                0 <= i < places@.len() && #[trigger] places@[i] is Some && s[q] == range_of(places@[i]);
            assert(places@[i] is Some);
        }
        assert forall|i: int, j: int| 0 <= i <= j < r@.len() implies (#[trigger] r@[i]).0 <= (
        #[trigger] r@[j]).0 by {}
        assert forall|m: int| 0 <= m < r@.len() implies range_end(#[trigger] r@[m]) <= u64::MAX by {
            assert(s.contains(r@[m]));
        }
    }
    r
}

/// The blocks to fetch for a batch of places.
pub fn plan_fetch(places: &Vec<Place>) -> (r: Vec<ByteRange>)
    requires
        places_ok(places@),
    ensures
        exists|rs: Seq<ByteRange>|
            #![trigger distinct_ranges(rs, places@)]
            distinct_ranges(rs, places@) && ranges_ok(rs) && r@ == coalesced(rs, COALESCE_GAP),
{
    let ranges: Vec<ByteRange> = distinct_sorted(places);
    coalesce_blocks(&ranges, COALESCE_GAP)
}

/// How many blocks start at or before `offset`.
pub open spec fn blocks_up_to(bs: Seq<ByteRange>, offset: u64, n: nat) -> nat
    decreases n,
{
    if n == 0 {
        0
    } else if bs[n - 1].0 <= offset {
        n
    } else {
        blocks_up_to(bs, offset, (n - 1) as nat)
    }
}

/// The bytes of a place, cut out of the blocks that were fetched: from the last block
/// that starts at or before it.
pub open spec fn cut(bs: Seq<ByteRange>, fetched: Seq<Seq<u8>>, place: Place) -> Option<Seq<u8>> {
    match place {
        None => None,
        Some((o, n)) => {
            let b = blocks_up_to(bs, o, bs.len()) - 1;
            let start = o - bs[b].0;
            Some(fetched[b].subrange(start, start + n))
        },
    }
}

/// The blocks hold every place.
pub open spec fn blocks_hold_places(bs: Seq<ByteRange>, ps: Seq<Place>) -> bool {
    forall|i: int|
        0 <= i < ps.len() ==> (#[trigger] ps[i] matches Some((o, n)) ==> block_holds(
            bs,
            (o, n as usize),
        ))
}

/// Blocks ascend without overlap.
pub open spec fn blocks_ascend(bs: Seq<ByteRange>) -> bool {
    forall|i: int, j: int|
        0 <= i < j < bs.len() ==> range_end(#[trigger] bs[i]) < (#[trigger] bs[j]).0
}

proof fn lemma_block_of(bs: Seq<ByteRange>, offset: u64, b: int)
    requires
        blocks_ascend(bs),
        0 <= b < bs.len(),
        bs[b].0 <= offset <= range_end(bs[b]),
    ensures
        blocks_up_to(bs, offset, bs.len()) == b + 1,
{
    lemma_blocks_count(bs, offset, bs.len());
    let c = blocks_up_to(bs, offset, bs.len());
    if c > b + 1 {
        assert(range_end(bs[b]) < bs[c - 1].0);
    } else if c < b + 1 {
        assert(bs[b].0 > offset);
    }
}

proof fn lemma_blocks_count(bs: Seq<ByteRange>, offset: u64, n: nat)
    requires
        n <= bs.len(),
    ensures
        blocks_up_to(bs, offset, n) <= n,
        blocks_up_to(bs, offset, n) > 0 ==> bs[blocks_up_to(bs, offset, n) - 1].0 <= offset,
        forall|k: int| blocks_up_to(bs, offset, n) <= k < n ==> (#[trigger] bs[k]).0 > offset,
    decreases n,
{
    if n > 0 && bs[n - 1].0 > offset {
        lemma_blocks_count(bs, offset, (n - 1) as nat);
    }
}

pub open spec fn bytes_view(s: Seq<Vec<u8>>) -> Seq<Seq<u8>> {
    Seq::new(s.len(), |i: int| s[i]@)
}

pub open spec fn option_view(r: Option<Vec<u8>>) -> Option<Seq<u8>> {
    match r {
        Some(v) => Some(v@),
        None => None,
    }
}

/// Cut each tile's bytes out of the fetched blocks.
pub fn slice_tiles(places: &Vec<Place>, blocks: &Vec<ByteRange>, fetched: &Vec<Vec<u8>>) -> (r: Vec<
    Option<Vec<u8>>,
>)
    requires
        blocks_ascend(blocks@),
        blocks_hold_places(blocks@, places@),
        fetched@.len() == blocks@.len(),
        forall|b: int|
            0 <= b < blocks@.len() ==> (#[trigger] fetched@[b])@.len() == blocks@[b].1,
    ensures
        r@.len() == places@.len(),
        forall|i: int|
            0 <= i < r@.len() ==> option_view(#[trigger] r@[i]) == cut(
                blocks@,
                bytes_view(fetched@),
                places@[i],
            ),
{
    let mut r: Vec<Option<Vec<u8>>> = Vec::new();
    let mut i: usize = 0;
    while i < places.len()
        invariant
            i <= places@.len(),
            blocks_ascend(blocks@),
            blocks_hold_places(blocks@, places@),
            fetched@.len() == blocks@.len(),
            forall|b: int|
                0 <= b < blocks@.len() ==> (#[trigger] fetched@[b])@.len() == blocks@[b].1,
            r@.len() == i,
            forall|k: int|
                0 <= k < i ==> option_view(#[trigger] r@[k]) == cut(
                    blocks@,
                    bytes_view(fetched@),
                    places@[k],
                ),
        decreases places@.len() - i,
    {
        match places[i] {
            None => r.push(None),
            Some((o, n)) => {
                assert(places@[i as int] == Some((o, n)));
                let ghost b = choose|b: int|
                    0 <= b < blocks@.len() && inside((o, n as usize), #[trigger] blocks@[b]);
                let mut lo: usize = 0;
                let mut hi: usize = blocks.len();
                proof {
                    assert(block_holds(blocks@, (o, n as usize)));
                    lemma_block_of(blocks@, o, b);
                }
                while lo < hi
                    invariant
                        lo <= hi <= blocks@.len(),
                        blocks_ascend(blocks@),
                        forall|k: int| 0 <= k < lo ==> (#[trigger] blocks@[k]).0 <= o,
                        forall|k: int| hi <= k < blocks@.len() ==> (#[trigger] blocks@[k]).0 > o,
                    decreases hi - lo,
                {
                    let mid: usize = lo + (hi - lo) / 2;
                    if blocks[mid].0 <= o {
                        assert forall|k: int| 0 <= k < mid + 1 implies (#[trigger] blocks@[k]).0
                            <= o by {
                            if k < mid {
                                assert(range_end(blocks@[k]) < blocks@[mid as int].0);
                            }
                        }
                        lo = mid + 1;
                    } else {
                        assert forall|k: int| mid <= k < blocks@.len() implies (
                        #[trigger] blocks@[k]).0 > o by {
                            if k > mid {
                                assert(range_end(blocks@[mid as int]) < blocks@[k].0);
                            }
                        }
                        hi = mid;
                    }
                }
                assert(lo == b + 1) by {
                    if lo < b + 1 {
                        assert(blocks@[b].0 > o);
                    } else if lo > b + 1 {
                        assert(blocks@[lo - 1].0 <= o);
                        assert(range_end(blocks@[b]) < blocks@[lo - 1].0);
                    }
                }
                let bi: usize = lo - 1;
                assert(fetched@[bi as int]@.len() == blocks@[bi as int].1);
                let start: usize = (o - blocks[bi].0) as usize;
                let piece: &[u8] = vstd::slice::slice_subrange(
                    fetched[bi].as_slice(),
                    start,
                    start + n as usize,
                );
                r.push(Some(crate::bytes::bytes_to_vec(piece)));
            },
        }
        i = i + 1;
    }
    r
}

/// A batch gives each tile the bytes that a read of its own would: where the fetched
/// blocks are the data section's bytes, the cut is the data section's bytes at the
/// tile's place.
pub proof fn batch_matches_single(
    data: Seq<u8>,
    bs: Seq<ByteRange>,
    fetched: Seq<Seq<u8>>,
    o: u64,
    n: u32,
)
    requires
        blocks_ascend(bs),
        block_holds(bs, (o, n as usize)),
        fetched.len() == bs.len(),
        forall|b: int|
            0 <= b < bs.len() ==> range_end(#[trigger] bs[b]) <= data.len() && fetched[b]
                == data.subrange(bs[b].0 as int, range_end(bs[b])),
    ensures
        cut(bs, fetched, Some((o, n))) == Some(data.subrange(o as int, o + n)),
{
    let b = choose|b: int| 0 <= b < bs.len() && inside((o, n as usize), #[trigger] bs[b]);
    lemma_block_of(bs, o, b);
    let start = o - bs[b].0;
    assert(range_end(bs[b]) <= data.len());
    assert(fetched[b].subrange(start, start + n) =~= data.subrange(o as int, o + n));
}

/// The blocks planned for a batch hold every place of it and ascend.
pub proof fn planned_blocks_hold(rs: Seq<ByteRange>, ps: Seq<Place>)
    requires
        places_ok(ps),
        ranges_ok(rs),
        spans_fit(rs, COALESCE_GAP),
        distinct_ranges(rs, ps),
    ensures
        blocks_hold_places(coalesced(rs, COALESCE_GAP), ps),
        blocks_ascend(coalesced(rs, COALESCE_GAP)),
{
    let bs = coalesced(rs, COALESCE_GAP);
    coalesced_blocks_cover(rs, COALESCE_GAP);
    assert forall|i: int| 0 <= i < ps.len() implies (#[trigger] ps[i] matches Some((o, n))
        ==> block_holds(bs, (o, n as usize))) by {
        if let Some((o, n)) = ps[i] {
            assert(rs.contains((o, n as usize)));
            let k = choose|k: int| 0 <= k < rs.len() && rs[k] == (o, n as usize);
            assert(block_holds(bs, rs[k]));
        }
    }
}

// ---- resident leaves ----

pub type Leaf = (u64, Arc<Vec<DirEntry>>);

pub open spec fn leaf_position(s: Seq<Leaf>, offset: u64, n: nat) -> Option<int>
    decreases n,
{
    if n == 0 {
        None
    } else if s[n - 1].0 == offset {
        Some(n - 1)
    } else {
        leaf_position(s, offset, (n - 1) as nat)
    }
}

pub open spec fn find_leaf(s: Seq<Leaf>, offset: u64) -> Option<int> {
    leaf_position(s, offset, s.len())
}

/// The leaves without one, least recent first.
pub open spec fn leaves_without(s: Seq<Leaf>, offset: u64) -> Seq<Leaf> {
    match find_leaf(s, offset) {
        Some(i) => s.remove(i),
        None => s,
    }
}

/// The last `cap` of the leaves.
pub open spec fn most_recent(s: Seq<Leaf>, cap: nat) -> Seq<Leaf> {
    if s.len() <= cap {
        s
    } else {
        s.skip(s.len() - cap)
    }
}

proof fn lemma_leaf_position(s: Seq<Leaf>, offset: u64, n: nat)
    requires
        n <= s.len(),
    ensures
        match leaf_position(s, offset, n) {
            Some(i) => 0 <= i < n && s[i].0 == offset,
            None => forall|k: int| 0 <= k < n ==> (#[trigger] s[k]).0 != offset,
        },
    decreases n,
{
    if n > 0 && s[n - 1].0 != offset {
        lemma_leaf_position(s, offset, (n - 1) as nat);
    }
}

/// A tiny LRU over parsed leaf directories, keyed by their offset in the leaf section.
pub struct LeafCache {
    leaves: Vec<Leaf>,
    cap: usize,
}

impl LeafCache {
    /// The leaves, least recent first.
    pub closed spec fn leaves(&self) -> Seq<Leaf> {
        self.leaves@
    }

    pub closed spec fn cap(&self) -> nat {
        self.cap as nat
    }

    pub fn new(cap: usize) -> (r: Self)
        ensures
            r.leaves().len() == 0,
            r.cap() == cap,
    {
        LeafCache { leaves: Vec::new(), cap }
    }

    fn position(&self, offset: u64) -> (r: Option<usize>)
        ensures
            match r {
                Some(i) => i < self.leaves@.len() && find_leaf(self.leaves@, offset) == Some(i as int),
                None => find_leaf(self.leaves@, offset) is None,
            },
    {
        let mut n: usize = self.leaves.len();
        while n > 0
            invariant
                n <= self.leaves@.len(),
                leaf_position(self.leaves@, offset, n as nat) == find_leaf(self.leaves@, offset),
            decreases n,
        {
            if self.leaves[n - 1].0 == offset {
                return Some(n - 1);
            }
            n = n - 1;
        }
        None
    }

    /// Fetch and mark most-recently-used.
    pub fn get(&mut self, offset: u64) -> (r: Option<Arc<Vec<DirEntry>>>)
        ensures
            final(self).cap() == old(self).cap(),
            match find_leaf(old(self).leaves(), offset) {
                Some(i) => r == Some(old(self).leaves()[i].1) && final(self).leaves() == old(
                    self,
                ).leaves().remove(i).push(old(self).leaves()[i]),
                None => r is None && final(self).leaves() == old(self).leaves(),
            },
    {
        match self.position(offset) {
            None => None,
            Some(i) => {
                let leaf: Leaf = self.leaves.remove(i);
                let dir: Arc<Vec<DirEntry>> = leaf.1.clone();
                self.leaves.push(leaf);
                Some(dir)
            },
        }
    }

    /// Keep a leaf as the most recent, dropping the least recent past the capacity.
    pub fn insert(&mut self, offset: u64, dir: Arc<Vec<DirEntry>>)
        ensures
            final(self).cap() == old(self).cap(),
            final(self).leaves() == most_recent(
                leaves_without(old(self).leaves(), offset).push((offset, dir)),
                old(self).cap(),
            ),
            old(self).leaves().len() <= old(self).cap() ==> final(self).leaves().len() <= old(
                self,
            ).cap(),
    {
        if let Some(i) = self.position(offset) {
            self.leaves.remove(i);
        }
        self.leaves.push((offset, dir));
        let ghost all = self.leaves@;
        assert(all.skip(0) =~= all);
        while self.leaves.len() > self.cap
            invariant
                self.cap == old(self).cap,
                self.leaves@.len() <= all.len(),
                self.leaves@ == all.skip(all.len() - self.leaves@.len()),
                all.len() > self.cap ==> self.leaves@.len() >= self.cap,
                all.len() <= self.cap ==> self.leaves@.len() == all.len(),
            decreases self.leaves@.len(),
        {
            self.leaves.remove(0);
            assert(self.leaves@ =~= all.skip(all.len() - self.leaves@.len()));
        }
    }
}

/// The zoom levels between an archive's coarsest and finest.
pub open spec fn header_levels(h: Header) -> Seq<u8> {
    Seq::new(
        if h.min_zoom <= h.max_zoom {
            (h.max_zoom - h.min_zoom + 1) as nat
        } else {
            0
        },
        |i: int| (h.min_zoom + i) as u8,
    )
}

/// An archive's materialized zoom levels: those that its metadata lists, and for one that
/// lists none the range in its header.
pub open spec fn archive_levels(h: Header, metadata: Seq<u8>) -> Seq<u8> {
    match listed_levels(metadata) {
        Some(levels) => levels,
        None => header_levels(h),
    }
}

/// An archive with the metadata of this library has the whole range in its header.
pub proof fn own_levels_are_the_range(h: Header)
    ensures
        archive_levels(h, METADATA@) == header_levels(h),
{
    other_fields_list_nothing(METADATA@);
}

/// The materialized zoom levels of an archive, given its metadata.
pub fn zoom_levels(header: &Header, metadata: &[u8]) -> (r: Vec<u8>)
    ensures
        r@ == archive_levels(*header, metadata@),
{
    if let Some(levels) = parse_zoom_levels(metadata) {
        return levels;
    }
    let mut r: Vec<u8> = Vec::new();
    let mut z: u16 = header.min_zoom as u16;
    while z <= header.max_zoom as u16
        invariant
            header.min_zoom <= z,
            z <= header.max_zoom + 1 || z == header.min_zoom,
            r@.len() == z - header.min_zoom,
            forall|i: int| 0 <= i < r@.len() ==> #[trigger] r@[i] == header.min_zoom + i,
        decreases 256 - z,
    {
        r.push(z as u8);
        z = z + 1;
    }
    assert(r@ =~= header_levels(*header));
    r
}

// ---- an open archive ----

/// Why an archive could not be opened, or a leaf not be read.
#[derive(Debug, Clone, Copy, PartialEq, Eq, Structural)]
pub enum ArchiveError {
    InvalidHeader,
    CorruptRoot,
    CorruptLeaf,
}

/// A tile that an archive can address.
pub open spec fn addressable(t: Tile) -> bool {
    t.z < 32 && in_square(t.z as nat, t.x as int, t.y as int)
}

/// Whether an archive can address a tile.
pub fn is_addressable(t: Tile) -> (r: bool)
    ensures
        r == addressable(t),
{
    if t.z >= 32 {
        return false;
    }
    let mut side: u64 = 1;
    let mut k: u8 = 0;
    proof {
        reveal_with_fuel(pow2n, 33);
        assert(pow2n(31) == 0x8000_0000);
    }
    while k < t.z
        invariant
            k <= t.z < 32,
            side == pow2n(k as nat),
            side <= pow2n(31),
            pow2n(31) == 0x8000_0000,
        decreases t.z - k,
    {
        proof {
            lemma_pow2n_monotone((k + 1) as nat, 31);
        }
        side = 2 * side;
        k = k + 1;
    }
    (t.x as u64) < side && (t.y as u64) < side
}

/// The id of a tile.
pub open spec fn id_of(t: Tile) -> u64 {
    tile_id_of(t.z as nat, t.x as int, t.y as int) as u64
}

/// An open archive: its header, its root directory and the leaf directories that are
/// resident. The bytes are read by the caller.
pub struct PmTilesReader {
    header: Header,
    root: Vec<DirEntry>,
    zoom_levels: Vec<u8>,
    leaves: LeafCache,
}

impl PmTilesReader {
    pub closed spec fn spec_header(&self) -> Header {
        self.header
    }

    pub closed spec fn root(&self) -> Seq<DirEntry> {
        self.root@
    }

    /// The materialized zoom levels.
    pub closed spec fn levels(&self) -> Seq<u8> {
        self.zoom_levels@
    }

    /// The resident leaves, least recent first.
    pub closed spec fn resident(&self) -> Seq<Leaf> {
        self.leaves.leaves()
    }

    /// Directories are sorted, and no more leaves are resident than are kept.
    pub closed spec fn wf(&self) -> bool {
        &&& sorted_entries(self.root@)
        &&& self.leaves.cap() == LEAF_CACHE_CAP
        &&& self.leaves.leaves().len() <= LEAF_CACHE_CAP
        &&& forall|i: int|
            0 <= i < self.leaves.leaves().len() ==> sorted_entries(
                (#[trigger] self.leaves.leaves()[i]).1@,
            )
    }

    /// Open an archive, given the bytes of its header, its root directory and its metadata
    /// (for the materialized zoom levels).
    pub fn open(head: &[u8], root_bytes: &[u8], metadata: &[u8]) -> (r: Result<Self, ArchiveError>)
        ensures
            match r {
                Ok(a) => a.wf() && header_at(head@) == Some(a.spec_header()) && directory_at(
                    root_bytes@,
                ) == Some(a.root()) && a.levels() == archive_levels(a.spec_header(), metadata@)
                    && a.resident().len() == 0,
                Err(ArchiveError::InvalidHeader) => header_at(head@) is None,
                Err(ArchiveError::CorruptRoot) => header_at(head@) is Some && directory_at(
                    root_bytes@,
                ) is None,
                Err(ArchiveError::CorruptLeaf) => false,
            },
    {
        let header: Header = match Header::parse(head) {
            Some(h) => h,
            None => return Err(ArchiveError::InvalidHeader),
        };
        let root: Vec<DirEntry> = match parse_directory(root_bytes) {
            Some(d) => d,
            None => return Err(ArchiveError::CorruptRoot),
        };
        let zoom_levels: Vec<u8> = zoom_levels(&header, metadata);
        Ok(PmTilesReader { header, root, zoom_levels, leaves: LeafCache::new(LEAF_CACHE_CAP) })
    }

    /// The parsed archive header (bounds, zoom range, section offsets).
    pub fn header(&self) -> (r: &Header)
        ensures
            *r == self.spec_header(),
    {
        &self.header
    }

    pub fn min_zoom(&self) -> (r: u8)
        ensures
            r == self.spec_header().min_zoom,
    {
        self.header.min_zoom
    }

    pub fn max_zoom(&self) -> (r: u8)
        ensures
            r == self.spec_header().max_zoom,
    {
        self.header.max_zoom
    }

    /// The materialized zoom levels.
    pub fn zoom_levels(&self) -> (r: &Vec<u8>)
        ensures
            r@ == self.levels(),
    {
        &self.zoom_levels
    }

    /// Where the root directory says a tile is.
    pub fn locate(&self, tile: Tile) -> (r: Located)
        requires
            self.wf(),
            addressable(tile),
        ensures
            r == resolved(self.root(), id_of(tile)),
    {
        resolve(&self.root, tile_id(tile.z, tile.x, tile.y))
    }

    /// A resident leaf directory, which becomes the most recent; none if it has to be
    /// read.
    pub fn leaf(&mut self, offset: u64) -> (r: Option<Arc<Vec<DirEntry>>>)
        requires
            old(self).wf(),
        ensures
            final(self).wf(),
            final(self).spec_header() == old(self).spec_header(),
            final(self).root() == old(self).root(),
            final(self).levels() == old(self).levels(),
            match find_leaf(old(self).resident(), offset) {
                Some(i) => r == Some(old(self).resident()[i].1) && sorted_entries(r->0@)
                    && final(self).resident() == old(self).resident().remove(i).push(
                    old(self).resident()[i],
                ),
                None => r is None && final(self).resident() == old(self).resident(),
            },
    {
        let ghost before = self.leaves.leaves();
        let r: Option<Arc<Vec<DirEntry>>> = self.leaves.get(offset);
        proof {
            lemma_leaf_position(before, offset, before.len());
            if let Some(i) = find_leaf(before, offset) {
                let now = self.leaves.leaves();
                assert forall|k: int| 0 <= k < now.len() implies sorted_entries(
                    (#[trigger] now[k]).1@,
                ) by {
                    let m = if k == now.len() - 1 {
                        i
                    } else if k < i {
                        k
                    } else {
                        k + 1
                    };
                    assert(now[k] == before[m]);
                }
                assert(sorted_entries(before[i].1@));
            }
        }
        r
    }

    /// Take in the bytes of a leaf directory that was read, and keep it resident.
    pub fn add_leaf(&mut self, offset: u64, bytes: &[u8]) -> (r: Result<
        Arc<Vec<DirEntry>>,
        ArchiveError,
    >)
        requires
            old(self).wf(),
        ensures
            final(self).wf(),
            final(self).spec_header() == old(self).spec_header(),
            final(self).root() == old(self).root(),
            final(self).levels() == old(self).levels(),
            match r {
                Ok(dir) => directory_at(bytes@) == Some(dir@) && sorted_entries(dir@)
                    && final(self).resident() == most_recent(
                    leaves_without(old(self).resident(), offset).push((offset, dir)),
                    LEAF_CACHE_CAP as nat,
                ),
                Err(e) => e == ArchiveError::CorruptLeaf && directory_at(bytes@) is None
                    && final(self).resident() == old(self).resident(),
            },
    {
        let entries: Vec<DirEntry> = match parse_directory(bytes) {
            Some(d) => d,
            None => return Err(ArchiveError::CorruptLeaf),
        };
        let ghost before = self.leaves.leaves();
        let ghost es = entries@;
        let dir: Arc<Vec<DirEntry>> = Arc::new(entries);
        self.leaves.insert(offset, dir.clone());
        proof {
            lemma_leaf_position(before, offset, before.len());
            let kept = leaves_without(before, offset);
            let all = kept.push((offset, dir));
            let now = self.leaves.leaves();
            assert forall|k: int| 0 <= k < all.len() implies sorted_entries(
                (#[trigger] all[k]).1@,
            ) by {
                if k < kept.len() {
                    assert(all[k] == kept[k]);
                    if let Some(i) = find_leaf(before, offset) {
                        let m = if k < i {
                            k
                        } else {
                            k + 1
                        };
                        assert(kept[k] == before[m]);
                    } else {
                        assert(kept[k] == before[k]);
                    }
                } else {
                    assert(all[k].1@ == es);
                }
            }
            assert forall|k: int| 0 <= k < now.len() implies sorted_entries(
                (#[trigger] now[k]).1@,
            ) by {
                assert(now[k] == all[k + (all.len() - now.len())]);
            }
        }
        Ok(dir)
    }

    /// The bytes of a leaf directory in the archive; none past what can be addressed.
    pub fn leaf_range(&self, offset: u64, length: u32) -> (r: Option<ByteRange>)
        ensures
            r == (if self.spec_header().leaf_offset + offset <= u64::MAX {
                Some(((self.spec_header().leaf_offset + offset) as u64, length as usize))
            } else {
                None
            }),
    {
        if offset > u64::MAX - self.header.leaf_offset {
            return None;
        }
        Some((self.header.leaf_offset + offset, length as usize))
    }

    /// The bytes of a range of the data section in the archive; none past what can be
    /// addressed.
    pub fn data_range(&self, range: ByteRange) -> (r: Option<ByteRange>)
        ensures
            r == (if self.spec_header().data_offset + range.0 <= u64::MAX {
                Some(((self.spec_header().data_offset + range.0) as u64, range.1))
            } else {
                None
            }),
    {
        if range.0 > u64::MAX - self.header.data_offset {
            return None;
        }
        Some((self.header.data_offset + range.0, range.1))
    }
}

/// Where a leaf directory says a tile is.
pub fn locate_in(dir: &Vec<DirEntry>, tile: Tile) -> (r: Located)
    requires
        sorted_entries(dir@),
        addressable(tile),
    ensures
        r == resolved(dir@, id_of(tile)),
{
    resolve(dir, tile_id(tile.z, tile.x, tile.y))
}

/// A leaf that was just read is resident.
pub proof fn added_leaf_is_resident(s: Seq<Leaf>, offset: u64, dir: Arc<Vec<DirEntry>>)
    ensures
        ({
            let now = most_recent(
                leaves_without(s, offset).push((offset, dir)),
                LEAF_CACHE_CAP as nat,
            );
            find_leaf(now, offset) matches Some(i) && now[i] == (offset, dir)
        }),
{
    let all = leaves_without(s, offset).push((offset, dir));
    let now = most_recent(all, LEAF_CACHE_CAP as nat);
    assert(now[now.len() - 1] == (offset, dir));
}

} // verus!
