//! How the tiles of an archive are reached.

use vstd::prelude::*;

use crate::bytes::pow2n;
use crate::hilbert::{hilbert_index, lemma_zoom_offset_32, tile_id_injective, zoom_offset};
use crate::pmtiles::Header;
use crate::reader::{
    addressable, coalesced, coalesced_blocks_cover, find_leaf, header_levels, leaf_position,
    leaves_without, most_recent, range_end, ranges_ok, spans_fit, ByteRange, Leaf, COALESCE_GAP,
    LEAF_CACHE_CAP,
};
use crate::spill::{is_built, BuiltTile, TileGroup};
use crate::tile::Tile;
use crate::tiler::{demorton_roundtrip, morton_of};

verus! {

// ---- ranged reads ----

/// A block starts at `at`.
pub open spec fn block_starts(bs: Seq<ByteRange>, at: u64) -> bool {
    exists|b: int| 0 <= b < bs.len() && (#[trigger] bs[b]).0 == at
}

proof fn lemma_last_end(rs: Seq<ByteRange>, gap: u64, end: int)
    requires
        ranges_ok(rs),
        spans_fit(rs, gap),
        rs.len() > 0,
        forall|i: int| 0 <= i < rs.len() ==> range_end(#[trigger] rs[i]) <= end,
    ensures
        coalesced(rs, gap).len() > 0,
        range_end(coalesced(rs, gap).last()) <= end,
{
    coalesced_blocks_cover(rs, gap);
    let bs = coalesced(rs, gap);
    let b = bs.len() - 1;
    assert(crate::reader::is_end(rs, range_end(bs[b])));
    let k = choose|k: int| 0 <= k < rs.len() && range_end(#[trigger] rs[k]) == range_end(bs[b]);
    assert(range_end(rs[k]) <= end);
}

/// A range that starts more than the gap behind the end of every range before it starts a
/// block of its own: nothing far apart is read together.
pub proof fn far_ranges_split(rs: Seq<ByteRange>, gap: u64, k: int)
    requires
        ranges_ok(rs),
        spans_fit(rs, gap),
        0 <= k < rs.len(),
        forall|i: int| 0 <= i < k ==> range_end(#[trigger] rs[i]) + gap < rs[k].0,
    ensures
        block_starts(coalesced(rs, gap), rs[k].0),
    decreases rs.len(),
{
    let rest = rs.drop_last();
    let front = coalesced(rest, gap);
    let out = coalesced(rs, gap);
    assert(ranges_ok(rest)) by {
        assert forall|i: int, j: int| 0 <= i <= j < rest.len() implies (#[trigger] rest[i]).0 <= (
        #[trigger] rest[j]).0 by {
            assert(rest[i] == rs[i] && rest[j] == rs[j]);
        }
        assert forall|i: int| 0 <= i < rest.len() implies range_end(#[trigger] rest[i])
            <= u64::MAX by {
            assert(rest[i] == rs[i]);
        }
    }
    if k == rs.len() - 1 {
        if rest.len() > 0 {
            assert forall|i: int| 0 <= i < rest.len() implies range_end(#[trigger] rest[i])
                <= rs[k].0 - gap - 1 by {
                assert(rest[i] == rs[i]);
            }
            lemma_last_end(rest, gap, rs[k].0 - gap - 1);
        } else {
            assert(front.len() == 0);
        }
        assert(out[out.len() - 1] == rs[k]);
    } else {
        assert forall|i: int| 0 <= i < k implies range_end(#[trigger] rest[i]) + gap < rest[k].0 by {
            assert(rest[i] == rs[i]);
        }
        far_ranges_split(rest, gap, k);
        let b = choose|b: int| 0 <= b < front.len() && (#[trigger] front[b]).0 == rest[k].0;
        assert(out[b].0 == front[b].0);
    }
}

/// Reads of tiles that are 64 KiB or less apart are one read.
pub proof fn near_ranges_join(rs: Seq<ByteRange>, i: int, j: int)
    requires
        ranges_ok(rs),
        spans_fit(rs, COALESCE_GAP),
        0 <= i < j < rs.len(),
        rs[j].0 <= range_end(rs[i]) + 65536,
    ensures
        exists|b: int|
            0 <= b < coalesced(rs, COALESCE_GAP).len() && (#[trigger] coalesced(
                rs,
                COALESCE_GAP,
            )[b]).0 <= rs[i].0 && range_end(rs[j]) <= range_end(coalesced(rs, COALESCE_GAP)[b])
                && range_end(rs[i]) <= range_end(coalesced(rs, COALESCE_GAP)[b]),
{
    coalesced_blocks_cover(rs, COALESCE_GAP);
    let bs = coalesced(rs, COALESCE_GAP);
    assert(crate::reader::block_holds(bs, rs[i]));
    assert(crate::reader::block_holds(bs, rs[j]));
    let a = choose|a: int| 0 <= a < bs.len() && crate::reader::inside(rs[i], #[trigger] bs[a]);
    let b = choose|b: int| 0 <= b < bs.len() && crate::reader::inside(rs[j], #[trigger] bs[b]);
    assert(rs[i].0 <= rs[j].0);
    if a < b {
        assert(range_end(bs[a]) + COALESCE_GAP < bs[b].0);
    } else if b < a {
        assert(range_end(bs[b]) + COALESCE_GAP < bs[a].0);
    }
    assert(bs[a].0 <= rs[i].0);
}

// ---- resident leaves ----

/// Some leaf is at the offset.
pub open spec fn has_leaf(s: Seq<Leaf>, offset: u64) -> bool {
    exists|i: int| 0 <= i < s.len() && (#[trigger] s[i]).0 == offset
}

proof fn lemma_leaf_position(s: Seq<Leaf>, offset: u64, n: nat)
    requires
        n <= s.len(),
    ensures
        match leaf_position(s, offset, n) {
            Some(i) => 0 <= i < n && s[i].0 == offset,
            None => forall|k: int| 0 <= k < n ==> (#[trigger] s[k]).0 != offset,
        },
    decreases n,
{
    if n > 0 && s[n - 1].0 != offset {
        lemma_leaf_position(s, offset, (n - 1) as nat);
    }
}

/// At most 256 leaves stay resident; a leaf that is put in is the most recent, and of the
/// others those that were least recent go first.
pub proof fn recent_leaves_stay(s: Seq<Leaf>, leaf: Leaf, k: int)
    requires
        0 <= k < s.len(),
        s[k].0 != leaf.0,
    ensures
        ({
            let now = most_recent(leaves_without(s, leaf.0).push(leaf), LEAF_CACHE_CAP as nat);
            &&& now.len() <= 256
            &&& now.last() == leaf
            &&& s.len() - k <= 255 ==> now.contains(s[k])
        }),
{
    lemma_leaf_position(s, leaf.0, s.len());
    let kept = leaves_without(s, leaf.0);
    let all = kept.push(leaf);
    let now = most_recent(all, 256);
    let at = match find_leaf(s, leaf.0) {
        Some(i) => if k < i {
            k
        } else {
            k - 1
        },
        None => k,
    };
    assert(kept[at] == s[k]);
    assert(all[at] == s[k]);
    if s.len() - k <= 255 {
        let to = if all.len() <= 256 {
            at
        } else {
            at - (all.len() - 256)
        };
        assert(now[to] == s[k]);
    }
}

/// A lookup of a leaf finds one at its offset if there is one.
pub proof fn leaves_found_by_offset(s: Seq<Leaf>, offset: u64)
    ensures
        find_leaf(s, offset) is Some <==> has_leaf(s, offset),
        find_leaf(s, offset) matches Some(i) ==> 0 <= i < s.len() && s[i].0 == offset,
{
    lemma_leaf_position(s, offset, s.len());
}

// ---- zoom levels ----

/// Without a list of its own an archive has every zoom from its coarsest to its finest,
/// ascending.
pub proof fn header_spans_levels(h: Header, z: u8)
    ensures
        header_levels(h).contains(z) <==> h.min_zoom <= z <= h.max_zoom,
        forall|i: int, j: int|
            0 <= i < j < header_levels(h).len() ==> header_levels(h)[i] < header_levels(h)[j],
{
    if h.min_zoom <= z <= h.max_zoom {
        assert(header_levels(h)[z - h.min_zoom] == z);
    }
}

// ---- tiles by id ----

/// A tile is addressed by the number of tiles at coarser zooms plus its place on the curve;
/// it can be addressed if its zoom is below 32 and it lies in the square of that zoom.
pub proof fn tiles_addressed_by_curve(t: Tile)
    ensures
        addressable(t) <==> t.z < 32 && t.x < pow2n(t.z as nat) && t.y < pow2n(t.z as nat),
        addressable(t) ==> crate::reader::id_of(t) == zoom_offset(t.z as nat) + hilbert_index(
            t.z as nat,
            t.x as int,
            t.y as int,
        ),
        addressable(t) ==> crate::archive::id_of(t) == crate::reader::id_of(t),
{
    if addressable(t) {
        let (z, x, y) = (t.z as nat, t.x as int, t.y as int);
        tile_id_injective(z, x, y, z, x, y);
        lemma_zoom_offset_32(z);
    }
}

/// The tile that is built of a group is the one with the group's key.
pub proof fn built_tiles_have_their_key(b: BuiltTile, g: TileGroup, extent: u16)
    requires
        is_built(b, g, extent),
    ensures
        zoom_offset(b.tile.z as nat) + morton_of(b.tile.x as nat, b.tile.y as nat) == g.tile_key,
{
    demorton_roundtrip((g.tile_key - zoom_offset(b.tile.z as nat)) as nat);
}

} // verus!
