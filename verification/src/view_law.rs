//! What a view draws for each tile, and what its cache keeps.

use vstd::prelude::*;

use crate::bytes::pow2n;
use crate::compress::{answered_tile, DecodeError};
use crate::hilbert::lemma_pow2n_positive;
use crate::scene::VisibleTile;
use crate::tile::Tile;
use crate::tile_cache::pairs_of;
use crate::tile_model::{tile_at, AreaView, LabelView, RoadView, TileContents};
use crate::view::{
    ancestor, ancestor_search, area_size, composed, contents_size, evicted, fallback_is_nearest,
    find, holds, is_entry_for, label_size, lemma_distinct_used, lemma_find, lemma_victim,
    lookup_keeps_payloads, payload, rings_size, road_size, tile_or_empty, total_bytes, uncached,
    used, victim, Entry, TilePayload,
};

verus! {

// ---- lookups ----

/// Some entry is for the tile.
pub open spec fn cached<T>(s: Seq<Entry<T>>, tile: Tile) -> bool {
    exists|i: int| 0 <= i < s.len() && (#[trigger] s[i]).tile == tile
}

/// An entry for the tile holds the payload.
pub open spec fn holds_payload<T>(s: Seq<Entry<T>>, tile: Tile, data: std::sync::Arc<T>) -> bool {
    exists|i: int|
        0 <= i < s.len() && (#[trigger] s[i]).tile == tile && s[i].data == Some(data)
}

/// A lookup finds the tile's own entry.
pub proof fn lookup_finds_own<T>(s: Seq<Entry<T>>, tile: Tile)
    requires
        crate::view::distinct(s),
    ensures
        find(s, tile) is Some <==> cached(s, tile),
        find(s, tile) matches Some(i) ==> 0 <= i < s.len() && s[i].tile == tile,
        payload(s, tile) matches Some(d) ==> holds_payload(s, tile, d),
        forall|i: int|
            0 <= i < s.len() && (#[trigger] s[i]).tile == tile ==> payload(s, tile) == s[i].data,
{
    lemma_find(s, tile, s.len());
    if let Some(i) = find(s, tile) {
        assert(s[i].tile == tile);
        assert forall|k: int| 0 <= k < s.len() && (#[trigger] s[k]).tile == tile implies payload(
            s,
            tile,
        ) == s[k].data by {
            if k < i {
                assert(s[k].tile != s[i].tile);
            } else if i < k {
                assert(s[i].tile != s[k].tile);
            }
        }
    }
}

/// A tile that is used becomes the most recent; the others keep their order.
pub proof fn used_becomes_latest<T>(s: Seq<Entry<T>>, tile: Tile)
    requires
        crate::view::distinct(s),
    ensures
        ({
            let out = used(s, tile);
            &&& out.len() == s.len()
            &&& cached(s, tile) ==> out.last().tile == tile
            &&& !cached(s, tile) ==> out == s
            &&& forall|t: Tile| #[trigger] cached(out, t) <==> cached(s, t)
            &&& forall|i: int|
                0 <= i < s.len() && (#[trigger] s[i]).tile != tile ==> holds(out, s[i])
            &&& cached(s, tile) ==> exists|at: int|
                0 <= at < s.len() && out.drop_last() == #[trigger] s.remove(at) && s[at].tile
                    == tile
        }),
{
    lookup_finds_own(s, tile);
    lemma_distinct_used(s, tile);
    let out = used(s, tile);
    if let Some(at) = find(s, tile) {
        assert(out.drop_last() =~= s.remove(at));
        assert forall|t: Tile| #[trigger] cached(out, t) <==> cached(s, t) by {
            if cached(out, t) {
                let k = choose|k: int| 0 <= k < out.len() && (#[trigger] out[k]).tile == t;
                let i = if k == out.len() - 1 {
                    at
                } else if k < at {
                    k
                } else {
                    k + 1
                };
                assert(s[i] == out[k]);
            }
            if cached(s, t) {
                let i = choose|i: int| 0 <= i < s.len() && (#[trigger] s[i]).tile == t;
                lemma_used_place(s, at, i);
            }
        }
        assert forall|i: int| 0 <= i < s.len() && (#[trigger] s[i]).tile != tile implies holds(
            out,
            s[i],
        ) by {
            lemma_used_place(s, at, i);
        }
    } else {
        assert forall|i: int| 0 <= i < s.len() implies holds(out, #[trigger] s[i]) by {
            assert(out[i] == s[i]);
        }
    }
}

proof fn lemma_used_place<T>(s: Seq<Entry<T>>, at: int, i: int)
    requires
        0 <= at < s.len(),
        0 <= i < s.len(),
    ensures
        holds(s.remove(at).push(s[at]), s[i]),
        exists|k: int|
            0 <= k < s.len() && (#[trigger] s.remove(at).push(s[at])[k]) == s[i],
{
    let out = s.remove(at).push(s[at]);
    let k = if i == at {
        s.len() - 1
    } else if i < at {
        i
    } else {
        i - 1
    };
    assert(out[k] == s[i]);
}

// ---- eviction ----

/// Within its budget a cache gives nothing up, and it gives up no more than it has to: with
/// the last entry that went it would not fit.
pub proof fn eviction_is_least<T>(s: Seq<Entry<T>>, budget: nat, protected: Seq<Tile>)
    ensures
        total_bytes(s) <= budget ==> evicted(s, budget, protected) == s,
        evicted(s, budget, protected).len() < s.len() ==> last_step_needed(s, budget, protected),
    decreases s.len(),
{
    lemma_victim(s, protected, 0);
    if total_bytes(s) > budget {
        if let Some(i) = victim(s, protected, 0) {
            let rest = s.remove(i);
            eviction_is_least(rest, budget, protected);
            let out = evicted(s, budget, protected);
            if out.len() < rest.len() {
                let (before, k) = choose|before: Seq<Entry<T>>, k: int|
                    #![trigger before.remove(k)]
                    0 <= k < before.len() && before.remove(k) == out && total_bytes(before) > budget
                        && !protected.contains(before[k].tile);
                assert(before.remove(k) == out);
            } else {
                lemma_evicted_len(rest, budget, protected);
                assert(out == s.remove(i));
            }
        }
    }
}

/// The list before the last entry went was over the budget, and that entry not protected.
pub open spec fn last_step_needed<T>(s: Seq<Entry<T>>, budget: nat, protected: Seq<Tile>) -> bool {
    exists|before: Seq<Entry<T>>, k: int|
        #![trigger before.remove(k)]
        0 <= k < before.len() && before.remove(k) == evicted(s, budget, protected) && total_bytes(
            before,
        ) > budget && !protected.contains(before[k].tile)
}

proof fn lemma_evicted_len<T>(s: Seq<Entry<T>>, budget: nat, protected: Seq<Tile>)
    ensures
        evicted(s, budget, protected).len() <= s.len(),
        evicted(s, budget, protected).len() == s.len() ==> evicted(s, budget, protected) == s,
    decreases s.len(),
{
    lemma_victim(s, protected, 0);
    if total_bytes(s) > budget {
        if let Some(i) = victim(s, protected, 0) {
            lemma_evicted_len(s.remove(i), budget, protected);
        }
    }
}

// ---- ancestors ----

/// The tile `k` zooms up has a column and row of `2^k` less.
pub proof fn ancestors_halve(tile: Tile, k: nat)
    requires
        k <= tile.z,
    ensures
        ancestor(tile, k).z == tile.z - k,
        ancestor(tile, k).x == tile.x as int / pow2n(k) as int,
        ancestor(tile, k).y == tile.y as int / pow2n(k) as int,
    decreases k,
{
    if k > 0 {
        let n = (k - 1) as nat;
        ancestors_halve(tile, n);
        lemma_pow2n_positive(n);
        vstd::arithmetic::div_mod::lemma_div_denominator(tile.x as int, pow2n(n) as int, 2);
        vstd::arithmetic::div_mod::lemma_div_denominator(tile.y as int, pow2n(n) as int, 2);
        assert(pow2n(k) == pow2n(n) * 2);
    } else {
        assert(pow2n(0) == 1);
        assert(tile.x as int / 1 == tile.x && tile.y as int / 1 == tile.y);
    }
}

// ---- what is missing ----

/// The tiles to fetch are those that are not cached, in order.
pub proof fn missing_are_uncached<T>(s: Seq<Entry<T>>, tiles: Seq<Tile>, t: Tile)
    requires
        crate::view::distinct(s),
    ensures
        uncached(s, tiles).contains(t) <==> tiles.contains(t) && !cached(s, t),
        uncached(s, tiles).len() <= tiles.len(),
    decreases tiles.len(),
{
    if tiles.len() > 0 {
        let rest = tiles.drop_last();
        let last = tiles.last();
        missing_are_uncached(s, rest, t);
        lookup_finds_own(s, last);
        let front = uncached(s, rest);
        let out = uncached(s, tiles);
        if out.contains(t) {
            let k = choose|k: int| 0 <= k < out.len() && out[k] == t;
            if k < front.len() {
                assert(front[k] == t);
                let i = choose|i: int| 0 <= i < rest.len() && rest[i] == t;
                assert(tiles[i] == t);
            } else {
                assert(tiles[tiles.len() - 1] == t);
            }
        }
        if tiles.contains(t) && !cached(s, t) {
            let i = choose|i: int| 0 <= i < tiles.len() && tiles[i] == t;
            if i < rest.len() {
                assert(rest[i] == t);
                let k = choose|k: int| 0 <= k < front.len() && front[k] == t;
                assert(out[k] == t);
            } else {
                assert(out[front.len() as int] == t);
            }
        }
    }
}

// ---- what is drawn ----

/// `v` is what stands for the tile: its own payload where there is one, else that of its
/// nearest coarser tile with one.
pub open spec fn stands_for<T>(v: VisibleTile<T>, s: Seq<Entry<T>>, tile: Tile) -> bool {
    &&& v.tile == tile
    &&& payload(s, v.source) == Some(v.data)
    &&& payload(s, tile) is Some ==> v.source == tile
    &&& payload(s, tile) is None ==> nearest(s, tile, v.source)
}

/// `source` is the nearest coarser tile with a payload.
pub open spec fn nearest<T>(s: Seq<Entry<T>>, tile: Tile, source: Tile) -> bool {
    exists|k: nat|
        1 <= k <= tile.z && source == #[trigger] ancestor(tile, k) && forall|j: nat|
            1 <= j < k ==> payload(s, #[trigger] ancestor(tile, j)) is None
}

/// No coarser tile has a payload.
pub open spec fn no_fallback<T>(s: Seq<Entry<T>>, tile: Tile) -> bool {
    forall|j: nat| 1 <= j <= tile.z ==> payload(s, #[trigger] ancestor(tile, j)) is None
}

/// Something is drawn for the tile: it has a payload, or it may be drawn from coarser data
/// (it is not known to be absent, or all tiles may) and there is some.
pub open spec fn is_drawn<T>(s: Seq<Entry<T>>, tile: Tile, overzoom: bool) -> bool {
    payload(s, tile) is Some || ((overzoom || !cached(s, tile)) && !no_fallback(s, tile))
}

/// Some of the slots stands for the tile.
pub open spec fn some_slot<T>(out: Seq<VisibleTile<T>>, s: Seq<Entry<T>>, tile: Tile) -> bool {
    exists|k: int| 0 <= k < out.len() && stands_for(#[trigger] out[k], s, tile)
}

/// The slot stands for one of the tiles for which something is drawn.
pub open spec fn slot_of<T>(
    v: VisibleTile<T>,
    s: Seq<Entry<T>>,
    tiles: Seq<Tile>,
    overzoom: bool,
) -> bool {
    exists|i: int|
        0 <= i < tiles.len() && stands_for(v, s, #[trigger] tiles[i]) && is_drawn(
            s,
            tiles[i],
            overzoom,
        )
}

/// The same tiles with the same payloads.
spec fn same_contents<T>(a: Seq<Entry<T>>, b: Seq<Entry<T>>) -> bool {
    &&& forall|t: Tile| #[trigger] payload(a, t) == payload(b, t)
    &&& forall|t: Tile| #[trigger] cached(a, t) == cached(b, t)
}

proof fn lemma_used_same<T>(s: Seq<Entry<T>>, tile: Tile)
    requires
        crate::view::distinct(s),
    ensures
        crate::view::distinct(used(s, tile)),
        same_contents(used(s, tile), s),
{
    lemma_distinct_used(s, tile);
    used_becomes_latest(s, tile);
    assert forall|t: Tile| #[trigger] payload(used(s, tile), t) == payload(s, t) by {
        lookup_keeps_payloads(s, tile, t);
    }
}

proof fn lemma_search_same<T>(s: Seq<Entry<T>>, tile: Tile)
    requires
        crate::view::distinct(s),
    ensures
        crate::view::distinct(ancestor_search(s, tile).0),
        same_contents(ancestor_search(s, tile).0, s),
    decreases tile.z,
{
    if tile.z > 0 {
        let p = tile.spec_parent()->0;
        lemma_used_same(s, p);
        if payload(s, p) is None {
            lemma_search_same(used(s, p), p);
            let out = ancestor_search(s, tile).0;
            assert forall|t: Tile| #[trigger] payload(out, t) == payload(s, t) by {
                assert(payload(used(s, p), t) == payload(s, t));
            }
            assert forall|t: Tile| #[trigger] cached(out, t) == cached(s, t) by {
                assert(cached(used(s, p), t) == cached(s, t));
            }
        }
    }
}

proof fn lemma_same_trans<T>(a: Seq<Entry<T>>, b: Seq<Entry<T>>, c: Seq<Entry<T>>)
    requires
        same_contents(a, b),
        same_contents(b, c),
    ensures
        same_contents(a, c),
{
    assert forall|t: Tile| #[trigger] payload(a, t) == payload(c, t) by {
        assert(payload(b, t) == payload(c, t));
    }
    assert forall|t: Tile| #[trigger] cached(a, t) == cached(c, t) by {
        assert(cached(b, t) == cached(c, t));
    }
}

/// What one tile adds.
proof fn lemma_one_slot<T>(s: Seq<Entry<T>>, s1: Seq<Entry<T>>, tile: Tile, overzoom: bool)
    requires
        crate::view::distinct(s),
        crate::view::distinct(s1),
        same_contents(s1, s),
    ensures
        match payload(s1, tile) {
            Some(data) => stands_for(VisibleTile { tile, data, source: tile }, s, tile) && is_drawn(
                s,
                tile,
                overzoom,
            ),
            None => if overzoom || find(s1, tile) is None {
                match ancestor_search(used(s1, tile), tile).1 {
                    Some((source, data)) => stands_for(VisibleTile { tile, data, source }, s, tile)
                        && is_drawn(s, tile, overzoom),
                    None => !is_drawn(s, tile, overzoom),
                }
            } else {
                !is_drawn(s, tile, overzoom)
            },
        },
{
    lookup_finds_own(s1, tile);
    assert(cached(s1, tile) == cached(s, tile));
    assert(payload(s1, tile) == payload(s, tile));
    lemma_used_same(s1, tile);
    let u = used(s1, tile);
    lemma_same_trans(u, s1, s);
    fallback_is_nearest(u, tile);
    match ancestor_search(u, tile).1 {
        Some((source, data)) => {
            let k = choose|k: nat|
                1 <= k <= tile.z && source == #[trigger] ancestor(tile, k) && payload(u, source)
                    == Some(data) && forall|j: nat|
                    1 <= j < k ==> payload(u, #[trigger] ancestor(tile, j)) is None;
            assert forall|j: nat| 1 <= j < k implies payload(s, #[trigger] ancestor(tile, j)) is None by {
                assert(payload(u, ancestor(tile, j)) is None);
            }
            assert(source == ancestor(tile, k));
            assert(payload(s, source) == Some(data));
            if payload(s1, tile) is None {
                assert(nearest(s, tile, source));
                assert(!no_fallback(s, tile)) by {
                    assert(payload(s, ancestor(tile, k)) is Some);
                }
            }
        },
        None => {
            assert forall|j: nat| 1 <= j <= tile.z implies payload(
                s,
                #[trigger] ancestor(tile, j),
            ) is None by {
                assert(payload(u, ancestor(tile, j)) is None);
            }
        },
    }
}

/// A view draws each tile from its own payload, or else from the nearest coarser one; it
/// draws nothing for a tile known to be absent unless told to, nor where there is no
/// coarser payload; and drawing changes no payload.
pub proof fn tiles_drawn_from_nearest<T>(s: Seq<Entry<T>>, tiles: Seq<Tile>, overzoom: bool)
    requires
        crate::view::distinct(s),
    ensures
        ({
            let (after, out) = composed(s, tiles, overzoom);
            &&& crate::view::distinct(after)
            &&& forall|t: Tile| #[trigger] payload(after, t) == payload(s, t)
            &&& forall|t: Tile| #[trigger] cached(after, t) == cached(s, t)
            &&& out.len() <= tiles.len()
            &&& forall|i: int|
                0 <= i < tiles.len() && is_drawn(s, #[trigger] tiles[i], overzoom) ==> some_slot(
                    out,
                    s,
                    tiles[i],
                )
            &&& forall|k: int| 0 <= k < out.len() ==> slot_of(#[trigger] out[k], s, tiles, overzoom)
        }),
    decreases tiles.len(),
{
    if tiles.len() > 0 {
        let rest = tiles.drop_last();
        let tile = tiles.last();
        tiles_drawn_from_nearest(s, rest, overzoom);
        let (s1, front) = composed(s, rest, overzoom);
        let (s2, out) = composed(s, tiles, overzoom);
        assert(same_contents(s1, s));
        lemma_one_slot(s, s1, tile, overzoom);
        lemma_used_same(s1, tile);
        let u = used(s1, tile);
        lemma_search_same(u, tile);
        lemma_same_trans(u, s1, s);
        lemma_same_trans(ancestor_search(u, tile).0, u, s);
        assert(crate::view::distinct(s2) && same_contents(s2, s));
        assert forall|i: int|
            0 <= i < tiles.len() && is_drawn(s, #[trigger] tiles[i], overzoom) implies some_slot(
            out,
            s,
            tiles[i],
        ) by {
            if i < rest.len() {
                assert(rest[i] == tiles[i]);
                assert(some_slot(front, s, rest[i]));
                let k = choose|k: int| 0 <= k < front.len() && stands_for(#[trigger] front[k], s, rest[i]);
                assert(out[k] == front[k]);
            } else {
                assert(stands_for(out[front.len() as int], s, tiles[i]));
            }
        }
        assert forall|k: int| 0 <= k < out.len() implies slot_of(
            #[trigger] out[k],
            s,
            tiles,
            overzoom,
        ) by {
            if k < front.len() {
                assert(out[k] == front[k]);
                let i = choose|i: int|
                    0 <= i < rest.len() && stands_for(front[k], s, #[trigger] rest[i]) && is_drawn(
                        s,
                        rest[i],
                        overzoom,
                    );
                assert(tiles[i] == rest[i]);
            } else {
                assert(stands_for(out[k], s, tiles[tiles.len() - 1]));
            }
        }
    }
}

// ---- what entries count ----

/// The bytes of a road: four per vertex, its name and 32 more.
pub proof fn roads_count_by_vertex(r: RoadView, a: AreaView, l: LabelView)
    ensures
        r.name is None ==> road_size(r) == 4 * r.coords.len() + 32,
        r.name matches Some(t) ==> road_size(r) == 4 * r.coords.len() + 32
            + vstd::utf8::encode_utf8(t).len(),
        label_size(l) == vstd::utf8::encode_utf8(l.name).len() + 16,
        area_size(a) == rings_size(a.rings) + a.clip.len() / 8 + 16,
{
}

/// A ring counts four bytes per vertex.
pub proof fn rings_count_by_vertex(rings: Seq<Seq<(i16, i16)>>, ring: Seq<(i16, i16)>)
    ensures
        rings_size(rings.push(ring)) == rings_size(rings) + 4 * ring.len(),
        rings_size(Seq::empty()) == 0,
{
    assert(rings.push(ring).drop_last() =~= rings);
}

/// A tile counts 64 bytes and what is in it: a further road, area, label or symbol adds its
/// own.
pub proof fn tiles_count_their_contents(t: TileContents, r: RoadView)
    ensures
        contents_size(TileContents { roads: t.roads.push(r), ..t }) == contents_size(t) + road_size(
            r,
        ),
        t.roads.len() == 0 && t.areas.len() == 0 && t.labels.len() == 0 ==> contents_size(t) == 64
            + 8 * t.pois.len(),
{
    let more = TileContents { roads: t.roads.push(r), ..t };
    let a = Seq::new(t.roads.len(), |i: int| road_size(t.roads[i]));
    let b = Seq::new(more.roads.len(), |i: int| road_size(more.roads[i]));
    assert(b.drop_last() =~= a);
    assert(b.last() == road_size(r));
}

/// A fetched tile is cached with what its bytes make and their size, an absent one as
/// absent with 64 bytes.
pub proof fn fetched_tiles_are_entered<T: TilePayload>(
    e: Entry<T>,
    tile: Tile,
    fetched: Option<Seq<u8>>,
)
    requires
        is_entry_for(e, tile, fetched),
    ensures
        e.tile == tile,
        fetched is None ==> e.data is None && e.bytes == 64,
        fetched matches Some(bytes) ==> (e.data matches Some(p) && (*p).is_made_of(bytes) && ((
        *p).footprint() <= usize::MAX ==> e.bytes == (*p).footprint())),
{
}

/// An unreadable tile counts as one with nothing in it.
pub proof fn unreadable_tiles_are_empty(t: TileContents, e: DecodeError)
    ensures
        tile_or_empty(Ok(t)) == t,
        tile_or_empty(Err(e)).roads.len() == 0,
        tile_or_empty(Err(e)).areas.len() == 0,
        tile_or_empty(Err(e)).labels.len() == 0,
        tile_or_empty(Err(e)).pois.len() == 0,
{
}

/// A blob that does not decompress is told from one whose data are no tile.
pub proof fn bad_blobs_are_told_apart(raw: Seq<u8>)
    ensures
        answered_tile(None) == Err::<TileContents, DecodeError>(DecodeError::Compression),
        tile_at(raw) is None ==> answered_tile(Some(raw)) == Err::<TileContents, DecodeError>(
            DecodeError::Malformed,
        ),
        tile_at(raw) matches Some(t) ==> answered_tile(Some(raw)) == Ok::<
            TileContents,
            DecodeError,
        >(t),
{
}

/// What was fetched goes to the tiles in order, as far as both go.
pub proof fn fetched_go_by_place(tiles: Seq<Tile>, loaded: Seq<Option<Vec<u8>>>, i: int)
    ensures
        pairs_of(tiles, loaded).len() <= tiles.len(),
        pairs_of(tiles, loaded).len() <= loaded.len(),
        pairs_of(tiles, loaded).len() == tiles.len() || pairs_of(tiles, loaded).len()
            == loaded.len(),
        0 <= i < pairs_of(tiles, loaded).len() ==> pairs_of(tiles, loaded)[i].0 == tiles[i] && (
        loaded[i] is None <==> pairs_of(tiles, loaded)[i].1 is None) && (loaded[i] matches Some(v)
            ==> pairs_of(tiles, loaded)[i].1 == Some(v@)),
{
}

} // verus!
