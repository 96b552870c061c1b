//! Camera-driven tile loading with an LRU cache: which tiles to fetch, what stays
//! cached under a byte budget, and what to draw, falling back to a cached coarser
//! ancestor for a tile that is not loaded so there are no blank gaps.

use std::sync::Arc;
use vstd::prelude::*;

use crate::compress::{
    answered_tile, decode_tile, stored_tile, tile_view, zstd_decoded, DecodeError,
};
use crate::decode::{empty_contents, DecodedTile};
use crate::scene::VisibleTile;
use crate::tile::Tile;
use crate::tile_model::{AreaView, LabelView, RoadView, TileContents};

verus! {

// ---- payloads ----

/// A cacheable tile payload.
pub trait TilePayload: Sized {
    /// Whether `self` is what the stored bytes make.
    spec fn is_made_of(&self, bytes: Seq<u8>) -> bool;

    /// The approximate heap footprint.
    spec fn footprint(&self) -> nat;

    /// Build the payload from a tile's stored bytes (as returned by the source).
    fn from_tile_bytes(bytes: Vec<u8>) -> (r: Self)
        ensures
            r.is_made_of(bytes@),
    ;

    /// Approximate heap footprint, used for the cache's byte budget.
    fn byte_size(&self) -> (n: usize)
        ensures
            n == capped(self.footprint()),
    ;
}

/// A size as `usize` holds it.
pub open spec fn capped(n: nat) -> nat {
    if n <= usize::MAX {
        n
    } else {
        usize::MAX as nat
    }
}

impl TilePayload for Vec<u8> {
    open spec fn is_made_of(&self, bytes: Seq<u8>) -> bool {
        self@ == bytes
    }

    open spec fn footprint(&self) -> nat {
        self@.len()
    }

    fn from_tile_bytes(bytes: Vec<u8>) -> (r: Self) {
        bytes
    }

    fn byte_size(&self) -> (n: usize) {
        self.len()
    }
}

fn add_capped(a: usize, b: usize) -> (r: usize)
    ensures
        r == capped((a + b) as nat),
{
    if b > usize::MAX - a {
        usize::MAX
    } else {
        a + b
    }
}

pub open spec fn text_size(name: Option<Seq<char>>) -> nat {
    match name {
        Some(s) => vstd::utf8::encode_utf8(s).len(),
        None => 0,
    }
}

/// Four bytes per vertex, the name, and a fixed part.
pub open spec fn road_size(r: RoadView) -> nat {
    r.coords.len() * 4 + text_size(r.name) + 32
}

pub open spec fn rings_size(rings: Seq<Seq<(i16, i16)>>) -> nat
    decreases rings.len(),
{
    if rings.len() == 0 {
        0
    } else {
        rings_size(rings.drop_last()) + rings.last().len() * 4
    }
}

pub open spec fn area_size(a: AreaView) -> nat {
    rings_size(a.rings) + a.clip.len() / 8 + 16
}

pub open spec fn label_size(l: LabelView) -> nat {
    text_size(Some(l.name)) + 16
}

pub open spec fn sum_sizes(s: Seq<nat>) -> nat
    decreases s.len(),
{
    if s.len() == 0 {
        0
    } else {
        sum_sizes(s.drop_last()) + s.last()
    }
}

pub open spec fn contents_size(t: TileContents) -> nat {
    sum_sizes(Seq::new(t.roads.len(), |i: int| road_size(t.roads[i]))) + sum_sizes(
        Seq::new(t.areas.len(), |i: int| area_size(t.areas[i])),
    ) + sum_sizes(Seq::new(t.labels.len(), |i: int| label_size(t.labels[i]))) + t.pois.len() * 8
        + 64
}

fn times4_capped(n: usize) -> (r: usize)
    ensures
        r == capped((n * 4) as nat),
{
    if n > usize::MAX / 4 {
        usize::MAX
    } else {
        n * 4
    }
}

pub open spec fn tile_or_empty(r: Result<TileContents, DecodeError>) -> TileContents {
    match r {
        Ok(t) => t,
        Err(_) => empty_contents(),
    }
}

impl TilePayload for DecodedTile {
    /// What the stored blob decodes to; an unreadable blob makes an empty tile.
    open spec fn is_made_of(&self, bytes: Seq<u8>) -> bool {
        &&& zstd_decoded(bytes) is Some ==> self@ == tile_or_empty(stored_tile(bytes))
        &&& exists|answer: Option<Seq<u8>>|
            self@ == tile_or_empty(#[trigger] answered_tile(answer))
    }

    open spec fn footprint(&self) -> nat {
        contents_size(self@)
    }

    fn from_tile_bytes(bytes: Vec<u8>) -> (r: Self) {
        let decoded: Result<DecodedTile, DecodeError> = decode_tile(&bytes);
        proof {
            let answer = choose|answer: Option<Seq<u8>>|
                tile_view(decoded) == #[trigger] answered_tile(answer);
            assert(tile_view(decoded) == answered_tile(answer));
        }
        match decoded {
            Ok(t) => t,
            Err(_) => DecodedTile::default(),
        }
    }

    fn byte_size(&self) -> (n: usize) {
        let ghost t = self@;
        let ghost road_sizes = Seq::new(t.roads.len(), |i: int| road_size(t.roads[i]));
        let ghost area_sizes = Seq::new(t.areas.len(), |i: int| area_size(t.areas[i]));
        let ghost label_sizes = Seq::new(t.labels.len(), |i: int| label_size(t.labels[i]));
        let mut roads: usize = 0;
        let mut i: usize = 0;
        while i < self.roads.len()
            invariant
                t == self@,
                i <= self.roads@.len(),
                road_sizes == Seq::new(t.roads.len(), |i: int| road_size(t.roads[i])),
                roads == capped(sum_sizes(road_sizes.take(i as int))),
            decreases self.roads@.len() - i,
        {
            let name: usize = match &self.roads[i].name {
                Some(s) => s.as_str().as_bytes().len(),
                None => 0,
            };
            let points: usize = times4_capped(self.roads[i].coords.len());
            let own: usize = add_capped(add_capped(points, name), 32);
            roads = add_capped(roads, own);
            i = i + 1;
            proof {
                assert(name == text_size(t.roads[i - 1].name));
                assert(road_sizes.take(i as int).drop_last() =~= road_sizes.take(i - 1));
                assert(own == capped(road_size(t.roads[i - 1])));
            }
        }
        assert(road_sizes.take(i as int) =~= road_sizes);
        let mut areas: usize = 0;
        let mut i: usize = 0;
        while i < self.areas.len()
            invariant
                t == self@,
                i <= self.areas@.len(),
                area_sizes == Seq::new(t.areas.len(), |i: int| area_size(t.areas[i])),
                areas == capped(sum_sizes(area_sizes.take(i as int))),
            decreases self.areas@.len() - i,
        {
            let mut rings: usize = 0;
            let mut k: usize = 0;
            let ghost all = t.areas[i as int].rings;
            while k < self.areas[i as usize].rings.len()
                invariant
                    t == self@,
                    i < self.areas@.len(),
                    all == t.areas[i as int].rings,
                    k <= self.areas@[i as int].rings@.len(),
                    rings == capped(rings_size(all.take(k as int))),
                decreases self.areas@[i as int].rings@.len() - k,
            {
                let own: usize = times4_capped(self.areas[i].rings[k].len());
                rings = add_capped(rings, own);
                k = k + 1;
                assert(all.take(k as int).drop_last() =~= all.take(k - 1));
                assert(all.take(k as int).last().len() == self.areas@[i as int].rings@[k - 1]@.len());
            }
            assert(all.take(k as int) =~= all);
            let own: usize = add_capped(add_capped(rings, self.areas[i].clip.len() / 8), 16);
            areas = add_capped(areas, own);
            i = i + 1;
            proof {
                assert(area_sizes.take(i as int).drop_last() =~= area_sizes.take(i - 1));
                assert(own == capped(area_size(t.areas[i - 1])));
            }
        }
        assert(area_sizes.take(i as int) =~= area_sizes);
        let mut labels: usize = 0;
        let mut i: usize = 0;
        while i < self.labels.len()
            invariant
                t == self@,
                i <= self.labels@.len(),
                label_sizes == Seq::new(t.labels.len(), |i: int| label_size(t.labels[i])),
                labels == capped(sum_sizes(label_sizes.take(i as int))),
            decreases self.labels@.len() - i,
        {
            let own: usize = add_capped(self.labels[i].name.as_str().as_bytes().len(), 16);
            labels = add_capped(labels, own);
            i = i + 1;
            proof {
                assert(label_sizes.take(i as int).drop_last() =~= label_sizes.take(i - 1));
                assert(own == capped(label_size(t.labels[i - 1])));
            }
        }
        assert(label_sizes.take(i as int) =~= label_sizes);
        let n: usize = self.pois.len();
        let half: usize = times4_capped(n);
        let pois: usize = add_capped(half, half);
        assert(pois == capped(t.pois.len() * 8));
        add_capped(add_capped(add_capped(add_capped(roads, areas), labels), pois), 64)
    }
}

// ---- the recency list ----

/// A cached tile. `data` is `None` for a tombstone: the tile is genuinely absent in
/// the archive, cached so it isn't re-requested from the source on every update.
pub struct Entry<T> {
    pub tile: Tile,
    pub data: Option<Arc<T>>,
    pub bytes: usize,
}

/// What a tombstone counts toward the budget.
pub const TOMBSTONE_BYTES: usize = 64;

/// The bytes of all entries.
pub open spec fn total_bytes<T>(s: Seq<Entry<T>>) -> nat
    decreases s.len(),
{
    if s.len() == 0 {
        0
    } else {
        total_bytes(s.drop_last()) + s.last().bytes as nat
    }
}

/// No tile is cached twice.
pub open spec fn distinct<T>(s: Seq<Entry<T>>) -> bool {
    forall|i: int, j: int| 0 <= i < j < s.len() ==> (#[trigger] s[i]).tile != (#[trigger] s[j]).tile
}

/// Where a tile stands among the first `n` entries.
pub open spec fn find_from<T>(s: Seq<Entry<T>>, tile: Tile, n: nat) -> Option<int>
    decreases n,
{
    if n == 0 {
        None
    } else if s[n - 1].tile == tile {
        Some(n - 1)
    } else {
        find_from(s, tile, (n - 1) as nat)
    }
}

pub open spec fn find<T>(s: Seq<Entry<T>>, tile: Tile) -> Option<int> {
    find_from(s, tile, s.len())
}

/// The list without a tile.
pub open spec fn without<T>(s: Seq<Entry<T>>, tile: Tile) -> Seq<Entry<T>> {
    match find(s, tile) {
        Some(i) => s.remove(i),
        None => s,
    }
}

/// The list after a tile is used: it becomes the most recent.
pub open spec fn used<T>(s: Seq<Entry<T>>, tile: Tile) -> Seq<Entry<T>> {
    match find(s, tile) {
        Some(i) => s.remove(i).push(s[i]),
        None => s,
    }
}

/// The payload cached for a tile; none for a tombstone.
pub open spec fn payload<T>(s: Seq<Entry<T>>, tile: Tile) -> Option<Arc<T>> {
    match find(s, tile) {
        Some(i) => s[i].data,
        None => None,
    }
}

/// The least recent entry from `from` on that is not protected.
pub open spec fn victim<T>(s: Seq<Entry<T>>, protected: Seq<Tile>, from: nat) -> Option<int>
    decreases s.len() - from,
{
    if from >= s.len() {
        None
    } else if !protected.contains(s[from as int].tile) {
        Some(from as int)
    } else {
        victim(s, protected, from + 1)
    }
}

pub proof fn lemma_victim<T>(s: Seq<Entry<T>>, protected: Seq<Tile>, from: nat)
    ensures
        match victim(s, protected, from) {
            Some(i) => from <= i < s.len() && !protected.contains(s[i].tile) && forall|k: int|
                from <= k < i ==> protected.contains((#[trigger] s[k]).tile),
            None => forall|k: int| from <= k < s.len() ==> protected.contains((#[trigger] s[k]).tile),
        },
    decreases s.len() - from,
{
    if from < s.len() && protected.contains(s[from as int].tile) {
        lemma_victim(s, protected, from + 1);
    }
}

/// The list cut down to the budget: the least recent unprotected entries go first.
pub open spec fn evicted<T>(s: Seq<Entry<T>>, budget: nat, protected: Seq<Tile>) -> Seq<Entry<T>>
    decreases s.len(),
{
    if total_bytes(s) <= budget {
        s
    } else {
        match victim(s, protected, 0) {
            None => s,
            Some(i) => if 0 <= i < s.len() {
                evicted(s.remove(i), budget, protected)
            } else {
                s
            },
        }
    }
}

/// The list after an entry is put in.
pub open spec fn inserted<T>(
    s: Seq<Entry<T>>,
    e: Entry<T>,
    budget: nat,
    protected: Seq<Tile>,
) -> Seq<Entry<T>> {
    evicted(without(s, e.tile).push(e), budget, protected)
}

/// The nearest cached ancestor of a tile and the list after the search, which uses
/// each ancestor it meets.
pub open spec fn ancestor_search<T>(s: Seq<Entry<T>>, tile: Tile) -> (
    Seq<Entry<T>>,
    Option<(Tile, Arc<T>)>,
)
    decreases tile.z,
{
    if tile.z == 0 {
        (s, None)
    } else {
        let p = tile.spec_parent()->0;
        match payload(s, p) {
            Some(data) => (used(s, p), Some((p, data))),
            None => ancestor_search(used(s, p), p),
        }
    }
}

// ---- laws of the list ----

pub proof fn lemma_find<T>(s: Seq<Entry<T>>, tile: Tile, n: nat)
    requires
        n <= s.len(),
    ensures
        match find_from(s, tile, n) {
            Some(i) => 0 <= i < n && s[i].tile == tile,
            None => forall|k: int| 0 <= k < n ==> (#[trigger] s[k]).tile != tile,
        },
    decreases n,
{
    if n > 0 && s[n - 1].tile != tile {
        lemma_find(s, tile, (n - 1) as nat);
    }
}

proof fn lemma_total_remove<T>(s: Seq<Entry<T>>, i: int)
    requires
        0 <= i < s.len(),
    ensures
        total_bytes(s.remove(i)) + s[i].bytes == total_bytes(s),
    decreases s.len(),
{
    if i == s.len() - 1 {
        assert(s.remove(i) =~= s.drop_last());
    } else {
        lemma_total_remove(s.drop_last(), i);
        assert(s.remove(i).drop_last() =~= s.drop_last().remove(i));
        assert(s.remove(i).last() == s.last());
    }
}

proof fn lemma_total_push<T>(s: Seq<Entry<T>>, e: Entry<T>)
    ensures
        total_bytes(s.push(e)) == total_bytes(s) + e.bytes,
{
    assert(s.push(e).drop_last() =~= s);
}

proof fn lemma_total_bound<T>(s: Seq<Entry<T>>)
    ensures
        total_bytes(s) <= s.len() * usize::MAX as nat,
    decreases s.len(),
{
    if s.len() > 0 {
        lemma_total_bound(s.drop_last());
        assert((s.len() - 1) * usize::MAX as nat + usize::MAX == s.len() * usize::MAX as nat)
            by (nonlinear_arith)
            requires
                s.len() >= 1,
        ;
    }
}

proof fn lemma_distinct_remove<T>(s: Seq<Entry<T>>, i: int)
    requires
        distinct(s),
        0 <= i < s.len(),
    ensures
        distinct(s.remove(i)),
        forall|k: int| 0 <= k < s.remove(i).len() ==> (#[trigger] s.remove(i)[k]).tile != s[i].tile,
{
    let r = s.remove(i);
    assert forall|a: int, b: int| 0 <= a < b < r.len() implies (#[trigger] r[a]).tile != (
    #[trigger] r[b]).tile by {
        let x = if a < i {
            a
        } else {
            a + 1
        };
        let y = if b < i {
            b
        } else {
            b + 1
        };
        assert(r[a] == s[x] && r[b] == s[y]);
    }
    assert forall|k: int| 0 <= k < r.len() implies (#[trigger] r[k]).tile != s[i].tile by {
        let x = if k < i {
            k
        } else {
            k + 1
        };
        assert(r[k] == s[x]);
        if x < i {
            assert(s[x].tile != s[i].tile);
        } else {
            assert(s[i].tile != s[x].tile);
        }
    }
}

pub proof fn lemma_distinct_used<T>(s: Seq<Entry<T>>, tile: Tile)
    requires
        distinct(s),
    ensures
        distinct(used(s, tile)),
        total_bytes(used(s, tile)) == total_bytes(s),
        used(s, tile).len() == s.len(),
{
    lemma_find(s, tile, s.len());
    if let Some(i) = find(s, tile) {
        lemma_distinct_remove(s, i);
        lemma_total_remove(s, i);
        lemma_total_push(s.remove(i), s[i]);
    }
}

proof fn lemma_distinct_inserted<T>(s: Seq<Entry<T>>, e: Entry<T>)
    requires
        distinct(s),
    ensures
        distinct(without(s, e.tile).push(e)),
{
    lemma_find(s, e.tile, s.len());
    if let Some(i) = find(s, e.tile) {
        lemma_distinct_remove(s, i);
    }
}

/// An entry is in the list.
pub open spec fn holds<T>(s: Seq<Entry<T>>, e: Entry<T>) -> bool {
    exists|i: int| 0 <= i < s.len() && #[trigger] s[i] == e
}

/// Eviction keeps to the budget unless only protected tiles are left, evicts no
/// protected tile, adds nothing, and never evicts an entry while a less recent
/// unprotected one stays.
pub proof fn eviction_keeps<T>(s: Seq<Entry<T>>, budget: nat, protected: Seq<Tile>)
    ensures
        ({
            let out = evicted(s, budget, protected);
            &&& total_bytes(out) <= budget || forall|k: int|
                0 <= k < out.len() ==> protected.contains((#[trigger] out[k]).tile)
            &&& forall|i: int|
                0 <= i < s.len() && protected.contains((#[trigger] s[i]).tile) ==> holds(out, s[i])
            &&& forall|k: int| 0 <= k < out.len() ==> holds(s, #[trigger] out[k])
            &&& distinct(s) ==> distinct(out)
            &&& forall|i: int, j: int|
                0 <= i < j < s.len() && !protected.contains((#[trigger] s[i]).tile) && holds(
                    out,
                    s[i],
                ) && distinct(s) ==> holds(out, #[trigger] s[j])
        }),
    decreases s.len(),
{
    let out = evicted(s, budget, protected);
    lemma_victim(s, protected, 0);
    if total_bytes(s) > budget && victim(s, protected, 0) is Some {
        let v = victim(s, protected, 0)->0;
        let r = s.remove(v);
        eviction_keeps(r, budget, protected);
        if distinct(s) {
            lemma_distinct_remove(s, v);
        }
        assert forall|i: int| 0 <= i < s.len() && protected.contains(
            (#[trigger] s[i]).tile,
        ) implies holds(out, s[i]) by {
            let k = if i < v {
                i
            } else {
                i - 1
            };
            assert(r[k] == s[i]);
        }
        assert forall|k: int| 0 <= k < out.len() implies holds(s, #[trigger] out[k]) by {
            assert(holds(r, out[k]));
            let m = choose|m: int| 0 <= m < r.len() && #[trigger] r[m] == out[k];
            let x = if m < v {
                m
            } else {
                m + 1
            };
            assert(s[x] == out[k]);
        }
        assert forall|i: int, j: int|
            0 <= i < j < s.len() && !protected.contains((#[trigger] s[i]).tile) && holds(out, s[i])
                && distinct(s) implies holds(out, #[trigger] s[j]) by {
            assert(i >= v);
            if i == v {
                let k = choose|k: int| 0 <= k < out.len() && #[trigger] out[k] == s[v];
                assert(holds(r, out[k]));
                let m = choose|m: int| 0 <= m < r.len() && #[trigger] r[m] == out[k];
                assert(r[m].tile != s[v].tile);
            } else {
                assert(r[i - 1] == s[i]);
                assert(r[j - 1] == s[j]);
            }
        }
    } else {
        assert forall|i: int| 0 <= i < s.len() implies holds(s, #[trigger] s[i]) by {}
    }
}

// ---- what a lookup gives ----

proof fn lemma_find_at<T>(s: Seq<Entry<T>>, i: int)
    requires
        distinct(s),
        0 <= i < s.len(),
    ensures
        find(s, s[i].tile) == Some(i),
{
    lemma_find(s, s[i].tile, s.len());
    if let Some(k) = find(s, s[i].tile) {
        if k < i {
            assert(s[k].tile != s[i].tile);
        } else if i < k {
            assert(s[i].tile != s[k].tile);
        }
    }
}

/// A lookup changes the order of the entries only: every tile keeps its payload.
pub proof fn lookup_keeps_payloads<T>(s: Seq<Entry<T>>, tile: Tile, other: Tile)
    requires
        distinct(s),
    ensures
        distinct(used(s, tile)),
        payload(used(s, tile), other) == payload(s, other),
{
    lemma_distinct_used(s, tile);
    lemma_find(s, tile, s.len());
    lemma_find(s, other, s.len());
    let u = used(s, tile);
    if let Some(i) = find(s, tile) {
        if let Some(k) = find(s, other) {
            let m = if k < i {
                k
            } else if k == i {
                u.len() - 1
            } else {
                k - 1
            };
            assert(u[m] == s[k]);
            lemma_find_at(u, m);
        } else {
            lemma_find(u, other, u.len());
            if let Some(m) = find(u, other) {
                let k = if m == u.len() - 1 {
                    i
                } else if m < i {
                    m
                } else {
                    m + 1
                };
                assert(u[m] == s[k]);
            }
        }
    }
}

/// A protected tile that is put in is there afterwards, with what was put in.
pub proof fn inserted_is_found<T>(s: Seq<Entry<T>>, e: Entry<T>, budget: nat, protected: Seq<Tile>)
    requires
        distinct(s),
        protected.contains(e.tile),
    ensures
        payload(inserted(s, e, budget, protected), e.tile) == e.data,
{
    let before = without(s, e.tile).push(e);
    lemma_distinct_inserted(s, e);
    eviction_keeps(before, budget, protected);
    let out = inserted(s, e, budget, protected);
    assert(before[before.len() - 1] == e);
    assert(holds(out, e));
    let k = choose|k: int| 0 <= k < out.len() && #[trigger] out[k] == e;
    lemma_find_at(out, k);
}

/// Putting a tile in keeps the tiles distinct.
pub proof fn lemma_distinct_insert<T>(
    s: Seq<Entry<T>>,
    e: Entry<T>,
    budget: nat,
    protected: Seq<Tile>,
)
    requires
        distinct(s),
    ensures
        distinct(inserted(s, e, budget, protected)),
{
    lemma_distinct_inserted(s, e);
    eviction_keeps(without(s, e.tile).push(e), budget, protected);
}

/// Putting another tile in leaves a protected tile as it was.
pub proof fn inserting_keeps_protected<T>(
    s: Seq<Entry<T>>,
    e: Entry<T>,
    budget: nat,
    protected: Seq<Tile>,
    tile: Tile,
)
    requires
        distinct(s),
        protected.contains(tile),
        tile != e.tile,
    ensures
        distinct(inserted(s, e, budget, protected)),
        payload(inserted(s, e, budget, protected), tile) == payload(s, tile),
{
    let rest = without(s, e.tile);
    let before = rest.push(e);
    let out = inserted(s, e, budget, protected);
    lemma_distinct_inserted(s, e);
    eviction_keeps(before, budget, protected);
    lemma_find(s, tile, s.len());
    lemma_find(s, e.tile, s.len());
    lemma_find(out, tile, out.len());
    if let Some(k) = find(s, tile) {
        let m = match find(s, e.tile) {
            Some(i) => if k < i {
                k
            } else {
                k - 1
            },
            None => k,
        };
        assert(before[m] == s[k]);
        assert(holds(out, before[m]));
        let x = choose|x: int| 0 <= x < out.len() && #[trigger] out[x] == before[m];
        lemma_find_at(out, x);
    } else if let Some(x) = find(out, tile) {
        assert(holds(before, out[x]));
        let m = choose|m: int| 0 <= m < before.len() && #[trigger] before[m] == out[x];
        let k = match find(s, e.tile) {
            Some(i) => if m < i {
                m
            } else {
                m + 1
            },
            None => m,
        };
        assert(before[m] == s[k]);
    }
}

/// The tile `k` zooms coarser.
pub open spec fn ancestor(tile: Tile, k: nat) -> Tile
    decreases k,
{
    if k == 0 {
        tile
    } else {
        let t = ancestor(tile, (k - 1) as nat);
        Tile { x: t.x / 2, y: t.y / 2, z: (t.z - 1) as u8 }
    }
}

proof fn lemma_ancestor(tile: Tile, k: nat)
    requires
        k < tile.z,
    ensures
        ancestor(tile.spec_parent()->0, k) == ancestor(tile, k + 1),
        ancestor(tile, k).z == tile.z - k,
    decreases k,
{
    reveal_with_fuel(ancestor, 3);
    if k > 0 {
        lemma_ancestor(tile, (k - 1) as nat);
    }
}

/// A fallback is the nearest ancestor with a payload; there is none only if no ancestor
/// has one.
pub proof fn fallback_is_nearest<T>(s: Seq<Entry<T>>, tile: Tile)
    requires
        distinct(s),
    ensures
        match ancestor_search(s, tile).1 {
            Some((source, data)) => exists|k: nat|
                1 <= k <= tile.z && source == #[trigger] ancestor(tile, k) && payload(s, source)
                    == Some(data) && forall|j: nat|
                    1 <= j < k ==> payload(s, #[trigger] ancestor(tile, j)) is None,
            None => forall|j: nat|
                1 <= j <= tile.z ==> payload(s, #[trigger] ancestor(tile, j)) is None,
        },
    decreases tile.z,
{
    if tile.z > 0 {
        let p = tile.spec_parent()->0;
        lemma_ancestor(tile, 0);
        assert(ancestor(tile, 1) == p);
        if payload(s, p) is None {
            let u = used(s, p);
            lookup_keeps_payloads(s, p, p);
            fallback_is_nearest(u, p);
            assert forall|j: nat| 1 <= j < tile.z implies #[trigger] ancestor(p, j) == ancestor(
                tile,
                j + 1,
            ) && payload(u, ancestor(p, j)) == payload(s, ancestor(p, j)) by {
                lemma_ancestor(tile, j);
                lookup_keeps_payloads(s, p, ancestor(p, j));
            }
            match ancestor_search(u, p).1 {
                Some((source, data)) => {
                    let k = choose|k: nat|
                        1 <= k <= p.z && source == #[trigger] ancestor(p, k) && payload(u, source)
                            == Some(data) && forall|j: nat|
                            1 <= j < k ==> payload(u, #[trigger] ancestor(p, j)) is None;
                    assert(ancestor(tile, k + 1) == source);
                    assert forall|j: nat| 1 <= j < k + 1 implies payload(
                        s,
                        #[trigger] ancestor(tile, j),
                    ) is None by {
                        if j > 1 {
                            assert(payload(u, ancestor(p, (j - 1) as nat)) is None);
                        }
                    }
                },
                None => {
                    assert forall|j: nat| 1 <= j <= tile.z implies payload(
                        s,
                        #[trigger] ancestor(tile, j),
                    ) is None by {
                        if j > 1 {
                            assert(payload(u, ancestor(p, (j - 1) as nat)) is None);
                        }
                    }
                },
            }
        }
    }
}

// ---- the cache ----

/// LRU cache with a byte budget. Eviction never removes a protected tile.
pub struct Lru<T> {
    entries: Vec<Entry<T>>,
    budget: usize,
    used: u128,
}

impl<T> Lru<T> {
    /// The entries, least recent first.
    pub closed spec fn entries(&self) -> Seq<Entry<T>> {
        self.entries@
    }

    pub closed spec fn budget(&self) -> nat {
        self.budget as nat
    }

    pub closed spec fn wf(&self) -> bool {
        distinct(self.entries@) && self.used == total_bytes(self.entries@)
    }

    pub fn new(budget: usize) -> (r: Self)
        ensures
            r.wf(),
            r.entries().len() == 0,
            r.budget() == budget,
    {
        Lru { entries: Vec::new(), budget, used: 0 }
    }

    /// The bytes that the entries count toward the budget.
    pub fn used_bytes(&self) -> (r: u128)
        requires
            self.wf(),
        ensures
            r == total_bytes(self.entries()),
    {
        self.used
    }

    fn position(&self, tile: Tile) -> (r: Option<usize>)
        ensures
            match r {
                Some(i) => i < self.entries@.len() && find(self.entries@, tile) == Some(i as int),
                None => find(self.entries@, tile) is None,
            },
    {
        let mut n: usize = self.entries.len();
        while n > 0
            invariant
                n <= self.entries@.len(),
                find_from(self.entries@, tile, n as nat) == find(self.entries@, tile),
            decreases n,
        {
            if self.entries[n - 1].tile == tile {
                return Some(n - 1);
            }
            n = n - 1;
        }
        None
    }

    /// Whether a tile is cached, as itself or as a tombstone.
    pub fn contains(&self, tile: Tile) -> (r: bool)
        ensures
            r == (find(self.entries(), tile) is Some),
            r == exists|i: int|
                0 <= i < self.entries().len() && (#[trigger] self.entries()[i]).tile == tile,
    {
        proof {
            lemma_find(self.entries@, tile, self.entries@.len());
        }
        self.position(tile).is_some()
    }

    /// Fetch and mark most-recently-used.
    pub fn get(&mut self, tile: Tile) -> (r: Option<Arc<T>>)
        requires
            old(self).wf(),
        ensures
            final(self).wf(),
            final(self).budget() == old(self).budget(),
            final(self).entries() == used(old(self).entries(), tile),
            r == payload(old(self).entries(), tile),
    {
        proof {
            lemma_distinct_used(self.entries@, tile);
        }
        match self.position(tile) {
            None => None,
            Some(i) => {
                let e: Entry<T> = self.entries.remove(i);
                let data: Option<Arc<T>> = match &e.data {
                    Some(d) => Some(d.clone()),
                    None => None,
                };
                self.entries.push(e);
                data
            },
        }
    }

    fn put(&mut self, e: Entry<T>, protected: &Vec<Tile>)
        requires
            old(self).wf(),
        ensures
            final(self).wf(),
            final(self).budget() == old(self).budget(),
            final(self).entries() == inserted(
                old(self).entries(),
                e,
                old(self).budget(),
                protected@,
            ),
    {
        let ghost s = self.entries@;
        proof {
            lemma_distinct_inserted(s, e);
            lemma_find(s, e.tile, s.len());
        }
        if let Some(i) = self.position(e.tile) {
            proof {
                lemma_total_remove(s, i as int);
            }
            let old: Entry<T> = self.entries.remove(i);
            self.used = self.used - old.bytes as u128;
        }
        assert(self.entries@ == without(s, e.tile));
        let bytes: usize = e.bytes;
        let len: usize = self.entries.len();
        assert(len == self.entries@.len());
        proof {
            lemma_total_push(self.entries@, e);
            lemma_total_bound(self.entries@);
            let n = self.entries@.len();
            assert(n * usize::MAX as nat + usize::MAX <= u128::MAX) by (nonlinear_arith)
                requires
                    n <= usize::MAX,
            ;
        }
        self.used = self.used + bytes as u128;
        self.entries.push(e);
        self.evict(protected);
    }

    /// Cache a payload that counts `bytes` toward the budget.
    pub fn insert(&mut self, tile: Tile, data: Arc<T>, bytes: usize, protected: &Vec<Tile>)
        requires
            old(self).wf(),
        ensures
            final(self).wf(),
            final(self).budget() == old(self).budget(),
            final(self).entries() == inserted(
                old(self).entries(),
                Entry { tile, data: Some(data), bytes },
                old(self).budget(),
                protected@,
            ),
    {
        self.put(Entry { tile, data: Some(data), bytes }, protected);
    }

    /// Record that `tile` is absent in the archive (a tombstone) so it isn't
    /// re-requested every update. Counts a nominal size toward the budget so
    /// tombstones stay LRU-bounded like real entries.
    pub fn insert_absent(&mut self, tile: Tile, protected: &Vec<Tile>)
        requires
            old(self).wf(),
        ensures
            final(self).wf(),
            final(self).budget() == old(self).budget(),
            final(self).entries() == inserted(
                old(self).entries(),
                Entry { tile, data: None::<Arc<T>>, bytes: TOMBSTONE_BYTES },
                old(self).budget(),
                protected@,
            ),
    {
        self.put(Entry { tile, data: None, bytes: TOMBSTONE_BYTES }, protected);
    }

    fn evict(&mut self, protected: &Vec<Tile>)
        requires
            old(self).wf(),
        ensures
            final(self).wf(),
            final(self).budget() == old(self).budget(),
            final(self).entries() == evicted(old(self).entries(), old(self).budget(), protected@),
    {
        while self.used > self.budget as u128
            invariant
                self.wf(),
                self.budget == old(self).budget,
                evicted(self.entries@, self.budget as nat, protected@) == evicted(
                    old(self).entries@,
                    old(self).budget as nat,
                    protected@,
                ),
            decreases self.entries@.len(),
        {
            let ghost s = self.entries@;
            let mut i: usize = 0;
            while i < self.entries.len() && contains_tile(protected, self.entries[i].tile)
                invariant
                    i <= self.entries@.len(),
                    self.entries@ == s,
                    victim(s, protected@, i as nat) == victim(s, protected@, 0),
                decreases self.entries@.len() - i,
            {
                i = i + 1;
            }
            if i >= self.entries.len() {
                // Everything left is protected.
                return;
            }
            proof {
                lemma_total_remove(s, i as int);
                lemma_distinct_remove(s, i as int);
            }
            let e: Entry<T> = self.entries.remove(i);
            self.used = self.used - e.bytes as u128;
        }
    }

    /// Nearest cached ancestor (walking parents; skips non-materialized zooms,
    /// which are never cached). Marks it most-recently-used.
    pub fn nearest_ancestor(&mut self, tile: Tile) -> (r: Option<(Tile, Arc<T>)>)
        requires
            old(self).wf(),
        ensures
            final(self).wf(),
            final(self).budget() == old(self).budget(),
            (final(self).entries(), r) == ancestor_search(old(self).entries(), tile),
    {
        let mut cur: Tile = tile;
        while cur.z > 0
            invariant
                self.wf(),
                self.budget() == old(self).budget(),
                ancestor_search(self.entries(), cur) == ancestor_search(
                    old(self).entries(),
                    tile,
                ),
            decreases cur.z,
        {
            match cur.parent() {
                None => return None,
                Some(p) => {
                    let ghost s = self.entries();
                    match self.get(p) {
                        Some(data) => return Some((p, data)),
                        None => {},
                    }
                    cur = p;
                },
            }
        }
        None
    }

    /// Those of `tiles` that are not cached, in order.
    pub fn missing(&self, tiles: &Vec<Tile>) -> (r: Vec<Tile>)
        ensures
            r@ == uncached(self.entries(), tiles@),
    {
        let mut r: Vec<Tile> = Vec::new();
        let mut i: usize = 0;
        assert(r@ =~= uncached(self.entries@, tiles@.take(0)));
        while i < tiles.len()
            invariant
                i <= tiles@.len(),
                r@ == uncached(self.entries@, tiles@.take(i as int)),
            decreases tiles@.len() - i,
        {
            if !self.contains(tiles[i]) {
                r.push(tiles[i]);
            }
            i = i + 1;
            proof {
                let done = tiles@.take(i as int);
                assert(done.drop_last() =~= tiles@.take(i - 1));
                assert(done.last() == tiles@[i - 1]);
            }
        }
        assert(tiles@.take(i as int) =~= tiles@);
        r
    }

    /// What to draw for `tiles`: each from its own payload; one that is not loaded, or
    /// that lies past the archive's finest zoom (`overzoom`), from its nearest cached
    /// ancestor; and one that is absent at a materialized level not at all, since there
    /// is nothing.
    pub fn compose(&mut self, tiles: &Vec<Tile>, overzoom: bool) -> (r: Vec<VisibleTile<T>>)
        requires
            old(self).wf(),
        ensures
            final(self).wf(),
            final(self).budget() == old(self).budget(),
            (final(self).entries(), r@) == composed(old(self).entries(), tiles@, overzoom),
    {
        let mut r: Vec<VisibleTile<T>> = Vec::new();
        let mut i: usize = 0;
        assert((self.entries(), r@) == composed(old(self).entries(), tiles@.take(0), overzoom)) by {
            assert(r@ =~= Seq::empty());
        }
        while i < tiles.len()
            invariant
                i <= tiles@.len(),
                self.wf(),
                self.budget() == old(self).budget(),
                (self.entries(), r@) == composed(
                    old(self).entries(),
                    tiles@.take(i as int),
                    overzoom,
                ),
            decreases tiles@.len() - i,
        {
            let tile: Tile = tiles[i];
            let cached: bool = self.contains(tile);
            match self.get(tile) {
                Some(data) => {
                    r.push(VisibleTile { tile, data, source: tile });
                },
                None => {
                    if overzoom || !cached {
                        if let Some((source, data)) = self.nearest_ancestor(tile) {
                            r.push(VisibleTile { tile, data, source });
                        }
                    }
                },
            }
            i = i + 1;
            proof {
                let done = tiles@.take(i as int);
                assert(done.drop_last() =~= tiles@.take(i - 1));
                assert(done.last() == tile);
            }
        }
        assert(tiles@.take(i as int) =~= tiles@);
        r
    }
}

impl<T: TilePayload> Lru<T> {
    /// Cache what was fetched for `tile`: its payload, or a tombstone where the
    /// archive has no such tile.
    pub fn absorb(&mut self, tile: Tile, fetched: Option<Vec<u8>>, protected: &Vec<Tile>)
        requires
            old(self).wf(),
        ensures
            final(self).wf(),
            final(self).budget() == old(self).budget(),
            is_absorbed(
                old(self).entries(),
                tile,
                fetched_view(fetched),
                old(self).budget(),
                protected@,
                final(self).entries(),
            ),
    {
        match fetched {
            None => {
                self.insert_absent(tile, protected);
                assert(is_entry_for(
                    Entry { tile, data: None::<Arc<T>>, bytes: TOMBSTONE_BYTES },
                    tile,
                    None,
                ));
            },
            Some(bytes) => {
                let ghost raw = bytes@;
                let payload: T = T::from_tile_bytes(bytes);
                let size: usize = payload.byte_size();
                let p: Arc<T> = Arc::new(payload);
                self.insert(tile, p, size, protected);
                assert(is_entry_for(Entry { tile, data: Some(p), bytes: size }, tile, Some(raw)));
            },
        }
    }
}

/// What was fetched for a tile; none where the archive has no such tile.
pub open spec fn fetched_view(f: Option<Vec<u8>>) -> Option<Seq<u8>> {
    match f {
        Some(bytes) => Some(bytes@),
        None => None,
    }
}

/// `after` is the list after what was fetched for a tile is cached: its payload, or a
/// tombstone.
pub open spec fn is_absorbed<T: TilePayload>(
    before: Seq<Entry<T>>,
    tile: Tile,
    fetched: Option<Seq<u8>>,
    budget: nat,
    protected: Seq<Tile>,
    after: Seq<Entry<T>>,
) -> bool {
    exists|e: Entry<T>| #[trigger]
        is_entry_for(e, tile, fetched) && after == inserted(before, e, budget, protected)
}

/// The entry of a tile: the payload that the fetched bytes make, or a tombstone.
pub open spec fn is_entry_for<T: TilePayload>(
    e: Entry<T>,
    tile: Tile,
    fetched: Option<Seq<u8>>,
) -> bool {
    &&& e.tile == tile
    &&& match fetched {
        Some(bytes) => (e.data matches Some(p) && (*p).is_made_of(bytes) && e.bytes == capped(
            (*p).footprint(),
        )),
        None => e.data is None && e.bytes == TOMBSTONE_BYTES,
    }
}

fn contains_tile(tiles: &Vec<Tile>, tile: Tile) -> (r: bool)
    ensures
        r == tiles@.contains(tile),
{
    let mut i: usize = 0;
    while i < tiles.len()
        invariant
            i <= tiles@.len(),
            forall|k: int| 0 <= k < i ==> #[trigger] tiles@[k] != tile,
        decreases tiles@.len() - i,
    {
        if tiles[i] == tile {
            assert(tiles@[i as int] == tile);
            return true;
        }
        i = i + 1;
    }
    false
}

/// Those of `tiles` that are not cached, in order.
pub open spec fn uncached<T>(s: Seq<Entry<T>>, tiles: Seq<Tile>) -> Seq<Tile>
    decreases tiles.len(),
{
    if tiles.len() == 0 {
        Seq::empty()
    } else {
        let front = uncached(s, tiles.drop_last());
        if find(s, tiles.last()) is None {
            front.push(tiles.last())
        } else {
            front
        }
    }
}

/// The list after `tiles` are looked up in order, and what is drawn for them.
pub open spec fn composed<T>(s: Seq<Entry<T>>, tiles: Seq<Tile>, overzoom: bool) -> (
    Seq<Entry<T>>,
    Seq<VisibleTile<T>>,
)
    decreases tiles.len(),
{
    if tiles.len() == 0 {
        (s, Seq::empty())
    } else {
        let (s1, out) = composed(s, tiles.drop_last(), overzoom);
        let tile = tiles.last();
        match payload(s1, tile) {
            Some(data) => (used(s1, tile), out.push(VisibleTile { tile, data, source: tile })),
            None => if overzoom || find(s1, tile) is None {
                match ancestor_search(used(s1, tile), tile) {
                    (s2, Some((source, data))) => (
                        s2,
                        out.push(VisibleTile { tile, data, source }),
                    ),
                    (s2, None) => (s2, out),
                }
            } else {
                (used(s1, tile), out)
            },
        }
    }
}

} // verus!
