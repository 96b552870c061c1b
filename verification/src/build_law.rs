//! What an archive is built of.

use vstd::prelude::*;

use crate::archive::{
    archive_entries, archive_of, clustered, continues_run, id_of, midpoint, place_key,
    run_length_encoded, run_sum, written, Cluster, WriterView, METADATA,
};
use crate::pmtiles::{
    chunk_count, directories, directories_from, directory_bytes, first_leaf_size, header_bytes,
    leaf_bytes, leaf_pointers, DirEntry, ROOT_MAX,
};
use crate::tile::Tile;

verus! {

// ---- writing ----

/// A written tile gets an entry of its own, behind all others, with its id and the length
/// of its bytes; the zooms of the archive widen to take it in; and bytes whose hash was not
/// seen before go behind all others.
pub proof fn tiles_are_entered(w: WriterView, tile: Tile, data: Seq<u8>)
    requires
        data.len() <= u32::MAX,
        w.data_len + data.len() <= u64::MAX,
    ensures
        ({
            let out = written(w, tile, data);
            let hash = crate::archive::xxh3_128_of(data);
            let e = out.entries.last();
            &&& out.entries.len() == w.entries.len() + 1
            &&& out.entries.drop_last() == w.entries
            &&& e.tile_id == id_of(tile)
            &&& e.run_length == 1
            &&& out.min_zoom <= tile.z && out.min_zoom <= w.min_zoom
            &&& out.min_zoom == tile.z || out.min_zoom == w.min_zoom
            &&& out.max_zoom >= tile.z && out.max_zoom >= w.max_zoom
            &&& out.max_zoom == tile.z || out.max_zoom == w.max_zoom
            &&& !w.stored.contains_key(hash) ==> e.offset == w.data_len && e.length == data.len()
                && out.data_len == w.data_len + data.len()
            &&& w.stored.contains_key(hash) ==> (e.offset, e.length) == w.stored[hash]
                && out.data_len == w.data_len
            &&& out.stored.contains_key(hash) && out.stored[hash] == (e.offset, e.length)
            &&& forall|h: u128|
                h != hash ==> (#[trigger] out.stored.contains_key(h) <==> w.stored.contains_key(h))
        }),
{
    assert(written(w, tile, data).entries.drop_last() =~= w.entries);
}

/// The same bytes written again take no further room and share their place.
pub proof fn same_bytes_share_place(w: WriterView, a: Tile, b: Tile, data: Seq<u8>)
    ensures
        ({
            let one = written(w, a, data);
            let two = written(one, b, data);
            &&& two.data_len == one.data_len
            &&& two.entries.last().offset == one.entries.last().offset
            &&& two.entries.last().length == one.entries.last().length
        }),
{
}

// ---- runs ----

/// Two entries that follow each other could be one: the same bytes for consecutive tiles.
pub open spec fn could_merge(a: DirEntry, b: DirEntry) -> bool {
    &&& a.offset == b.offset
    &&& a.length == b.length
    &&& a.tile_id + a.run_length == b.tile_id
}

/// Runs of consecutive tiles with the same bytes become one entry: what is left cannot be
/// merged further, up to the longest run that an entry can have, and as many tiles are
/// addressed as before.
pub proof fn runs_are_merged(es: Seq<DirEntry>)
    requires
        forall|i: int| 0 <= i < es.len() ==> (#[trigger] es[i]).run_length == 1,
    ensures
        ({
            let out = run_length_encoded(es);
            &&& forall|i: int|
                0 < i < out.len() ==> !could_merge(#[trigger] out[i - 1], out[i]) || out[i
                    - 1].run_length == u32::MAX
            &&& run_sum(out) == es.len()
            &&& out.len() <= es.len()
            &&& es.len() > 0 ==> out.len() > 0 && out[0].tile_id == es[0].tile_id
            &&& forall|i: int| 0 <= i < out.len() ==> (#[trigger] out[i]).run_length >= 1
        }),
    decreases es.len(),
{
    if es.len() > 0 {
        let rest = es.drop_last();
        assert forall|i: int| 0 <= i < rest.len() implies (#[trigger] rest[i]).run_length == 1 by {
            assert(rest[i] == es[i]);
        }
        runs_are_merged(rest);
        let front = run_length_encoded(rest);
        let e = es.last();
        let out = run_length_encoded(es);
        assert(es[es.len() - 1].run_length == 1);
        if front.len() > 0 && continues_run(front.last(), e) {
            let n = front.len() - 1;
            assert(out.drop_last() =~= front.drop_last());
            assert forall|i: int| 0 < i < out.len() implies !could_merge(
                #[trigger] out[i - 1],
                out[i],
            ) || out[i - 1].run_length == u32::MAX by {
                assert(out[i - 1] == front[i - 1]);
                assert(!could_merge(front[i - 1], front[i]) || front[i - 1].run_length == u32::MAX);
            }
            assert(out[0].tile_id == front[0].tile_id);
        } else {
            assert(out.drop_last() =~= front);
            assert forall|i: int| 0 < i < out.len() implies !could_merge(
                #[trigger] out[i - 1],
                out[i],
            ) || out[i - 1].run_length == u32::MAX by {
                assert(out[i - 1] == front[i - 1]);
                if i < front.len() {
                    assert(!could_merge(front[i - 1], front[i]) || front[i - 1].run_length
                        == u32::MAX);
                }
            }
        }
        if rest.len() > 0 {
            assert(rest[0] == es[0]);
        } else {
            assert(front.len() == 0);
        }
    }
}

// ---- the header and the sections ----

/// The middle of two numbers is within half of their mean, on the side of zero.
pub proof fn midpoints_halve(a: i32, b: i32)
    ensures
        a + b >= 0 ==> 2 * midpoint(a, b) <= a + b <= 2 * midpoint(a, b) + 1,
        a + b <= 0 ==> 2 * midpoint(a, b) - 1 <= a + b <= 2 * midpoint(a, b),
        midpoint(a, b) == midpoint(b, a),
{
}

/// An archive is its header, its root directory, its metadata, its leaf directories and its
/// data, one behind the other; its header says where each starts, how many tiles and
/// entries there are, which zooms, and that nothing is compressed further.
pub proof fn sections_follow(w: WriterView, sorted: Seq<DirEntry>, bounds: [i32; 4])
    requires
        ({
            let es = archive_entries(sorted);
            let (root, leaves) = directories(es, ROOT_MAX as nat);
            127 + root.len() + 29 + leaves.len() <= u64::MAX && es.len() <= u64::MAX && run_sum(es)
                <= u64::MAX && w.stored.dom().len() <= u64::MAX
        }),
    ensures
        ({
            let es = archive_entries(sorted);
            let (root, leaves) = directories(es, 16384);
            let a = archive_of(w, sorted, bounds);
            let h = a.header;
            &&& h.root_offset == 127
            &&& h.metadata_offset == h.root_offset + h.root_length
            &&& h.leaf_offset == h.metadata_offset + h.metadata_length
            &&& h.data_offset == h.leaf_offset + h.leaf_length
            &&& h.root_length == root.len()
            &&& h.metadata_length == 29
            &&& h.leaf_length == leaves.len()
            &&& h.data_length == w.data_len
            &&& h.num_entries == es.len()
            &&& h.num_addressed == run_sum(es)
            &&& h.num_contents == w.stored.dom().len()
            &&& h.clustered
            &&& h.internal_compression == 1
            &&& h.tile_compression == 1
            &&& h.tile_type == 0
            &&& es.len() > 0 ==> h.min_zoom == w.min_zoom && h.max_zoom == w.max_zoom
            &&& es.len() == 0 ==> h.min_zoom == 0 && h.max_zoom == 0
            &&& h.center_zoom == h.min_zoom
            &&& h.bounds == bounds
            &&& h.center[0] == midpoint(bounds[0], bounds[2])
            &&& h.center[1] == midpoint(bounds[1], bounds[3])
            &&& a.head == header_bytes(h) + root + METADATA@ + leaves
        }),
{
}

// ---- clustered data ----

/// The place of an entry.
pub open spec fn place_of(e: DirEntry) -> (u64, u32) {
    (e.offset, e.length)
}

/// The sum of the lengths of places.
pub open spec fn places_len(plan: Seq<(u64, u32)>) -> nat
    decreases plan.len(),
{
    if plan.len() == 0 {
        0
    } else {
        places_len(plan.drop_last()) + plan.last().1 as nat
    }
}

/// `k` is where the plan has the place.
pub open spec fn planned_at(plan: Seq<(u64, u32)>, place: (u64, u32), k: int) -> bool {
    0 <= k < plan.len() && plan[k] == place
}

/// The place is in the plan, and its new offset is the length of what is before it.
pub open spec fn moved_by_plan(c: Cluster, place: (u64, u32), to: DirEntry) -> bool {
    exists|k: int| #[trigger]
        planned_at(c.plan, place, k) && to.offset == places_len(c.plan.take(k)) && to.length
            == place.1
}

spec fn clusters_ok(es: Seq<DirEntry>, c: Cluster) -> bool {
    &&& c.entries.len() == es.len()
    &&& c.len == places_len(c.plan)
    &&& c.plan.no_duplicates()
    &&& forall|i: int|
        0 <= i < es.len() ==> (#[trigger] c.entries[i]).tile_id == es[i].tile_id
            && c.entries[i].length == es[i].length && c.entries[i].run_length == es[i].run_length
            && moved_by_plan(c, place_of(es[i]), c.entries[i])
    &&& forall|k: int| 0 <= k < c.plan.len() ==> c.moved.contains_key(key_of(#[trigger] c.plan[k]))
    &&& forall|h: u128| #[trigger]
        c.moved.contains_key(h) ==> exists|k: int|
            0 <= k < c.plan.len() && h == key_of(#[trigger] c.plan[k]) && c.moved[h].0
                == places_len(c.plan.take(k))
}

spec fn key_of(p: (u64, u32)) -> u128 {
    (p.0 * 0x1_0000_0000 + p.1) as u128
}

proof fn lemma_key_unique(a: (u64, u32), b: (u64, u32))
    ensures
        key_of(a) == key_of(b) <==> a == b,
{
}

/// Contents are copied once each, in the order in which the tiles first need them, one
/// behind the other; every entry keeps its tile and length and points to its content's new
/// place.
pub proof fn contents_copied_in_order(es: Seq<DirEntry>)
    requires
        crate::archive::length_sum(es) <= u64::MAX,
    ensures
        ({
            let c = clustered(es);
            &&& c.entries.len() == es.len()
            &&& c.plan.no_duplicates()
            &&& c.len == places_len(c.plan)
            &&& forall|i: int|
                0 <= i < es.len() ==> (#[trigger] c.entries[i]).tile_id == es[i].tile_id
                    && c.entries[i].run_length == es[i].run_length && moved_by_plan(
                    c,
                    place_of(es[i]),
                    c.entries[i],
                )
        }),
{
    lemma_clustered(es);
}

proof fn lemma_clustered(es: Seq<DirEntry>)
    requires
        crate::archive::length_sum(es) <= u64::MAX,
    ensures
        clusters_ok(es, clustered(es)),
        clustered(es).len <= crate::archive::length_sum(es),
    decreases es.len(),
{
    let c = clustered(es);
    if es.len() > 0 {
        let rest = es.drop_last();
        let e = es.last();
        lemma_clustered(rest);
        let b = clustered(rest);
        let p = place_of(e);
        assert(key_of(p) == place_key(e));
        if b.moved.contains_key(place_key(e)) {
            let k = choose|k: int|
                0 <= k < b.plan.len() && place_key(e) == key_of(#[trigger] b.plan[k])
                    && b.moved[place_key(e)].0 == places_len(b.plan.take(k));
            lemma_key_unique(p, b.plan[k]);
            assert(planned_at(c.plan, p, k));
            assert(moved_by_plan(c, p, c.entries[es.len() - 1]));
            assert forall|i: int| 0 <= i < es.len() implies (#[trigger] c.entries[i]).tile_id
                == es[i].tile_id && c.entries[i].length == es[i].length && c.entries[i].run_length
                == es[i].run_length && moved_by_plan(c, place_of(es[i]), c.entries[i]) by {
                if i < rest.len() {
                    assert(c.entries[i] == b.entries[i]);
                    assert(rest[i] == es[i]);
                    let m = choose|m: int| #[trigger]
                        planned_at(b.plan, place_of(es[i]), m) && b.entries[i].offset == places_len(
                            b.plan.take(m),
                        );
                    assert(planned_at(c.plan, place_of(es[i]), m));
                }
            }
        } else {
            let n = b.plan.len() as int;
            assert(c.plan.drop_last() =~= b.plan);
            assert(c.plan.last() == p);
            assert forall|k: int| 0 <= k < n implies #[trigger] b.plan[k] != p by {
                assert(b.moved.contains_key(key_of(b.plan[k])));
            }
            assert(c.plan.take(n) =~= b.plan);
            assert forall|k: int| 0 <= k <= n implies #[trigger] c.plan.take(k) == b.plan.take(k) by {
                assert(c.plan.take(k) =~= b.plan.take(k));
            }
            assert(planned_at(c.plan, p, n));
            assert(moved_by_plan(c, p, c.entries[es.len() - 1]));
            assert forall|i: int| 0 <= i < es.len() implies (#[trigger] c.entries[i]).tile_id
                == es[i].tile_id && c.entries[i].length == es[i].length && c.entries[i].run_length
                == es[i].run_length && moved_by_plan(c, place_of(es[i]), c.entries[i]) by {
                if i < rest.len() {
                    assert(c.entries[i] == b.entries[i]);
                    assert(rest[i] == es[i]);
                    let m = choose|m: int| #[trigger]
                        planned_at(b.plan, place_of(es[i]), m) && b.entries[i].offset == places_len(
                            b.plan.take(m),
                        );
                    assert(planned_at(c.plan, place_of(es[i]), m));
                    assert(c.plan.take(m) == b.plan.take(m));
                }
            }
            assert forall|k: int| 0 <= k < c.plan.len() implies c.moved.contains_key(
                key_of(#[trigger] c.plan[k]),
            ) by {
                if k < n {
                    assert(c.plan[k] == b.plan[k]);
                    assert(b.moved.contains_key(key_of(b.plan[k])));
                }
            }
            assert forall|h: u128| #[trigger] c.moved.contains_key(h) implies exists|k: int|
                0 <= k < c.plan.len() && h == key_of(#[trigger] c.plan[k]) && c.moved[h].0
                    == places_len(c.plan.take(k)) by {
                if h == place_key(e) {
                    assert(h == key_of(c.plan[n]));
                } else {
                    assert(b.moved.contains_key(h));
                    let k = choose|k: int|
                        0 <= k < b.plan.len() && h == key_of(#[trigger] b.plan[k]) && b.moved[h].0
                            == places_len(b.plan.take(k));
                    assert(c.plan[k] == b.plan[k]);
                    assert(c.plan.take(k) == b.plan.take(k));
                }
            }
        }
    }
}

// ---- directories ----

proof fn lemma_root_small(es: Seq<DirEntry>, root_max: nat, size: nat)
    requires
        size > 0,
    ensures
        directories_from(es, root_max, size).0.len() <= root_max || exists|n: nat|
            n >= es.len() && n > 0 && directories_from(es, root_max, size)
                == #[trigger] directories_of_size(es, n),
        exists|n: nat|
            n >= size && directories_from(es, root_max, size) == #[trigger] directories_of_size(
                es,
                n,
            ),
    decreases (if size < es.len() { es.len() - size } else { 0 }),
{
    let root = directory_bytes(leaf_pointers(es, size));
    if root.len() <= root_max || chunk_count(es, size) <= 1 || size >= es.len() {
        assert(directories_from(es, root_max, size) == directories_of_size(es, size));
        if size < es.len() && root.len() > root_max {
            assert(chunk_count(es, size) >= 2) by (nonlinear_arith)
                requires
                    chunk_count(es, size) == (es.len() + size - 1) / size as int,
                    size > 0,
                    size < es.len(),
            ;
        }
    } else {
        lemma_root_small(es, root_max, 2 * size);
        let n = choose|n: nat|
            n >= 2 * size && directories_from(es, root_max, 2 * size)
                == #[trigger] directories_of_size(es, n);
        assert(directories_from(es, root_max, size) == directories_of_size(es, n));
    }
}

/// The directories with leaves of `n` entries.
pub open spec fn directories_of_size(es: Seq<DirEntry>, n: nat) -> (Seq<u8>, Seq<u8>) {
    (directory_bytes(leaf_pointers(es, n)), leaf_bytes(es, n, chunk_count(es, n)))
}

/// A directory that fits is the root and has no leaves; else the leaves have at least 4096
/// entries and so many that there are about 3500 leaves at most, and the root fits unless a single leaf holds all.
pub proof fn roots_stay_small(es: Seq<DirEntry>, root_max: nat)
    ensures
        directory_bytes(es).len() <= root_max ==> directories(es, root_max) == (
            directory_bytes(es),
            Seq::<u8>::empty(),
        ),
        directory_bytes(es).len() > root_max ==> {
            &&& directories(es, root_max).0.len() <= root_max || exists|n: nat|
                n >= es.len() && n > 0 && directories(es, root_max)
                    == #[trigger] directories_of_size(es, n)
            &&& exists|n: nat|
                n >= 4096 && n >= es.len() / 3500 && directories(es, root_max) == #[trigger] directories_of_size(es, n)
        },
{
    if directory_bytes(es).len() > root_max {
        let size = first_leaf_size(es.len());
        lemma_root_small(es, root_max, size);
        let n = choose|n: nat|
            n >= size && directories_from(es, root_max, size) == #[trigger] directories_of_size(
                es,
                n,
            );
        assert(directories(es, root_max) == directories_of_size(es, n));
    }
}

} // verus!
