//! Reading an archive gives back the tiles that were written.

use vstd::prelude::*;

use crate::archive::{
    archive_entries, archive_of, by_tile_id, clustered, continues_run, id_keys, id_of, is_stored,
    lemma_cluster, lemma_runs, lemma_sorted_wf, length_sum, new_writer, place_for, place_key,
    run_length_encoded, tile_valid, writer_wf, written, xxh3_128_of, ArchiveView, WriterView,
    METADATA,
};
use crate::hilbert::{tile_id_injective, tile_id_of};
use crate::pmtiles::{
    count_up_to, directories, directories_search, directory_at, header_at, header_bytes,
    header_roundtrip, leaves_addressable, lemma_count_unique, lemma_count_up_to, resolved, search,
    sorted_entries, DirEntry, Located, HEADER_LEN, ROOT_MAX,
};
use crate::sort::is_stable_order;
use crate::tile::Tile;

verus! {

/// A tile and its bytes.
pub type Write = (Tile, Seq<u8>);

/// The writer after `ws`.
pub open spec fn state_after(ws: Seq<Write>) -> WriterView
    decreases ws.len(),
{
    if ws.len() == 0 {
        new_writer()
    } else {
        written(state_after(ws.drop_last()), ws.last().0, ws.last().1)
    }
}

/// The data file after `ws`: new contents in the order of writing.
pub open spec fn data_after(ws: Seq<Write>) -> Seq<u8>
    decreases ws.len(),
{
    if ws.len() == 0 {
        Seq::empty()
    } else {
        let front = data_after(ws.drop_last());
        if is_stored(state_after(ws.drop_last()), ws.last().1) {
            front
        } else {
            front + ws.last().1
        }
    }
}

/// The data section that a plan copies out of the data file.
pub open spec fn copied(plan: Seq<(u64, u32)>, data: Seq<u8>) -> Seq<u8>
    decreases plan.len(),
{
    if plan.len() == 0 {
        Seq::empty()
    } else {
        let (offset, length) = plan.last();
        copied(plan.drop_last(), data) + data.subrange(offset as int, offset + length)
    }
}

/// The archive file.
pub open spec fn file_bytes(a: ArchiveView, data: Seq<u8>) -> Seq<u8> {
    a.head + copied(a.plan, data)
}

/// A section of a file; none where the file ends before it does.
pub open spec fn section(file: Seq<u8>, offset: int, length: int) -> Option<Seq<u8>> {
    if 0 <= offset && 0 <= length && offset + length <= file.len() {
        Some(file.subrange(offset, offset + length))
    } else {
        None
    }
}

/// What a reader finds under a tile: nothing where the file is no archive, `Some(None)`
/// where the archive has no such tile.
pub open spec fn read_tile(file: Seq<u8>, tile: Tile) -> Option<Option<Seq<u8>>> {
    match header_at(file) {
        None => None,
        Some(h) => match (
            section(file, h.root_offset as int, h.root_length as int),
            section(file, h.leaf_offset as int, h.leaf_length as int),
        ) {
            (Some(root), Some(leaves)) => match directory_at(root) {
                None => None,
                Some(top) => match search(top, leaves, id_of(tile), 1) {
                    Some(Located::Absent) => Some(None),
                    Some(Located::Data { offset, length }) => match section(
                        file,
                        h.data_offset + offset,
                        length as int,
                    ) {
                        Some(data) => Some(Some(data)),
                        None => None,
                    },
                    _ => None,
                },
            },
            _ => None,
        },
    }
}

// ---- what can be written ----

pub open spec fn byte_sum(ws: Seq<Write>) -> nat
    decreases ws.len(),
{
    if ws.len() == 0 {
        0
    } else {
        byte_sum(ws.drop_last()) + ws.last().1.len()
    }
}

/// Tiles are valid and written once, contents fit 32-bit lengths and 64-bit offsets, and
/// no two contents share a hash.
pub open spec fn writes_ok(ws: Seq<Write>) -> bool {
    &&& forall|i: int| 0 <= i < ws.len() ==> tile_valid((#[trigger] ws[i]).0)
    &&& forall|i: int, j: int|
        0 <= i < j < ws.len() ==> (#[trigger] ws[i]).0 != (#[trigger] ws[j]).0
    &&& forall|i: int| 0 <= i < ws.len() ==> (#[trigger] ws[i]).1.len() <= u32::MAX
    &&& forall|i: int, j: int|
        0 <= i < ws.len() && 0 <= j < ws.len() && xxh3_128_of((#[trigger] ws[i]).1) == xxh3_128_of(
            (#[trigger] ws[j]).1,
        ) ==> ws[i].1 == ws[j].1
    &&& byte_sum(ws) < u64::MAX
    &&& ws.len() <= usize::MAX
}

proof fn lemma_writes_front(ws: Seq<Write>)
    requires
        writes_ok(ws),
        ws.len() > 0,
    ensures
        writes_ok(ws.drop_last()),
{
    let f = ws.drop_last();
    assert forall|i: int| 0 <= i < f.len() implies tile_valid((#[trigger] f[i]).0) by {
        assert(f[i] == ws[i]);
    }
    assert forall|i: int, j: int| 0 <= i < j < f.len() implies (#[trigger] f[i]).0 != (
    #[trigger] f[j]).0 by {
        assert(f[i] == ws[i] && f[j] == ws[j]);
    }
    assert forall|i: int| 0 <= i < f.len() implies (#[trigger] f[i]).1.len() <= u32::MAX by {
        assert(f[i] == ws[i]);
    }
    assert forall|i: int, j: int|
        0 <= i < f.len() && 0 <= j < f.len() && xxh3_128_of((#[trigger] f[i]).1) == xxh3_128_of(
            (#[trigger] f[j]).1,
        ) implies f[i].1 == f[j].1 by {
        assert(f[i] == ws[i] && f[j] == ws[j]);
    }
}

/// Entry `e` addresses the content of write `x` in `data`.
spec fn addresses(e: DirEntry, x: Write, data: Seq<u8>) -> bool {
    &&& e.tile_id == id_of(x.0)
    &&& e.run_length == 1
    &&& e.length == x.1.len()
    &&& e.offset + e.length <= data.len()
    &&& data.subrange(e.offset as int, e.offset + e.length) == x.1
}

spec fn writer_mirrors(ws: Seq<Write>) -> bool {
    let w = state_after(ws);
    let d = data_after(ws);
    &&& w.data_len == d.len()
    &&& w.entries.len() == ws.len()
    &&& d.len() <= byte_sum(ws)
    &&& length_sum(w.entries) == byte_sum(ws)
    &&& forall|i: int| 0 <= i < ws.len() ==> addresses(#[trigger] w.entries[i], ws[i], d)
    &&& forall|h: u128| #[trigger]
        w.stored.contains_key(h) ==> exists|i: int|
            0 <= i < ws.len() && h == xxh3_128_of((#[trigger] ws[i]).1) && w.stored[h] == (
                w.entries[i].offset,
                w.entries[i].length,
            )
    &&& writer_wf(w)
}

proof fn lemma_id_small(t: Tile)
    requires
        tile_valid(t),
    ensures
        0 <= tile_id_of(t.z as nat, t.x as int, t.y as int) < 0x5555_5555_5555_5555,
{
    tile_id_injective(
        t.z as nat,
        t.x as int,
        t.y as int,
        t.z as nat,
        t.x as int,
        t.y as int,
    );
    crate::hilbert::lemma_zoom_offset_32(t.z as nat);
}

proof fn lemma_writer_step(ws: Seq<Write>)
    requires
        ws.len() > 0,
        writes_ok(ws),
        writer_mirrors(ws.drop_last()),
    ensures
        writer_mirrors(ws),
{
    let f = ws.drop_last();
    let x = ws.last();
    let w0 = state_after(f);
    let d0 = data_after(f);
    let w = state_after(ws);
    let d = data_after(ws);
    let n = f.len() as int;
    assert(ws[n] == x);
    lemma_id_small(x.0);
    let stored = is_stored(w0, x.1);
    let h0 = xxh3_128_of(x.1);
    let place = place_for(w0, x.1);
    assert(byte_sum(ws) == byte_sum(f) + x.1.len());
    if stored {
        let i = choose|i: int|
            0 <= i < f.len() && h0 == xxh3_128_of((#[trigger] f[i]).1) && w0.stored[h0] == (
                w0.entries[i].offset,
                w0.entries[i].length,
            );
        assert(ws[i] == f[i]);
        assert(xxh3_128_of(ws[i].1) == xxh3_128_of(ws[n].1));
        assert(f[i].1 == x.1);
        assert(addresses(w0.entries[i], f[i], d0));
        assert(addresses(w.entries[n], x, d));
    } else {
        assert(d.subrange(d0.len() as int, d.len() as int) =~= x.1);
        assert(addresses(w.entries[n], x, d));
    }
    assert(w.entries.drop_last() =~= w0.entries);
    assert forall|i: int| 0 <= i < ws.len() implies addresses(#[trigger] w.entries[i], ws[i], d) by {
        if i < n {
            assert(addresses(w0.entries[i], f[i], d0));
            let e = w0.entries[i];
            assert(w.entries[i] == e);
            assert(d.subrange(e.offset as int, e.offset + e.length) =~= d0.subrange(
                e.offset as int,
                e.offset + e.length,
            ));
        }
    }
    assert forall|h: u128| #[trigger] w.stored.contains_key(h) implies exists|i: int|
        0 <= i < ws.len() && h == xxh3_128_of((#[trigger] ws[i]).1) && w.stored[h] == (
            w.entries[i].offset,
            w.entries[i].length,
        ) by {
        if h == h0 {
            assert(ws[n].1 == x.1);
            assert(w.stored[h] == (w.entries[n].offset, w.entries[n].length));
        } else {
            assert(w0.stored.contains_key(h));
            let i = choose|i: int|
                0 <= i < f.len() && h == xxh3_128_of((#[trigger] f[i]).1) && w0.stored[h] == (
                    w0.entries[i].offset,
                    w0.entries[i].length,
                );
            assert(ws[i] == f[i]);
            assert(w.entries[i] == w0.entries[i]);
        }
    }
    assert forall|h: u128| #[trigger] w.stored.contains_key(h) implies w.stored[h].0 + w.stored[h].1
        <= w.data_len by {
        let i = choose|i: int|
            0 <= i < ws.len() && h == xxh3_128_of((#[trigger] ws[i]).1) && w.stored[h] == (
                w.entries[i].offset,
                w.entries[i].length,
            );
        assert(addresses(w.entries[i], ws[i], d));
    }
    assert forall|i: int| 0 <= i < w.entries.len() implies {
        let e = #[trigger] w.entries[i];
        e.offset + e.length <= w.data_len && e.run_length == 1 && e.tile_id < 0x5555_5555_5555_5555
    } by {
        assert(addresses(w.entries[i], ws[i], d));
        assert(tile_valid(ws[i].0));
        lemma_id_small(ws[i].0);
    }
}

proof fn lemma_writer(ws: Seq<Write>)
    requires
        writes_ok(ws),
    ensures
        writer_mirrors(ws),
    decreases ws.len(),
{
    if ws.len() > 0 {
        lemma_writes_front(ws);
        lemma_writer(ws.drop_last());
        lemma_writer_step(ws);
    }
}

// ---- the data section ----

/// The entry's bytes in `data` stand at `offset` of `out`.
spec fn copied_to(e: DirEntry, data: Seq<u8>, offset: u64, out: Seq<u8>) -> bool {
    &&& offset + e.length <= out.len()
    &&& out.subrange(offset as int, offset + e.length) == data.subrange(
        e.offset as int,
        e.offset + e.length,
    )
}

proof fn lemma_place_key(a: DirEntry, b: DirEntry)
    requires
        place_key(a) == place_key(b),
    ensures
        a.offset == b.offset,
        a.length == b.length,
{
}

proof fn lemma_cluster_copies(s: Seq<DirEntry>, data: Seq<u8>)
    requires
        length_sum(s) < u64::MAX,
        forall|i: int| 0 <= i < s.len() ==> (#[trigger] s[i]).offset + s[i].length <= data.len(),
    ensures
        copied(clustered(s).plan, data).len() == clustered(s).len,
        forall|i: int|
            0 <= i < s.len() ==> copied_to(
                #[trigger] s[i],
                data,
                clustered(s).entries[i].offset,
                copied(clustered(s).plan, data),
            ),
        forall|k: u128| #[trigger]
            clustered(s).moved.contains_key(k) ==> exists|i: int|
                0 <= i < s.len() && place_key(#[trigger] s[i]) == k && clustered(s).moved[k].0
                    == clustered(s).entries[i].offset,
    decreases s.len(),
{
    if s.len() > 0 {
        let f = s.drop_last();
        let e = s.last();
        let n = f.len() as int;
        assert(s[n] == e);
        assert forall|i: int| 0 <= i < f.len() implies (#[trigger] f[i]).offset + f[i].length
            <= data.len() by {
            assert(f[i] == s[i]);
        }
        lemma_cluster_copies(f, data);
        lemma_cluster(f);
        lemma_cluster(s);
        let c = clustered(f);
        let d = clustered(s);
        let out0 = copied(c.plan, data);
        let out = copied(d.plan, data);
        let key = place_key(e);
        if c.moved.contains_key(key) {
            let i = choose|i: int|
                0 <= i < f.len() && place_key(#[trigger] f[i]) == key && c.moved[key].0
                    == c.entries[i].offset;
            lemma_place_key(f[i], e);
            assert(copied_to(f[i], data, c.entries[i].offset, out0));
            assert(copied_to(e, data, d.entries[n].offset, out));
        } else {
            assert(d.plan.drop_last() =~= c.plan);
            let part = data.subrange(e.offset as int, e.offset + e.length);
            assert(out == out0 + part);
            assert(out.subrange(c.len as int, c.len + e.length) =~= part);
            assert(copied_to(e, data, d.entries[n].offset, out));
        }
        assert forall|i: int| 0 <= i < s.len() implies copied_to(
            #[trigger] s[i],
            data,
            d.entries[i].offset,
            out,
        ) by {
            if i < n {
                assert(f[i] == s[i]);
                assert(d.entries[i] == c.entries[i]);
                assert(copied_to(f[i], data, c.entries[i].offset, out0));
                let o = c.entries[i].offset;
                assert(out.subrange(o as int, o + s[i].length) =~= out0.subrange(
                    o as int,
                    o + s[i].length,
                ));
            }
        }
        assert forall|k: u128| #[trigger] d.moved.contains_key(k) implies exists|i: int|
            0 <= i < s.len() && place_key(#[trigger] s[i]) == k && d.moved[k].0
                == d.entries[i].offset by {
            if c.moved.contains_key(k) {
                let i = choose|i: int|
                    0 <= i < f.len() && place_key(#[trigger] f[i]) == k && c.moved[k].0
                        == c.entries[i].offset;
                assert(s[i] == f[i]);
                assert(d.entries[i] == c.entries[i]);
                assert(d.moved[k] == c.moved[k]);
            } else {
                assert(place_key(s[n]) == k);
            }
        }
    }
}

// ---- runs ----

pub open spec fn strictly_sorted(es: Seq<DirEntry>) -> bool {
    forall|i: int, j: int|
        0 <= i < j < es.len() ==> (#[trigger] es[i]).tile_id < (#[trigger] es[j]).tile_id
}

spec fn in_run(r: DirEntry, id: int) -> bool {
    r.tile_id <= id < r.tile_id + r.run_length
}

spec fn same_place(a: DirEntry, b: DirEntry) -> bool {
    a.offset == b.offset && a.length == b.length
}

/// Entry `e` is in some run with its place.
spec fn run_of(rs: Seq<DirEntry>, e: DirEntry) -> bool {
    exists|m: int| 0 <= m < rs.len() && in_run(#[trigger] rs[m], e.tile_id as int) && same_place(rs[m], e)
}

spec fn has_id(es: Seq<DirEntry>, id: int) -> bool {
    exists|k: int| 0 <= k < es.len() && (#[trigger] es[k]).tile_id == id
}

spec fn runs_cover(es: Seq<DirEntry>, rs: Seq<DirEntry>) -> bool {
    &&& forall|i: int, j: int|
        0 <= i < j < rs.len() ==> (#[trigger] rs[i]).tile_id + rs[i].run_length <= (
        #[trigger] rs[j]).tile_id
    &&& forall|m: int| 0 <= m < rs.len() ==> (#[trigger] rs[m]).run_length >= 1
    &&& es.len() > 0 ==> rs.len() > 0 && rs.last().tile_id + rs.last().run_length
        == es.last().tile_id + 1
    &&& forall|k: int| 0 <= k < es.len() ==> run_of(rs, #[trigger] es[k])
    &&& forall|m: int, id: int|
        0 <= m < rs.len() && #[trigger] in_run(rs[m], id) ==> has_id(es, id)
}

proof fn lemma_runs_cover(es: Seq<DirEntry>)
    requires
        strictly_sorted(es),
        forall|i: int| 0 <= i < es.len() ==> (#[trigger] es[i]).run_length == 1,
    ensures
        runs_cover(es, run_length_encoded(es)),
    decreases es.len(),
{
    if es.len() > 0 {
        let f = es.drop_last();
        let e = es.last();
        let n = f.len() as int;
        assert(es[n] == e);
        assert(strictly_sorted(f)) by {
            assert forall|i: int, j: int| 0 <= i < j < f.len() implies (#[trigger] f[i]).tile_id < (
            #[trigger] f[j]).tile_id by {
                assert(f[i] == es[i] && f[j] == es[j]);
            }
        }
        assert forall|i: int| 0 <= i < f.len() implies (#[trigger] f[i]).run_length == 1 by {
            assert(f[i] == es[i]);
        }
        lemma_runs_cover(f);
        let a = run_length_encoded(f);
        let b = run_length_encoded(es);
        if f.len() > 0 {
            assert(f.last() == es[n - 1]);
            assert(es[n - 1].tile_id < es[n].tile_id);
        }
        let joins = a.len() > 0 && continues_run(a.last(), e);
        let last = b.len() - 1;
        assert forall|i: int, j: int| 0 <= i < j < b.len() implies (#[trigger] b[i]).tile_id
            + b[i].run_length <= (#[trigger] b[j]).tile_id by {
            if joins {
                assert(a[i].tile_id + a[i].run_length <= a[j].tile_id);
            } else if j < a.len() {
                assert(a[i].tile_id + a[i].run_length <= a[j].tile_id);
            } else {
                if i < a.len() - 1 {
                    assert(a[i].tile_id + a[i].run_length <= a[a.len() - 1].tile_id);
                }
                assert(a[i].tile_id + a[i].run_length <= a.last().tile_id + a.last().run_length);
            }
        }
        assert forall|m: int| 0 <= m < b.len() implies (#[trigger] b[m]).run_length >= 1 by {
            if m < a.len() {
                assert(a[m].run_length >= 1);
            }
        }
        assert forall|k: int| 0 <= k < es.len() implies run_of(b, #[trigger] es[k]) by {
            if k < n {
                assert(f[k] == es[k]);
                assert(run_of(a, f[k]));
                let m = choose|m: int|
                    0 <= m < a.len() && in_run(#[trigger] a[m], f[k].tile_id as int) && same_place(
                        a[m],
                        f[k],
                    );
                assert(in_run(b[m], es[k].tile_id as int) && same_place(b[m], es[k]));
            } else {
                assert(in_run(b[last], e.tile_id as int) && same_place(b[last], e));
            }
        }
        assert forall|m: int, id: int| 0 <= m < b.len() && #[trigger] in_run(b[m], id) implies has_id(
            es,
            id,
        ) by {
            if id == e.tile_id {
                assert(es[n].tile_id == id);
            } else if m < a.len() && in_run(a[m], id) {
                assert(has_id(f, id));
                let k = choose|k: int| 0 <= k < f.len() && (#[trigger] f[k]).tile_id == id;
                assert(es[k].tile_id == id);
            }
        }
    }
}

/// Looking a tile id up in the runs finds the place of the entry with that id, and
/// nothing for an id that no entry has.
proof fn lemma_run_lookup(es: Seq<DirEntry>, id: u64)
    requires
        strictly_sorted(es),
        forall|i: int| 0 <= i < es.len() ==> (#[trigger] es[i]).run_length == 1,
    ensures
        forall|k: int|
            0 <= k < es.len() && (#[trigger] es[k]).tile_id == id ==> resolved(
                run_length_encoded(es),
                id,
            ) == (Located::Data { offset: es[k].offset, length: es[k].length }),
        !has_id(es, id as int) ==> resolved(run_length_encoded(es), id) == Located::Absent,
{
    lemma_runs_cover(es);
    let rs = run_length_encoded(es);
    lemma_count_up_to(rs, id, rs.len());
    assert forall|k: int| 0 <= k < es.len() && (#[trigger] es[k]).tile_id == id implies resolved(
        rs,
        id,
    ) == (Located::Data { offset: es[k].offset, length: es[k].length }) by {
        assert(run_of(rs, es[k]));
        let m = choose|m: int|
            0 <= m < rs.len() && in_run(#[trigger] rs[m], es[k].tile_id as int) && same_place(
                rs[m],
                es[k],
            );
        assert forall|i: int| m + 1 <= i < rs.len() implies (#[trigger] rs[i]).tile_id > id by {
            assert(rs[m].tile_id + rs[m].run_length <= rs[i].tile_id);
        }
        lemma_count_unique(rs, id, (m + 1) as nat);
    }
    if !has_id(es, id as int) {
        let c = count_up_to(rs, id, rs.len());
        if c > 0 {
            let r = rs[c - 1];
            assert(r.run_length >= 1);
            assert(!in_run(rs[c - 1], id as int));
        }
    }
}

// ---- the whole archive ----

proof fn lemma_ids_distinct(a: Tile, b: Tile)
    requires
        tile_valid(a),
        tile_valid(b),
        a != b,
    ensures
        id_of(a) != id_of(b),
{
    lemma_id_small(a);
    lemma_id_small(b);
    tile_id_injective(
        a.z as nat,
        a.x as int,
        a.y as int,
        b.z as nat,
        b.x as int,
        b.y as int,
    );
}

proof fn lemma_sections(a: ArchiveView, root: Seq<u8>, leaves: Seq<u8>, data: Seq<u8>)
    requires
        a.head == header_bytes(a.header) + root + METADATA@ + leaves,
        a.head.len() <= u64::MAX,
        a.header.root_offset == HEADER_LEN,
        a.header.root_length == root.len(),
        a.header.leaf_offset == HEADER_LEN + root.len() + METADATA@.len(),
        a.header.leaf_length == leaves.len(),
        a.header.data_offset == a.head.len(),
    ensures
        ({
            let file = a.head + data;
            &&& header_at(file) == Some(a.header)
            &&& section(file, a.header.root_offset as int, a.header.root_length as int) == Some(root)
            &&& section(file, a.header.leaf_offset as int, a.header.leaf_length as int) == Some(
                leaves,
            )
            &&& forall|o: int, n: int|
                0 <= o && 0 <= n && o + n <= data.len() ==> #[trigger] section(
                    file,
                    a.header.data_offset + o,
                    n,
                ) == Some(data.subrange(o, o + n))
        }),
{
    let file = a.head + data;
    let hb = header_bytes(a.header);
    header_roundtrip(a.header, root + METADATA@ + leaves + data);
    assert(file =~= hb + (root + METADATA@ + leaves + data));
    let r = a.header.root_offset as int;
    assert(file.subrange(r, r + root.len()) =~= root);
    let l = a.header.leaf_offset as int;
    assert(file.subrange(l, l + leaves.len()) =~= leaves);
    assert forall|o: int, n: int| 0 <= o && 0 <= n && o + n <= data.len() implies #[trigger] section(
        file,
        a.header.data_offset + o,
        n,
    ) == Some(data.subrange(o, o + n)) by {
        let at = a.header.data_offset + o;
        assert(file.subrange(at, at + n) =~= data.subrange(o, o + n));
    }
}

/// The writer's entries in order of tile id: each write has its entry, each entry its
/// write, and no tile id comes twice.
proof fn lemma_sorted_writes(ws: Seq<Write>, sorted: Seq<DirEntry>)
    requires
        writes_ok(ws),
        by_tile_id(sorted, state_after(ws).entries),
    ensures
        strictly_sorted(sorted),
        forall|i: int|
            0 <= i < ws.len() ==> sorted.contains(#[trigger] state_after(ws).entries[i]),
        forall|k: int| 0 <= k < sorted.len() ==> state_after(ws).entries.contains(#[trigger] sorted[k]),
{
    lemma_writer(ws);
    let es = state_after(ws).entries;
    let keys = id_keys(es);
    let order = choose|order: Seq<usize>|
        #![trigger is_stable_order(order, id_keys(es))]
        is_stable_order(order, id_keys(es)) && sorted == Seq::new(
            order.len(),
            |i: int| es[order[i] as int],
        );
    assert forall|i: int, j: int| 0 <= i < j < sorted.len() implies (#[trigger] sorted[i]).tile_id < (
    #[trigger] sorted[j]).tile_id by {
        let a = order[i] as int;
        let b = order[j] as int;
        assert(order[i] < es.len() && order[j] < es.len());
        assert(order[i] != order[j]);
        assert(keys[a] <= keys[b]);
        assert(addresses(es[a], ws[a], data_after(ws)));
        assert(addresses(es[b], ws[b], data_after(ws)));
        assert(ws[a].0 != ws[b].0) by {
            if a < b {
                assert(ws[a].0 != ws[b].0);
            } else {
                assert(ws[b].0 != ws[a].0);
            }
        }
        assert(tile_valid(ws[a].0) && tile_valid(ws[b].0));
        lemma_ids_distinct(ws[a].0, ws[b].0);
    }
    assert forall|i: int| 0 <= i < ws.len() implies sorted.contains(#[trigger] es[i]) by {
        assert(order.contains(i as usize));
        let k = choose|k: int| 0 <= k < order.len() && order[k] == i as usize;
        assert(sorted[k] == es[i]);
    }
    assert forall|k: int| 0 <= k < sorted.len() implies es.contains(#[trigger] sorted[k]) by {
        assert(order[k] < es.len());
        assert(es[order[k] as int] == sorted[k]);
    }
}

/// Clustering keeps the order of the ids.
proof fn lemma_cluster_order(sorted: Seq<DirEntry>)
    requires
        strictly_sorted(sorted),
        length_sum(sorted) <= u64::MAX,
    ensures
        strictly_sorted(clustered(sorted).entries),
        sorted_entries(clustered(sorted).entries),
{
    let es = clustered(sorted).entries;
    lemma_cluster(sorted);
    assert forall|i: int, j: int| 0 <= i < j < es.len() implies (#[trigger] es[i]).tile_id < (
    #[trigger] es[j]).tile_id by {
        assert(sorted[i].tile_id < sorted[j].tile_id);
    }
    assert forall|i: int, j: int| 0 <= i <= j < es.len() implies (#[trigger] es[i]).tile_id <= (
    #[trigger] es[j]).tile_id by {}
}

/// A reader of a file with these sections finds what the search in its directories does.
proof fn lemma_file_reads(
    a: ArchiveView,
    root: Seq<u8>,
    leaves: Seq<u8>,
    data: Seq<u8>,
    found: Located,
    tile: Tile,
)
    requires
        a.head == header_bytes(a.header) + root + METADATA@ + leaves,
        a.head.len() <= u64::MAX,
        a.header.root_offset == HEADER_LEN,
        a.header.root_length == root.len(),
        a.header.leaf_offset == HEADER_LEN + root.len() + METADATA@.len(),
        a.header.leaf_length == leaves.len(),
        a.header.data_offset == a.head.len(),
        directory_at(root) matches Some(top) && search(top, leaves, id_of(tile), 1) == Some(found),
    ensures
        match found {
            Located::Absent => read_tile(a.head + data, tile) == Some(None::<Seq<u8>>),
            Located::Data { offset, length } => offset + length <= data.len() ==> read_tile(
                a.head + data,
                tile,
            ) == Some(Some(data.subrange(offset as int, offset + length))),
            Located::Leaf { .. } => true,
        },
{
    lemma_sections(a, root, leaves, data);
    if let Located::Data { offset, length } = found {
        if offset + length <= data.len() {
            assert(section(a.head + data, a.header.data_offset + offset as int, length as int)
                == Some(data.subrange(offset as int, offset as int + length as int)));
        }
    }
}

/// A reader finds in the archive what the directory entries say, in the clustered data.
proof fn lemma_archive_reads(
    ws: Seq<Write>,
    sorted: Seq<DirEntry>,
    bounds: [i32; 4],
    tile: Tile,
)
    requires
        writes_ok(ws),
        by_tile_id(sorted, state_after(ws).entries),
        archive_of(state_after(ws), sorted, bounds).head.len() <= u64::MAX,
        leaves_addressable(archive_entries(sorted), ROOT_MAX as nat),
    ensures
        ({
            let file = file_bytes(archive_of(state_after(ws), sorted, bounds), data_after(ws));
            let out = copied(clustered(sorted).plan, data_after(ws));
            match resolved(archive_entries(sorted), id_of(tile)) {
                Located::Absent => read_tile(file, tile) == Some(None::<Seq<u8>>),
                Located::Data { offset, length } => offset + length <= out.len() ==> read_tile(
                    file,
                    tile,
                ) == Some(Some(out.subrange(offset as int, offset + length))),
                Located::Leaf { .. } => true,
            }
        }),
{
    let w = state_after(ws);
    let d = data_after(ws);
    let a = archive_of(w, sorted, bounds);
    let c = clustered(sorted);
    let out = copied(c.plan, d);
    let es = archive_entries(sorted);
    let (root, leaves) = directories(es, ROOT_MAX as nat);
    let id = id_of(tile);
    lemma_writer(ws);
    lemma_sorted_wf(w, sorted);
    lemma_sorted_writes(ws, sorted);
    lemma_cluster(sorted);
    lemma_cluster_order(sorted);
    assert forall|i: int| 0 <= i < c.entries.len() implies (#[trigger] c.entries[i]).run_length
        == 1 && c.entries[i].offset + c.entries[i].length <= length_sum(sorted) by {
        assert(sorted[i].run_length == 1);
    }
    lemma_runs(c.entries, length_sum(sorted));
    directories_search(es, ROOT_MAX as nat, id);
    assert(header_bytes(a.header).len() == HEADER_LEN) by {
        header_roundtrip(a.header, Seq::empty());
    }
    lemma_file_reads(a, root, leaves, out, resolved(es, id), tile);
}

/// Reading from the archive of `ws` gives back, for each tile written, exactly its
/// bytes, and for any other tile nothing. `sorted` is the writer's entries in order of
/// tile id, `bounds` whatever the header's bounds are.
pub proof fn archive_roundtrip(
    ws: Seq<Write>,
    sorted: Seq<DirEntry>,
    bounds: [i32; 4],
    tile: Tile,
)
    requires
        writes_ok(ws),
        by_tile_id(sorted, state_after(ws).entries),
        archive_of(state_after(ws), sorted, bounds).head.len() <= u64::MAX,
        leaves_addressable(archive_entries(sorted), ROOT_MAX as nat),
        tile_valid(tile),
    ensures
        ({
            let file = file_bytes(archive_of(state_after(ws), sorted, bounds), data_after(ws));
            &&& forall|i: int|
                0 <= i < ws.len() && (#[trigger] ws[i]).0 == tile ==> read_tile(file, tile) == Some(
                    Some(ws[i].1),
                )
            &&& (forall|i: int| 0 <= i < ws.len() ==> (#[trigger] ws[i]).0 != tile) ==> read_tile(
                file,
                tile,
            ) == Some(None::<Seq<u8>>)
        }),
{
    let w = state_after(ws);
    let d = data_after(ws);
    let file = file_bytes(archive_of(w, sorted, bounds), d);
    let c = clustered(sorted);
    let out = copied(c.plan, d);
    let id = id_of(tile);
    lemma_archive_reads(ws, sorted, bounds, tile);
    lemma_writer(ws);
    lemma_sorted_wf(w, sorted);
    lemma_sorted_writes(ws, sorted);
    lemma_cluster(sorted);
    lemma_cluster_copies(sorted, d);
    lemma_cluster_order(sorted);
    assert forall|i: int| 0 <= i < c.entries.len() implies (#[trigger] c.entries[i]).run_length
        == 1 by {
        assert(sorted[i].run_length == 1);
    }
    lemma_run_lookup(c.entries, id);
    assert forall|i: int| 0 <= i < ws.len() && (#[trigger] ws[i]).0 == tile implies read_tile(
        file,
        tile,
    ) == Some(Some(ws[i].1)) by {
        let e = w.entries[i];
        assert(addresses(e, ws[i], d));
        assert(sorted.contains(e));
        let k = choose|k: int| 0 <= k < sorted.len() && sorted[k] == e;
        let l = c.entries[k];
        assert(l.tile_id == id && l.length == e.length);
        assert(copied_to(sorted[k], d, l.offset, out));
    }
    if forall|i: int| 0 <= i < ws.len() ==> (#[trigger] ws[i]).0 != tile {
        assert(!has_id(c.entries, id as int)) by {
            if has_id(c.entries, id as int) {
                let k = choose|k: int|
                    0 <= k < c.entries.len() && (#[trigger] c.entries[k]).tile_id == id;
                assert(sorted[k].tile_id == id);
                assert(w.entries.contains(sorted[k]));
                let i = choose|i: int| 0 <= i < w.entries.len() && w.entries[i] == sorted[k];
                assert(addresses(w.entries[i], ws[i], d));
                assert(tile_valid(ws[i].0));
                lemma_ids_distinct(ws[i].0, tile);
            }
        }
    }
}

} // verus!
