//! What comes out of a block: which ways, relations and nodes, and with what.

use vstd::prelude::*;

use crate::classifier::{
    classifier_for, floors_from, has_signals, lane_tags, layer_from, name_in, place_in,
    relation_class, split, way_class, BlockShapeClassifier, ShapeClassification,
};
use crate::extractor::{
    all_refs, block_ids, block_nodes, block_relations, block_ways, first_true, group_nodes,
    group_relations, group_ways, is_needed, is_road_way, kept_refs, kept_way, kept_ways, marks_of,
    needed_refs, node_mark, nodes_in, occurrences, owner_of, packed, relation_area, relation_areas,
    road_refs, role_fragments, wanted_ways, KeptView, MarkView, RelationAreaView,
};
use crate::feature::PoiKind;
use crate::osm::{
    dense_nodes, plain_node, MemberType, NodeView, PrimitiveBlock, PrimitiveGroup, Relation,
    RelationMember, Way,
};
use crate::rings::{closed_ones, edges_from, fragments_have, has_edge, rings_are_closed, rings_of};
use crate::tags::filter_accepts;

verus! {

// ---- rings ----

/// A fragment that is closed already is one of the rings.
pub proof fn closed_fragments_are_rings(fs: Seq<Seq<i64>>, i: int)
    requires
        0 <= i < fs.len(),
        fs[i].len() >= 2,
        fs[i][0] == fs[i][fs[i].len() - 1],
    ensures
        rings_of(fs).contains(fs[i]),
{
    lemma_closed_ones(fs, i);
    let c = closed_ones(fs);
    let k = choose|k: int| 0 <= k < c.len() && c[k] == fs[i];
    assert(rings_of(fs)[k] == fs[i]);
}

proof fn lemma_closed_ones(fs: Seq<Seq<i64>>, i: int)
    requires
        0 <= i < fs.len(),
        fs[i].len() >= 2,
        fs[i][0] == fs[i][fs[i].len() - 1],
    ensures
        closed_ones(fs).contains(fs[i]),
    decreases fs.len(),
{
    let front = fs.drop_last();
    let c = closed_ones(fs);
    if i == fs.len() - 1 {
        assert(c.last() == fs[i]);
        assert(c[c.len() - 1] == fs[i]);
    } else {
        lemma_closed_ones(front, i);
        let c0 = closed_ones(front);
        let k = choose|k: int| 0 <= k < c0.len() && c0[k] == front[i];
        assert(c[k] == fs[i]);
    }
}

// ---- areas of relations ----

/// The member is one of the ways at hand and closed.
pub open spec fn closed_member(m: RelationMember, ways: Map<i64, Seq<i64>>) -> bool {
    &&& m.member_type == MemberType::Way
    &&& ways.contains_key(m.id)
    &&& ways[m.id].len() >= 2
    &&& ways[m.id][0] == ways[m.id][ways[m.id].len() - 1]
}

/// The member has the role `inner`.
pub open spec fn plays_inner(m: RelationMember, ids: Map<Seq<u8>, u32>) -> bool {
    let text = vstd::utf8::encode_utf8("inner"@);
    ids.contains_key(text) && ids[text] == m.role_tag
}

/// Every closed member way is a ring of the area: among the inner ones if its role says
/// so, else among the outer ones.
pub open spec fn holds_members(
    a: RelationAreaView,
    r: Relation,
    ids: Map<Seq<u8>, u32>,
    ways: Map<i64, Seq<i64>>,
) -> bool {
    forall|j: int|
        0 <= j < r.member_list().len() && closed_member(#[trigger] r.member_list()[j], ways) ==> if plays_inner(
            r.member_list()[j],
            ids,
        ) {
            a.inner.contains(ways[r.member_list()[j].id])
        } else {
            a.outer.contains(ways[r.member_list()[j].id])
        }
}

proof fn lemma_role_fragments(
    ms: Seq<RelationMember>,
    ways: Map<i64, Seq<i64>>,
    inner_sid: Option<u32>,
    inner: bool,
    n: nat,
    j: int,
)
    requires
        n <= ms.len(),
        0 <= j < n,
        ms[j].member_type == MemberType::Way,
        ways.contains_key(ms[j].id),
        (inner_sid == Some(ms[j].role_tag)) == inner,
    ensures
        role_fragments(ms, ways, inner_sid, inner, n).contains(ways[ms[j].id]),
    decreases n,
{
    let f = role_fragments(ms, ways, inner_sid, inner, n);
    if j == n - 1 {
        assert(f[f.len() - 1] == ways[ms[j].id]);
    } else {
        lemma_role_fragments(ms, ways, inner_sid, inner, (n - 1) as nat, j);
        let g = role_fragments(ms, ways, inner_sid, inner, (n - 1) as nat);
        let k = choose|k: int| 0 <= k < g.len() && g[k] == ways[ms[j].id];
        assert(f[k] == g[k]);
    }
}

proof fn lemma_relation_area(
    r: Relation,
    ids: Map<Seq<u8>, u32>,
    strings: Seq<Vec<u8>>,
    ways: Map<i64, Seq<i64>>,
    j: int,
)
    requires
        0 <= j < r.member_list().len(),
        closed_member(r.member_list()[j], ways),
    ensures
        ({
            let m = r.member_list()[j];
            let c = classifier_for(ids);
            let sid = crate::tags::id_in(ids, vstd::utf8::encode_utf8("inner"@));
            let out = relation_area(r, c, strings, ways, sid);
            &&& out matches Some(a) ==> if plays_inner(m, ids) {
                a.inner.contains(ways[m.id])
            } else {
                a.outer.contains(ways[m.id])
            }
            &&& !plays_inner(m, ids) && relation_class(c, r.tag_list(), 0) is Area ==> out is Some
        }),
{
    reveal(relation_area);
    let ms = r.member_list();
    let m = ms[j];
    let sid = crate::tags::id_in(ids, vstd::utf8::encode_utf8("inner"@));
    let inner = plays_inner(m, ids);
    lemma_role_fragments(ms, ways, sid, inner, ms.len(), j);
    let f = role_fragments(ms, ways, sid, inner, ms.len());
    let k = choose|k: int| 0 <= k < f.len() && f[k] == ways[m.id];
    closed_fragments_are_rings(f, k);
}

/// The area was made of the relation: of its own members, kind, layer, floors and name.
pub open spec fn area_of_relation(
    a: RelationAreaView,
    r: Relation,
    ids: Map<Seq<u8>, u32>,
    strings: Seq<Vec<u8>>,
    ways: Map<i64, Seq<i64>>,
) -> bool {
    let c = classifier_for(ids);
    &&& relation_class(c, r.tag_list(), 0) == ShapeClassification::Area(a.kind)
    &&& a.layer == layer_from(c, r.tag_list(), strings)
    &&& a.floors == floors_from(r.tag_list(), strings)
    &&& a.name == name_in(c, r.tag_list(), strings)
    &&& a.outer.len() > 0
    &&& holds_members(a, r, ids, ways)
}

/// Some of the areas was made of the relation.
pub open spec fn some_area_of(
    areas: Seq<RelationAreaView>,
    r: Relation,
    ids: Map<Seq<u8>, u32>,
    strings: Seq<Vec<u8>>,
    ways: Map<i64, Seq<i64>>,
) -> bool {
    exists|i: int| 0 <= i < areas.len() && area_of_relation(#[trigger] areas[i], r, ids, strings, ways)
}

/// The relation is an area with an outer ring: the filter accepts it, its tags name an area
/// and some closed member way is not inner.
pub open spec fn makes_area(
    r: Relation,
    filter: Seq<Vec<(String, Vec<String>)>>,
    ids: Map<Seq<u8>, u32>,
    ways: Map<i64, Seq<i64>>,
) -> bool {
    &&& filter_accepts(filter, ids, r.tag_list())
    &&& relation_class(classifier_for(ids), r.tag_list(), 0) is Area
    &&& exists|j: int|
        0 <= j < r.member_list().len() && closed_member(#[trigger] r.member_list()[j], ways)
            && !plays_inner(r.member_list()[j], ids)
}

/// Some relation that the filter accepts made the area.
pub open spec fn from_some_relation(
    a: RelationAreaView,
    rs: Seq<Relation>,
    filter: Seq<Vec<(String, Vec<String>)>>,
    ids: Map<Seq<u8>, u32>,
    strings: Seq<Vec<u8>>,
    ways: Map<i64, Seq<i64>>,
) -> bool {
    exists|k: int|
        0 <= k < rs.len() && filter_accepts(filter, ids, (#[trigger] rs[k]).tag_list())
            && area_of_relation(a, rs[k], ids, strings, ways)
}

/// Every relation with an outer ring becomes an area that holds every closed member way as
/// a ring of its own, inner or outer by its role, however many rings there are; and every
/// area is a relation's.
pub proof fn relations_become_areas(
    rs: Seq<Relation>,
    filter: Seq<Vec<(String, Vec<String>)>>,
    ids: Map<Seq<u8>, u32>,
    strings: Seq<Vec<u8>>,
    ways: Map<i64, Seq<i64>>,
)
    ensures
        ({
            let out = relation_areas(rs, filter, ids, strings, ways, rs.len());
            &&& forall|i: int|
                0 <= i < out.len() ==> from_some_relation(
                    #[trigger] out[i],
                    rs,
                    filter,
                    ids,
                    strings,
                    ways,
                )
            &&& forall|k: int|
                0 <= k < rs.len() && makes_area(#[trigger] rs[k], filter, ids, ways)
                    ==> some_area_of(out, rs[k], ids, strings, ways)
        }),
{
    lemma_relation_areas(rs, filter, ids, strings, ways, rs.len());
}

proof fn lemma_area_of_relation(
    r: Relation,
    filter: Seq<Vec<(String, Vec<String>)>>,
    ids: Map<Seq<u8>, u32>,
    strings: Seq<Vec<u8>>,
    ways: Map<i64, Seq<i64>>,
)
    ensures
        ({
            let sid = crate::tags::id_in(ids, vstd::utf8::encode_utf8("inner"@));
            let out = relation_area(r, classifier_for(ids), strings, ways, sid);
            &&& out matches Some(a) ==> area_of_relation(a, r, ids, strings, ways)
            &&& makes_area(r, filter, ids, ways) ==> out is Some
        }),
{
    let sid = crate::tags::id_in(ids, vstd::utf8::encode_utf8("inner"@));
    let out = relation_area(r, classifier_for(ids), strings, ways, sid);
    if out is Some {
        let a = out->0;
        assert forall|j: int|
            0 <= j < r.member_list().len() && closed_member(
                #[trigger] r.member_list()[j],
                ways,
            ) implies if plays_inner(r.member_list()[j], ids) {
            a.inner.contains(ways[r.member_list()[j].id])
        } else {
            a.outer.contains(ways[r.member_list()[j].id])
        } by {
            lemma_relation_area(r, ids, strings, ways, j);
        }
        assert(holds_members(a, r, ids, ways));
        assert(area_of_relation(a, r, ids, strings, ways)) by {
            reveal(relation_area);
        }
    }
    if makes_area(r, filter, ids, ways) {
        let j = choose|j: int|
            0 <= j < r.member_list().len() && closed_member(#[trigger] r.member_list()[j], ways)
                && !plays_inner(r.member_list()[j], ids);
        lemma_relation_area(r, ids, strings, ways, j);
    }
}

proof fn lemma_relation_areas(
    rs: Seq<Relation>,
    filter: Seq<Vec<(String, Vec<String>)>>,
    ids: Map<Seq<u8>, u32>,
    strings: Seq<Vec<u8>>,
    ways: Map<i64, Seq<i64>>,
    n: nat,
)
    requires
        n <= rs.len(),
    ensures
        ({
            let out = relation_areas(rs, filter, ids, strings, ways, n);
            &&& forall|i: int|
                0 <= i < out.len() ==> from_some_relation(
                    #[trigger] out[i],
                    rs,
                    filter,
                    ids,
                    strings,
                    ways,
                )
            &&& forall|k: int|
                0 <= k < n && makes_area(#[trigger] rs[k], filter, ids, ways) ==> some_area_of(
                    out,
                    rs[k],
                    ids,
                    strings,
                    ways,
                )
        }),
    decreases n,
{
    if n > 0 {
        let m = (n - 1) as nat;
        lemma_relation_areas(rs, filter, ids, strings, ways, m);
        let r = rs[n - 1];
        lemma_area_of_relation(r, filter, ids, strings, ways);
        let front = relation_areas(rs, filter, ids, strings, ways, m);
        let out = relation_areas(rs, filter, ids, strings, ways, n);
        assert forall|i: int| 0 <= i < out.len() implies from_some_relation(
            #[trigger] out[i],
            rs,
            filter,
            ids,
            strings,
            ways,
        ) by {
            if i < front.len() {
                assert(out[i] == front[i]);
            } else {
                assert(area_of_relation(out[i], rs[n - 1], ids, strings, ways));
            }
        }
        assert forall|k: int| 0 <= k < n && makes_area(#[trigger] rs[k], filter, ids, ways) implies some_area_of(
            out,
            rs[k],
            ids,
            strings,
            ways,
        ) by {
            if k < m {
                assert(some_area_of(front, rs[k], ids, strings, ways));
                let i = choose|i: int|
                    0 <= i < front.len() && area_of_relation(
                        #[trigger] front[i],
                        rs[k],
                        ids,
                        strings,
                        ways,
                    );
                assert(out[i] == front[i]);
            } else {
                assert(area_of_relation(out[front.len() as int], r, ids, strings, ways));
            }
        }
    }
}

/// Every ring of the area is a chain of edges of the relation's own member ways of that
/// role, and is closed.
pub proof fn areas_made_of_members(
    r: Relation,
    ids: Map<Seq<u8>, u32>,
    strings: Seq<Vec<u8>>,
    ways: Map<i64, Seq<i64>>,
)
    ensures
        ({
            let sid = crate::tags::id_in(ids, vstd::utf8::encode_utf8("inner"@));
            relation_area(r, classifier_for(ids), strings, ways, sid) matches Some(a) ==> {
                &&& forall|k: int|
                    0 <= k < a.outer.len() ==> ring_of_members(
                        #[trigger] a.outer[k],
                        r.member_list(),
                        ids,
                        ways,
                        false,
                    )
                &&& forall|k: int|
                    0 <= k < a.inner.len() ==> ring_of_members(
                        #[trigger] a.inner[k],
                        r.member_list(),
                        ids,
                        ways,
                        true,
                    )
            }
        }),
{
    reveal(relation_area);
    let sid = crate::tags::id_in(ids, vstd::utf8::encode_utf8("inner"@));
    if let Some(a) = relation_area(r, classifier_for(ids), strings, ways, sid) {
        let ms = r.member_list();
        lemma_rings_of_members(ms, ids, ways, false);
        lemma_rings_of_members(ms, ids, ways, true);
    }
}

/// A member way of the role has the edge.
pub open spec fn member_has_edge(
    ms: Seq<RelationMember>,
    ids: Map<Seq<u8>, u32>,
    ways: Map<i64, Seq<i64>>,
    inner: bool,
    a: i64,
    b: i64,
) -> bool {
    exists|j: int|
        0 <= j < ms.len() && (#[trigger] ms[j]).member_type == MemberType::Way && ways.contains_key(
            ms[j].id,
        ) && plays_inner(ms[j], ids) == inner && has_edge(ways[ms[j].id], a, b)
}

/// The ring is closed and runs along edges of member ways of the role.
pub open spec fn ring_of_members(
    ring: Seq<i64>,
    ms: Seq<RelationMember>,
    ids: Map<Seq<u8>, u32>,
    ways: Map<i64, Seq<i64>>,
    inner: bool,
) -> bool {
    &&& ring.len() >= 2
    &&& ring[0] == ring[ring.len() - 1]
    &&& forall|k: int|
        0 < k < ring.len() ==> member_has_edge(
            ms,
            ids,
            ways,
            inner,
            #[trigger] ring[k - 1],
            ring[k],
        )
}

proof fn lemma_fragment_source(
    ms: Seq<RelationMember>,
    ways: Map<i64, Seq<i64>>,
    inner_sid: Option<u32>,
    inner: bool,
    n: nat,
    i: int,
) -> (j: int)
    requires
        n <= ms.len(),
        0 <= i < role_fragments(ms, ways, inner_sid, inner, n).len(),
    ensures
        0 <= j < n,
        ms[j].member_type == MemberType::Way,
        ways.contains_key(ms[j].id),
        (inner_sid == Some(ms[j].role_tag)) == inner,
        role_fragments(ms, ways, inner_sid, inner, n)[i] == ways[ms[j].id],
    decreases n,
{
    let front = role_fragments(ms, ways, inner_sid, inner, (n - 1) as nat);
    if i < front.len() {
        lemma_fragment_source(ms, ways, inner_sid, inner, (n - 1) as nat, i)
    } else {
        n - 1
    }
}

proof fn lemma_rings_of_members(
    ms: Seq<RelationMember>,
    ids: Map<Seq<u8>, u32>,
    ways: Map<i64, Seq<i64>>,
    inner: bool,
)
    ensures
        ({
            let sid = crate::tags::id_in(ids, vstd::utf8::encode_utf8("inner"@));
            let rings = rings_of(role_fragments(ms, ways, sid, inner, ms.len()));
            forall|k: int|
                0 <= k < rings.len() ==> ring_of_members(#[trigger] rings[k], ms, ids, ways, inner)
        }),
{
    let sid = crate::tags::id_in(ids, vstd::utf8::encode_utf8("inner"@));
    let fs = role_fragments(ms, ways, sid, inner, ms.len());
    let rings = rings_of(fs);
    rings_are_closed(fs);
    assert forall|k: int| 0 <= k < rings.len() implies ring_of_members(
        #[trigger] rings[k],
        ms,
        ids,
        ways,
        inner,
    ) by {
        let ring = rings[k];
        assert(ring.first() == ring.last() && edges_from(ring, fs));
        assert forall|m: int| 0 < m < ring.len() implies member_has_edge(
            ms,
            ids,
            ways,
            inner,
            #[trigger] ring[m - 1],
            ring[m],
        ) by {
            assert(fragments_have(fs, ring[m - 1], ring[m]));
            let i = choose|i: int| 0 <= i < fs.len() && has_edge(#[trigger] fs[i], ring[m - 1], ring[m]);
            let j = lemma_fragment_source(ms, ways, sid, inner, ms.len(), i);
            assert(has_edge(ways[ms[j].id], ring[m - 1], ring[m]));
            assert(plays_inner(ms[j], ids) == inner);
        }
    }
}

// ---- ways ----

/// What is kept of the way: all its node refs in order, its kind, layer and name; of a road
/// also its lanes, of an area its floors.
pub open spec fn kept_of(
    k: KeptView,
    w: Way,
    ids: Map<Seq<u8>, u32>,
    strings: Seq<Vec<u8>>,
) -> bool {
    let c = classifier_for(ids);
    let tags = w.tag_list();
    match k {
        KeptView::Road { kind, layer, lanes, refs, name } => {
            &&& way_class(c, tags, 0) == ShapeClassification::Road(kind)
            &&& refs == w.node_refs()
            &&& refs.len() >= 2
            &&& layer == layer_from(c, tags, strings)
            &&& name == name_in(c, tags, strings)
            &&& lanes == split(lane_tags(tags, strings, tags.len()))
        },
        KeptView::Area { kind, layer, floors, refs, name } => {
            &&& way_class(c, tags, 0) == ShapeClassification::Area(kind)
            &&& refs == w.node_refs()
            &&& refs.len() >= 4
            &&& refs[0] == refs[refs.len() - 1]
            &&& layer == layer_from(c, tags, strings)
            &&& name == name_in(c, tags, strings)
            &&& floors == floors_from(tags, strings)
        },
    }
}

/// The way is one to keep: the filter accepts it, and it is a road of two nodes or more or
/// an area whose way is closed with four nodes or more.
pub open spec fn is_kept(
    w: Way,
    filter: Seq<Vec<(String, Vec<String>)>>,
    ids: Map<Seq<u8>, u32>,
) -> bool {
    let refs = w.node_refs();
    &&& filter_accepts(filter, ids, w.tag_list())
    &&& match way_class(classifier_for(ids), w.tag_list(), 0) {
        ShapeClassification::Road(_) => refs.len() >= 2,
        ShapeClassification::Area(_) => refs.len() >= 4 && refs[0] == refs[refs.len() - 1],
        ShapeClassification::Unknown => false,
    }
}

/// Some of what is kept is the way's.
pub open spec fn some_kept(
    ks: Seq<KeptView>,
    w: Way,
    ids: Map<Seq<u8>, u32>,
    strings: Seq<Vec<u8>>,
) -> bool {
    exists|k: int| 0 <= k < ks.len() && kept_of(#[trigger] ks[k], w, ids, strings)
}

/// Some way that is to be kept is the source.
pub open spec fn kept_from_some(
    k: KeptView,
    ws: Seq<Way>,
    filter: Seq<Vec<(String, Vec<String>)>>,
    ids: Map<Seq<u8>, u32>,
    strings: Seq<Vec<u8>>,
) -> bool {
    exists|i: int|
        0 <= i < ws.len() && kept_of(k, #[trigger] ws[i], ids, strings) && is_kept(ws[i], filter, ids)
}

/// How many of the first `n` ways are to be kept.
pub open spec fn kept_count(
    ws: Seq<Way>,
    filter: Seq<Vec<(String, Vec<String>)>>,
    ids: Map<Seq<u8>, u32>,
    n: nat,
) -> nat
    decreases n,
{
    if n == 0 {
        0
    } else {
        kept_count(ws, filter, ids, (n - 1) as nat) + if is_kept(ws[n - 1], filter, ids) {
            1nat
        } else {
            0
        }
    }
}

/// Exactly the ways to keep are kept, each once, with what belongs to them.
pub proof fn ways_are_kept(
    ws: Seq<Way>,
    filter: Seq<Vec<(String, Vec<String>)>>,
    ids: Map<Seq<u8>, u32>,
    strings: Seq<Vec<u8>>,
    n: nat,
)
    requires
        n <= ws.len(),
    ensures
        ({
            let out = kept_ways(ws, filter, ids, strings, n);
            &&& out.len() == kept_count(ws, filter, ids, n)
            &&& forall|i: int|
                0 <= i < n && is_kept(#[trigger] ws[i], filter, ids) ==> some_kept(
                    out,
                    ws[i],
                    ids,
                    strings,
                )
            &&& forall|k: int|
                0 <= k < out.len() ==> kept_from_some(#[trigger] out[k], ws, filter, ids, strings)
        }),
    decreases n,
{
    if n > 0 {
        let m = (n - 1) as nat;
        let w = ws[n - 1];
        ways_are_kept(ws, filter, ids, strings, m);
        if filter_accepts(filter, ids, w.tag_list()) {
            lemma_kept_way(w, filter, ids, strings);
        }
        let front = kept_ways(ws, filter, ids, strings, m);
        let out = kept_ways(ws, filter, ids, strings, n);
        assert forall|i: int| 0 <= i < n && is_kept(#[trigger] ws[i], filter, ids) implies some_kept(
            out,
            ws[i],
            ids,
            strings,
        ) by {
            if i < m {
                assert(some_kept(front, ws[i], ids, strings));
                let k = choose|k: int| 0 <= k < front.len() && kept_of(#[trigger] front[k], ws[i], ids, strings);
                assert(out[k] == front[k]);
            } else {
                assert(kept_of(out[front.len() as int], ws[i], ids, strings));
            }
        }
        assert forall|k: int| 0 <= k < out.len() implies kept_from_some(
            #[trigger] out[k],
            ws,
            filter,
            ids,
            strings,
        ) by {
            if k < front.len() {
                assert(out[k] == front[k]);
            } else {
                assert(kept_of(out[k], ws[n - 1], ids, strings));
            }
        }
    }
}

proof fn lemma_kept_way(
    w: Way,
    filter: Seq<Vec<(String, Vec<String>)>>,
    ids: Map<Seq<u8>, u32>,
    strings: Seq<Vec<u8>>,
)
    requires
        filter_accepts(filter, ids, w.tag_list()),
    ensures
        kept_way(w, classifier_for(ids), strings) is Some <==> is_kept(w, filter, ids),
        kept_way(w, classifier_for(ids), strings) matches Some(k) ==> kept_of(k, w, ids, strings),
{
    reveal(kept_way);
}

// ---- nodes of ways ----

/// Some needed way among the first `n` has the node.
pub open spec fn node_needed(
    ws: Seq<Way>,
    filter: Seq<Vec<(String, Vec<String>)>>,
    ids: Map<Seq<u8>, u32>,
    relation_ways: Set<i64>,
    n: nat,
    node: i64,
) -> bool {
    exists|i: int|
        0 <= i < n && (#[trigger] ws[i]).node_refs().contains(node) && (relation_ways.contains(
            ws[i].id,
        ) || (filter_accepts(filter, ids, ws[i].tag_list()) && way_class(
            classifier_for(ids),
            ws[i].tag_list(),
            0,
        ) != ShapeClassification::Unknown))
}

/// The nodes to look up are those of ways that a relation points to, and of roads and areas
/// that the filter accepts.
pub proof fn needed_nodes(
    ws: Seq<Way>,
    filter: Seq<Vec<(String, Vec<String>)>>,
    ids: Map<Seq<u8>, u32>,
    relation_ways: Set<i64>,
    n: nat,
    node: i64,
)
    requires
        n <= ws.len(),
    ensures
        needed_refs(ws, filter, ids, relation_ways, n).contains(node) <==> node_needed(
            ws,
            filter,
            ids,
            relation_ways,
            n,
            node,
        ),
    decreases n,
{
    if n > 0 {
        reveal(is_needed);
        let m = (n - 1) as nat;
        needed_nodes(ws, filter, ids, relation_ways, m, node);
        let front = needed_refs(ws, filter, ids, relation_ways, m);
        let own = ws[n - 1].node_refs();
        lemma_cat_contains(front, own, node);
        let out = needed_refs(ws, filter, ids, relation_ways, n);
        if node_needed(ws, filter, ids, relation_ways, m, node) {
            let i = choose|i: int|
                0 <= i < m && (#[trigger] ws[i]).node_refs().contains(node)
                    && (relation_ways.contains(ws[i].id) || (filter_accepts(
                    filter,
                    ids,
                    ws[i].tag_list(),
                ) && way_class(classifier_for(ids), ws[i].tag_list(), 0)
                    != ShapeClassification::Unknown));
            assert(ws[i].node_refs().contains(node));
            assert(node_needed(ws, filter, ids, relation_ways, n, node));
        }
        if out.contains(node) && !front.contains(node) {
            assert(ws[n - 1].node_refs().contains(node));
            assert(node_needed(ws, filter, ids, relation_ways, n, node));
        }
    }
}

proof fn lemma_cat_contains(a: Seq<i64>, b: Seq<i64>, x: i64)
    ensures
        (a + b).contains(x) <==> a.contains(x) || b.contains(x),
{
    let c = a + b;
    if c.contains(x) {
        let i = choose|i: int| 0 <= i < c.len() && c[i] == x;
        if i < a.len() {
            assert(a[i] == x);
        } else {
            assert(b[i - a.len()] == x);
        }
    }
    if a.contains(x) {
        let i = choose|i: int| 0 <= i < a.len() && a[i] == x;
        assert(c[i] == x);
    }
    if b.contains(x) {
        let i = choose|i: int| 0 <= i < b.len() && b[i] == x;
        assert(c[a.len() + i] == x);
    }
}

/// Some road among the first `n` ways has the node.
pub open spec fn node_on_road(
    ws: Seq<Way>,
    filter: Seq<Vec<(String, Vec<String>)>>,
    ids: Map<Seq<u8>, u32>,
    n: nat,
    node: i64,
) -> bool {
    exists|i: int|
        0 <= i < n && (#[trigger] ws[i]).node_refs().contains(node) && filter_accepts(
            filter,
            ids,
            ws[i].tag_list(),
        ) && way_class(classifier_for(ids), ws[i].tag_list(), 0) is Road
}

/// The nodes that junctions are looked for among are those of roads that the filter
/// accepts.
pub proof fn road_nodes(
    ws: Seq<Way>,
    filter: Seq<Vec<(String, Vec<String>)>>,
    ids: Map<Seq<u8>, u32>,
    n: nat,
    node: i64,
)
    requires
        n <= ws.len(),
    ensures
        road_refs(ws, filter, ids, n).contains(node) <==> node_on_road(ws, filter, ids, n, node),
    decreases n,
{
    if n > 0 {
        reveal(is_road_way);
        let m = (n - 1) as nat;
        road_nodes(ws, filter, ids, m, node);
        let front = road_refs(ws, filter, ids, m);
        lemma_cat_contains(front, ws[n - 1].node_refs(), node);
        let out = road_refs(ws, filter, ids, n);
        if node_on_road(ws, filter, ids, m, node) {
            let i = choose|i: int|
                0 <= i < m && (#[trigger] ws[i]).node_refs().contains(node) && filter_accepts(
                    filter,
                    ids,
                    ws[i].tag_list(),
                ) && way_class(classifier_for(ids), ws[i].tag_list(), 0) is Road;
            assert(ws[i].node_refs().contains(node));
            assert(node_on_road(ws, filter, ids, n, node));
        }
        if out.contains(node) && !front.contains(node) {
            assert(ws[n - 1].node_refs().contains(node));
            assert(node_on_road(ws, filter, ids, n, node));
        }
    }
}

/// A node of one way occurs once for each time it is on the way; two roads that share a
/// node, or one that comes back to it, make it a junction.
pub proof fn shared_nodes_counted(a: Seq<i64>, b: Seq<i64>, node: i64)
    ensures
        occurrences(a + b, node) == occurrences(a, node) + occurrences(b, node),
        occurrences(a, node) >= 1 <==> a.contains(node),
    decreases b.len(), a.len(),
{
    if b.len() > 0 {
        shared_nodes_counted(a, b.drop_last(), node);
        assert((a + b).drop_last() =~= a + b.drop_last());
        assert((a + b).last() == b.last());
    } else {
        assert(a + b =~= a);
        if a.len() > 0 {
            shared_nodes_counted(a.drop_last(), b, node);
            let rest = a.drop_last();
            if rest.contains(node) {
                let i = choose|i: int| 0 <= i < rest.len() && rest[i] == node;
                assert(a[i] == node);
            }
            if a.last() == node {
                assert(a[a.len() - 1] == node);
            }
            if a.contains(node) && a.last() != node {
                let i = choose|i: int| 0 <= i < a.len() && a[i] == node;
                assert(rest[i] == node);
            }
        }
    }
}

/// Some way with the id is wanted and among the first `n`.
pub open spec fn way_collected(ws: Seq<Way>, wanted: Set<i64>, n: nat, id: i64) -> bool {
    wanted.contains(id) && exists|i: int| 0 <= i < n && (#[trigger] ws[i]).id == id
}

/// The member ways that are collected are the wanted ones, with their own nodes: the last
/// of several with one id counts.
pub proof fn member_ways_collected(ws: Seq<Way>, wanted: Set<i64>, n: nat, i: int)
    requires
        n <= ws.len(),
        0 <= i < n,
    ensures
        ({
            let m = wanted_ways(ws, wanted, n);
            &&& forall|id: i64| #[trigger] m.contains_key(id) <==> way_collected(ws, wanted, n, id)
            &&& wanted.contains(ws[i].id) && (forall|j: int|
                i < j < n ==> (#[trigger] ws[j]).id != ws[i].id) ==> m[ws[i].id]
                == ws[i].node_refs()
        }),
    decreases n,
{
    let k = (n - 1) as nat;
    let m = wanted_ways(ws, wanted, n);
    let front = wanted_ways(ws, wanted, k);
    if k > 0 {
        member_ways_collected(
            ws,
            wanted,
            k,
            if i < k {
                i
            } else {
                0
            },
        );
    }
    assert forall|id: i64| #[trigger] m.contains_key(id) <==> way_collected(ws, wanted, n, id) by {
        if front.contains_key(id) {
            let j = choose|j: int| 0 <= j < k && (#[trigger] ws[j]).id == id;
            assert(ws[j].id == id);
        }
        if way_collected(ws, wanted, n, id) {
            let j = choose|j: int| 0 <= j < n && (#[trigger] ws[j]).id == id;
            if j < k {
                assert(way_collected(ws, wanted, k, id));
            }
        }
    }
    if i < k && wanted.contains(ws[i].id) && (forall|j: int|
        i < j < n ==> (#[trigger] ws[j]).id != ws[i].id) {
        assert(ws[n - 1].id != ws[i].id);
        assert(way_collected(ws, wanted, k, ws[i].id));
        assert(front.contains_key(ws[i].id));
    }
}

// ---- labels and symbols ----

/// The node shows something: a place with a name, or traffic signals.
pub open spec fn node_shows(n: NodeView, c: BlockShapeClassifier, strings: Seq<Vec<u8>>) -> bool {
    (place_in(c, n.tags) is Some && name_in(c, n.tags, strings) is Some) || has_signals(c, n.tags)
}

/// The mark is the node's: at its place, with its class and name, and a symbol where there
/// are signals.
pub open spec fn mark_of(
    m: MarkView,
    n: NodeView,
    c: BlockShapeClassifier,
    strings: Seq<Vec<u8>>,
) -> bool {
    &&& m.coord == packed(n)
    &&& m.poi == (if has_signals(c, n.tags) {
        Some(PoiKind::TrafficSignal)
    } else {
        None::<PoiKind>
    })
    &&& match m.label {
        Some((class, name)) => place_in(c, n.tags) == Some(class) && name_in(c, n.tags, strings)
            == Some(name),
        None => place_in(c, n.tags) is None || name_in(c, n.tags, strings) is None,
    }
}

/// Some mark is the node's.
pub open spec fn some_mark(
    ms: Seq<MarkView>,
    n: NodeView,
    c: BlockShapeClassifier,
    strings: Seq<Vec<u8>>,
) -> bool {
    exists|k: int| 0 <= k < ms.len() && mark_of(#[trigger] ms[k], n, c, strings)
}

/// Some node that shows something has the mark.
pub open spec fn mark_from_some(
    m: MarkView,
    ns: Seq<NodeView>,
    c: BlockShapeClassifier,
    strings: Seq<Vec<u8>>,
) -> bool {
    exists|i: int|
        0 <= i < ns.len() && mark_of(m, #[trigger] ns[i], c, strings) && node_shows(ns[i], c, strings)
}

/// Exactly the nodes that show something are marked.
pub proof fn nodes_are_marked(
    ns: Seq<NodeView>,
    c: BlockShapeClassifier,
    strings: Seq<Vec<u8>>,
    n: nat,
)
    requires
        n <= ns.len(),
    ensures
        ({
            let out = marks_of(ns, c, strings, n);
            &&& forall|i: int|
                0 <= i < n && node_shows(#[trigger] ns[i], c, strings) ==> some_mark(
                    out,
                    ns[i],
                    c,
                    strings,
                )
            &&& forall|k: int| 0 <= k < out.len() ==> mark_from_some(#[trigger] out[k], ns, c, strings)
            &&& out.len() <= n
        }),
    decreases n,
{
    if n > 0 {
        reveal(node_mark);
        let m = (n - 1) as nat;
        nodes_are_marked(ns, c, strings, m);
        let front = marks_of(ns, c, strings, m);
        let out = marks_of(ns, c, strings, n);
        assert(mark_of(node_mark(ns[n - 1], c, strings), ns[n - 1], c, strings));
        assert forall|i: int| 0 <= i < n && node_shows(#[trigger] ns[i], c, strings) implies some_mark(
            out,
            ns[i],
            c,
            strings,
        ) by {
            if i < m {
                assert(some_mark(front, ns[i], c, strings));
                let k = choose|k: int| 0 <= k < front.len() && mark_of(#[trigger] front[k], ns[i], c, strings);
                assert(out[k] == front[k]);
            } else {
                assert(mark_of(out[front.len() as int], ns[i], c, strings));
            }
        }
        assert forall|k: int| 0 <= k < out.len() implies mark_from_some(
            #[trigger] out[k],
            ns,
            c,
            strings,
        ) by {
            if k < front.len() {
                assert(out[k] == front[k]);
            } else {
                assert(mark_of(out[k], ns[n - 1], c, strings));
            }
        }
    }
}

// ---- holes ----

/// A hole goes to the first outer ring that contains it, and to a single outer ring in any
/// case; to none where none of several contains it.
pub proof fn holes_go_to_their_ring(outers: nat, inside: Seq<bool>)
    requires
        outers == 1 || inside.len() == outers,
    ensures
        outers == 1 ==> owner_of(outers, inside) == Some(0int),
        outers != 1 ==> match owner_of(outers, inside) {
            Some(i) => 0 <= i < outers && inside[i] && forall|k: int|
                0 <= k < i ==> !#[trigger] inside[k],
            None => forall|k: int| 0 <= k < outers ==> !#[trigger] inside[k],
        },
{
    if outers != 1 {
        lemma_first_true(inside, outers, 0);
    }
}

proof fn lemma_first_true(s: Seq<bool>, n: nat, i: nat)
    requires
        s.len() == n,
    ensures
        match first_true(s, n, i) {
            Some(k) => i <= k < n && s[k] && forall|j: int| i <= j < k ==> !#[trigger] s[j],
            None => forall|j: int| i <= j < n ==> !#[trigger] s[j],
        },
    decreases n - i,
{
    if i < n && !s[i as int] {
        lemma_first_true(s, n, i + 1);
    }
}

// ---- blocks ----

proof fn lemma_group_ways(gs: Seq<PrimitiveGroup>, n: nat, g: int, k: int)
    requires
        n <= gs.len(),
        0 <= g < n,
        gs[g].nodes@.len() == 0,
        gs[g].dense is None,
        0 <= k < gs[g].ways@.len(),
    ensures
        group_ways(gs, n).contains(gs[g].ways@[k]),
    decreases n,
{
    let front = group_ways(gs, (n - 1) as nat);
    let out = group_ways(gs, n);
    let w = gs[g].ways@[k];
    if g == n - 1 {
        assert(out[front.len() + k] == w);
    } else {
        lemma_group_ways(gs, (n - 1) as nat, g, k);
        let i = choose|i: int| 0 <= i < front.len() && front[i] == w;
        assert(out[i] == w);
    }
}

proof fn lemma_group_relations(gs: Seq<PrimitiveGroup>, n: nat, g: int, k: int)
    requires
        n <= gs.len(),
        0 <= g < n,
        gs[g].nodes@.len() == 0,
        gs[g].dense is None,
        gs[g].ways@.len() == 0,
        0 <= k < gs[g].relations@.len(),
    ensures
        group_relations(gs, n).contains(gs[g].relations@[k]),
    decreases n,
{
    let front = group_relations(gs, (n - 1) as nat);
    let out = group_relations(gs, n);
    let r = gs[g].relations@[k];
    if g == n - 1 {
        assert(out[front.len() + k] == r);
    } else {
        lemma_group_relations(gs, (n - 1) as nat, g, k);
        let i = choose|i: int| 0 <= i < front.len() && front[i] == r;
        assert(out[i] == r);
    }
}

proof fn lemma_group_nodes(b: PrimitiveBlock, n: nat, g: int, v: NodeView)
    requires
        n <= b.groups@.len(),
        0 <= g < n,
        nodes_in(b.groups@[g], b).contains(v),
    ensures
        group_nodes(b, n).contains(v),
    decreases n,
{
    let front = group_nodes(b, (n - 1) as nat);
    let out = group_nodes(b, n);
    if g == n - 1 {
        let own = nodes_in(b.groups@[g], b);
        let k = choose|k: int| 0 <= k < own.len() && own[k] == v;
        assert(out[front.len() + k] == v);
    } else {
        lemma_group_nodes(b, (n - 1) as nat, g, v);
        let i = choose|i: int| 0 <= i < front.len() && front[i] == v;
        assert(out[i] == v);
    }
}

/// All groups of a block count, wherever they stand: every way of a group of ways, every
/// relation of a group of relations, and every node of a group of nodes, plain or dense.
pub proof fn blocks_hold_all_groups(b: PrimitiveBlock, g: int, k: int)
    requires
        0 <= g < b.groups@.len(),
    ensures
        ({
            let p = b.groups@[g];
            &&& p.nodes@.len() > 0 && 0 <= k < p.nodes@.len() ==> block_nodes(b).contains(
                plain_node(p.nodes@[k], b.granularity, b.lat_offset, b.lon_offset),
            )
            &&& p.nodes@.len() == 0 ==> (p.dense matches Some(d) ==> {
                let ns = dense_nodes(d, b.granularity, b.lat_offset, b.lon_offset);
                0 <= k < ns.len() ==> block_nodes(b).contains(ns[k])
            })
            &&& p.nodes@.len() == 0 && p.dense is None && 0 <= k < p.ways@.len() ==> block_ways(
                b,
            ).contains(p.ways@[k])
            &&& p.nodes@.len() == 0 && p.dense is None && p.ways@.len() == 0 && 0 <= k
                < p.relations@.len() ==> block_relations(b).contains(p.relations@[k])
        }),
{
    let p = b.groups@[g];
    let n = b.groups@.len();
    if p.nodes@.len() > 0 && 0 <= k < p.nodes@.len() {
        let v = plain_node(p.nodes@[k], b.granularity, b.lat_offset, b.lon_offset);
        assert(nodes_in(p, b)[k] == v);
        lemma_group_nodes(b, n, g, v);
    }
    if p.nodes@.len() == 0 && p.dense is Some {
        let ns = dense_nodes(p.dense->0, b.granularity, b.lat_offset, b.lon_offset);
        if 0 <= k < ns.len() {
            assert(nodes_in(p, b)[k] == ns[k]);
            lemma_group_nodes(b, n, g, ns[k]);
        }
    }
    if p.nodes@.len() == 0 && p.dense is None && 0 <= k < p.ways@.len() {
        lemma_group_ways(b.groups@, n, g, k);
    }
    if p.nodes@.len() == 0 && p.dense is None && p.ways@.len() == 0 && 0 <= k
        < p.relations@.len() {
        lemma_group_relations(b.groups@, n, g, k);
    }
}

/// The nodes of all kept ways are the nodes of each of them.
pub proof fn kept_nodes_are_all(ks: Seq<KeptView>, n: nat, i: int, node: i64)
    requires
        n <= ks.len(),
        0 <= i < n,
        (match ks[i] {
            KeptView::Road { refs, .. } => refs,
            KeptView::Area { refs, .. } => refs,
        }).contains(node),
    ensures
        all_refs(ks, n).contains(node),
    decreases n,
{
    let front = all_refs(ks, (n - 1) as nat);
    lemma_cat_contains(front, kept_refs(ks[n - 1]), node);
    if i < n - 1 {
        kept_nodes_are_all(ks, (n - 1) as nat, i, node);
    }
}

/// The ids of a block's strings are their places in its table, those of the first left
/// out.
pub proof fn string_ids_are_places(b: PrimitiveBlock, text: Seq<u8>)
    requires
        b.strings@.len() <= 0x1_0000_0000,
    ensures
        block_ids(b).contains_key(text) <==> exists|i: int|
            1 <= i < b.strings@.len() && (#[trigger] b.strings@[i])@ == text,
        block_ids(b).contains_key(text) ==> 1 <= block_ids(b)[text] < b.strings@.len()
            && b.strings@[block_ids(b)[text] as int]@ == text,
{
    crate::tags::table_ids_sound(b.strings@, text);
}

} // verus!
