//! What a tile holds of the records it was built from.

use vstd::prelude::*;

use crate::feature::RoadStructure;
use crate::record::{GeometryView, RecordView};
use crate::tile_law::{
    any_clip, area_views, label_views, poi_views, record_contents, records_fit, road_views,
    tile_roundtrip,
};
use crate::tile_model::{
    parts_of, tile_at, tile_bytes, with_name, AreaView, LabelView, PoiView, RoadView,
};

verus! {

/// The tile's road is the record's.
pub open spec fn road_kept(v: RoadView, r: RecordView) -> bool {
    r.geometry matches GeometryView::Road {
        kind,
        start,
        end,
        coords,
        lanes_forward,
        lanes_backward,
        name,
    } && v.kind == kind && v.start == start && v.end == end && v.coords == coords && v.lanes.forward
        == lanes_forward && v.lanes.backward == lanes_backward && v.name == name && v.layer
        == r.layer && v.structure == RoadStructure::AtGrade
}

/// Some of the roads is the record's.
pub open spec fn some_road(vs: Seq<RoadView>, r: RecordView) -> bool {
    exists|k: int| 0 <= k < vs.len() && road_kept(#[trigger] vs[k], r)
}

/// Some record is the road's.
pub open spec fn road_recorded(v: RoadView, recs: Seq<RecordView>) -> bool {
    exists|i: int| 0 <= i < recs.len() && road_kept(v, #[trigger] recs[i])
}

proof fn lemma_roads(recs: Seq<RecordView>)
    ensures
        ({
            let out = road_views(recs);
            &&& forall|i: int|
                0 <= i < recs.len() && (#[trigger] recs[i]).geometry is Road ==> some_road(out, recs[i])
            &&& forall|k: int| 0 <= k < out.len() ==> road_recorded(#[trigger] out[k], recs)
        }),
    decreases recs.len(),
{
    if recs.len() > 0 {
        let rest = recs.drop_last();
        lemma_roads(rest);
        let front = road_views(rest);
        let out = road_views(recs);
        assert forall|i: int| 0 <= i < recs.len() && (#[trigger] recs[i]).geometry is Road implies some_road(
            out,
            recs[i],
        ) by {
            if i < rest.len() {
                assert(rest[i] == recs[i]);
                assert(some_road(front, rest[i]));
                let k = choose|k: int| 0 <= k < front.len() && road_kept(#[trigger] front[k], rest[i]);
                assert(out[k] == front[k]);
            } else {
                assert(road_kept(out[front.len() as int], recs[i]));
            }
        }
        assert forall|k: int| 0 <= k < out.len() implies road_recorded(#[trigger] out[k], recs) by {
            if k < front.len() {
                assert(out[k] == front[k]);
                let i = choose|i: int| 0 <= i < rest.len() && road_kept(front[k], #[trigger] rest[i]);
                assert(recs[i] == rest[i]);
            } else {
                assert(road_kept(out[k], recs[recs.len() - 1]));
            }
        }
    }
}

/// The tile's area is the record's.
pub open spec fn area_kept(v: AreaView, r: RecordView) -> bool {
    r.geometry matches GeometryView::Area { kind, floors, rings, clip } && v.kind == kind && v.floors
        == floors && v.rings == rings && v.layer == r.layer && (v.clip.len() > 0 && clip.len() > 0
        ==> v.clip == clip)
}

/// Some of the areas is the record's.
pub open spec fn some_area(vs: Seq<AreaView>, r: RecordView) -> bool {
    exists|k: int| 0 <= k < vs.len() && area_kept(#[trigger] vs[k], r)
}

/// Some record is the area's.
pub open spec fn area_recorded(v: AreaView, recs: Seq<RecordView>) -> bool {
    exists|i: int| 0 <= i < recs.len() && area_kept(v, #[trigger] recs[i])
}

proof fn lemma_areas(recs: Seq<RecordView>, clipped: bool)
    ensures
        ({
            let out = area_views(recs, clipped);
            &&& forall|i: int|
                0 <= i < recs.len() && (#[trigger] recs[i]).geometry is Area ==> some_area(out, recs[i])
            &&& forall|k: int| 0 <= k < out.len() ==> area_recorded(#[trigger] out[k], recs)
        }),
    decreases recs.len(),
{
    if recs.len() > 0 {
        let rest = recs.drop_last();
        lemma_areas(rest, clipped);
        let front = area_views(rest, clipped);
        let out = area_views(recs, clipped);
        assert forall|i: int| 0 <= i < recs.len() && (#[trigger] recs[i]).geometry is Area implies some_area(
            out,
            recs[i],
        ) by {
            if i < rest.len() {
                assert(rest[i] == recs[i]);
                assert(some_area(front, rest[i]));
                let k = choose|k: int| 0 <= k < front.len() && area_kept(#[trigger] front[k], rest[i]);
                assert(out[k] == front[k]);
            } else {
                assert(area_kept(out[front.len() as int], recs[i]));
            }
        }
        assert forall|k: int| 0 <= k < out.len() implies area_recorded(#[trigger] out[k], recs) by {
            if k < front.len() {
                assert(out[k] == front[k]);
                let i = choose|i: int| 0 <= i < rest.len() && area_kept(front[k], #[trigger] rest[i]);
                assert(recs[i] == rest[i]);
            } else {
                assert(area_kept(out[k], recs[recs.len() - 1]));
            }
        }
    }
}

/// The tile's label is the record's.
pub open spec fn label_kept(v: LabelView, r: RecordView) -> bool {
    r.geometry matches GeometryView::Label { class, anchor, name } && v.class == class && v.anchor
        == anchor && v.name == name && v.rank == class.ordinal()
}

/// Some of the labels is the record's.
pub open spec fn some_label(vs: Seq<LabelView>, r: RecordView) -> bool {
    exists|k: int| 0 <= k < vs.len() && label_kept(#[trigger] vs[k], r)
}

/// Some record is the label's.
pub open spec fn label_recorded(v: LabelView, recs: Seq<RecordView>) -> bool {
    exists|i: int| 0 <= i < recs.len() && label_kept(v, #[trigger] recs[i])
}

proof fn lemma_labels(recs: Seq<RecordView>)
    ensures
        ({
            let out = label_views(recs);
            &&& forall|i: int|
                0 <= i < recs.len() && (#[trigger] recs[i]).geometry is Label ==> some_label(out, recs[i])
            &&& forall|k: int| 0 <= k < out.len() ==> label_recorded(#[trigger] out[k], recs)
        }),
    decreases recs.len(),
{
    if recs.len() > 0 {
        let rest = recs.drop_last();
        lemma_labels(rest);
        let front = label_views(rest);
        let out = label_views(recs);
        assert forall|i: int| 0 <= i < recs.len() && (#[trigger] recs[i]).geometry is Label implies some_label(
            out,
            recs[i],
        ) by {
            if i < rest.len() {
                assert(rest[i] == recs[i]);
                assert(some_label(front, rest[i]));
                let k = choose|k: int| 0 <= k < front.len() && label_kept(#[trigger] front[k], rest[i]);
                assert(out[k] == front[k]);
            } else {
                assert(label_kept(out[front.len() as int], recs[i]));
            }
        }
        assert forall|k: int| 0 <= k < out.len() implies label_recorded(#[trigger] out[k], recs) by {
            if k < front.len() {
                assert(out[k] == front[k]);
                let i = choose|i: int| 0 <= i < rest.len() && label_kept(front[k], #[trigger] rest[i]);
                assert(recs[i] == rest[i]);
            } else {
                assert(label_kept(out[k], recs[recs.len() - 1]));
            }
        }
    }
}

/// The tile's poi is the record's.
pub open spec fn poi_kept(v: PoiView, r: RecordView) -> bool {
    r.geometry matches GeometryView::Poi { kind, anchor } && v.kind == kind && v.anchor == anchor
}

/// Some of the pois is the record's.
pub open spec fn some_poi(vs: Seq<PoiView>, r: RecordView) -> bool {
    exists|k: int| 0 <= k < vs.len() && poi_kept(#[trigger] vs[k], r)
}

/// Some record is the poi's.
pub open spec fn poi_recorded(v: PoiView, recs: Seq<RecordView>) -> bool {
    exists|i: int| 0 <= i < recs.len() && poi_kept(v, #[trigger] recs[i])
}

proof fn lemma_pois(recs: Seq<RecordView>)
    ensures
        ({
            let out = poi_views(recs);
            &&& forall|i: int|
                0 <= i < recs.len() && (#[trigger] recs[i]).geometry is Poi ==> some_poi(out, recs[i])
            &&& forall|k: int| 0 <= k < out.len() ==> poi_recorded(#[trigger] out[k], recs)
        }),
    decreases recs.len(),
{
    if recs.len() > 0 {
        let rest = recs.drop_last();
        lemma_pois(rest);
        let front = poi_views(rest);
        let out = poi_views(recs);
        assert forall|i: int| 0 <= i < recs.len() && (#[trigger] recs[i]).geometry is Poi implies some_poi(
            out,
            recs[i],
        ) by {
            if i < rest.len() {
                assert(rest[i] == recs[i]);
                assert(some_poi(front, rest[i]));
                let k = choose|k: int| 0 <= k < front.len() && poi_kept(#[trigger] front[k], rest[i]);
                assert(out[k] == front[k]);
            } else {
                assert(poi_kept(out[front.len() as int], recs[i]));
            }
        }
        assert forall|k: int| 0 <= k < out.len() implies poi_recorded(#[trigger] out[k], recs) by {
            if k < front.len() {
                assert(out[k] == front[k]);
                let i = choose|i: int| 0 <= i < rest.len() && poi_kept(front[k], #[trigger] rest[i]);
                assert(recs[i] == rest[i]);
            } else {
                assert(poi_kept(out[k], recs[recs.len() - 1]));
            }
        }
    }
}

/// Every record of a tile comes back out of its bytes as it went in: a road, an area, a
/// label or a symbol; nothing else does, and none is lost or doubled.
pub proof fn tiles_keep_records(recs: Seq<RecordView>, extent: u16)
    requires
        records_fit(recs),
    ensures
        tile_at(tile_bytes(parts_of(recs), extent)) matches Some(t) && {
            &&& t.extent == extent
            &&& t.roads.len() + t.areas.len() + t.labels.len() + t.pois.len() == recs.len()
            &&& forall|i: int|
                0 <= i < recs.len() ==> match (#[trigger] recs[i]).geometry {
                    GeometryView::Road { .. } => some_road(t.roads, recs[i]),
                    GeometryView::Area { .. } => some_area(t.areas, recs[i]),
                    GeometryView::Label { .. } => some_label(t.labels, recs[i]),
                    GeometryView::Poi { .. } => some_poi(t.pois, recs[i]),
                }
            &&& forall|k: int| 0 <= k < t.roads.len() ==> road_recorded(#[trigger] t.roads[k], recs)
            &&& forall|k: int| 0 <= k < t.areas.len() ==> area_recorded(#[trigger] t.areas[k], recs)
            &&& forall|k: int|
                0 <= k < t.labels.len() ==> label_recorded(#[trigger] t.labels[k], recs)
            &&& forall|k: int| 0 <= k < t.pois.len() ==> poi_recorded(#[trigger] t.pois[k], recs)
        },
{
    tile_roundtrip(recs, extent);
    lemma_roads(recs);
    lemma_areas(recs, any_clip(recs));
    lemma_labels(recs);
    lemma_pois(recs);
    lemma_counts(recs, any_clip(recs));
    let t = record_contents(recs, extent);
    assert forall|i: int| 0 <= i < recs.len() implies match (#[trigger] recs[i]).geometry {
        GeometryView::Road { .. } => some_road(t.roads, recs[i]),
        GeometryView::Area { .. } => some_area(t.areas, recs[i]),
        GeometryView::Label { .. } => some_label(t.labels, recs[i]),
        GeometryView::Poi { .. } => some_poi(t.pois, recs[i]),
    } by {}
}

proof fn lemma_counts(recs: Seq<RecordView>, clipped: bool)
    ensures
        road_views(recs).len() + area_views(recs, clipped).len() + label_views(recs).len()
            + poi_views(recs).len() == recs.len(),
    decreases recs.len(),
{
    if recs.len() > 0 {
        lemma_counts(recs.drop_last(), clipped);
    }
}

/// Records of one sort keep their order.
pub proof fn tiles_keep_order(recs: Seq<RecordView>, r: RecordView)
    ensures
        ({
            let more = recs.push(r);
            &&& r.geometry is Road ==> road_views(more).len() == road_views(recs).len() + 1
                && road_views(more).drop_last() == road_views(recs) && road_kept(
                road_views(more).last(),
                r,
            )
            &&& !(r.geometry is Road) ==> road_views(more) == road_views(recs)
            &&& r.geometry is Label ==> label_views(more).drop_last() == label_views(recs)
                && label_kept(label_views(more).last(), r)
            &&& !(r.geometry is Label) ==> label_views(more) == label_views(recs)
            &&& r.geometry is Poi ==> poi_views(more).drop_last() == poi_views(recs) && poi_kept(
                poi_views(more).last(),
                r,
            )
            &&& !(r.geometry is Poi) ==> poi_views(more) == poi_views(recs)
        }),
{
    let more = recs.push(r);
    assert(more.drop_last() =~= recs);
    assert(more.last() == r);
    if r.geometry is Road {
        assert(road_views(more).drop_last() =~= road_views(recs));
    }
    if r.geometry is Label {
        assert(label_views(more).drop_last() =~= label_views(recs));
    }
    if r.geometry is Poi {
        assert(poi_views(more).drop_last() =~= poi_views(recs));
    }
}

/// A tile stores each name once, in the order of first use, and no name that no record
/// has.
pub proof fn names_stored_once(recs: Seq<RecordView>)
    ensures
        parts_of(recs).table.no_duplicates(),
        forall|k: int|
            0 <= k < parts_of(recs).table.len() ==> name_used(#[trigger] parts_of(recs).table[k], recs),
        forall|i: int|
            0 <= i < recs.len() ==> (has_name(#[trigger] recs[i]) matches Some(n) ==> parts_of(
                recs,
            ).table.contains(n)),
    decreases recs.len(),
{
    if recs.len() > 0 {
        let rest = recs.drop_last();
        names_stored_once(rest);
        let front = parts_of(rest).table;
        let out = parts_of(recs).table;
        let last = recs.last();
        assert(recs[recs.len() - 1] == last);
        match has_name(last) {
            Some(n) => {
                assert(out == with_name(front, n));
                if !front.contains(n) {
                    assert(out[front.len() as int] == n);
                }
                assert(out.contains(n));
            },
            None => {
                assert(out == front);
            },
        }
        assert forall|k: int| 0 <= k < out.len() implies name_used(#[trigger] out[k], recs) by {
            if k < front.len() {
                assert(out[k] == front[k]);
                let i = choose|i: int|
                    0 <= i < rest.len() && has_name(#[trigger] rest[i]) == Some(front[k]);
                assert(recs[i] == rest[i]);
            } else {
                assert(has_name(recs[recs.len() - 1]) == Some(out[k]));
            }
        }
        assert forall|i: int| 0 <= i < recs.len() implies (has_name(#[trigger] recs[i]) matches Some(
            n,
        ) ==> out.contains(n)) by {
            if i < rest.len() {
                assert(rest[i] == recs[i]);
                if let Some(n) = has_name(recs[i]) {
                    assert(front.contains(n));
                    let k = choose|k: int| 0 <= k < front.len() && front[k] == n;
                    assert(out[k] == n);
                }
            }
        }
    }
}

/// The name of a record.
pub open spec fn has_name(r: RecordView) -> Option<Seq<char>> {
    match r.geometry {
        GeometryView::Road { name, .. } => name,
        GeometryView::Label { name, .. } => Some(name),
        _ => None,
    }
}

/// Some record has the name.
pub open spec fn name_used(n: Seq<char>, recs: Seq<RecordView>) -> bool {
    exists|i: int| 0 <= i < recs.len() && has_name(#[trigger] recs[i]) == Some(n)
}

} // verus!
