//! What the kinds of features stand for: their numbers on the wire, from which zoom they
//! are stored and shown, and how wide roads are.

use vstd::prelude::*;

use crate::feature::{AreaKind, EdgeNode, LabelClass, Lanes, PoiKind, RoadKind, RoadStructure};
use crate::sink::{piece_end, raw_floor, zooms_between, zooms_between_exact, AGG_MAX_ZOOM};
use crate::tile::{Tile, TileRange};

verus! {

/// The wire numbers count the kinds of each table from zero, in the order of importance for
/// roads and labels and in draw order for areas.
pub proof fn wire_numbers()
    ensures
        RoadKind::Motorway.ordinal() == 0,
        RoadKind::Trunk.ordinal() == 1,
        RoadKind::Primary.ordinal() == 2,
        RoadKind::Secondary.ordinal() == 3,
        RoadKind::Tertiary.ordinal() == 4,
        RoadKind::Unclassified.ordinal() == 5,
        RoadKind::Residential.ordinal() == 6,
        RoadKind::LivingStreet.ordinal() == 7,
        RoadKind::Service.ordinal() == 8,
        RoadKind::Footway.ordinal() == 9,
        RoadKind::Raceway.ordinal() == 10,
        RoadKind::Unknown.ordinal() == 11,
        RoadKind::MajorRoad.ordinal() == 12,
        RoadKind::Rail.ordinal() == 13,
        RoadKind::RailMinor.ordinal() == 14,
        RoadKind::Border.ordinal() == 15,
        RoadKind::spec_from_u8(16) is None,
        AreaKind::Water.ordinal() == 0,
        AreaKind::Forest.ordinal() == 1,
        AreaKind::Grass.ordinal() == 2,
        AreaKind::Building.ordinal() == 3,
        AreaKind::Land.ordinal() == 4,
        AreaKind::spec_from_u8(5) is None,
        LabelClass::City.ordinal() == 0,
        LabelClass::Town.ordinal() == 1,
        LabelClass::Village.ordinal() == 2,
        LabelClass::Suburb.ordinal() == 3,
        LabelClass::Hamlet.ordinal() == 4,
        LabelClass::Locality.ordinal() == 5,
        LabelClass::Water.ordinal() == 6,
        LabelClass::Park.ordinal() == 7,
        LabelClass::spec_from_u8(8) is None,
        RoadStructure::AtGrade.ordinal() == 0,
        RoadStructure::Bridge.ordinal() == 1,
        RoadStructure::Tunnel.ordinal() == 2,
        RoadStructure::spec_from_u8(3) is None,
        EdgeNode::Connected.ordinal() == 0,
        EdgeNode::Disconnected.ordinal() == 1,
        EdgeNode::Cut.ordinal() == 2,
        EdgeNode::spec_from_u8(3) is None,
        PoiKind::TrafficSignal.ordinal() == 0,
        PoiKind::spec_from_u8(1) is None,
{
}

/// From which zoom on the tiles hold the roads of a kind, and from which a camera shows
/// them: main roads first, then the streets, then ways on foot.
pub proof fn road_zooms_by_importance(k: RoadKind)
    ensures
        k == RoadKind::MajorRoad || k == RoadKind::Border <==> k.spec_min_zoom() == 4,
        k == RoadKind::Motorway || k == RoadKind::Trunk || k == RoadKind::Primary <==> k.spec_min_zoom() == 10,
        k == RoadKind::Secondary || k == RoadKind::Rail <==> k.spec_min_zoom() == 12,
        k == RoadKind::RailMinor || k == RoadKind::Tertiary || k == RoadKind::Unclassified || k == RoadKind::Residential || k == RoadKind::Raceway <==> k.spec_min_zoom() == 14,
        k == RoadKind::LivingStreet || k == RoadKind::Service || k == RoadKind::Footway || k == RoadKind::Unknown <==> k.spec_min_zoom() == 16,
        k == RoadKind::Border <==> k.spec_display_min_zoom() == 4,
        k == RoadKind::MajorRoad <==> k.spec_display_min_zoom() == 5,
        k == RoadKind::Motorway || k == RoadKind::Trunk || k == RoadKind::Primary <==> k.spec_display_min_zoom() == 10,
        k == RoadKind::Rail <==> k.spec_display_min_zoom() == 12,
        k == RoadKind::Secondary <==> k.spec_display_min_zoom() == 13,
        k == RoadKind::RailMinor <==> k.spec_display_min_zoom() == 14,
        k == RoadKind::Tertiary || k == RoadKind::Unclassified || k == RoadKind::Residential || k == RoadKind::Raceway <==> k.spec_display_min_zoom() == 15,
        k == RoadKind::LivingStreet || k == RoadKind::Service || k == RoadKind::Footway || k == RoadKind::Unknown <==> k.spec_display_min_zoom() == 17,
        k.spec_min_zoom() <= k.spec_display_min_zoom() <= k.spec_min_zoom() + 1,
{
}

/// A more important street is stored and shown no later than a less important one.
pub proof fn streets_appear_in_order(a: RoadKind, b: RoadKind)
    requires
        a.ordinal() <= b.ordinal() <= RoadKind::Footway.ordinal(),
    ensures
        a.spec_min_zoom() <= b.spec_min_zoom(),
        a.spec_display_min_zoom() <= b.spec_display_min_zoom(),
        a.spec_default_lanes() >= b.spec_default_lanes(),
{
}

/// How many lanes a road without lane tags has.
pub proof fn roads_have_lanes(k: RoadKind)
    ensures
        k == RoadKind::Motorway || k == RoadKind::MajorRoad <==> k.spec_default_lanes() == 6,
        k == RoadKind::Trunk || k == RoadKind::Primary <==> k.spec_default_lanes() == 4,
        k == RoadKind::Service || k == RoadKind::Footway || k == RoadKind::Rail || k == RoadKind::RailMinor || k == RoadKind::Border <==> k.spec_default_lanes() == 1,
        k.spec_default_lanes() == 6 || k.spec_default_lanes() == 4 || k.spec_default_lanes() == 2
            || k.spec_default_lanes() == 1,
{
}

/// From which zoom on the tiles hold the areas of a kind, and from which a camera shows
/// them.
pub proof fn area_zooms_by_kind(k: AreaKind)
    ensures
        k == AreaKind::Land <==> k.spec_min_zoom() == 1,
        k == AreaKind::Water || k == AreaKind::Forest <==> k.spec_min_zoom() == 3,
        k == AreaKind::Grass <==> k.spec_min_zoom() == 12,
        k == AreaKind::Building <==> k.spec_min_zoom() == 14,
        k == AreaKind::Land <==> k.spec_display_min_zoom() == 1,
        k == AreaKind::Water || k == AreaKind::Forest <==> k.spec_display_min_zoom() == 3,
        k == AreaKind::Grass <==> k.spec_display_min_zoom() == 12,
        k == AreaKind::Building <==> k.spec_display_min_zoom() == 16,
        k.spec_min_zoom() <= k.spec_display_min_zoom(),
{
}

/// Labels are stored and shown from the same zoom on, the larger places first.
pub proof fn label_zooms_by_class(k: LabelClass)
    ensures
        k == LabelClass::City <==> k.spec_min_zoom() == 4,
        k == LabelClass::Town || k == LabelClass::Water <==> k.spec_min_zoom() == 8,
        k == LabelClass::Park <==> k.spec_min_zoom() == 10,
        k == LabelClass::Village <==> k.spec_min_zoom() == 11,
        k == LabelClass::Suburb || k == LabelClass::Hamlet <==> k.spec_min_zoom() == 12,
        k == LabelClass::Locality <==> k.spec_min_zoom() == 13,
        k.spec_min_zoom() == k.spec_display_min_zoom(),
        PoiKind::TrafficSignal.spec_min_zoom() == 14,
        PoiKind::TrafficSignal.spec_display_min_zoom() == 15,
{
}

/// Seen from the other end of a road, its lanes change sides; how many they are does not
/// depend on the side, and is no more than a byte holds.
pub proof fn lanes_change_sides(l: Lanes)
    ensures
        l.spec_swapped().forward == l.backward,
        l.spec_swapped().backward == l.forward,
        l.spec_swapped().spec_total() == l.spec_total(),
        l.forward + l.backward <= 255 ==> l.spec_total() == l.forward + l.backward,
        l.forward + l.backward > 255 ==> l.spec_total() == 255,
{
}

// ---- materialized zooms ----

/// Forest is cut from its own geometry above zoom 8 and built from aggregates from zoom 3
/// up to zoom 8; every other area is cut from its own geometry from its first zoom on.
pub proof fn forest_is_aggregated_far_out(zooms: Seq<u8>, kind: AreaKind, z: u8)
    ensures
        zooms_between(zooms, raw_floor(kind), 255).contains(z) <==> zooms.contains(z)
            && kind.spec_min_zoom() <= z && (kind == AreaKind::Forest ==> 8 < z),
        zooms_between(zooms, kind.spec_min_zoom(), AGG_MAX_ZOOM).contains(z) <==> zooms.contains(z)
            && kind.spec_min_zoom() <= z <= 8,
{
    zooms_between_exact(zooms, raw_floor(kind), 255, z);
    zooms_between_exact(zooms, kind.spec_min_zoom(), AGG_MAX_ZOOM, z);
}

/// The zooms between two bounds keep their order and their number.
pub proof fn zooms_keep_order(zooms: Seq<u8>, lo: u8, hi: u8)
    requires
        forall|i: int, j: int| 0 <= i < j < zooms.len() ==> zooms[i] > zooms[j],
    ensures
        forall|i: int, j: int|
            0 <= i < j < zooms_between(zooms, lo, hi).len() ==> zooms_between(zooms, lo, hi)[i]
                > zooms_between(zooms, lo, hi)[j],
    decreases zooms.len(),
{
    if zooms.len() > 0 {
        let rest = zooms.drop_last();
        assert forall|i: int, j: int| 0 <= i < j < rest.len() implies rest[i] > rest[j] by {
            assert(rest[i] == zooms[i] && rest[j] == zooms[j]);
        }
        zooms_keep_order(rest, lo, hi);
        let front = zooms_between(rest, lo, hi);
        let out = zooms_between(zooms, lo, hi);
        assert forall|i: int, j: int| 0 <= i < j < out.len() implies out[i] > out[j] by {
            assert(out[i] == front[i]);
            if j < front.len() {
                assert(out[j] == front[j]);
            } else {
                zooms_between_exact(rest, lo, hi, front[i]);
                assert(front.contains(front[i]));
                let k = choose|k: int| 0 <= k < rest.len() && rest[k] == front[i];
                assert(zooms[k] > zooms[zooms.len() - 1]);
            }
        }
    }
}

/// An end that the clip made is a cut; any other is the road's own.
pub proof fn cut_ends_are_marked(own: EdgeNode)
    ensures
        piece_end(own, true) == EdgeNode::Cut,
        piece_end(own, false) == own,
{
}

// ---- tiles ----

/// A parent covers a two-by-two block of tiles one zoom finer.
pub proof fn parent_covers_children(t: Tile, p: Tile)
    ensures
        t.spec_parent() == Some(p) <==> t.z == p.z + 1 && 2 * p.x <= t.x <= 2 * p.x + 1 && 2 * p.y
            <= t.y <= 2 * p.y + 1,
        t.spec_parent() is None <==> t.z == 0,
{
}

/// A range holds its tiles once each, row by row: in each row by column.
pub proof fn ranges_run_by_row(r: TileRange, i: int, j: int)
    requires
        0 <= i < j < r.row_major().len(),
    ensures
        ({
            let (a, b) = (r.row_major()[i], r.row_major()[j]);
            &&& a.y < b.y || (a.y == b.y && a.x < b.x)
            &&& a.z == r.z && b.z == r.z
            &&& r.min_x <= a.x <= r.max_x && r.min_y <= a.y <= r.max_y
        }),
{
    let c = r.columns() as int;
    let n = r.rows() as int;
    assert(c > 0 && n > 0) by (nonlinear_arith)
        requires
            c >= 0,
            n >= 0,
            c * n > j,
            j > 0,
    ;
    vstd::arithmetic::div_mod::lemma_fundamental_div_mod(i, c);
    vstd::arithmetic::div_mod::lemma_fundamental_div_mod(j, c);
    vstd::arithmetic::div_mod::lemma_div_is_ordered(i, j, c);
    assert(i / c < n && j / c < n && 0 <= i / c && 0 <= j / c) by (nonlinear_arith)
        requires
            0 <= i < c * n,
            0 <= j < c * n,
            c > 0,
    ;
    assert(0 <= i % c < c && 0 <= j % c < c);
}

} // verus!
