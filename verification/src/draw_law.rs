//! In what order a scene is drawn, and how wide roads are where they meet.

use vstd::prelude::*;

use crate::blend::{
    blended, blended_road, end_join_width, end_point, end_width, join_width_greatest, meets,
    parallel,
};
use crate::feature::{AreaKind, RoadKind};
use crate::painter::{
    area_rank_of, base_at, base_keys, is_painters_order, key_number, key_number_orders, order_key,
    road_color_of, road_rank_of, Base,
};
use crate::scene::Scene;
use crate::sort::is_stable_order;
use crate::weld_model::StrokeView;

verus! {

// ---- ranks ----

/// Of the areas of a layer, land is drawn first, then water, grass, forest and buildings.
pub proof fn areas_stack(a: AreaKind)
    ensures
        area_rank_of(AreaKind::Land) < area_rank_of(AreaKind::Water),
        area_rank_of(AreaKind::Water) < area_rank_of(AreaKind::Grass),
        area_rank_of(AreaKind::Grass) < area_rank_of(AreaKind::Forest),
        area_rank_of(AreaKind::Forest) < area_rank_of(AreaKind::Building),
        a != AreaKind::Land ==> area_rank_of(a) > area_rank_of(AreaKind::Land),
{
}

/// How main a road is, from ways on foot up to country borders.
pub open spec fn tier(k: RoadKind) -> int {
    if k == RoadKind::Border {
        6
    } else if k == RoadKind::Motorway || k == RoadKind::MajorRoad {
        5
    } else if k == RoadKind::Trunk || k == RoadKind::Primary {
        4
    } else if k == RoadKind::Secondary || k == RoadKind::Tertiary {
        3
    } else if k == RoadKind::Rail || k == RoadKind::RailMinor {
        2
    } else if k == RoadKind::Residential || k == RoadKind::Unclassified {
        1
    } else {
        0
    }
}

/// Of the roads of a layer, the more main one is drawn over the less main one.
pub proof fn roads_stack(a: RoadKind, b: RoadKind)
    ensures
        road_rank_of(a) <= road_rank_of(b) <==> tier(a) <= tier(b),
{
}

/// Roads of a tier share a colour: the main roads, the secondary ones, all lesser ones, and
/// one each for the network, railways, minor railways and borders.
pub proof fn roads_coloured_by_tier(k: RoadKind)
    ensures
        road_color_of(k) == 5 <==> k == RoadKind::Motorway || k == RoadKind::Trunk || k
            == RoadKind::Primary,
        road_color_of(k) == 6 <==> k == RoadKind::Secondary || k == RoadKind::Tertiary,
        road_color_of(k) == 8 <==> k == RoadKind::MajorRoad,
        road_color_of(k) == 9 <==> k == RoadKind::Rail,
        road_color_of(k) == 10 <==> k == RoadKind::RailMinor,
        road_color_of(k) == 12 <==> k == RoadKind::Border,
        5 <= road_color_of(k) <= 12 && road_color_of(k) != 11,
{
}

// ---- draw order ----

/// The layer of a geometry.
pub open spec fn layer_of(s: Scene, b: Base) -> int {
    match b {
        Base::Area(i) => s.areas@[i as int].layer as int,
        Base::Road(i) => s.roads@[i as int].layer as int,
    }
}

/// Everything is drawn once, from the lowest layer up; within a layer areas come before
/// roads; areas by what they are, roads from the least main to the most; and equals as they
/// stand in the scene.
pub proof fn drawn_bottom_up(r: Seq<Base>, s: Scene, i: int, j: int)
    requires
        is_painters_order(r, s),
        0 <= i < j < r.len(),
    ensures
        r.len() == s.areas@.len() + s.roads@.len(),
        r[i] != r[j],
        layer_of(s, r[i]) <= layer_of(s, r[j]),
        layer_of(s, r[i]) == layer_of(s, r[j]) ==> {
            &&& r[i] is Road ==> r[j] is Road
            &&& r[i] matches Base::Area(a) ==> (r[j] matches Base::Area(b) ==> {
                let (ra, rb) = (
                    area_rank_of(s.areas@[a as int].kind),
                    area_rank_of(s.areas@[b as int].kind),
                );
                ra < rb || (ra == rb && a < b)
            })
            &&& r[i] matches Base::Road(a) ==> (r[j] matches Base::Road(b) ==> {
                let (ta, tb) = (tier(s.roads@[a as int].kind), tier(s.roads@[b as int].kind));
                ta < tb || (ta == tb && a < b)
            })
        },
{
    let order = choose|order: Seq<usize>|
        #![trigger is_stable_order(order, base_keys(s))]
        is_stable_order(order, base_keys(s)) && r == Seq::new(
            order.len(),
            |i: int| base_at(s, order[i] as int),
        );
    let keys = base_keys(s);
    assert(s.areas.len() == s.areas@.len() && s.roads.len() == s.roads@.len());
    assert(order[i] < keys.len() && order[j] < keys.len());
    let (p, q) = (order[i] as int, order[j] as int);
    assert(r[i] == base_at(s, p) && r[j] == base_at(s, q));
    assert(p != q);
    assert(keys[p] < keys[q] || (keys[p] == keys[q] && p < q));
    let (a, b) = (order_key(s, r[i]), order_key(s, r[j]));
    key_number_orders(a, b);
    key_number_orders(b, a);
    assert(keys[p] == key_number(a) && keys[q] == key_number(b));
    if r[i] is Road && r[j] is Road {
        roads_stack(s.roads@[r[i]->Road_0 as int].kind, s.roads@[r[j]->Road_0 as int].kind);
        roads_stack(s.roads@[r[j]->Road_0 as int].kind, s.roads@[r[i]->Road_0 as int].kind);
    }
}

/// Every area and every road of a scene is drawn.
pub proof fn everything_is_drawn(r: Seq<Base>, s: Scene, k: int)
    requires
        is_painters_order(r, s),
        s.areas@.len() + s.roads@.len() <= usize::MAX,
    ensures
        0 <= k < s.areas@.len() ==> r.contains(Base::Area(k as usize)),
        0 <= k < s.roads@.len() ==> r.contains(Base::Road(k as usize)),
{
    let order = choose|order: Seq<usize>|
        #![trigger is_stable_order(order, base_keys(s))]
        is_stable_order(order, base_keys(s)) && r == Seq::new(
            order.len(),
            |i: int| base_at(s, order[i] as int),
        );
    assert(s.areas.len() == s.areas@.len() && s.roads.len() == s.roads@.len());
    if 0 <= k < s.areas@.len() {
        assert(order.contains(k as usize));
        let i = choose|i: int| 0 <= i < order.len() && order[i] == k as usize;
        assert(r[i] == Base::Area(k as usize));
    }
    if 0 <= k < s.roads@.len() {
        let at = (s.areas@.len() + k) as usize;
        assert(order.contains(at));
        let i = choose|i: int| 0 <= i < order.len() && order[i] == at;
        assert(r[i] == Base::Road(k as usize));
    }
}

// ---- widths where roads meet ----

/// How many lanes a road has at one end, at most a byte.
pub open spec fn lanes_at_end(r: StrokeView, start: bool) -> int {
    let l = r.lanes[if start {
        0
    } else {
        r.lanes.len() - 1
    }];
    if l.forward + l.backward <= 255 {
        l.forward + l.backward
    } else {
        255
    }
}

/// End `e` of road `j` lies within the tolerance of end `d` of road `i`, which is another
/// road of the same kind.
pub open spec fn ends_join(
    roads: Seq<StrokeView>,
    i: int,
    d: bool,
    j: int,
    e: bool,
    tol: int,
) -> bool {
    let a = roads[i].coords[if d {
        0
    } else {
        roads[i].coords.len() - 1
    }];
    let b = roads[j].coords[if e {
        0
    } else {
        roads[j].coords.len() - 1
    }];
    &&& i != j
    &&& roads[i].kind == roads[j].kind
    &&& a[0] - b[0] <= tol && b[0] - a[0] <= tol
    &&& a[1] - b[1] <= tol && b[1] - a[1] <= tol
}

/// Where road ends of a kind meet, each comes out as wide as the widest of them was, and
/// no wider; an end that meets none keeps its width.
pub proof fn meeting_ends_share_width(roads: Seq<StrokeView>, tol: int, i: int, d: bool)
    requires
        0 <= i < roads.len(),
        forall|k: int|
            0 <= k < roads.len() ==> parallel(#[trigger] roads[k]) && roads[k].coords.len() >= 2,
    ensures
        ({
            let out = lanes_at_end(blended(roads, tol)[i], d);
            &&& out >= lanes_at_end(roads[i], d)
            &&& forall|j: int, e: bool|
                0 <= j < roads.len() && #[trigger] ends_join(roads, i, d, j, e, tol) ==> out
                    >= lanes_at_end(roads[j], e)
            &&& out == lanes_at_end(roads[i], d) || exists|j: int, e: bool|
                0 <= j < roads.len() && #[trigger] ends_join(roads, i, d, j, e, tol) && out
                    == lanes_at_end(roads[j], e)
        }),
{
    let r = roads[i];
    assert(parallel(roads[i]));
    let c = end_point(r, d);
    let own = end_width(r, d);
    let width = end_join_width(roads, i, tol, d);
    join_width_greatest(roads, i, c, tol, own, roads.len());
    let b = blended(roads, tol)[i];
    assert(b == blended_road(roads, i, tol));
    assert(own == lanes_at_end(r, d));
    assert(lanes_at_end(b, d) == width);
    assert forall|j: int, e: bool|
        0 <= j < roads.len() && #[trigger] ends_join(roads, i, d, j, e, tol) implies width
        >= lanes_at_end(roads[j], e) by {
        assert(parallel(roads[j]) && roads[j].coords.len() >= 2);
        assert(meets(roads, i, c, tol, j, e));
    }
    if width != own {
        let (j, e) = choose|j: int, e: bool|
            j < roads.len() && #[trigger] meets(roads, i, c, tol, j, e) && end_width(roads[j], e)
                == width;
        assert(parallel(roads[j]) && roads[j].coords.len() >= 2);
        assert(ends_join(roads, i, d, j, e, tol));
        assert(lanes_at_end(roads[j], e) == width);
    }
}

} // verus!
