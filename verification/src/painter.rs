//! Painter's order and palette of a drawn scene.

use vstd::prelude::*;

use crate::feature::{AreaKind, PoiKind, RoadKind};
use crate::scene::{Scene, SceneArea};
use crate::sort::{is_stable_order, sort_order};
use crate::weld::SceneRoad;

verus! {

/// One base geometry of a scene, by its place in the scene's areas or roads.
#[derive(Debug, Clone, Copy, PartialEq, Eq, Structural)]
pub enum Base {
    Area(usize),
    Road(usize),
}

/// Draw rank among same-layer areas (drawn ascending): background land first, then water,
/// vegetation, buildings on top.
pub open spec fn area_rank_of(kind: AreaKind) -> u8 {
    match kind {
        AreaKind::Land => 0,
        AreaKind::Water => 1,
        AreaKind::Grass => 2,
        AreaKind::Forest => 3,
        AreaKind::Building => 4,
    }
}

/// Draw rank among same-layer roads (drawn ascending): minor first, major on top so
/// junctions read correctly.
pub open spec fn road_rank_of(kind: RoadKind) -> u8 {
    match kind {
        RoadKind::Footway => 0,
        RoadKind::Service => 0,
        RoadKind::LivingStreet => 0,
        RoadKind::Raceway => 0,
        RoadKind::Unknown => 0,
        RoadKind::Residential => 1,
        RoadKind::Unclassified => 1,
        RoadKind::RailMinor => 2,
        RoadKind::Rail => 2,
        RoadKind::Tertiary => 3,
        RoadKind::Secondary => 3,
        RoadKind::Primary => 4,
        RoadKind::Trunk => 4,
        RoadKind::Motorway => 5,
        RoadKind::MajorRoad => 5,
        RoadKind::Border => 6,
    }
}

pub fn area_rank(kind: AreaKind) -> (r: u8)
    ensures
        r == area_rank_of(kind),
{
    match kind {
        AreaKind::Land => 0,
        AreaKind::Water => 1,
        AreaKind::Grass => 2,
        AreaKind::Forest => 3,
        AreaKind::Building => 4,
    }
}

pub fn road_rank(kind: RoadKind) -> (r: u8)
    ensures
        r == road_rank_of(kind),
{
    match kind {
        RoadKind::Residential => 1,
        RoadKind::Unclassified => 1,
        RoadKind::RailMinor => 2,
        RoadKind::Rail => 2,
        RoadKind::Tertiary => 3,
        RoadKind::Secondary => 3,
        RoadKind::Primary => 4,
        RoadKind::Trunk => 4,
        RoadKind::Motorway => 5,
        RoadKind::MajorRoad => 5,
        RoadKind::Border => 6,
        _ => 0,
    }
}

/// Palette index for a POI kind.
pub fn poi_color(kind: PoiKind) -> (r: u32)
    ensures
        r == match kind {
            PoiKind::TrafficSignal => 11u32,
        },
{
    match kind {
        PoiKind::TrafficSignal => 11,
    }
}

/// Palette index for an area kind.
pub fn area_color(kind: AreaKind) -> (r: u32)
    ensures
        r == match kind {
            AreaKind::Water => 0u32,
            AreaKind::Forest => 1,
            AreaKind::Grass => 2,
            AreaKind::Building => 3,
            AreaKind::Land => 4,
        },
{
    match kind {
        AreaKind::Water => 0,
        AreaKind::Forest => 1,
        AreaKind::Grass => 2,
        AreaKind::Building => 3,
        AreaKind::Land => 4,
    }
}

/// Palette index for a road, bucketed by class tier.
pub open spec fn road_color_of(kind: RoadKind) -> u32 {
    match kind {
        RoadKind::MajorRoad => 8,
        RoadKind::Rail => 9,
        RoadKind::RailMinor => 10,
        RoadKind::Border => 12,
        RoadKind::Motorway => 5,
        RoadKind::Trunk => 5,
        RoadKind::Primary => 5,
        RoadKind::Secondary => 6,
        RoadKind::Tertiary => 6,
        _ => 7,
    }
}

pub fn road_color(kind: RoadKind) -> (r: u32)
    ensures
        r == road_color_of(kind),
{
    match kind {
        RoadKind::MajorRoad => 8,
        RoadKind::Rail => 9,
        RoadKind::RailMinor => 10,
        RoadKind::Border => 12,
        RoadKind::Motorway => 5,
        RoadKind::Trunk => 5,
        RoadKind::Primary => 5,
        RoadKind::Secondary => 6,
        RoadKind::Tertiary => 6,
        _ => 7,
    }
}

/// Painter's-order key (drawn ascending = bottom first):
/// 1. `layer`: stacking level.
/// 2. style rank: areas (0) under roads (1) within a layer.
/// 3. kind rank: ordering among same-style features (e.g. minor roads under major, water
///    under vegetation).
pub open spec fn order_key(s: Scene, b: Base) -> (i8, u8, u8) {
    match b {
        Base::Area(i) => (s.areas@[i as int].layer, 0, area_rank_of(s.areas@[i as int].kind)),
        Base::Road(i) => (s.roads@[i as int].layer, 1, road_rank_of(s.roads@[i as int].kind)),
    }
}

/// The key as one number: the three parts, most significant first.
pub open spec fn key_number(k: (i8, u8, u8)) -> i128 {
    (k.0 * 65536 + k.1 * 256 + k.2) as i128
}

/// The numbers order as the keys do, part by part.
pub proof fn key_number_orders(a: (i8, u8, u8), b: (i8, u8, u8))
    ensures
        key_number(a) <= key_number(b) <==> a.0 < b.0 || (a.0 == b.0 && (a.1 < b.1 || (a.1 == b.1
            && a.2 <= b.2))),
{
}

/// The base geometries in scene order: areas, then roads.
pub open spec fn base_at(s: Scene, i: int) -> Base {
    if i < s.areas@.len() {
        Base::Area(i as usize)
    } else {
        Base::Road((i - s.areas@.len()) as usize)
    }
}

pub open spec fn base_count(s: Scene) -> nat {
    s.areas@.len() + s.roads@.len()
}

pub open spec fn base_keys(s: Scene) -> Seq<i128> {
    Seq::new(base_count(s), |i: int| key_number(order_key(s, base_at(s, i))))
}

/// `r` lists the base geometries by key, those of equal key in scene order.
pub open spec fn is_painters_order(r: Seq<Base>, s: Scene) -> bool {
    exists|order: Seq<usize>|
        #![trigger is_stable_order(order, base_keys(s))]
        is_stable_order(order, base_keys(s)) && r == Seq::new(
            order.len(),
            |i: int| base_at(s, order[i] as int),
        )
}

fn area_key(a: &SceneArea) -> (r: i128)
    ensures
        r == key_number((a.layer, 0, area_rank_of(a.kind))),
{
    a.layer as i128 * 65536 + area_rank(a.kind) as i128
}

fn road_key(a: &SceneRoad) -> (r: i128)
    ensures
        r == key_number((a.layer, 1, road_rank_of(a.kind))),
{
    a.layer as i128 * 65536 + 256 + road_rank(a.kind) as i128
}

/// The base geometries of a scene in draw order, so that lower layers / areas render
/// before higher layers / roads.
pub fn draw_order(scene: &Scene) -> (r: Vec<Base>)
    ensures
        is_painters_order(r@, *scene),
        r@.len() == base_count(*scene),
{
    let n: usize = scene.areas.len();
    let m: usize = scene.roads.len();
    let ghost want = base_keys(*scene);
    let mut keys: Vec<i128> = Vec::new();
    let mut i: usize = 0;
    while i < n
        invariant
            i <= n,
            n == scene.areas@.len(),
            m == scene.roads@.len(),
            want == base_keys(*scene),
            keys@ == want.take(i as int),
        decreases n - i,
    {
        keys.push(area_key(&scene.areas[i]));
        assert(want[i as int] == key_number(order_key(*scene, Base::Area(i))));
        i = i + 1;
        assert(keys@ =~= want.take(i as int));
    }
    let mut i: usize = 0;
    while i < m
        invariant
            i <= m,
            n == scene.areas@.len(),
            m == scene.roads@.len(),
            want == base_keys(*scene),
            keys@ == want.take(n + i),
        decreases m - i,
    {
        keys.push(road_key(&scene.roads[i]));
        assert(want[n + i] == key_number(order_key(*scene, Base::Road(i))));
        i = i + 1;
        assert(keys@ =~= want.take(n + i));
    }
    assert(keys@ =~= want);
    let order: Vec<usize> = sort_order(&keys);
    let mut r: Vec<Base> = Vec::new();
    let mut k: usize = 0;
    while k < order.len()
        invariant
            k <= order@.len(),
            n == scene.areas@.len(),
            m == scene.roads@.len(),
            want == base_keys(*scene),
            is_stable_order(order@, want),
            r@.len() == k,
            forall|j: int| 0 <= j < k ==> #[trigger] r@[j] == base_at(*scene, order@[j] as int),
        decreases order@.len() - k,
    {
        let j: usize = order[k];
        r.push(
            if j < n {
                Base::Area(j)
            } else {
                Base::Road(j - n)
            },
        );
        k = k + 1;
    }
    assert(r@ =~= Seq::new(order@.len(), |i: int| base_at(*scene, order@[i] as int)));
    r
}

/// Areas render under roads of the same layer, and lower layers first: in a drawn list no
/// geometry comes before one with a smaller key.
pub proof fn draw_order_ascends(r: Seq<Base>, s: Scene, i: int, j: int)
    requires
        is_painters_order(r, s),
        0 <= i < j < r.len(),
    ensures
        key_number(order_key(s, r[i])) <= key_number(order_key(s, r[j])),
{
    let order = choose|order: Seq<usize>|
        #![trigger is_stable_order(order, base_keys(s))]
        is_stable_order(order, base_keys(s)) && r == Seq::new(
            order.len(),
            |i: int| base_at(s, order[i] as int),
        );
    assert(r[i] == base_at(s, order[i] as int));
    assert(r[j] == base_at(s, order[j] as int));
    assert(base_keys(s)[order[i] as int] <= base_keys(s)[order[j] as int]);
}

} // verus!
