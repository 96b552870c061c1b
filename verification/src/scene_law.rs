//! Where the shapes of the visible tiles stand in a scene, and which of them are in it.

use vstd::prelude::*;

use crate::blend::blended;
use crate::bytes::pow2n;
use crate::decode::DecodedTile;
use crate::feature::AreaKind;
use crate::record::Point;
use crate::scene::{
    area_keys, areas_view, closed_ring, composition_of, first_exact_zoom, frame_of, gathered,
    in_draw_order, is_feature, is_scene_of, labels_view, scene_area, scene_label, scene_poi,
    scene_point, scene_points, scene_road, shown_areas, shown_labels, shown_pois, shown_roads,
    slots_view, Feature, Scene, SceneAreaView, SceneLabelView, ScenePoi, SlotView, VisibleTile,
};
use crate::sort::is_stable_order;
use crate::tile_model::{AreaView, LabelView, PoiView, RoadView};
use crate::weld::roads_view;
use crate::weld_law::{covered, has_vertex, stroke_of, weld_conserves, within};
use crate::weld_model::{weld_tolerance, weldable, welded, StrokeView};

verus! {

// ---- places ----

/// By how much the data of a slot are scaled up: doubled for each zoom that they are coarser
/// than the scene.
pub open spec fn scale(v: SlotView, target: u8) -> int {
    if v.source.z < target {
        pow2n((target - v.source.z) as nat) as int
    } else {
        1
    }
}

/// `at` is where point `p` of a slot's data stands in the scene, in the 32 bits that scene
/// coordinates have: the tile's column and row times its extent plus the point's own x and
/// y, scaled up.
#[verifier::opaque]
pub open spec fn stands_at(at: [i32; 2], v: SlotView, target: u8, p: Point) -> bool {
    &&& (at[0] - (v.source.x * v.data.extent + p.0) * scale(v, target)) % 0x1_0000_0000 == 0
    &&& (at[1] - (v.source.y * v.data.extent + p.1) * scale(v, target)) % 0x1_0000_0000 == 0
}

/// `c` runs through the places of the points `ps`.
pub open spec fn line_at(c: Seq<[i32; 2]>, v: SlotView, target: u8, ps: Seq<Point>) -> bool {
    c.len() == ps.len() && forall|i: int|
        0 <= i < c.len() ==> stands_at(#[trigger] c[i], v, target, ps[i])
}

proof fn lemma_wraps(x: int, c: i32)
    requires
        c == crate::bytes::i32_of(x),
    ensures
        (c - x) % 0x1_0000_0000 == 0,
{
    let m: int = 0x1_0000_0000;
    vstd::arithmetic::div_mod::lemma_fundamental_div_mod(x, m);
    let q = x / m;
    if x % m < 0x8000_0000 {
        assert(c - x == m * (-q)) by (nonlinear_arith)
            requires
                x == m * q + x % m,
                c == x % m,
        ;
        vstd::arithmetic::div_mod::lemma_mod_multiples_basic(-q, m);
    } else {
        assert(c - x == m * (-q - 1)) by (nonlinear_arith)
            requires
                x == m * q + x % m,
                c == x % m - m,
        ;
        vstd::arithmetic::div_mod::lemma_mod_multiples_basic(-q - 1, m);
    }
}

pub proof fn lemma_stands(v: SlotView, target: u8, p: Point)
    ensures
        stands_at(scene_point(frame_of(v, target), p), v, target, p),
{
    reveal(stands_at);
    let f = frame_of(v, target);
    assert(pow2n(0) == 1);
    assert(pow2n(f.shift) == scale(v, target));
    lemma_wraps((v.source.x * v.data.extent + p.0) * pow2n(f.shift), scene_point(f, p)[0]);
    lemma_wraps((v.source.y * v.data.extent + p.1) * pow2n(f.shift), scene_point(f, p)[1]);
}

pub proof fn lemma_line(v: SlotView, target: u8, ps: Seq<Point>)
    ensures
        line_at(scene_points(frame_of(v, target), ps), v, target, ps),
{
    let c = scene_points(frame_of(v, target), ps);
    assert forall|i: int| 0 <= i < c.len() implies stands_at(#[trigger] c[i], v, target, ps[i]) by {
        lemma_stands(v, target, ps[i]);
    }
}

/// A point of a tile that is drawn at its own zoom stands within the tile's square, where
/// the tile's points lie in the tile and the square in the scene.
pub proof fn exact_tiles_fill_their_square(at: [i32; 2], v: SlotView, target: u8, p: Point)
    requires
        stands_at(at, v, target, p),
        v.source == v.tile,
        v.tile.z == target,
        0 <= p.0 <= v.data.extent,
        0 <= p.1 <= v.data.extent,
        (v.tile.x + 1) * v.data.extent <= i32::MAX,
        (v.tile.y + 1) * v.data.extent <= i32::MAX,
    ensures
        v.tile.x * v.data.extent <= at[0] <= (v.tile.x + 1) * v.data.extent,
        v.tile.y * v.data.extent <= at[1] <= (v.tile.y + 1) * v.data.extent,
        at[0] == v.tile.x * v.data.extent + p.0,
        at[1] == v.tile.y * v.data.extent + p.1,
{
    reveal(stands_at);
    let e = v.data.extent as int;
    let (x, y) = (v.tile.x as int, v.tile.y as int);
    assert((x + 1) * e == x * e + e && (y + 1) * e == y * e + e && x * e >= 0 && y * e >= 0)
        by (nonlinear_arith)
        requires
            x >= 0,
            y >= 0,
            e >= 0,
    ;
    let (a, b) = (x * e + p.0, y * e + p.1);
    assert(a * scale(v, target) == a && b * scale(v, target) == b) by (nonlinear_arith)
        requires
            scale(v, target) == 1,
    ;
    assert(at[0] == a) by (nonlinear_arith)
        requires
            (at[0] - a) % 0x1_0000_0000 == 0,
            -0x8000_0000 <= at[0] <= 0x7fff_ffff,
            0 <= a <= 0x7fff_ffff,
    ;
    assert(at[1] == b) by (nonlinear_arith)
        requires
            (at[1] - b) % 0x1_0000_0000 == 0,
            -0x8000_0000 <= at[1] <= 0x7fff_ffff,
            0 <= b <= 0x7fff_ffff,
    ;
}

// ---- areas ----

/// The area, vertex by vertex at its place, with all that is known of it.
pub open spec fn area_at(out: SceneAreaView, v: SlotView, target: u8, a: AreaView) -> bool {
    &&& out.kind == a.kind && out.layer == a.layer && out.floors == a.floors
    &&& out.clip == a.clip
    &&& out.rings.len() == a.rings.len()
    &&& forall|i: int| 0 <= i < a.rings.len() ==> line_at(#[trigger] out.rings[i], v, target, a.rings[i])
}

/// `out` is one of the areas of a slot that a camera at `zoom` shows.
pub open spec fn shown_area(out: SceneAreaView, v: SlotView, target: u8, zoom: u8) -> bool {
    exists|j: int|
        0 <= j < v.data.areas.len() && (#[trigger] v.data.areas[j]).kind.display_min_zoom() <= zoom
            && area_at(out, v, target, v.data.areas[j])
}

/// How many of the areas a camera at `zoom` shows.
pub open spec fn area_count(s: Seq<AreaView>, zoom: u8) -> nat
    decreases s.len(),
{
    if s.len() == 0 {
        0
    } else {
        area_count(s.drop_last(), zoom) + if s.last().kind.display_min_zoom() <= zoom {
            1nat
        } else {
            0
        }
    }
}

/// Some of the areas in `s` is the one.
pub open spec fn some_area(s: Seq<SceneAreaView>, v: SlotView, target: u8, a: AreaView) -> bool {
    exists|k: int| 0 <= k < s.len() && area_at(#[trigger] s[k], v, target, a)
}

proof fn lemma_area(v: SlotView, target: u8, a: AreaView)
    ensures
        area_at(scene_area(frame_of(v, target), a), v, target, a),
{
    let out = scene_area(frame_of(v, target), a);
    assert forall|i: int| 0 <= i < a.rings.len() implies line_at(
        #[trigger] out.rings[i],
        v,
        target,
        a.rings[i],
    ) by {
        lemma_line(v, target, a.rings[i]);
    }
}

spec fn picks_area(out: SceneAreaView, v: SlotView, target: u8, s: Seq<AreaView>, zoom: u8) -> bool {
    exists|j: int|
        0 <= j < s.len() && (#[trigger] s[j]).kind.display_min_zoom() <= zoom && area_at(
            out,
            v,
            target,
            s[j],
        )
}

proof fn lemma_shown_areas(v: SlotView, target: u8, s: Seq<AreaView>, zoom: u8)
    ensures
        ({
            let out = shown_areas(frame_of(v, target), s, zoom);
            &&& out.len() == area_count(s, zoom)
            &&& forall|k: int| 0 <= k < out.len() ==> picks_area(#[trigger] out[k], v, target, s, zoom)
            &&& forall|j: int|
                0 <= j < s.len() && (#[trigger] s[j]).kind.display_min_zoom() <= zoom ==> some_area(
                    out,
                    v,
                    target,
                    s[j],
                )
        }),
    decreases s.len(),
{
    if s.len() > 0 {
        let f = frame_of(v, target);
        let front = s.drop_last();
        lemma_shown_areas(v, target, front, zoom);
        lemma_area(v, target, s.last());
        let sub = shown_areas(f, front, zoom);
        let out = shown_areas(f, s, zoom);
        assert forall|k: int| 0 <= k < out.len() implies picks_area(
            #[trigger] out[k],
            v,
            target,
            s,
            zoom,
        ) by {
            if k < sub.len() {
                assert(out[k] == sub[k]);
                let j = choose|j: int|
                    0 <= j < front.len() && (#[trigger] front[j]).kind.display_min_zoom() <= zoom
                        && area_at(sub[k], v, target, front[j]);
                assert(s[j] == front[j]);
            } else {
                assert(s[s.len() - 1] == s.last());
            }
        }
        assert forall|j: int|
            0 <= j < s.len() && (#[trigger] s[j]).kind.display_min_zoom() <= zoom implies some_area(
            out,
            v,
            target,
            s[j],
        ) by {
            if j < front.len() {
                assert(front[j] == s[j]);
                assert(some_area(sub, v, target, front[j]));
                let k = choose|k: int|
                    0 <= k < sub.len() && area_at(#[trigger] sub[k], v, target, front[j]);
                assert(area_at(out[k], v, target, s[j]));
            } else {
                assert(area_at(out[sub.len() as int], v, target, s[j]));
            }
        }
    }
}

/// One of the areas of some slot.
pub open spec fn area_of_some_slot(out: SceneAreaView, vis: Seq<SlotView>, target: u8, zoom: u8) -> bool {
    exists|i: int| 0 <= i < vis.len() && shown_area(out, #[trigger] vis[i], target, zoom)
}

/// How many of the areas of all slots a camera at `zoom` shows.
pub open spec fn area_total(vis: Seq<SlotView>, zoom: u8) -> nat
    decreases vis.len(),
{
    if vis.len() == 0 {
        0
    } else {
        area_total(vis.drop_last(), zoom) + area_count(vis.last().data.areas, zoom)
    }
}

proof fn lemma_gathered_areas(vis: Seq<SlotView>, target: u8, zoom: u8)
    ensures
        gathered(vis, target, zoom).areas.len() == area_total(vis, zoom),
        forall|k: int|
            0 <= k < gathered(vis, target, zoom).areas.len() ==> area_of_some_slot(
                #[trigger] gathered(vis, target, zoom).areas[k],
                vis,
                target,
                zoom,
            ),
    decreases vis.len(),
{
    if vis.len() > 0 {
        let front = vis.drop_last();
        let v = vis.last();
        lemma_gathered_areas(front, target, zoom);
        lemma_shown_areas(v, target, v.data.areas, zoom);
        let sub = gathered(front, target, zoom).areas;
        let own = shown_areas(frame_of(v, target), v.data.areas, zoom);
        let out = gathered(vis, target, zoom).areas;
        assert(out == sub + own);
        assert forall|k: int| 0 <= k < out.len() implies area_of_some_slot(
            #[trigger] out[k],
            vis,
            target,
            zoom,
        ) by {
            if k < sub.len() {
                assert(out[k] == sub[k]);
                let i = choose|i: int|
                    0 <= i < front.len() && shown_area(sub[k], #[trigger] front[i], target, zoom);
                assert(vis[i] == front[i]);
            } else {
                assert(out[k] == own[k - sub.len()]);
                assert(picks_area(own[k - sub.len()], v, target, v.data.areas, zoom));
                assert(shown_area(out[k], vis[vis.len() - 1], target, zoom));
            }
        }
    }
}

proof fn lemma_gathered_has_area(vis: Seq<SlotView>, target: u8, zoom: u8, i: int, j: int)
    requires
        0 <= i < vis.len(),
        0 <= j < vis[i].data.areas.len(),
        vis[i].data.areas[j].kind.display_min_zoom() <= zoom,
    ensures
        some_area(gathered(vis, target, zoom).areas, vis[i], target, vis[i].data.areas[j]),
    decreases vis.len(),
{
    let front = vis.drop_last();
    let v = vis.last();
    let sub = gathered(front, target, zoom).areas;
    let own = shown_areas(frame_of(v, target), v.data.areas, zoom);
    let out = gathered(vis, target, zoom).areas;
    assert(out == sub + own);
    let a = vis[i].data.areas[j];
    if i < front.len() {
        assert(front[i] == vis[i]);
        lemma_gathered_has_area(front, target, zoom, i, j);
        let k = choose|k: int| 0 <= k < sub.len() && area_at(#[trigger] sub[k], vis[i], target, a);
        assert(area_at(out[k], vis[i], target, a));
    } else {
        lemma_shown_areas(v, target, v.data.areas, zoom);
        assert(v == vis[i]);
        assert(v.data.areas[j] == a);
        assert(some_area(own, v, target, a));
        let k = choose|k: int| 0 <= k < own.len() && area_at(#[trigger] own[k], v, target, a);
        assert(area_at(out[sub.len() + k], vis[i], target, a));
    }
}

// ---- labels ----

/// The label at its place.
pub open spec fn label_at(out: SceneLabelView, v: SlotView, target: u8, a: LabelView) -> bool {
    &&& out.class == a.class && out.rank == a.rank && out.name == a.name
    &&& stands_at(out.anchor, v, target, a.anchor)
}

/// `out` is one of the labels of a slot that a camera at `zoom` shows.
pub open spec fn shown_label(out: SceneLabelView, v: SlotView, target: u8, zoom: u8) -> bool {
    exists|j: int|
        0 <= j < v.data.labels.len() && (#[trigger] v.data.labels[j]).class.display_min_zoom() <= zoom
            && label_at(out, v, target, v.data.labels[j])
}

/// How many of the labels a camera at `zoom` shows.
pub open spec fn label_count(s: Seq<LabelView>, zoom: u8) -> nat
    decreases s.len(),
{
    if s.len() == 0 {
        0
    } else {
        label_count(s.drop_last(), zoom) + if s.last().class.display_min_zoom() <= zoom {
            1nat
        } else {
            0
        }
    }
}

/// Some of the labels in `s` is the one.
pub open spec fn some_label(s: Seq<SceneLabelView>, v: SlotView, target: u8, a: LabelView) -> bool {
    exists|k: int| 0 <= k < s.len() && label_at(#[trigger] s[k], v, target, a)
}

proof fn lemma_label(v: SlotView, target: u8, a: LabelView)
    ensures
        label_at(scene_label(frame_of(v, target), a), v, target, a),
{
    lemma_stands(v, target, a.anchor);
}

spec fn picks_label(out: SceneLabelView, v: SlotView, target: u8, s: Seq<LabelView>, zoom: u8) -> bool {
    exists|j: int|
        0 <= j < s.len() && (#[trigger] s[j]).class.display_min_zoom() <= zoom && label_at(
            out,
            v,
            target,
            s[j],
        )
}

proof fn lemma_shown_labels(v: SlotView, target: u8, s: Seq<LabelView>, zoom: u8)
    ensures
        ({
            let out = shown_labels(frame_of(v, target), s, zoom);
            &&& out.len() == label_count(s, zoom)
            &&& forall|k: int| 0 <= k < out.len() ==> picks_label(#[trigger] out[k], v, target, s, zoom)
            &&& forall|j: int|
                0 <= j < s.len() && (#[trigger] s[j]).class.display_min_zoom() <= zoom ==> some_label(
                    out,
                    v,
                    target,
                    s[j],
                )
        }),
    decreases s.len(),
{
    if s.len() > 0 {
        let f = frame_of(v, target);
        let front = s.drop_last();
        lemma_shown_labels(v, target, front, zoom);
        lemma_label(v, target, s.last());
        let sub = shown_labels(f, front, zoom);
        let out = shown_labels(f, s, zoom);
        assert forall|k: int| 0 <= k < out.len() implies picks_label(
            #[trigger] out[k],
            v,
            target,
            s,
            zoom,
        ) by {
            if k < sub.len() {
                assert(out[k] == sub[k]);
                let j = choose|j: int|
                    0 <= j < front.len() && (#[trigger] front[j]).class.display_min_zoom() <= zoom
                        && label_at(sub[k], v, target, front[j]);
                assert(s[j] == front[j]);
            } else {
                assert(s[s.len() - 1] == s.last());
            }
        }
        assert forall|j: int|
            0 <= j < s.len() && (#[trigger] s[j]).class.display_min_zoom() <= zoom implies some_label(
            out,
            v,
            target,
            s[j],
        ) by {
            if j < front.len() {
                assert(front[j] == s[j]);
                assert(some_label(sub, v, target, front[j]));
                let k = choose|k: int|
                    0 <= k < sub.len() && label_at(#[trigger] sub[k], v, target, front[j]);
                assert(label_at(out[k], v, target, s[j]));
            } else {
                assert(label_at(out[sub.len() as int], v, target, s[j]));
            }
        }
    }
}

/// One of the labels of some slot.
pub open spec fn label_of_some_slot(out: SceneLabelView, vis: Seq<SlotView>, target: u8, zoom: u8) -> bool {
    exists|i: int| 0 <= i < vis.len() && shown_label(out, #[trigger] vis[i], target, zoom)
}

/// How many of the labels of all slots a camera at `zoom` shows.
pub open spec fn label_total(vis: Seq<SlotView>, zoom: u8) -> nat
    decreases vis.len(),
{
    if vis.len() == 0 {
        0
    } else {
        label_total(vis.drop_last(), zoom) + label_count(vis.last().data.labels, zoom)
    }
}

proof fn lemma_gathered_labels(vis: Seq<SlotView>, target: u8, zoom: u8)
    ensures
        gathered(vis, target, zoom).labels.len() == label_total(vis, zoom),
        forall|k: int|
            0 <= k < gathered(vis, target, zoom).labels.len() ==> label_of_some_slot(
                #[trigger] gathered(vis, target, zoom).labels[k],
                vis,
                target,
                zoom,
            ),
    decreases vis.len(),
{
    if vis.len() > 0 {
        let front = vis.drop_last();
        let v = vis.last();
        lemma_gathered_labels(front, target, zoom);
        lemma_shown_labels(v, target, v.data.labels, zoom);
        let sub = gathered(front, target, zoom).labels;
        let own = shown_labels(frame_of(v, target), v.data.labels, zoom);
        let out = gathered(vis, target, zoom).labels;
        assert(out == sub + own);
        assert forall|k: int| 0 <= k < out.len() implies label_of_some_slot(
            #[trigger] out[k],
            vis,
            target,
            zoom,
        ) by {
            if k < sub.len() {
                assert(out[k] == sub[k]);
                let i = choose|i: int|
                    0 <= i < front.len() && shown_label(sub[k], #[trigger] front[i], target, zoom);
                assert(vis[i] == front[i]);
            } else {
                assert(out[k] == own[k - sub.len()]);
                assert(picks_label(own[k - sub.len()], v, target, v.data.labels, zoom));
                assert(shown_label(out[k], vis[vis.len() - 1], target, zoom));
            }
        }
    }
}

proof fn lemma_gathered_has_label(vis: Seq<SlotView>, target: u8, zoom: u8, i: int, j: int)
    requires
        0 <= i < vis.len(),
        0 <= j < vis[i].data.labels.len(),
        vis[i].data.labels[j].class.display_min_zoom() <= zoom,
    ensures
        some_label(gathered(vis, target, zoom).labels, vis[i], target, vis[i].data.labels[j]),
    decreases vis.len(),
{
    let front = vis.drop_last();
    let v = vis.last();
    let sub = gathered(front, target, zoom).labels;
    let own = shown_labels(frame_of(v, target), v.data.labels, zoom);
    let out = gathered(vis, target, zoom).labels;
    assert(out == sub + own);
    let a = vis[i].data.labels[j];
    if i < front.len() {
        assert(front[i] == vis[i]);
        lemma_gathered_has_label(front, target, zoom, i, j);
        let k = choose|k: int| 0 <= k < sub.len() && label_at(#[trigger] sub[k], vis[i], target, a);
        assert(label_at(out[k], vis[i], target, a));
    } else {
        lemma_shown_labels(v, target, v.data.labels, zoom);
        assert(v == vis[i]);
        assert(v.data.labels[j] == a);
        assert(some_label(own, v, target, a));
        let k = choose|k: int| 0 <= k < own.len() && label_at(#[trigger] own[k], v, target, a);
        assert(label_at(out[sub.len() + k], vis[i], target, a));
    }
}

// ---- pois ----

/// The symbol at its place.
pub open spec fn poi_at(out: ScenePoi, v: SlotView, target: u8, a: PoiView) -> bool {
    &&& out.kind == a.kind
    &&& stands_at(out.anchor, v, target, a.anchor)
}

/// `out` is one of the pois of a slot that a camera at `zoom` shows.
pub open spec fn shown_poi(out: ScenePoi, v: SlotView, target: u8, zoom: u8) -> bool {
    exists|j: int|
        0 <= j < v.data.pois.len() && (#[trigger] v.data.pois[j]).kind.display_min_zoom() <= zoom
            && poi_at(out, v, target, v.data.pois[j])
}

/// How many of the pois a camera at `zoom` shows.
pub open spec fn poi_count(s: Seq<PoiView>, zoom: u8) -> nat
    decreases s.len(),
{
    if s.len() == 0 {
        0
    } else {
        poi_count(s.drop_last(), zoom) + if s.last().kind.display_min_zoom() <= zoom {
            1nat
        } else {
            0
        }
    }
}

/// Some of the pois in `s` is the one.
pub open spec fn some_poi(s: Seq<ScenePoi>, v: SlotView, target: u8, a: PoiView) -> bool {
    exists|k: int| 0 <= k < s.len() && poi_at(#[trigger] s[k], v, target, a)
}

proof fn lemma_poi(v: SlotView, target: u8, a: PoiView)
    ensures
        poi_at(scene_poi(frame_of(v, target), a), v, target, a),
{
    lemma_stands(v, target, a.anchor);
}

spec fn picks_poi(out: ScenePoi, v: SlotView, target: u8, s: Seq<PoiView>, zoom: u8) -> bool {
    exists|j: int|
        0 <= j < s.len() && (#[trigger] s[j]).kind.display_min_zoom() <= zoom && poi_at(
            out,
            v,
            target,
            s[j],
        )
}

proof fn lemma_shown_pois(v: SlotView, target: u8, s: Seq<PoiView>, zoom: u8)
    ensures
        ({
            let out = shown_pois(frame_of(v, target), s, zoom);
            &&& out.len() == poi_count(s, zoom)
            &&& forall|k: int| 0 <= k < out.len() ==> picks_poi(#[trigger] out[k], v, target, s, zoom)
            &&& forall|j: int|
                0 <= j < s.len() && (#[trigger] s[j]).kind.display_min_zoom() <= zoom ==> some_poi(
                    out,
                    v,
                    target,
                    s[j],
                )
        }),
    decreases s.len(),
{
    if s.len() > 0 {
        let f = frame_of(v, target);
        let front = s.drop_last();
        lemma_shown_pois(v, target, front, zoom);
        lemma_poi(v, target, s.last());
        let sub = shown_pois(f, front, zoom);
        let out = shown_pois(f, s, zoom);
        assert forall|k: int| 0 <= k < out.len() implies picks_poi(
            #[trigger] out[k],
            v,
            target,
            s,
            zoom,
        ) by {
            if k < sub.len() {
                assert(out[k] == sub[k]);
                let j = choose|j: int|
                    0 <= j < front.len() && (#[trigger] front[j]).kind.display_min_zoom() <= zoom
                        && poi_at(sub[k], v, target, front[j]);
                assert(s[j] == front[j]);
            } else {
                assert(s[s.len() - 1] == s.last());
            }
        }
        assert forall|j: int|
            0 <= j < s.len() && (#[trigger] s[j]).kind.display_min_zoom() <= zoom implies some_poi(
            out,
            v,
            target,
            s[j],
        ) by {
            if j < front.len() {
                assert(front[j] == s[j]);
                assert(some_poi(sub, v, target, front[j]));
                let k = choose|k: int|
                    0 <= k < sub.len() && poi_at(#[trigger] sub[k], v, target, front[j]);
                assert(poi_at(out[k], v, target, s[j]));
            } else {
                assert(poi_at(out[sub.len() as int], v, target, s[j]));
            }
        }
    }
}

/// One of the pois of some slot.
pub open spec fn poi_of_some_slot(out: ScenePoi, vis: Seq<SlotView>, target: u8, zoom: u8) -> bool {
    exists|i: int| 0 <= i < vis.len() && shown_poi(out, #[trigger] vis[i], target, zoom)
}

/// How many of the pois of all slots a camera at `zoom` shows.
pub open spec fn poi_total(vis: Seq<SlotView>, zoom: u8) -> nat
    decreases vis.len(),
{
    if vis.len() == 0 {
        0
    } else {
        poi_total(vis.drop_last(), zoom) + poi_count(vis.last().data.pois, zoom)
    }
}

proof fn lemma_gathered_pois(vis: Seq<SlotView>, target: u8, zoom: u8)
    ensures
        gathered(vis, target, zoom).pois.len() == poi_total(vis, zoom),
        forall|k: int|
            0 <= k < gathered(vis, target, zoom).pois.len() ==> poi_of_some_slot(
                #[trigger] gathered(vis, target, zoom).pois[k],
                vis,
                target,
                zoom,
            ),
    decreases vis.len(),
{
    if vis.len() > 0 {
        let front = vis.drop_last();
        let v = vis.last();
        lemma_gathered_pois(front, target, zoom);
        lemma_shown_pois(v, target, v.data.pois, zoom);
        let sub = gathered(front, target, zoom).pois;
        let own = shown_pois(frame_of(v, target), v.data.pois, zoom);
        let out = gathered(vis, target, zoom).pois;
        assert(out == sub + own);
        assert forall|k: int| 0 <= k < out.len() implies poi_of_some_slot(
            #[trigger] out[k],
            vis,
            target,
            zoom,
        ) by {
            if k < sub.len() {
                assert(out[k] == sub[k]);
                let i = choose|i: int|
                    0 <= i < front.len() && shown_poi(sub[k], #[trigger] front[i], target, zoom);
                assert(vis[i] == front[i]);
            } else {
                assert(out[k] == own[k - sub.len()]);
                assert(picks_poi(own[k - sub.len()], v, target, v.data.pois, zoom));
                assert(shown_poi(out[k], vis[vis.len() - 1], target, zoom));
            }
        }
    }
}

proof fn lemma_gathered_has_poi(vis: Seq<SlotView>, target: u8, zoom: u8, i: int, j: int)
    requires
        0 <= i < vis.len(),
        0 <= j < vis[i].data.pois.len(),
        vis[i].data.pois[j].kind.display_min_zoom() <= zoom,
    ensures
        some_poi(gathered(vis, target, zoom).pois, vis[i], target, vis[i].data.pois[j]),
    decreases vis.len(),
{
    let front = vis.drop_last();
    let v = vis.last();
    let sub = gathered(front, target, zoom).pois;
    let own = shown_pois(frame_of(v, target), v.data.pois, zoom);
    let out = gathered(vis, target, zoom).pois;
    assert(out == sub + own);
    let a = vis[i].data.pois[j];
    if i < front.len() {
        assert(front[i] == vis[i]);
        lemma_gathered_has_poi(front, target, zoom, i, j);
        let k = choose|k: int| 0 <= k < sub.len() && poi_at(#[trigger] sub[k], vis[i], target, a);
        assert(poi_at(out[k], vis[i], target, a));
    } else {
        lemma_shown_pois(v, target, v.data.pois, zoom);
        assert(v == vis[i]);
        assert(v.data.pois[j] == a);
        assert(some_poi(own, v, target, a));
        let k = choose|k: int| 0 <= k < own.len() && poi_at(#[trigger] own[k], v, target, a);
        assert(poi_at(out[sub.len() + k], vis[i], target, a));
    }
}

// ---- roads ----

/// The road, vertex by vertex at its place, with its lanes along all of it.
pub open spec fn road_at(out: StrokeView, v: SlotView, target: u8, a: RoadView) -> bool {
    &&& out.kind == a.kind && out.layer == a.layer && out.structure == a.structure
    &&& out.start == a.start && out.end == a.end && out.name == a.name
    &&& line_at(out.coords, v, target, a.coords)
    &&& out.lanes.len() == a.coords.len()
    &&& forall|i: int| 0 <= i < out.lanes.len() ==> #[trigger] out.lanes[i] == a.lanes
}

/// `out` is one of the roads of a slot that a camera at `zoom` shows.
pub open spec fn shown_road(out: StrokeView, v: SlotView, target: u8, zoom: u8) -> bool {
    exists|j: int|
        0 <= j < v.data.roads.len() && (#[trigger] v.data.roads[j]).kind.display_min_zoom() <= zoom
            && road_at(out, v, target, v.data.roads[j])
}

/// How many of the roads a camera at `zoom` shows.
pub open spec fn road_count(s: Seq<RoadView>, zoom: u8) -> nat
    decreases s.len(),
{
    if s.len() == 0 {
        0
    } else {
        road_count(s.drop_last(), zoom) + if s.last().kind.display_min_zoom() <= zoom {
            1nat
        } else {
            0
        }
    }
}

/// Some of the roads in `s` is the one.
pub open spec fn some_road(s: Seq<StrokeView>, v: SlotView, target: u8, a: RoadView) -> bool {
    exists|k: int| 0 <= k < s.len() && road_at(#[trigger] s[k], v, target, a)
}

proof fn lemma_road(v: SlotView, target: u8, a: RoadView)
    ensures
        road_at(scene_road(frame_of(v, target), a), v, target, a),
{
    lemma_line(v, target, a.coords);
}

spec fn picks_road(out: StrokeView, v: SlotView, target: u8, s: Seq<RoadView>, zoom: u8) -> bool {
    exists|j: int|
        0 <= j < s.len() && (#[trigger] s[j]).kind.display_min_zoom() <= zoom && road_at(
            out,
            v,
            target,
            s[j],
        )
}

proof fn lemma_shown_roads(v: SlotView, target: u8, s: Seq<RoadView>, zoom: u8)
    ensures
        ({
            let out = shown_roads(frame_of(v, target), s, zoom);
            &&& out.len() == road_count(s, zoom)
            &&& forall|k: int| 0 <= k < out.len() ==> picks_road(#[trigger] out[k], v, target, s, zoom)
            &&& forall|j: int|
                0 <= j < s.len() && (#[trigger] s[j]).kind.display_min_zoom() <= zoom ==> some_road(
                    out,
                    v,
                    target,
                    s[j],
                )
        }),
    decreases s.len(),
{
    if s.len() > 0 {
        let f = frame_of(v, target);
        let front = s.drop_last();
        lemma_shown_roads(v, target, front, zoom);
        lemma_road(v, target, s.last());
        let sub = shown_roads(f, front, zoom);
        let out = shown_roads(f, s, zoom);
        assert forall|k: int| 0 <= k < out.len() implies picks_road(
            #[trigger] out[k],
            v,
            target,
            s,
            zoom,
        ) by {
            if k < sub.len() {
                assert(out[k] == sub[k]);
                let j = choose|j: int|
                    0 <= j < front.len() && (#[trigger] front[j]).kind.display_min_zoom() <= zoom
                        && road_at(sub[k], v, target, front[j]);
                assert(s[j] == front[j]);
            } else {
                assert(s[s.len() - 1] == s.last());
            }
        }
        assert forall|j: int|
            0 <= j < s.len() && (#[trigger] s[j]).kind.display_min_zoom() <= zoom implies some_road(
            out,
            v,
            target,
            s[j],
        ) by {
            if j < front.len() {
                assert(front[j] == s[j]);
                assert(some_road(sub, v, target, front[j]));
                let k = choose|k: int|
                    0 <= k < sub.len() && road_at(#[trigger] sub[k], v, target, front[j]);
                assert(road_at(out[k], v, target, s[j]));
            } else {
                assert(road_at(out[sub.len() as int], v, target, s[j]));
            }
        }
    }
}

/// One of the roads of some slot.
pub open spec fn road_of_some_slot(out: StrokeView, vis: Seq<SlotView>, target: u8, zoom: u8) -> bool {
    exists|i: int| 0 <= i < vis.len() && shown_road(out, #[trigger] vis[i], target, zoom)
}

// ---- roads of all slots ----

/// Some of the roads gathered, welded or kept, is the one.
pub proof fn lemma_gathered_roads(vis: Seq<SlotView>, target: u8, zoom: u8)
    ensures
        ({
            let g = gathered(vis, target, zoom);
            &&& forall|k: int|
                0 <= k < g.weldable.len() ==> road_of_some_slot(
                    #[trigger] g.weldable[k],
                    vis,
                    target,
                    zoom,
                )
            &&& forall|k: int|
                0 <= k < g.kept.len() ==> road_of_some_slot(#[trigger] g.kept[k], vis, target, zoom)
            &&& forall|i: int, j: int|
                #![trigger vis[i].data.roads[j]]
                0 <= i < vis.len() && 0 <= j < vis[i].data.roads.len()
                    && vis[i].data.roads[j].kind.display_min_zoom() <= zoom ==> if vis[i].source
                    == vis[i].tile {
                    some_road(g.weldable, vis[i], target, vis[i].data.roads[j])
                } else {
                    some_road(g.kept, vis[i], target, vis[i].data.roads[j])
                }
        }),
    decreases vis.len(),
{
    if vis.len() > 0 {
        let front = vis.drop_last();
        let v = vis.last();
        lemma_gathered_roads(front, target, zoom);
        lemma_shown_roads(v, target, v.data.roads, zoom);
        let h = gathered(front, target, zoom);
        let own = shown_roads(frame_of(v, target), v.data.roads, zoom);
        let g = gathered(vis, target, zoom);
        let exact = v.source == v.tile;
        let nothing = Seq::<StrokeView>::empty();
        let (a, b) = if exact {
            (own, nothing)
        } else {
            (nothing, own)
        };
        assert(g.weldable =~= h.weldable + a);
        assert(g.kept =~= h.kept + b);
        assert forall|k: int| 0 <= k < own.len() implies road_of_some_slot(
            #[trigger] own[k],
            vis,
            target,
            zoom,
        ) by {
            assert(picks_road(own[k], v, target, v.data.roads, zoom));
            assert(shown_road(own[k], vis[vis.len() - 1], target, zoom));
        }
        assert forall|k: int| 0 <= k < g.weldable.len() implies road_of_some_slot(
            #[trigger] g.weldable[k],
            vis,
            target,
            zoom,
        ) by {
            if k < h.weldable.len() {
                assert(g.weldable[k] == h.weldable[k]);
                lemma_slot_stays(h.weldable[k], front, v, target, zoom);
                assert(front.push(v) =~= vis);
            } else {
                assert(g.weldable[k] == own[k - h.weldable.len()]);
            }
        }
        assert forall|k: int| 0 <= k < g.kept.len() implies road_of_some_slot(
            #[trigger] g.kept[k],
            vis,
            target,
            zoom,
        ) by {
            if k < h.kept.len() {
                assert(g.kept[k] == h.kept[k]);
                lemma_slot_stays(h.kept[k], front, v, target, zoom);
                assert(front.push(v) =~= vis);
            } else {
                assert(g.kept[k] == own[k - h.kept.len()]);
            }
        }
        assert forall|i: int, j: int|
            #![trigger vis[i].data.roads[j]]
            0 <= i < vis.len() && 0 <= j < vis[i].data.roads.len()
                && vis[i].data.roads[j].kind.display_min_zoom() <= zoom implies if vis[i].source
            == vis[i].tile {
            some_road(g.weldable, vis[i], target, vis[i].data.roads[j])
        } else {
            some_road(g.kept, vis[i], target, vis[i].data.roads[j])
        } by {
            let r = vis[i].data.roads[j];
            if i < front.len() {
                assert(front[i].data.roads[j] == r);
                if vis[i].source == vis[i].tile {
                    lemma_some_road_grows(h.weldable, a, vis[i], target, r);
                } else {
                    lemma_some_road_grows(h.kept, b, vis[i], target, r);
                }
            } else {
                assert(some_road(own, v, target, r));
                if exact {
                    lemma_some_road_grows(h.weldable, a, v, target, r);
                } else {
                    lemma_some_road_grows(h.kept, b, v, target, r);
                }
            }
        }
    }
}

proof fn lemma_slot_stays(r: StrokeView, front: Seq<SlotView>, v: SlotView, target: u8, zoom: u8)
    requires
        road_of_some_slot(r, front, target, zoom),
    ensures
        road_of_some_slot(r, front.push(v), target, zoom),
{
    let i = choose|i: int| 0 <= i < front.len() && shown_road(r, #[trigger] front[i], target, zoom);
    assert(shown_road(r, front.push(v)[i], target, zoom));
}

proof fn lemma_some_road_grows(
    a: Seq<StrokeView>,
    b: Seq<StrokeView>,
    v: SlotView,
    target: u8,
    r: RoadView,
)
    requires
        some_road(a, v, target, r) || some_road(b, v, target, r),
    ensures
        some_road(a + b, v, target, r),
{
    if some_road(a, v, target, r) {
        let k = choose|k: int| 0 <= k < a.len() && road_at(#[trigger] a[k], v, target, r);
        assert(road_at((a + b)[k], v, target, r));
    } else {
        let k = choose|k: int| 0 <= k < b.len() && road_at(#[trigger] b[k], v, target, r);
        assert(road_at((a + b)[a.len() + k], v, target, r));
    }
}

/// `c` has a vertex where point `p` of a slot stands.
pub open spec fn passes(c: Seq<[i32; 2]>, v: SlotView, target: u8, p: Point) -> bool {
    exists|m: int| 0 <= m < c.len() && stands_at(#[trigger] c[m], v, target, p)
}

/// Some road of the scene of the same kind runs through every point of the road.
pub open spec fn road_drawn(s: Seq<StrokeView>, v: SlotView, target: u8, r: RoadView) -> bool {
    exists|k: int|
        0 <= k < s.len() && (#[trigger] s[k]).kind == r.kind && forall|q: int|
            0 <= q < r.coords.len() ==> passes(s[k].coords, v, target, #[trigger] r.coords[q])
}

/// The vertex is where some point of a shown road of a slot stands.
pub open spec fn vertex_of_some_road(
    at: [i32; 2],
    vis: Seq<SlotView>,
    target: u8,
    zoom: u8,
) -> bool {
    exists|i: int, j: int, q: int|
        #![trigger vis[i].data.roads[j].coords[q]]
        0 <= i < vis.len() && 0 <= j < vis[i].data.roads.len() && 0 <= q
            < vis[i].data.roads[j].coords.len() && vis[i].data.roads[j].kind.display_min_zoom()
            <= zoom && stands_at(at, vis[i], target, vis[i].data.roads[j].coords[q])
}

proof fn lemma_slot_vertex(r: StrokeView, vis: Seq<SlotView>, target: u8, zoom: u8, q: int)
    requires
        road_of_some_slot(r, vis, target, zoom),
        0 <= q < r.coords.len(),
    ensures
        vertex_of_some_road(r.coords[q], vis, target, zoom),
{
    let i = choose|i: int| 0 <= i < vis.len() && shown_road(r, #[trigger] vis[i], target, zoom);
    let v = vis[i];
    let j = choose|j: int|
        0 <= j < v.data.roads.len() && (#[trigger] v.data.roads[j]).kind.display_min_zoom() <= zoom
            && road_at(r, v, target, v.data.roads[j]);
    let p = vis[i].data.roads[j].coords[q];
    assert(stands_at(r.coords[q], v, target, p));
}

// ---- the scene ----

/// The scene is at the zoom of the first tile that is drawn from its own data; without
/// one, at the first tile's. Its extent is that of the last tile's data.
pub proof fn scene_zoom_and_extent(scene: Scene, vis: Seq<SlotView>, zoom: u8, i: int)
    requires
        is_scene_of(scene, vis, zoom),
        0 <= i < vis.len(),
        forall|k: int| 0 <= k < i ==> (#[trigger] vis[k]).source != vis[k].tile,
    ensures
        vis[i].source == vis[i].tile ==> scene.target_zoom == vis[i].tile.z,
        i == vis.len() - 1 && vis[i].source != vis[i].tile ==> scene.target_zoom == vis[0].tile.z,
        scene.extent == vis[vis.len() - 1].data.extent,
{
    lemma_first_exact(vis, i, vis.len());
}

proof fn lemma_first_exact(vis: Seq<SlotView>, i: int, n: nat)
    requires
        n <= vis.len(),
        0 <= i < vis.len(),
        forall|k: int| 0 <= k < i ==> (#[trigger] vis[k]).source != vis[k].tile,
    ensures
        n <= i ==> first_exact_zoom(vis, n) is None,
        n > i && vis[i].source == vis[i].tile ==> first_exact_zoom(vis, n) == Some(vis[i].tile.z),
        n == i + 1 && vis[i].source != vis[i].tile ==> first_exact_zoom(vis, n) is None,
    decreases n,
{
    if n > 0 {
        lemma_first_exact(vis, i, (n - 1) as nat);
    }
}

proof fn lemma_draw_order(out: Seq<SceneAreaView>, s: Seq<SceneAreaView>) -> (order: Seq<usize>)
    requires
        in_draw_order(out, s),
    ensures
        is_stable_order(order, area_keys(s)),
        out.len() == order.len(),
        order.len() == s.len(),
        forall|k: int| 0 <= k < out.len() ==> #[trigger] out[k] == s[order[k] as int],
{
    choose|order: Seq<usize>|
        #![trigger is_stable_order(order, area_keys(s))]
        is_stable_order(order, area_keys(s)) && out == Seq::new(
            order.len(),
            |i: int| s[order[i] as int],
        )
}

/// The areas of a scene are those of its tiles that the camera shows, each once: every
/// vertex of every ring stands where its tile, its extent and its own coordinates put it,
/// and nothing else of the area changes.
pub proof fn areas_stand_in_their_tiles(scene: Scene, vis: Seq<SlotView>, zoom: u8)
    requires
        is_scene_of(scene, vis, zoom),
    ensures
        ({
            let out = areas_view(scene.areas@);
            &&& out.len() == area_total(vis, zoom)
            &&& forall|k: int|
                0 <= k < out.len() ==> area_of_some_slot(
                    #[trigger] out[k],
                    vis,
                    scene.target_zoom,
                    zoom,
                )
            &&& forall|i: int, j: int|
                #![trigger vis[i].data.areas[j]]
                0 <= i < vis.len() && 0 <= j < vis[i].data.areas.len()
                    && vis[i].data.areas[j].kind.display_min_zoom() <= zoom ==> some_area(
                    out,
                    vis[i],
                    scene.target_zoom,
                    vis[i].data.areas[j],
                )
        }),
{
    let target = scene.target_zoom;
    let out = areas_view(scene.areas@);
    let g = gathered(vis, target, zoom).areas;
    lemma_gathered_areas(vis, target, zoom);
    let keys = area_keys(g);
    let order = lemma_draw_order(out, g);
    assert forall|k: int| 0 <= k < out.len() implies area_of_some_slot(
        #[trigger] out[k],
        vis,
        target,
        zoom,
    ) by {
        assert(order[k] < g.len());
        assert(out[k] == g[order[k] as int]);
    }
    assert forall|i: int, j: int|
        #![trigger vis[i].data.areas[j]]
        0 <= i < vis.len() && 0 <= j < vis[i].data.areas.len()
            && vis[i].data.areas[j].kind.display_min_zoom() <= zoom implies some_area(
        out,
        vis[i],
        target,
        vis[i].data.areas[j],
    ) by {
        let a = vis[i].data.areas[j];
        lemma_gathered_has_area(vis, target, zoom, i, j);
        let m = choose|m: int| 0 <= m < g.len() && area_at(#[trigger] g[m], vis[i], target, a);
        assert(keys.len() == g.len());
        assert(scene.areas.len() == out.len());
        assert(order.len() == g.len());
        assert(order.contains(m as usize));
        let k = choose|k: int| 0 <= k < order.len() && order[k] == m as usize;
        assert(area_at(out[k], vis[i], target, a));
    }
}

/// Areas come in draw order: by layer, then water, forest, grass, buildings and land, then
/// by floors.
pub proof fn areas_in_draw_order(scene: Scene, vis: Seq<SlotView>, zoom: u8, i: int, j: int)
    requires
        is_scene_of(scene, vis, zoom),
        0 <= i < j < scene.areas@.len(),
    ensures
        ({
            let (a, b) = (scene.areas@[i], scene.areas@[j]);
            let rank = |k: AreaKind|
                match k {
                    AreaKind::Water => 0int,
                    AreaKind::Forest => 1,
                    AreaKind::Grass => 2,
                    AreaKind::Building => 3,
                    AreaKind::Land => 4,
                };
            a.layer < b.layer || (a.layer == b.layer && (rank(a.kind) < rank(b.kind) || (rank(
                a.kind,
            ) == rank(b.kind) && a.floors <= b.floors)))
        }),
{
    let out = areas_view(scene.areas@);
    let g = gathered(vis, scene.target_zoom, zoom).areas;
    let order = lemma_draw_order(out, g);
    let keys = area_keys(g);
    assert(order[i] < g.len() && order[j] < g.len());
    assert(keys[order[i] as int] <= keys[order[j] as int]);
    assert(out[i] == g[order[i] as int] && out[j] == g[order[j] as int]);
    assert(out[i] == scene.areas@[i]@ && out[j] == scene.areas@[j]@);
}

/// The labels and symbols of a scene are those of its tiles that the camera shows, each
/// once, and each stands where its tile and its own coordinates put it.
pub proof fn labels_stand_in_their_tiles(scene: Scene, vis: Seq<SlotView>, zoom: u8)
    requires
        is_scene_of(scene, vis, zoom),
    ensures
        ({
            let out = labels_view(scene.labels@);
            &&& out.len() == label_total(vis, zoom)
            &&& forall|k: int|
                0 <= k < out.len() ==> label_of_some_slot(
                    #[trigger] out[k],
                    vis,
                    scene.target_zoom,
                    zoom,
                )
            &&& forall|i: int, j: int|
                #![trigger vis[i].data.labels[j]]
                0 <= i < vis.len() && 0 <= j < vis[i].data.labels.len()
                    && vis[i].data.labels[j].class.display_min_zoom() <= zoom ==> some_label(
                    out,
                    vis[i],
                    scene.target_zoom,
                    vis[i].data.labels[j],
                )
        }),
        ({
            let out = scene.pois@;
            &&& out.len() == poi_total(vis, zoom)
            &&& forall|k: int|
                0 <= k < out.len() ==> poi_of_some_slot(
                    #[trigger] out[k],
                    vis,
                    scene.target_zoom,
                    zoom,
                )
            &&& forall|i: int, j: int|
                #![trigger vis[i].data.pois[j]]
                0 <= i < vis.len() && 0 <= j < vis[i].data.pois.len()
                    && vis[i].data.pois[j].kind.display_min_zoom() <= zoom ==> some_poi(
                    out,
                    vis[i],
                    scene.target_zoom,
                    vis[i].data.pois[j],
                )
        }),
{
    let target = scene.target_zoom;
    lemma_gathered_labels(vis, target, zoom);
    lemma_gathered_pois(vis, target, zoom);
    assert forall|i: int, j: int|
        #![trigger vis[i].data.labels[j]]
        0 <= i < vis.len() && 0 <= j < vis[i].data.labels.len()
            && vis[i].data.labels[j].class.display_min_zoom() <= zoom implies some_label(
        labels_view(scene.labels@),
        vis[i],
        target,
        vis[i].data.labels[j],
    ) by {
        lemma_gathered_has_label(vis, target, zoom, i, j);
    }
    assert forall|i: int, j: int|
        #![trigger vis[i].data.pois[j]]
        0 <= i < vis.len() && 0 <= j < vis[i].data.pois.len()
            && vis[i].data.pois[j].kind.display_min_zoom() <= zoom implies some_poi(
        scene.pois@,
        vis[i],
        target,
        vis[i].data.pois[j],
    ) by {
        lemma_gathered_has_poi(vis, target, zoom, i, j);
    }
}

pub proof fn lemma_blend_keeps_lines(roads: Seq<StrokeView>, tol: int, k: int)
    requires
        0 <= k < roads.len(),
    ensures
        blended(roads, tol)[k].coords == roads[k].coords,
        blended(roads, tol)[k].kind == roads[k].kind,
        blended(roads, tol)[k].name == roads[k].name,
        blended(roads, tol)[k].layer == roads[k].layer,
        blended(roads, tol)[k].start == roads[k].start,
        blended(roads, tol)[k].end == roads[k].end,
        blended(roads, tol)[k].structure == roads[k].structure,
{
}

proof fn lemma_welded_road(
    kept: Seq<StrokeView>,
    roads: Seq<StrokeView>,
    extent: u16,
    v: SlotView,
    target: u8,
    r: RoadView,
)
    requires
        forall|i: int| 0 <= i < roads.len() ==> weldable(#[trigger] roads[i]),
        some_road(roads, v, target, r),
    ensures
        road_drawn(
            blended(kept + welded(roads, extent), weld_tolerance(extent)),
            v,
            target,
            r,
        ),
{
    let tol = weld_tolerance(extent);
    let joined = welded(roads, extent);
    let all = kept + joined;
    let out = blended(all, tol);
    let m = choose|m: int| 0 <= m < roads.len() && road_at(#[trigger] roads[m], v, target, r);
    let piece = roads[m];
    weld_conserves(roads, extent);
    assert(covered(roads[m], joined));
    let k = choose|k: int|
        0 <= k < joined.len() && within(piece.coords, (#[trigger] joined[k]).coords)
            && joined[k].kind == piece.kind;
    let at = kept.len() + k;
    assert(all[at] == joined[k]);
    lemma_blend_keeps_lines(all, tol, at as int);
    assert forall|q: int| 0 <= q < r.coords.len() implies passes(
        out[at as int].coords,
        v,
        target,
        #[trigger] r.coords[q],
    ) by {
        assert(joined[k].coords.contains(piece.coords[q]));
        let n = choose|n: int|
            0 <= n < joined[k].coords.len() && joined[k].coords[n] == piece.coords[q];
        assert(stands_at(out[at as int].coords[n], v, target, r.coords[q]));
    }
    assert(out[at as int].kind == r.kind);
}

proof fn lemma_kept_road(
    kept: Seq<StrokeView>,
    joined: Seq<StrokeView>,
    extent: u16,
    v: SlotView,
    target: u8,
    r: RoadView,
) -> (m: int)
    requires
        some_road(kept, v, target, r),
    ensures
        ({
            let out = blended(kept + joined, weld_tolerance(extent));
            &&& road_drawn(out, v, target, r)
            &&& 0 <= m < out.len()
            &&& line_at(out[m].coords, v, target, r.coords)
            &&& out[m].kind == r.kind && out[m].name == r.name && out[m].layer == r.layer
        }),
{
    let tol = weld_tolerance(extent);
    let all = kept + joined;
    let out = blended(all, tol);
    let m = choose|m: int| 0 <= m < kept.len() && road_at(#[trigger] kept[m], v, target, r);
    assert(all[m] == kept[m]);
    lemma_blend_keeps_lines(all, tol, m);
    assert forall|q: int| 0 <= q < r.coords.len() implies passes(
        out[m].coords,
        v,
        target,
        #[trigger] r.coords[q],
    ) by {
        assert(stands_at(out[m].coords[q], v, target, r.coords[q]));
    }
    m
}

/// Every road of a tile that the camera shows runs, vertex by vertex at its place, through
/// one road of the scene of its kind. The roads of tiles drawn from coarser data stay roads
/// of their own.
pub proof fn roads_stand_in_their_tiles(
    scene: Scene,
    vis: Seq<SlotView>,
    zoom: u8,
    i: int,
    j: int,
)
    requires
        is_scene_of(scene, vis, zoom),
        crate::scene::assemblable(vis, zoom),
        0 <= i < vis.len(),
        0 <= j < vis[i].data.roads.len(),
        vis[i].data.roads[j].kind.display_min_zoom() <= zoom,
    ensures
        road_drawn(roads_view(scene.roads@), vis[i], scene.target_zoom, vis[i].data.roads[j]),
        vis[i].source != vis[i].tile ==> exists|k: int|
            0 <= k < scene.roads@.len() && line_at(
                (#[trigger] scene.roads@[k])@.coords,
                vis[i],
                scene.target_zoom,
                vis[i].data.roads[j].coords,
            ) && scene.roads@[k]@.kind == vis[i].data.roads[j].kind && scene.roads@[k]@.name
                == vis[i].data.roads[j].name && scene.roads@[k]@.layer
                == vis[i].data.roads[j].layer,
{
    let target = scene.target_zoom;
    let v = vis[i];
    let r = vis[i].data.roads[j];
    let g = gathered(vis, target, zoom);
    let out = roads_view(scene.roads@);
    lemma_gathered_roads(vis, target, zoom);
    if v.source == v.tile {
        lemma_welded_road(g.kept, g.weldable, g.extent, v, target, r);
    } else {
        let m = lemma_kept_road(g.kept, welded(g.weldable, g.extent), g.extent, v, target, r);
        assert(out[m] == scene.roads@[m]@);
    }
}

/// No road of a scene has a vertex that is not a shown tile road's, at its place.
pub proof fn scene_roads_invent_nothing(
    scene: Scene,
    vis: Seq<SlotView>,
    zoom: u8,
    k: int,
    q: int,
)
    requires
        is_scene_of(scene, vis, zoom),
        crate::scene::assemblable(vis, zoom),
        0 <= k < scene.roads@.len(),
        0 <= q < scene.roads@[k]@.coords.len(),
    ensures
        vertex_of_some_road(scene.roads@[k]@.coords[q], vis, scene.target_zoom, zoom),
{
    let target = scene.target_zoom;
    let g = gathered(vis, target, zoom);
    let tol = weld_tolerance(g.extent);
    let joined = welded(g.weldable, g.extent);
    let all = g.kept + joined;
    let out = roads_view(scene.roads@);
    assert(out == blended(all, tol));
    assert(out[k] == scene.roads@[k]@);
    lemma_blend_keeps_lines(all, tol, k);
    lemma_gathered_roads(vis, target, zoom);
    let at = out[k].coords[q];
    if k < g.kept.len() {
        assert(all[k] == g.kept[k]);
        lemma_slot_vertex(g.kept[k], vis, target, zoom, q);
    } else {
        let s = joined[k - g.kept.len()];
        assert(all[k] == s);
        weld_conserves(g.weldable, g.extent);
        assert(stroke_of(s, g.weldable));
        assert(has_vertex(g.weldable, s.coords[q]));
        let m = choose|m: int|
            0 <= m < g.weldable.len() && (#[trigger] g.weldable[m]).coords.contains(s.coords[q]);
        let n = choose|n: int|
            0 <= n < g.weldable[m].coords.len() && g.weldable[m].coords[n] == s.coords[q];
        lemma_slot_vertex(g.weldable[m], vis, target, zoom, n);
    }
}

// ---- rebuilding, rings and views ----

/// A scene is built anew exactly if the zoom, the number of tiles, a tile or the source of
/// its data changed.
pub proof fn compositions_tell_changes(
    a: Seq<SlotView>,
    za: u8,
    b: Seq<SlotView>,
    zb: u8,
)
    ensures
        composition_of(a, za) == composition_of(b, zb) <==> za == zb && a.len() == b.len()
            && forall|i: int|
            0 <= i < a.len() ==> (#[trigger] a[i]).tile == b[i].tile && a[i].source == b[i].source,
{
    let (ca, cb) = (composition_of(a, za), composition_of(b, zb));
    if ca == cb {
        assert(ca.slots.len() == cb.slots.len());
        assert forall|i: int| 0 <= i < a.len() implies (#[trigger] a[i]).tile == b[i].tile
            && a[i].source == b[i].source by {
            assert(ca.slots[i] == cb.slots[i]);
        }
    }
    if za == zb && a.len() == b.len() && forall|i: int|
        0 <= i < a.len() ==> (#[trigger] a[i]).tile == b[i].tile && a[i].source == b[i].source {
        assert(ca.slots =~= cb.slots);
    }
}

/// A ring that is drawn ends where it starts, and has the vertices of the stored one with
/// at most the first repeated.
pub proof fn drawn_rings_close(ring: Seq<[i32; 2]>, i: int)
    requires
        ring.len() > 0,
    ensures
        ({
            let out = closed_ring(ring);
            &&& out[0] == out[out.len() - 1]
            &&& ring.len() <= out.len() <= ring.len() + 1
            &&& out.len() == ring.len() <==> ring[0] == ring[ring.len() - 1]
            &&& 0 <= i < ring.len() ==> out[i] == ring[i]
        }),
{
}

/// The slots of a view are its tiles with their sources and decoded data, in order.
pub proof fn slots_are_the_tiles(s: Seq<VisibleTile<DecodedTile>>, i: int)
    requires
        0 <= i < s.len(),
    ensures
        slots_view(s).len() == s.len(),
        slots_view(s)[i].tile == s[i].tile,
        slots_view(s)[i].source == s[i].source,
        slots_view(s)[i].data == (*s[i].data)@,
{
}

/// The geometries of a scene come as its roads, then its areas, its labels and its symbols.
pub proof fn features_in_order<'a>(s: Scene, i: int, f: Feature<'a>)
    requires
        is_feature(s, i, f),
        0 <= i,
    ensures
        f is Road <==> i < s.roads@.len(),
        f is Area <==> s.roads@.len() <= i < s.roads@.len() + s.areas@.len(),
        f is Label <==> s.roads@.len() + s.areas@.len() <= i < s.roads@.len() + s.areas@.len()
            + s.labels@.len(),
        f matches Feature::Road(r) ==> *r == s.roads@[i],
        f matches Feature::Area(a) ==> *a == s.areas@[i - s.roads@.len()],
        f matches Feature::Label(l) ==> *l == s.labels@[i - s.roads@.len() - s.areas@.len()],
        f matches Feature::Poi(p) ==> *p == s.pois@[i - s.roads@.len() - s.areas@.len()
            - s.labels@.len()],
{
}

/// A further tile adds its labels and symbols behind those that are there, where the zoom
/// of the scene stays.
pub proof fn further_tiles_add_labels(
    a: Scene,
    b: Scene,
    vis: Seq<SlotView>,
    v: SlotView,
    zoom: u8,
)
    requires
        is_scene_of(a, vis, zoom),
        is_scene_of(b, vis.push(v), zoom),
        a.target_zoom == b.target_zoom,
    ensures
        a.labels@.len() <= b.labels@.len(),
        a.pois@.len() <= b.pois@.len(),
        forall|k: int|
            0 <= k < a.labels@.len() ==> labels_view(a.labels@)[k] == #[trigger] labels_view(
                b.labels@,
            )[k],
        forall|k: int| 0 <= k < a.pois@.len() ==> a.pois@[k] == #[trigger] b.pois@[k],
{
    let target = a.target_zoom;
    let more = vis.push(v);
    assert(more.drop_last() =~= vis);
    let (g, h) = (gathered(vis, target, zoom), gathered(more, target, zoom));
    let f = frame_of(v, target);
    assert(h.labels == g.labels + shown_labels(f, v.data.labels, zoom));
    assert(h.pois == g.pois + shown_pois(f, v.data.pois, zoom));
    assert(labels_view(a.labels@) == g.labels && labels_view(b.labels@) == h.labels);
}

} // verus!
