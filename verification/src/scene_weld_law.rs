//! Roads that meet across tiles are one in the scene.

use vstd::prelude::*;

use crate::blend::{blended, parallel};
use crate::draw_law::{ends_join, lanes_at_end, meeting_ends_share_width};
use crate::meet_law::{ends_touch, lemma_touch_is_near, road_end, touching_pair_is_one_stroke};
use crate::record::Point;
use crate::scene::{
    assemblable, frame_of, gathered, is_scene_of, scene_points, scene_road, shown_roads,
    target_zoom_of, Frame, Scene, SlotView,
};
use crate::scene_law::{
    lemma_blend_keeps_lines, lemma_gathered_roads, lemma_line, lemma_stands, passes, road_at,
    road_of_some_slot, shown_road, stands_at,
};
use crate::tile_model::RoadView;
use crate::weld::roads_view;
use crate::weld_law::{stroke_of, weld_conserves, within};
use crate::weld_model::{weld_tolerance, welded, StrokeView};

verus! {

// ---- places in the list ----

/// How many of the first `j` roads a camera at `zoom` shows.
spec fn before(s: Seq<RoadView>, zoom: u8, j: nat) -> nat
    decreases j,
{
    if j == 0 {
        0
    } else {
        before(s, zoom, (j - 1) as nat) + if s[j - 1].kind.display_min_zoom() <= zoom {
            1nat
        } else {
            0
        }
    }
}

/// How many roads the first `i` slots give to the weld.
spec fn slots_before(vis: Seq<SlotView>, zoom: u8, i: nat) -> nat
    decreases i,
{
    if i == 0 {
        0
    } else {
        slots_before(vis, zoom, (i - 1) as nat) + if vis[i - 1].source == vis[i - 1].tile {
            before(vis[i - 1].data.roads, zoom, vis[i - 1].data.roads.len())
        } else {
            0
        }
    }
}

/// Road `j` of slot `i` is shown, and drawn from its tile's own data.
pub open spec fn is_welded(vis: Seq<SlotView>, zoom: u8, i: int, j: int) -> bool {
    &&& 0 <= i < vis.len()
    &&& vis[i].source == vis[i].tile
    &&& 0 <= j < vis[i].data.roads.len()
    &&& vis[i].data.roads[j].kind.display_min_zoom() <= zoom
}

spec fn rank(vis: Seq<SlotView>, zoom: u8, i: int, j: int) -> nat {
    slots_before(vis, zoom, i as nat) + before(vis[i].data.roads, zoom, j as nat)
}

spec fn shown_as(s: Seq<RoadView>, zoom: u8, j: int, m: int) -> bool {
    0 <= j < s.len() && s[j].kind.display_min_zoom() <= zoom && before(s, zoom, j as nat) == m
}

spec fn some_shown_as(s: Seq<RoadView>, zoom: u8, m: int) -> bool {
    exists|j: int| #[trigger] shown_as(s, zoom, j, m)
}

proof fn lemma_before_prefix(s: Seq<RoadView>, zoom: u8, j: nat)
    requires
        j < s.len(),
    ensures
        before(s, zoom, j) == before(s.drop_last(), zoom, j),
    decreases j,
{
    if j > 0 {
        lemma_before_prefix(s, zoom, (j - 1) as nat);
        assert(s.drop_last()[j - 1] == s[j - 1]);
    }
}

proof fn lemma_before_grows(s: Seq<RoadView>, zoom: u8, j: int, n: nat)
    requires
        0 <= j < n <= s.len(),
        s[j].kind.display_min_zoom() <= zoom,
    ensures
        before(s, zoom, j as nat) < before(s, zoom, n),
    decreases n,
{
    if j < n - 1 {
        lemma_before_grows(s, zoom, j, (n - 1) as nat);
    }
}

proof fn lemma_shown_at(f: Frame, s: Seq<RoadView>, zoom: u8)
    ensures
        ({
            let out = shown_roads(f, s, zoom);
            &&& out.len() == before(s, zoom, s.len())
            &&& forall|j: int|
                0 <= j < s.len() && (#[trigger] s[j]).kind.display_min_zoom() <= zoom ==> before(
                    s,
                    zoom,
                    j as nat,
                ) < out.len() && out[before(s, zoom, j as nat) as int] == scene_road(f, s[j])
            &&& forall|m: int| 0 <= m < out.len() ==> #[trigger] some_shown_as(s, zoom, m)
        }),
    decreases s.len(),
{
    if s.len() > 0 {
        let rest = s.drop_last();
        lemma_shown_at(f, rest, zoom);
        let sub = shown_roads(f, rest, zoom);
        let out = shown_roads(f, s, zoom);
        lemma_before_prefix(s, zoom, rest.len());
        assert forall|j: int|
            0 <= j < s.len() && (#[trigger] s[j]).kind.display_min_zoom() <= zoom implies before(
            s,
            zoom,
            j as nat,
        ) < out.len() && out[before(s, zoom, j as nat) as int] == scene_road(f, s[j]) by {
            lemma_before_prefix(s, zoom, j as nat);
            if j < rest.len() {
                assert(rest[j] == s[j]);
            }
        }
        assert forall|m: int| 0 <= m < out.len() implies #[trigger] some_shown_as(s, zoom, m) by {
            if m < sub.len() {
                assert(some_shown_as(rest, zoom, m));
                let j = choose|j: int| #[trigger] shown_as(rest, zoom, j, m);
                lemma_before_prefix(s, zoom, j as nat);
                assert(rest[j] == s[j]);
                assert(shown_as(s, zoom, j, m));
            } else {
                assert(shown_as(s, zoom, s.len() - 1, m));
            }
        }
    }
}

proof fn lemma_slots_prefix(vis: Seq<SlotView>, zoom: u8, i: nat)
    requires
        i < vis.len(),
    ensures
        slots_before(vis, zoom, i) == slots_before(vis.drop_last(), zoom, i),
    decreases i,
{
    if i > 0 {
        lemma_slots_prefix(vis, zoom, (i - 1) as nat);
        assert(vis.drop_last()[i - 1] == vis[i - 1]);
    }
}

proof fn lemma_slots_grow(vis: Seq<SlotView>, zoom: u8, i: int, j: int, n: nat)
    requires
        is_welded(vis, zoom, i, j),
        i < n <= vis.len(),
    ensures
        rank(vis, zoom, i, j) < slots_before(vis, zoom, n),
    decreases n,
{
    if i < n - 1 {
        lemma_slots_grow(vis, zoom, i, j, (n - 1) as nat);
    } else {
        lemma_before_grows(vis[i].data.roads, zoom, j, vis[i].data.roads.len());
    }
}

/// Two roads have two places.
proof fn lemma_ranks_differ(vis: Seq<SlotView>, zoom: u8, i: int, j: int, k: int, l: int)
    requires
        is_welded(vis, zoom, i, j),
        is_welded(vis, zoom, k, l),
        i != k || j != l,
    ensures
        rank(vis, zoom, i, j) != rank(vis, zoom, k, l),
{
    if i < k {
        lemma_slots_grow(vis, zoom, i, j, k as nat);
    } else if k < i {
        lemma_slots_grow(vis, zoom, k, l, i as nat);
    } else if j < l {
        lemma_before_grows(vis[i].data.roads, zoom, j, l as nat);
    } else {
        lemma_before_grows(vis[i].data.roads, zoom, l, j as nat);
    }
}

proof fn lemma_weld_place(vis: Seq<SlotView>, target: u8, zoom: u8, i: int, j: int)
    requires
        is_welded(vis, zoom, i, j),
    ensures
        ({
            let roads = gathered(vis, target, zoom).weldable;
            let m = rank(vis, zoom, i, j) as int;
            &&& m < roads.len()
            &&& roads[m] == scene_road(frame_of(vis[i], target), vis[i].data.roads[j])
        }),
        gathered(vis, target, zoom).weldable.len() == slots_before(vis, zoom, vis.len()),
    decreases vis.len(),
{
    let rest = vis.drop_last();
    let v = vis.last();
    lemma_weld_len(vis, target, zoom);
    lemma_weld_len(rest, target, zoom);
    lemma_slots_prefix(vis, zoom, i as nat);
    let sub = gathered(rest, target, zoom).weldable;
    let out = gathered(vis, target, zoom).weldable;
    if i < rest.len() {
        assert(rest[i] == vis[i]);
        lemma_weld_place(rest, target, zoom, i, j);
        assert(out[rank(vis, zoom, i, j) as int] == sub[rank(vis, zoom, i, j) as int]);
    } else {
        lemma_shown_at(frame_of(v, target), v.data.roads, zoom);
        assert(v.data.roads[j] == vis[i].data.roads[j]);
        lemma_slots_prefix(vis, zoom, rest.len());
    }
}

proof fn lemma_weld_len(vis: Seq<SlotView>, target: u8, zoom: u8)
    ensures
        gathered(vis, target, zoom).weldable.len() == slots_before(vis, zoom, vis.len()),
    decreases vis.len(),
{
    if vis.len() > 0 {
        let v = vis.last();
        lemma_weld_len(vis.drop_last(), target, zoom);
        lemma_shown_at(frame_of(v, target), v.data.roads, zoom);
        lemma_slots_prefix(vis, zoom, vis.drop_last().len());
    }
}

proof fn lemma_weld_source(vis: Seq<SlotView>, target: u8, zoom: u8, m: int) -> (ij: (int, int))
    requires
        0 <= m < gathered(vis, target, zoom).weldable.len(),
    ensures
        is_welded(vis, zoom, ij.0, ij.1),
        rank(vis, zoom, ij.0, ij.1) == m,
    decreases vis.len(),
{
    let rest = vis.drop_last();
    let v = vis.last();
    lemma_weld_len(rest, target, zoom);
    let sub = gathered(rest, target, zoom).weldable;
    let n = rest.len();
    if m < sub.len() {
        let (i, j) = lemma_weld_source(rest, target, zoom, m);
        assert(rest[i] == vis[i]);
        lemma_slots_prefix(vis, zoom, i as nat);
        (i, j)
    } else {
        lemma_shown_at(frame_of(v, target), v.data.roads, zoom);
        lemma_slots_prefix(vis, zoom, n);
        let k = m - sub.len();
        assert(some_shown_as(v.data.roads, zoom, k));
        let j = choose|j: int| #[trigger] shown_as(v.data.roads, zoom, j, k);
        assert(v == vis[n as int]);
        (n as int, j)
    }
}

// ---- ends in the scene ----

/// An end of a tile's road.
pub open spec fn local_end(r: RoadView, last: bool) -> Point {
    if last {
        r.coords[r.coords.len() - 1]
    } else {
        r.coords[0]
    }
}

proof fn lemma_place_unique(a: [i32; 2], b: [i32; 2], v: SlotView, target: u8, p: Point)
    requires
        stands_at(a, v, target, p),
        stands_at(b, v, target, p),
    ensures
        a == b,
{
    reveal(stands_at);
    let (x, y) = (
        (v.source.x * v.data.extent + p.0) * crate::scene_law::scale(v, target),
        (v.source.y * v.data.extent + p.1) * crate::scene_law::scale(v, target),
    );
    lemma_same_turn(a[0] as int, b[0] as int, x);
    lemma_same_turn(a[1] as int, b[1] as int, y);
    assert(a@ =~= b@);
}

proof fn lemma_same_turn(a: int, b: int, x: int)
    requires
        (a - x) % 0x1_0000_0000 == 0,
        (b - x) % 0x1_0000_0000 == 0,
        -0x8000_0000 <= a < 0x8000_0000,
        -0x8000_0000 <= b < 0x8000_0000,
    ensures
        a == b,
{
    let (p, q) = ((a - x) / 0x1_0000_0000, (b - x) / 0x1_0000_0000);
    assert(a - x == 0x1_0000_0000 * p && b - x == 0x1_0000_0000 * q);
    assert(a - b == 0x1_0000_0000 * (p - q));
}

/// `at` is where end `last` of road `j` of slot `i` stands.
pub open spec fn end_stands(
    at: [i32; 2],
    vis: Seq<SlotView>,
    target: u8,
    i: int,
    j: int,
    last: bool,
) -> bool {
    stands_at(at, vis[i], target, local_end(vis[i].data.roads[j], last))
}

proof fn lemma_end_place(
    vis: Seq<SlotView>,
    target: u8,
    zoom: u8,
    i: int,
    j: int,
    last: bool,
)
    requires
        is_welded(vis, zoom, i, j),
        vis[i].data.roads[j].coords.len() >= 1,
    ensures
        end_stands(
            road_end(
                gathered(vis, target, zoom).weldable[rank(vis, zoom, i, j) as int],
                last,
            ),
            vis,
            target,
            i,
            j,
            last,
        ),
{
    lemma_weld_place(vis, target, zoom, i, j);
    lemma_stands(vis[i], target, local_end(vis[i].data.roads[j], last));
}

/// One road of the scene of the kind passes through every point of both roads.
pub open spec fn drawn_as_one(
    s: Seq<StrokeView>,
    target: u8,
    v: SlotView,
    r: RoadView,
    w: SlotView,
    q: RoadView,
) -> bool {
    exists|k: int|
        0 <= k < s.len() && (#[trigger] s[k]).kind == r.kind && (forall|m: int|
            0 <= m < r.coords.len() ==> passes(s[k].coords, v, target, #[trigger] r.coords[m])) && (
        forall|m: int|
            0 <= m < q.coords.len() ==> passes(s[k].coords, w, target, #[trigger] q.coords[m]))
}

proof fn lemma_points_pass(
    v: SlotView,
    target: u8,
    r: RoadView,
    line: Seq<[i32; 2]>,
)
    requires
        within(scene_points(frame_of(v, target), r.coords), line),
    ensures
        forall|m: int| 0 <= m < r.coords.len() ==> passes(line, v, target, #[trigger] r.coords[m]),
{
    let c = scene_points(frame_of(v, target), r.coords);
    lemma_line(v, target, r.coords);
    assert forall|m: int| 0 <= m < r.coords.len() implies passes(
        line,
        v,
        target,
        #[trigger] r.coords[m],
    ) by {
        assert(line.contains(c[m]));
        let n = choose|n: int| 0 <= n < line.len() && line[n] == c[m];
        assert(stands_at(line[n], v, target, r.coords[m]));
    }
}

/// Two roads of a kind, of one tile or of two that are drawn from their own data, whose
/// ends touch in the scene where no third end of the kind does, are one road of the scene:
/// the seam between tiles does not show.
pub proof fn roads_join_across_tiles(
    scene: Scene,
    vis: Seq<SlotView>,
    zoom: u8,
    i: int,
    j: int,
    d: bool,
    k: int,
    l: int,
    e: bool,
    a: [i32; 2],
    b: [i32; 2],
)
    requires
        is_scene_of(scene, vis, zoom),
        assemblable(vis, zoom),
        2 * gathered(vis, scene.target_zoom, zoom).weldable.len() <= usize::MAX,
        is_welded(vis, zoom, i, j),
        is_welded(vis, zoom, k, l),
        i != k || j != l,
        vis[i].data.roads[j].kind == vis[k].data.roads[l].kind,
        end_stands(a, vis, scene.target_zoom, i, j, d),
        end_stands(b, vis, scene.target_zoom, k, l, e),
        ends_touch(a, b, scene.extent),
        forall|m: int, n: int, last: bool, c: [i32; 2]|
            is_welded(vis, zoom, m, n) && vis[m].data.roads[n].kind == vis[i].data.roads[j].kind
                && !(m == i && n == j && last == d) && !(m == k && n == l && last == e)
                && #[trigger] end_stands(c, vis, scene.target_zoom, m, n, last) ==> !ends_touch(
                c,
                a,
                scene.extent,
            ) && !ends_touch(c, b, scene.extent),
    ensures
        drawn_as_one(
            roads_view(scene.roads@),
            scene.target_zoom,
            vis[i],
            vis[i].data.roads[j],
            vis[k],
            vis[k].data.roads[l],
        ),
{
    let target = scene.target_zoom;
    let g = gathered(vis, target, zoom);
    let roads = g.weldable;
    let extent = scene.extent;
    let (p, q) = (rank(vis, zoom, i, j) as int, rank(vis, zoom, k, l) as int);
    lemma_weld_place(vis, target, zoom, i, j);
    lemma_weld_place(vis, target, zoom, k, l);
    lemma_ranks_differ(vis, zoom, i, j, k, l);
    assert(crate::weld_model::weldable(roads[p]) && crate::weld_model::weldable(roads[q]));
    lemma_end_place(vis, target, zoom, i, j, d);
    lemma_end_place(vis, target, zoom, k, l, e);
    lemma_place_unique(a, road_end(roads[p], d), vis[i], target, local_end(vis[i].data.roads[j], d));
    lemma_place_unique(b, road_end(roads[q], e), vis[k], target, local_end(vis[k].data.roads[l], e));
    assert forall|m: int, last: bool|
        0 <= m < roads.len() && roads[m].kind == roads[p].kind && !(m == p && last == d) && !(m == q
            && last == e) implies !ends_touch(
        #[trigger] road_end(roads[m], last),
        road_end(roads[p], d),
        extent,
    ) && !ends_touch(road_end(roads[m], last), road_end(roads[q], e), extent) by {
        let (x, y) = lemma_weld_source(vis, target, zoom, m);
        lemma_weld_place(vis, target, zoom, x, y);
        assert(crate::weld_model::weldable(roads[m]));
        lemma_end_place(vis, target, zoom, x, y, last);
        assert(end_stands(road_end(roads[m], last), vis, target, x, y, last));
    }
    touching_pair_is_one_stroke(roads, extent, p, d, q, e);
    lemma_joined_in_scene(g.kept, roads, extent, target, vis[i], vis[i].data.roads[j], vis[k], vis[k].data.roads[l]);
}

proof fn lemma_joined_in_scene(
    kept: Seq<StrokeView>,
    roads: Seq<StrokeView>,
    extent: u16,
    target: u8,
    v: SlotView,
    r: RoadView,
    w: SlotView,
    q: RoadView,
)
    requires
        exists|k: int|
            0 <= k < welded(roads, extent).len() && (#[trigger] welded(roads, extent)[k]).kind
                == r.kind && within(
                scene_road(frame_of(v, target), r).coords,
                welded(roads, extent)[k].coords,
            ) && within(
                scene_road(frame_of(w, target), q).coords,
                welded(roads, extent)[k].coords,
            ),
    ensures
        drawn_as_one(
            blended(kept + welded(roads, extent), weld_tolerance(extent)),
            target,
            v,
            r,
            w,
            q,
        ),
{
    let all = kept + welded(roads, extent);
    let out = blended(all, weld_tolerance(extent));
    let k = choose|k: int|
        0 <= k < welded(roads, extent).len() && (#[trigger] welded(roads, extent)[k]).kind == r.kind
            && within(
            scene_road(frame_of(v, target), r).coords,
            welded(roads, extent)[k].coords,
        ) && within(scene_road(frame_of(w, target), q).coords, welded(roads, extent)[k].coords);
    let at = kept.len() + k;
    assert(all[at] == welded(roads, extent)[k]);
    lemma_blend_keeps_lines(all, weld_tolerance(extent), at);
    lemma_points_pass(v, target, r, out[at].coords);
    lemma_points_pass(w, target, q, out[at].coords);
}

// ---- widths in the scene ----

/// End `d` of road `i` of the scene touches end `e` of road `j`, another of the kind.
pub open spec fn scene_ends_meet(
    s: Seq<StrokeView>,
    extent: u16,
    i: int,
    d: bool,
    j: int,
    e: bool,
) -> bool {
    &&& 0 <= j < s.len()
    &&& i != j
    &&& s[i].kind == s[j].kind
    &&& ends_touch(road_end(s[i], !d), road_end(s[j], !e), extent)
}

/// Where exactly two road ends of a kind touch in the scene, the roads are equally wide
/// there. Here `true` stands for the start of a road.
pub proof fn touching_ends_are_equally_wide(
    scene: Scene,
    vis: Seq<SlotView>,
    zoom: u8,
    i: int,
    d: bool,
    j: int,
    e: bool,
)
    requires
        is_scene_of(scene, vis, zoom),
        assemblable(vis, zoom),
        0 <= i < scene.roads@.len(),
        forall|k: int|
            0 <= k < scene.roads@.len() ==> (#[trigger] roads_view(scene.roads@)[k]).coords.len()
                >= 2,
        scene_ends_meet(roads_view(scene.roads@), scene.extent, i, d, j, e),
        forall|k: int, f: bool| #[trigger]
            scene_ends_meet(roads_view(scene.roads@), scene.extent, i, d, k, f) ==> k == j && f
                == e,
        forall|k: int, f: bool| #[trigger]
            scene_ends_meet(roads_view(scene.roads@), scene.extent, j, e, k, f) ==> k == i && f
                == d,
    ensures
        lanes_at_end(roads_view(scene.roads@)[i], d) == lanes_at_end(roads_view(scene.roads@)[j], e),
{
    let g = gathered(vis, scene.target_zoom, zoom);
    let tol = weld_tolerance(scene.extent);
    let all = g.kept + welded(g.weldable, g.extent);
    let out = roads_view(scene.roads@);
    assert(out == blended(all, tol));
    assert(scene.roads@.len() == out.len());
    assert forall|k: int| 0 <= k < all.len() implies parallel(#[trigger] all[k])
        && all[k].coords.len() >= 2 by {
        lemma_blend_keeps_lines(all, tol, k);
        assert(out[k].coords.len() >= 2);
        lemma_all_parallel(vis, scene.target_zoom, zoom, k);
    }
    lemma_pair_widths(all, scene.extent, i, d, j, e);
    lemma_pair_widths(all, scene.extent, j, e, i, d);
}

/// Every road before the ends are raised has lanes at each vertex.
proof fn lemma_all_parallel(vis: Seq<SlotView>, target: u8, zoom: u8, k: int)
    requires
        assemblable(vis, zoom),
        target == target_zoom_of(vis),
        ({
            let g = gathered(vis, target, zoom);
            0 <= k < (g.kept + welded(g.weldable, g.extent)).len()
        }),
    ensures
        ({
            let g = gathered(vis, target, zoom);
            parallel((g.kept + welded(g.weldable, g.extent))[k])
        }),
{
    let g = gathered(vis, target, zoom);
    if k < g.kept.len() {
        lemma_gathered_roads(vis, target, zoom);
        assert(road_of_some_slot(g.kept[k], vis, target, zoom));
        let i = choose|i: int|
            0 <= i < vis.len() && shown_road(g.kept[k], #[trigger] vis[i], target, zoom);
        let v = vis[i];
        let j = choose|j: int|
            0 <= j < v.data.roads.len() && (#[trigger] v.data.roads[j]).kind.display_min_zoom()
                <= zoom && road_at(g.kept[k], v, target, v.data.roads[j]);
        assert(road_at(g.kept[k], v, target, v.data.roads[j]));
    } else {
        weld_conserves(g.weldable, g.extent);
        assert(stroke_of(welded(g.weldable, g.extent)[k - g.kept.len()], g.weldable));
    }
}

/// The width of an end that one other end meets is the greater of the two.
proof fn lemma_pair_widths(
    all: Seq<StrokeView>,
    extent: u16,
    i: int,
    d: bool,
    j: int,
    e: bool,
)
    requires
        0 <= i < all.len(),
        forall|k: int|
            0 <= k < all.len() ==> parallel(#[trigger] all[k]) && all[k].coords.len() >= 2,
        ({
            let out = blended(all, weld_tolerance(extent));
            &&& scene_ends_meet(out, extent, i, d, j, e)
            &&& forall|k: int, f: bool| #[trigger]
                scene_ends_meet(out, extent, i, d, k, f) ==> k == j && f == e
        }),
    ensures
        lanes_at_end(blended(all, weld_tolerance(extent))[i], d) == if lanes_at_end(all[i], d)
            >= lanes_at_end(all[j], e) {
            lanes_at_end(all[i], d)
        } else {
            lanes_at_end(all[j], e)
        },
{
    let tol = weld_tolerance(extent);
    let out = blended(all, tol);
    meeting_ends_share_width(all, tol, i, d);
    assert forall|k: int, f: bool| 0 <= k < all.len() implies #[trigger] ends_join(
        all,
        i,
        d,
        k,
        f,
        tol,
    ) == scene_ends_meet(out, extent, i, d, k, f) by {
        lemma_blend_keeps_lines(all, tol, i);
        lemma_blend_keeps_lines(all, tol, k);
        assert(parallel(all[k]) && parallel(all[i]));
        lemma_touch_is_near(road_end(out[i], !d), road_end(out[k], !f), extent);
    }
    assert(ends_join(all, i, d, j, e, tol));
}

} // verus!
