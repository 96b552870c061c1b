//! Assembling the visible tiles into one scene.
//!
//! All geometry in view is lifted into a shared `i32` scene frame (tile index ×
//! extent at the target zoom), with road segments welded across tile boundaries.

use std::sync::Arc;
use vstd::prelude::*;

use crate::blend::{blend_join_widths, blended, parallel};
use crate::bytes::{i32_of, pow2n};
use crate::decode::{DecArea, DecLabel, DecPoi, DecRoad, DecodedTile};
use crate::feature::{AreaKind, LabelClass, Lanes, PoiKind};
use crate::record::{coords_view, point_view, Point};
use crate::sort::{is_stable_order, sort_order};
use crate::tile::Tile;
use crate::tile_model::{AreaView, LabelView, PoiView, RoadView, TileContents};
use crate::weld::{copy_points, roads_view, weld_scene_roads, SceneRoad};
use crate::weld_law::{stroke_of, weld_conserves};
use crate::weld_model::{step_fits, weld_tolerance, weldable, welded, StrokeView};

verus! {

/// One tile the renderer should draw this frame.
pub struct VisibleTile<T> {
    /// The tile slot to fill on screen.
    pub tile: Tile,
    /// The payload to draw it with.
    pub data: Arc<T>,
    /// The tile the payload actually belongs to: equal to `tile`, or a coarser
    /// ancestor used as a fallback (the renderer draws the matching sub-rect
    /// scaled up).
    pub source: Tile,
}

impl<T> VisibleTile<T> {
    /// Whether this tile is drawn from a coarser ancestor rather than itself.
    pub fn is_fallback(&self) -> (r: bool)
        ensures
            r == (self.source != self.tile),
    {
        self.source != self.tile
    }
}

pub struct SceneArea {
    pub kind: AreaKind,
    pub layer: i8,
    pub floors: u8,
    pub rings: Vec<Vec<[i32; 2]>>,
    pub clip: Vec<bool>,
}

pub struct SceneLabel {
    pub class: LabelClass,
    pub rank: u8,
    pub anchor: [i32; 2],
    pub name: String,
}

#[derive(Clone, Copy)]
pub struct ScenePoi {
    pub kind: PoiKind,
    /// Absolute scene-frame anchor (tile index × extent at `target_zoom`).
    pub anchor: [i32; 2],
}

pub struct SceneAreaView {
    pub kind: AreaKind,
    pub layer: i8,
    pub floors: u8,
    pub rings: Seq<Seq<[i32; 2]>>,
    pub clip: Seq<bool>,
}

pub struct SceneLabelView {
    pub class: LabelClass,
    pub rank: u8,
    pub anchor: [i32; 2],
    pub name: Seq<char>,
}

impl View for SceneArea {
    type V = SceneAreaView;

    open spec fn view(&self) -> SceneAreaView {
        SceneAreaView {
            kind: self.kind,
            layer: self.layer,
            floors: self.floors,
            rings: Seq::new(self.rings@.len(), |i: int| self.rings@[i]@),
            clip: self.clip@,
        }
    }
}

impl View for SceneLabel {
    type V = SceneLabelView;

    open spec fn view(&self) -> SceneLabelView {
        SceneLabelView {
            class: self.class,
            rank: self.rank,
            anchor: self.anchor,
            name: self.name@,
        }
    }
}

/// A ring with its first vertex repeated at the end, unless it stands there already.
pub open spec fn closed_ring(ring: Seq<[i32; 2]>) -> Seq<[i32; 2]> {
    if ring.len() > 0 && ring.first() != ring.last() {
        ring.push(ring.first())
    } else {
        ring
    }
}

fn close_ring(ring: &Vec<[i32; 2]>) -> (r: Vec<[i32; 2]>)
    ensures
        r@ == closed_ring(ring@),
{
    let mut r: Vec<[i32; 2]> = copy_points(ring);
    let n: usize = ring.len();
    if n > 0 {
        let a: [i32; 2] = ring[0];
        let b: [i32; 2] = ring[n - 1];
        if a[0] != b[0] || a[1] != b[1] {
            r.push(a);
        } else {
            assert(a@ =~= b@);
            assert(ring@.first() == ring@.last());
        }
    }
    r
}

impl SceneArea {
    /// The rings in absolute scene coordinates, each closed (ring 0 = exterior, the rest =
    /// holes): ours are stored open.
    pub fn closed_rings(&self) -> (r: Vec<Vec<[i32; 2]>>)
        ensures
            r@.len() == self.rings@.len(),
            forall|i: int| 0 <= i < r@.len() ==> (#[trigger] r@[i])@ == closed_ring(self.rings@[i]@),
    {
        let mut r: Vec<Vec<[i32; 2]>> = Vec::new();
        let mut i: usize = 0;
        while i < self.rings.len()
            invariant
                i <= self.rings@.len(),
                r@.len() == i,
                forall|k: int| 0 <= k < i ==> (#[trigger] r@[k])@ == closed_ring(self.rings@[k]@),
            decreases self.rings@.len() - i,
        {
            r.push(close_ring(&self.rings[i]));
            i = i + 1;
        }
        r
    }
}

pub open spec fn areas_view(s: Seq<SceneArea>) -> Seq<SceneAreaView> {
    Seq::new(s.len(), |i: int| s[i]@)
}

pub open spec fn labels_view(s: Seq<SceneLabel>) -> Seq<SceneLabelView> {
    Seq::new(s.len(), |i: int| s[i]@)
}

/// All geometry in the current view. Coordinates are absolute; a renderer subtracts
/// the camera centre (in the same frame) before projecting.
pub struct Scene {
    pub target_zoom: u8,
    pub extent: u16,
    pub roads: Vec<SceneRoad>,
    pub areas: Vec<SceneArea>,
    pub labels: Vec<SceneLabel>,
    pub pois: Vec<ScenePoi>,
}

// ---- the model ----

/// A visible slot: which tile, whose data, and the data.
pub struct SlotView {
    pub tile: Tile,
    pub source: Tile,
    pub data: TileContents,
}

pub open spec fn slot_view(v: VisibleTile<DecodedTile>) -> SlotView {
    SlotView { tile: v.tile, source: v.source, data: (*v.data)@ }
}

pub open spec fn slots_view(s: Seq<VisibleTile<DecodedTile>>) -> Seq<SlotView> {
    Seq::new(s.len(), |i: int| slot_view(s[i]))
}

pub open spec fn is_exact(v: SlotView) -> bool {
    v.source == v.tile
}

/// The zoom of the first exact slot among the first `n`.
pub open spec fn first_exact_zoom(vis: Seq<SlotView>, n: nat) -> Option<u8>
    decreases n,
{
    if n == 0 {
        None
    } else {
        match first_exact_zoom(vis, (n - 1) as nat) {
            Some(z) => Some(z),
            None => if is_exact(vis[n - 1]) {
                Some(vis[n - 1].tile.z)
            } else {
                None
            },
        }
    }
}

/// The exact (non-fallback) tiles' zoom; without any, the first slot's.
pub open spec fn target_zoom_of(vis: Seq<SlotView>) -> u8 {
    match first_exact_zoom(vis, vis.len()) {
        Some(z) => z,
        None => if vis.len() > 0 {
            vis[0].tile.z
        } else {
            0
        },
    }
}

/// How many zooms a slot's data is scaled up by.
pub open spec fn shift_of(source: Tile, target_zoom: u8) -> nat {
    if target_zoom > source.z {
        (target_zoom - source.z) as nat
    } else {
        0
    }
}

/// A tile-local coordinate in the scene frame: tile index × extent plus the local
/// coordinate, scaled up from a coarser zoom.
pub open spec fn scene_coord(index: u32, extent: u16, local: i16, shift: nat) -> i32 {
    i32_of((index * extent + local) * pow2n(shift))
}

/// Where a tile's local frame lies.
pub struct Frame {
    pub source: Tile,
    pub extent: u16,
    pub shift: nat,
}

pub open spec fn frame_of(v: SlotView, target_zoom: u8) -> Frame {
    Frame { source: v.source, extent: v.data.extent, shift: shift_of(v.source, target_zoom) }
}

pub open spec fn scene_point(f: Frame, p: Point) -> [i32; 2] {
    [
        scene_coord(f.source.x, f.extent, p.0, f.shift),
        scene_coord(f.source.y, f.extent, p.1, f.shift),
    ]
}

pub open spec fn scene_points(f: Frame, c: Seq<Point>) -> Seq<[i32; 2]> {
    Seq::new(c.len(), |i: int| scene_point(f, c[i]))
}

pub open spec fn scene_road(f: Frame, r: RoadView) -> StrokeView {
    StrokeView {
        kind: r.kind,
        layer: r.layer,
        start: r.start,
        end: r.end,
        structure: r.structure,
        name: r.name,
        coords: scene_points(f, r.coords),
        lanes: Seq::new(r.coords.len(), |i: int| r.lanes),
    }
}

pub open spec fn scene_area(f: Frame, a: AreaView) -> SceneAreaView {
    SceneAreaView {
        kind: a.kind,
        layer: a.layer,
        floors: a.floors,
        rings: Seq::new(a.rings.len(), |i: int| scene_points(f, a.rings[i])),
        clip: a.clip,
    }
}

pub open spec fn scene_label(f: Frame, l: LabelView) -> SceneLabelView {
    SceneLabelView { class: l.class, rank: l.rank, anchor: scene_point(f, l.anchor), name: l.name }
}

pub open spec fn scene_poi(f: Frame, p: PoiView) -> ScenePoi {
    ScenePoi { kind: p.kind, anchor: scene_point(f, p.anchor) }
}

/// The roads of a tile that a camera at `zoom` shows, in the scene frame.
pub open spec fn shown_roads(f: Frame, s: Seq<RoadView>, zoom: u8) -> Seq<StrokeView>
    decreases s.len(),
{
    if s.len() == 0 {
        Seq::empty()
    } else {
        let front = shown_roads(f, s.drop_last(), zoom);
        if s.last().kind.display_min_zoom() <= zoom {
            front.push(scene_road(f, s.last()))
        } else {
            front
        }
    }
}

pub open spec fn shown_areas(f: Frame, s: Seq<AreaView>, zoom: u8) -> Seq<SceneAreaView>
    decreases s.len(),
{
    if s.len() == 0 {
        Seq::empty()
    } else {
        let front = shown_areas(f, s.drop_last(), zoom);
        if s.last().kind.display_min_zoom() <= zoom {
            front.push(scene_area(f, s.last()))
        } else {
            front
        }
    }
}

pub open spec fn shown_labels(f: Frame, s: Seq<LabelView>, zoom: u8) -> Seq<SceneLabelView>
    decreases s.len(),
{
    if s.len() == 0 {
        Seq::empty()
    } else {
        let front = shown_labels(f, s.drop_last(), zoom);
        if s.last().class.display_min_zoom() <= zoom {
            front.push(scene_label(f, s.last()))
        } else {
            front
        }
    }
}

pub open spec fn shown_pois(f: Frame, s: Seq<PoiView>, zoom: u8) -> Seq<ScenePoi>
    decreases s.len(),
{
    if s.len() == 0 {
        Seq::empty()
    } else {
        let front = shown_pois(f, s.drop_last(), zoom);
        if s.last().kind.display_min_zoom() <= zoom {
            front.push(scene_poi(f, s.last()))
        } else {
            front
        }
    }
}

/// What the slots hold, gathered before welding and sorting.
#[verifier::ext_equal]
pub struct Gathered {
    pub extent: u16,
    /// Roads of exact tiles, to be joined.
    pub weldable: Seq<StrokeView>,
    /// Roads of fallback tiles, kept as they are.
    pub kept: Seq<StrokeView>,
    pub areas: Seq<SceneAreaView>,
    pub labels: Seq<SceneLabelView>,
    pub pois: Seq<ScenePoi>,
}

pub open spec fn gathered(vis: Seq<SlotView>, target_zoom: u8, zoom: u8) -> Gathered
    decreases vis.len(),
{
    if vis.len() == 0 {
        Gathered {
            extent: 0,
            weldable: Seq::empty(),
            kept: Seq::empty(),
            areas: Seq::empty(),
            labels: Seq::empty(),
            pois: Seq::empty(),
        }
    } else {
        let g = gathered(vis.drop_last(), target_zoom, zoom);
        let v = vis.last();
        let f = frame_of(v, target_zoom);
        let roads = shown_roads(f, v.data.roads, zoom);
        Gathered {
            extent: v.data.extent,
            weldable: if is_exact(v) {
                g.weldable + roads
            } else {
                g.weldable
            },
            kept: if is_exact(v) {
                g.kept
            } else {
                g.kept + roads
            },
            areas: g.areas + shown_areas(f, v.data.areas, zoom),
            labels: g.labels + shown_labels(f, v.data.labels, zoom),
            pois: g.pois + shown_pois(f, v.data.pois, zoom),
        }
    }
}

/// The draw order of an area: layer, then kind, then floors.
pub open spec fn area_key(a: SceneAreaView) -> i128 {
    ((a.layer + 128) * 0x1_0000 + a.kind.ordinal() * 0x100 + a.floors) as i128
}

pub open spec fn area_keys(s: Seq<SceneAreaView>) -> Seq<i128> {
    Seq::new(s.len(), |i: int| area_key(s[i]))
}

/// `out` is `s` in draw order, areas of equal order as they came.
pub open spec fn in_draw_order(out: Seq<SceneAreaView>, s: Seq<SceneAreaView>) -> bool {
    exists|order: Seq<usize>|
        #![trigger is_stable_order(order, area_keys(s))]
        is_stable_order(order, area_keys(s)) && out == Seq::new(
            order.len(),
            |i: int| s[order[i] as int],
        )
}

/// A scene for the slots can be assembled: no slot is scaled up by 64 zooms or more,
/// and every road to be welded has a vertex and steps that fit 32 bits.
pub open spec fn shifts_fit(vis: Seq<SlotView>, target: u8) -> bool {
    forall|i: int| 0 <= i < vis.len() ==> shift_of((#[trigger] vis[i]).source, target) < 64
}

pub open spec fn assemblable(vis: Seq<SlotView>, zoom: u8) -> bool {
    let target = target_zoom_of(vis);
    &&& shifts_fit(vis, target)
    &&& forall|i: int|
        0 <= i < gathered(vis, target, zoom).weldable.len() ==> weldable(
            #[trigger] gathered(vis, target, zoom).weldable[i],
        )
}

// ---- coordinates ----

proof fn lemma_double_mod(a: int, m: int)
    requires
        m > 0,
    ensures
        (2 * (a % m)) % m == (2 * a) % m,
{
    vstd::arithmetic::div_mod::lemma_mul_mod_noop_right(2, a, m);
}

fn to_scene_coord(index: u32, extent: u16, local: i16, shift: u8) -> (r: i32)
    requires
        shift < 64,
    ensures
        r == scene_coord(index, extent, local, shift as nat),
{
    proof {
        assert(index * extent <= 0xffff_ffff * 0xffff) by (nonlinear_arith)
            requires
                index <= 0xffff_ffff,
                extent <= 0xffff,
        ;
    }
    let at: i64 = (index as i64) * (extent as i64) + local as i64;
    let ghost x = index * extent + local;
    let mut m: u64 = ((at + 0x1_0000_0000) as u64) % 0x1_0000_0000;
    let mut k: u8 = 0;
    assert(m == x % 0x1_0000_0000);
    assert(x * pow2n(0) == x) by {
        assert(pow2n(0) == 1);
    }
    while k < shift
        invariant
            k <= shift < 64,
            m == (x * pow2n(k as nat)) % 0x1_0000_0000,
        decreases shift - k,
    {
        proof {
            let p = pow2n(k as nat) as int;
            assert(pow2n((k + 1) as nat) == 2 * p);
            assert(x * (2 * p) == 2 * (x * p)) by (nonlinear_arith);
            lemma_double_mod(x * p, 0x1_0000_0000);
        }
        m = (m * 2) % 0x1_0000_0000;
        k = k + 1;
    }
    if m < 0x8000_0000 {
        m as i32
    } else {
        (m as i64 - 0x1_0000_0000) as i32
    }
}

/// Where a tile's local frame lies, at run time.
#[derive(Clone, Copy)]
struct FrameAt {
    source: Tile,
    extent: u16,
    shift: u8,
}

impl View for FrameAt {
    type V = Frame;

    closed spec fn view(&self) -> Frame {
        Frame { source: self.source, extent: self.extent, shift: self.shift as nat }
    }
}

impl FrameAt {
    fn point(&self, p: [i16; 2]) -> (r: [i32; 2])
        requires
            self.shift < 64,
        ensures
            r == scene_point(self@, point_view(p)),
    {
        let r: [i32; 2] = [
            to_scene_coord(self.source.x, self.extent, p[0], self.shift),
            to_scene_coord(self.source.y, self.extent, p[1], self.shift),
        ];
        assert(r =~= scene_point(self@, point_view(p)));
        r
    }

    fn points(&self, c: &Vec<[i16; 2]>) -> (r: Vec<[i32; 2]>)
        requires
            self.shift < 64,
        ensures
            r@ == scene_points(self@, coords_view(c@)),
    {
        let mut r: Vec<[i32; 2]> = Vec::new();
        let mut i: usize = 0;
        while i < c.len()
            invariant
                i <= c@.len(),
                self.shift < 64,
                r@.len() == i,
                forall|k: int|
                    0 <= k < i ==> #[trigger] r@[k] == scene_point(self@, point_view(c@[k])),
            decreases c@.len() - i,
        {
            r.push(self.point(c[i]));
            i = i + 1;
        }
        assert(r@ =~= scene_points(self@, coords_view(c@)));
        r
    }

    fn road(&self, r: &DecRoad) -> (out: SceneRoad)
        requires
            self.shift < 64,
        ensures
            out@ == scene_road(self@, r@),
    {
        let mut lanes: Vec<Lanes> = Vec::new();
        let n: usize = r.coords.len();
        let mut i: usize = 0;
        while i < n
            invariant
                i <= n,
                lanes@.len() == i,
                forall|k: int| 0 <= k < i ==> #[trigger] lanes@[k] == r.lanes,
            decreases n - i,
        {
            lanes.push(r.lanes);
            i = i + 1;
        }
        let name: Option<String> = match &r.name {
            Some(s) => Some(s.clone()),
            None => None,
        };
        let out = SceneRoad {
            kind: r.kind,
            layer: r.layer,
            start: r.start,
            end: r.end,
            structure: r.structure,
            name,
            coords: self.points(&r.coords),
            lanes,
        };
        assert(out@.lanes =~= scene_road(self@, r@).lanes);
        out
    }

    fn area(&self, a: &DecArea) -> (out: SceneArea)
        requires
            self.shift < 64,
        ensures
            out@ == scene_area(self@, a@),
    {
        let mut rings: Vec<Vec<[i32; 2]>> = Vec::new();
        let mut i: usize = 0;
        while i < a.rings.len()
            invariant
                i <= a.rings@.len(),
                self.shift < 64,
                rings@.len() == i,
                forall|k: int|
                    0 <= k < i ==> (#[trigger] rings@[k])@ == scene_points(
                        self@,
                        coords_view(a.rings@[k]@),
                    ),
            decreases a.rings@.len() - i,
        {
            rings.push(self.points(&a.rings[i]));
            i = i + 1;
        }
        let clip: Vec<bool> = crate::decode::copy_flags(&a.clip, 0, a.clip.len());
        assert(clip@ =~= a.clip@);
        let out = SceneArea { kind: a.kind, layer: a.layer, floors: a.floors, rings, clip };
        assert(out@.rings =~= scene_area(self@, a@).rings);
        out
    }

    fn label(&self, l: &DecLabel) -> (out: SceneLabel)
        requires
            self.shift < 64,
        ensures
            out@ == scene_label(self@, l@),
    {
        SceneLabel {
            class: l.class,
            rank: l.rank,
            anchor: self.point(l.anchor),
            name: l.name.clone(),
        }
    }

    fn poi(&self, p: &DecPoi) -> (out: ScenePoi)
        requires
            self.shift < 64,
        ensures
            out == scene_poi(self@, p@),
    {
        ScenePoi { kind: p.kind, anchor: self.point(p.anchor) }
    }
}

fn find_target_zoom(visible: &Vec<VisibleTile<DecodedTile>>) -> (r: u8)
    ensures
        r == target_zoom_of(slots_view(visible@)),
{
    let ghost vis = slots_view(visible@);
    let mut i: usize = 0;
    while i < visible.len()
        invariant
            i <= visible@.len(),
            vis == slots_view(visible@),
            first_exact_zoom(vis, i as nat) is None,
        decreases visible@.len() - i,
    {
        if visible[i].source == visible[i].tile {
            proof {
                lemma_first_exact(vis, (i + 1) as nat, vis.len());
            }
            return visible[i].tile.z;
        }
        i = i + 1;
    }
    if visible.len() > 0 {
        visible[0].tile.z
    } else {
        0
    }
}

proof fn lemma_first_exact(vis: Seq<SlotView>, n: nat, m: nat)
    requires
        n <= m,
        first_exact_zoom(vis, n) is Some,
    ensures
        first_exact_zoom(vis, m) == first_exact_zoom(vis, n),
    decreases m,
{
    if n < m {
        lemma_first_exact(vis, n, (m - 1) as nat);
    }
}

proof fn lemma_gathered_lanes(vis: Seq<SlotView>, target_zoom: u8, zoom: u8)
    ensures
        forall|i: int|
            0 <= i < gathered(vis, target_zoom, zoom).kept.len() ==> parallel(
                #[trigger] gathered(vis, target_zoom, zoom).kept[i],
            ),
    decreases vis.len(),
{
    if vis.len() > 0 {
        lemma_gathered_lanes(vis.drop_last(), target_zoom, zoom);
        let g = gathered(vis.drop_last(), target_zoom, zoom);
        let v = vis.last();
        let f = frame_of(v, target_zoom);
        let out = gathered(vis, target_zoom, zoom).kept;
        lemma_shown_lanes(f, v.data.roads, zoom);
        assert forall|i: int| 0 <= i < out.len() implies parallel(#[trigger] out[i]) by {
            if i < g.kept.len() {
                assert(out[i] == g.kept[i]);
            } else {
                assert(out[i] == shown_roads(f, v.data.roads, zoom)[i - g.kept.len()]);
            }
        }
    }
}

proof fn lemma_shown_lanes(f: Frame, s: Seq<RoadView>, zoom: u8)
    ensures
        forall|i: int|
            0 <= i < shown_roads(f, s, zoom).len() ==> parallel(#[trigger] shown_roads(f, s, zoom)[i]),
    decreases s.len(),
{
    if s.len() > 0 {
        lemma_shown_lanes(f, s.drop_last(), zoom);
        let front = shown_roads(f, s.drop_last(), zoom);
        let out = shown_roads(f, s, zoom);
        assert forall|i: int| 0 <= i < out.len() implies parallel(#[trigger] out[i]) by {
            if i < front.len() {
                assert(out[i] == front[i]);
            }
        }
    }
}

/// The slots' features, gathered.
struct Gathering {
    extent: u16,
    weldable: Vec<SceneRoad>,
    roads: Vec<SceneRoad>,
    areas: Vec<SceneArea>,
    labels: Vec<SceneLabel>,
    pois: Vec<ScenePoi>,
}

impl View for Gathering {
    type V = Gathered;

    closed spec fn view(&self) -> Gathered {
        Gathered {
            extent: self.extent,
            weldable: roads_view(self.weldable@),
            kept: roads_view(self.roads@),
            areas: areas_view(self.areas@),
            labels: labels_view(self.labels@),
            pois: self.pois@,
        }
    }
}

fn gather_roads(f: &FrameAt, roads: &Vec<DecRoad>, zoom: u8, out: &mut Vec<SceneRoad>)
    requires
        f.shift < 64,
    ensures
        roads_view(final(out)@) == roads_view(old(out)@) + shown_roads(
            f@,
            Seq::new(roads@.len(), |i: int| roads@[i]@),
            zoom,
        ),
{
    let ghost all = Seq::new(roads@.len(), |i: int| roads@[i]@);
    let ghost base = roads_view(out@);
    let mut i: usize = 0;
    assert(base + shown_roads(f@, all.take(0), zoom) =~= base);
    while i < roads.len()
        invariant
            i <= roads@.len(),
            f.shift < 64,
            all == Seq::new(roads@.len(), |i: int| roads@[i]@),
            base == roads_view(old(out)@),
            roads_view(out@) == base + shown_roads(f@, all.take(i as int), zoom),
        decreases roads@.len() - i,
    {
        let ghost before = roads_view(out@);
        if roads[i].kind.display_min_zoom() <= zoom {
            out.push(f.road(&roads[i]));
            assert(roads_view(out@) =~= before.push(scene_road(f@, all[i as int])));
        }
        i = i + 1;
        proof {
            let done = all.take(i as int);
            assert(done.drop_last() =~= all.take(i - 1));
            assert(done.last() == all[i - 1]);
            assert(roads_view(out@) =~= base + shown_roads(f@, done, zoom));
        }
    }
    assert(all.take(i as int) =~= all);
}

fn gather_areas(f: &FrameAt, areas: &Vec<DecArea>, zoom: u8, out: &mut Vec<SceneArea>)
    requires
        f.shift < 64,
    ensures
        areas_view(final(out)@) == areas_view(old(out)@) + shown_areas(
            f@,
            Seq::new(areas@.len(), |i: int| areas@[i]@),
            zoom,
        ),
{
    let ghost all = Seq::new(areas@.len(), |i: int| areas@[i]@);
    let ghost base = areas_view(out@);
    let mut i: usize = 0;
    assert(base + shown_areas(f@, all.take(0), zoom) =~= base);
    while i < areas.len()
        invariant
            i <= areas@.len(),
            f.shift < 64,
            all == Seq::new(areas@.len(), |i: int| areas@[i]@),
            base == areas_view(old(out)@),
            areas_view(out@) == base + shown_areas(f@, all.take(i as int), zoom),
        decreases areas@.len() - i,
    {
        let ghost before = areas_view(out@);
        if areas[i].kind.display_min_zoom() <= zoom {
            out.push(f.area(&areas[i]));
            assert(areas_view(out@) =~= before.push(scene_area(f@, all[i as int])));
        }
        i = i + 1;
        proof {
            let done = all.take(i as int);
            assert(done.drop_last() =~= all.take(i - 1));
            assert(done.last() == all[i - 1]);
            assert(areas_view(out@) =~= base + shown_areas(f@, done, zoom));
        }
    }
    assert(all.take(i as int) =~= all);
}

fn gather_labels(f: &FrameAt, labels: &Vec<DecLabel>, zoom: u8, out: &mut Vec<SceneLabel>)
    requires
        f.shift < 64,
    ensures
        labels_view(final(out)@) == labels_view(old(out)@) + shown_labels(
            f@,
            Seq::new(labels@.len(), |i: int| labels@[i]@),
            zoom,
        ),
{
    let ghost all = Seq::new(labels@.len(), |i: int| labels@[i]@);
    let ghost base = labels_view(out@);
    let mut i: usize = 0;
    assert(base + shown_labels(f@, all.take(0), zoom) =~= base);
    while i < labels.len()
        invariant
            i <= labels@.len(),
            f.shift < 64,
            all == Seq::new(labels@.len(), |i: int| labels@[i]@),
            base == labels_view(old(out)@),
            labels_view(out@) == base + shown_labels(f@, all.take(i as int), zoom),
        decreases labels@.len() - i,
    {
        let ghost before = labels_view(out@);
        if labels[i].class.display_min_zoom() <= zoom {
            out.push(f.label(&labels[i]));
            assert(labels_view(out@) =~= before.push(scene_label(f@, all[i as int])));
        }
        i = i + 1;
        proof {
            let done = all.take(i as int);
            assert(done.drop_last() =~= all.take(i - 1));
            assert(done.last() == all[i - 1]);
            assert(labels_view(out@) =~= base + shown_labels(f@, done, zoom));
        }
    }
    assert(all.take(i as int) =~= all);
}

fn gather_pois(f: &FrameAt, pois: &Vec<DecPoi>, zoom: u8, out: &mut Vec<ScenePoi>)
    requires
        f.shift < 64,
    ensures
        final(out)@ == old(out)@ + shown_pois(
            f@,
            Seq::new(pois@.len(), |i: int| pois@[i]@),
            zoom,
        ),
{
    let ghost all = Seq::new(pois@.len(), |i: int| pois@[i]@);
    let ghost base = out@;
    let mut i: usize = 0;
    assert(base + shown_pois(f@, all.take(0), zoom) =~= base);
    while i < pois.len()
        invariant
            i <= pois@.len(),
            f.shift < 64,
            all == Seq::new(pois@.len(), |i: int| pois@[i]@),
            base == old(out)@,
            out@ == base + shown_pois(f@, all.take(i as int), zoom),
        decreases pois@.len() - i,
    {
        if pois[i].kind.display_min_zoom() <= zoom {
            out.push(f.poi(&pois[i]));
        }
        i = i + 1;
        proof {
            let done = all.take(i as int);
            assert(done.drop_last() =~= all.take(i - 1));
            assert(done.last() == all[i - 1]);
            assert(out@ =~= base + shown_pois(f@, done, zoom));
        }
    }
    assert(all.take(i as int) =~= all);
}

impl Gathering {
    /// Take in one slot.
    fn add(
        &mut self,
        v: &VisibleTile<DecodedTile>,
        target_zoom: u8,
        zoom: u8,
        Ghost(front): Ghost<Seq<SlotView>>,
    )
        requires
            old(self)@ == gathered(front, target_zoom, zoom),
            shift_of(v.source, target_zoom) < 64,
        ensures
            final(self)@ == gathered(front.push(slot_view(*v)), target_zoom, zoom),
    {
        let ghost vis = front.push(slot_view(*v));
        assert(vis.drop_last() =~= front);
        let d: &DecodedTile = &v.data;
        let shift: u8 = if target_zoom > v.source.z {
            target_zoom - v.source.z
        } else {
            0
        };
        let f = FrameAt { source: v.source, extent: d.extent, shift };
        assert(f@ == frame_of(slot_view(*v), target_zoom));
        self.extent = d.extent;
        // Only same-zoom (exact) tiles weld; fallbacks differ in scale.
        if v.source == v.tile {
            gather_roads(&f, &d.roads, zoom, &mut self.weldable);
        } else {
            gather_roads(&f, &d.roads, zoom, &mut self.roads);
        }
        gather_areas(&f, &d.areas, zoom, &mut self.areas);
        gather_labels(&f, &d.labels, zoom, &mut self.labels);
        gather_pois(&f, &d.pois, zoom, &mut self.pois);
        assert(self@ =~= gathered(vis, target_zoom, zoom));
    }
}

fn key_of_area(a: &SceneArea) -> (r: i128)
    ensures
        r == area_key(a@),
{
    (a.layer as i128 + 128) * 0x1_0000 + (a.kind.to_u8() as i128) * 0x100 + a.floors as i128
}

fn take_area(areas: &mut Vec<Option<SceneArea>>, i: usize) -> (r: Option<SceneArea>)
    requires
        i < old(areas)@.len(),
    ensures
        r == old(areas)@[i as int],
        final(areas)@ == old(areas)@.update(i as int, None),
{
    let mut slot: Option<SceneArea> = None;
    std::mem::swap(&mut areas[i], &mut slot);
    slot
}

/// Sort by (layer, kind, floors) for a stable, layer-ordered draw sequence (so e.g.
/// water draws under forest, buildings last).
fn sort_areas(areas: Vec<SceneArea>) -> (r: Vec<SceneArea>)
    ensures
        in_draw_order(areas_view(r@), areas_view(areas@)),
{
    let ghost s = areas_view(areas@);
    let mut keys: Vec<i128> = Vec::new();
    let mut i: usize = 0;
    while i < areas.len()
        invariant
            i <= areas@.len(),
            s == areas_view(areas@),
            keys@ == area_keys(s).take(i as int),
        decreases areas@.len() - i,
    {
        keys.push(key_of_area(&areas[i]));
        i = i + 1;
        assert(area_keys(s).take(i as int) =~= area_keys(s).take(i - 1).push(area_key(s[i - 1])));
    }
    assert(area_keys(s).take(i as int) =~= area_keys(s));
    let order: Vec<usize> = sort_order(&keys);
    let n: usize = areas.len();
    let mut slots: Vec<Option<SceneArea>> = Vec::new();
    let mut rest: Vec<SceneArea> = areas;
    let ghost all = areas@;
    let mut i: usize = n;
    // Slots are filled from the back so each area is moved once.
    while i > 0
        invariant
            i <= n,
            n == all.len(),
            rest@ == all.take(i as int),
            slots@.len() == n - i,
            forall|k: int| 0 <= k < n - i ==> #[trigger] slots@[k] == Some(all[n - 1 - k]),
        decreases i,
    {
        let a: Option<SceneArea> = rest.pop();
        slots.push(a);
        i = i - 1;
        assert(rest@ =~= all.take(i as int));
    }
    let mut r: Vec<SceneArea> = Vec::new();
    let mut k: usize = 0;
    let ghost before = slots@;
    while k < n
        invariant
            k <= n,
            n == all.len(),
            slots@.len() == n,
            order@.len() == n,
            before.len() == n,
            forall|m: int| 0 <= m < n ==> #[trigger] before[m] == Some(all[n - 1 - m]),
            is_stable_order(order@, area_keys(s)),
            s == areas_view(all),
            r@.len() == k,
            forall|m: int| 0 <= m < k ==> #[trigger] r@[m] == all[order@[m] as int],
            forall|m: int|
                k <= m < n ==> slots@[n - 1 - (#[trigger] order@[m])] == Some(all[order@[m] as int]),
        decreases n - k,
    {
        let j: usize = n - 1 - order[k];
        assert(slots@[n - 1 - order@[k as int]] == Some(all[order@[k as int] as int]));
        let ghost was = slots@;
        match take_area(&mut slots, j) {
            Some(a) => r.push(a),
            None => {},
        }
        assert forall|m: int| k + 1 <= m < n implies slots@[n - 1 - (#[trigger] order@[m])] == Some(
            all[order@[m] as int],
        ) by {
            assert(order@[m] != order@[k as int]);
            assert(was[n - 1 - order@[m]] == Some(all[order@[m] as int]));
        }
        k = k + 1;
    }
    proof {
        assert(areas_view(r@) =~= Seq::new(order@.len(), |i: int| s[order@[i] as int]));
        assert(is_stable_order(order@, area_keys(s)));
    }
    r
}

/// Gather the shapes of every slot.
fn gather(visible: &Vec<VisibleTile<DecodedTile>>, target_zoom: u8, display_zoom: u8) -> (g:
    Gathering)
    requires
        shifts_fit(slots_view(visible@), target_zoom),
    ensures
        g@ == gathered(slots_view(visible@), target_zoom, display_zoom),
{
    let ghost vis = slots_view(visible@);
    let mut g = Gathering {
        extent: 0,
        weldable: Vec::new(),
        roads: Vec::new(),
        areas: Vec::new(),
        labels: Vec::new(),
        pois: Vec::new(),
    };
    assert(g@ =~= gathered(vis.take(0), target_zoom, display_zoom));
    let mut i: usize = 0;
    while i < visible.len()
        invariant
            i <= visible@.len(),
            vis == slots_view(visible@),
            shifts_fit(vis, target_zoom),
            g@ == gathered(vis.take(i as int), target_zoom, display_zoom),
        decreases visible@.len() - i,
    {
        assert(vis[i as int].source == visible@[i as int].source);
        g.add(&visible[i], target_zoom, display_zoom, Ghost(vis.take(i as int)));
        i = i + 1;
        assert(vis.take(i - 1).push(vis[i - 1]) =~= vis.take(i as int));
    }
    assert(vis.take(i as int) =~= vis);
    g
}

/// Whether a step between vertices fits 32 bits either way.
fn step_ok(a: [i32; 2], b: [i32; 2]) -> (r: bool)
    ensures
        r == step_fits(a, b),
{
    let dx: i64 = b[0] as i64 - a[0] as i64;
    let dy: i64 = b[1] as i64 - a[1] as i64;
    -0x7fff_ffff <= dx && dx <= 0x7fff_ffff && -0x7fff_ffff <= dy && dy <= 0x7fff_ffff
}

fn is_weldable(road: &SceneRoad) -> (r: bool)
    ensures
        r == weldable(road@),
{
    let n: usize = road.coords.len();
    if n == 0 || road.lanes.len() != n {
        return false;
    }
    n < 2 || (step_ok(road.coords[0], road.coords[1]) && step_ok(
        road.coords[n - 2],
        road.coords[n - 1],
    ))
}

/// Whether the visible tiles can be assembled: no coarser tile is scaled up by 64 zooms
/// or more, and every shown road of an exact tile has a vertex, and at its ends steps that
/// fit 32 bits.
pub fn is_assemblable(visible: &Vec<VisibleTile<DecodedTile>>, display_zoom: u8) -> (r: bool)
    ensures
        r == assemblable(slots_view(visible@), display_zoom),
{
    let ghost vis = slots_view(visible@);
    let target_zoom: u8 = find_target_zoom(visible);
    let mut i: usize = 0;
    while i < visible.len()
        invariant
            i <= visible@.len(),
            vis == slots_view(visible@),
            target_zoom == target_zoom_of(vis),
            forall|k: int|
                0 <= k < i ==> shift_of((#[trigger] vis[k]).source, target_zoom) < 64,
        decreases visible@.len() - i,
    {
        assert(vis[i as int].source == visible@[i as int].source);
        let z: u8 = visible[i].source.z;
        if target_zoom > z && target_zoom - z >= 64 {
            return false;
        }
        i = i + 1;
    }
    let g: Gathering = gather(visible, target_zoom, display_zoom);
    let ghost all = gathered(vis, target_zoom, display_zoom);
    let mut k: usize = 0;
    while k < g.weldable.len()
        invariant
            k <= g.weldable@.len(),
            vis == slots_view(visible@),
            all.weldable == roads_view(g.weldable@),
            all == gathered(vis, target_zoom_of(vis), display_zoom),
            forall|m: int| 0 <= m < k ==> weldable(#[trigger] all.weldable[m]),
        decreases g.weldable@.len() - k,
    {
        assert(all.weldable[k as int] == g.weldable@[k as int]@);
        if !is_weldable(&g.weldable[k]) {
            return false;
        }
        k = k + 1;
    }
    true
}

/// What a scene holds of the visible tiles.
pub open spec fn is_scene_of(r: Scene, vis: Seq<SlotView>, display_zoom: u8) -> bool {
    let g = gathered(vis, target_zoom_of(vis), display_zoom);
    &&& r.target_zoom == target_zoom_of(vis)
    &&& r.extent == g.extent
    &&& roads_view(r.roads@) == blended(
        g.kept + welded(g.weldable, g.extent),
        weld_tolerance(g.extent),
    )
    &&& in_draw_order(areas_view(r.areas@), g.areas)
    &&& labels_view(r.labels@) == g.labels
    &&& r.pois@ == g.pois
}

/// One geometry yielded from a `Scene`.
pub enum Feature<'a> {
    Road(&'a SceneRoad),
    Area(&'a SceneArea),
    Label(&'a SceneLabel),
    Poi(&'a ScenePoi),
}

impl Scene {
    /// Assemble a scene from an already-fetched visible tile set (coordinate
    /// transform into the scene frame + cross-tile road welding). Shapes whose
    /// class isn't shown at `display_zoom` (the live camera zoom) are dropped
    /// before welding, so minor roads / detail features vanish when finer tiles
    /// are viewed at a coarser zoom. `display_zoom` is not clamped up to the target
    /// zoom: a class materialized at the loaded tile level stays hidden until the
    /// camera reaches its threshold.
    pub fn from_visible(visible: Vec<VisibleTile<DecodedTile>>, display_zoom: u8) -> (r: Scene)
        requires
            assemblable(slots_view(visible@), display_zoom),
        ensures
            is_scene_of(r, slots_view(visible@), display_zoom),
    {
        let ghost vis = slots_view(visible@);
        let target_zoom: u8 = find_target_zoom(&visible);
        let g: Gathering = gather(&visible, target_zoom, display_zoom);
        let Gathering { extent, weldable, roads, areas, labels, pois } = g;
        let ghost all = gathered(vis, target_zoom, display_zoom);
        let mut roads: Vec<SceneRoad> = roads;
        proof {
            assert forall|k: int| 0 <= k < weldable@.len() implies crate::weld_model::weldable(
                (#[trigger] weldable@[k])@,
            ) by {
                assert(crate::weld_model::weldable(all.weldable[k]));
            }
            lemma_gathered_lanes(vis, target_zoom, display_zoom);
            weld_conserves(all.weldable, extent);
        }
        let mut joined: Vec<SceneRoad> = weld_scene_roads(weldable, extent);
        let ghost kept = roads@;
        let ghost strokes = joined@;
        roads.append(&mut joined);
        proof {
            assert(roads_view(roads@) =~= all.kept + welded(all.weldable, extent));
            assert forall|k: int| 0 <= k < roads@.len() implies parallel((#[trigger] roads@[k])@) by {
                if k < kept.len() {
                    assert(roads@[k] == kept[k]);
                    assert(parallel(all.kept[k]));
                } else {
                    assert(roads@[k] == strokes[k - kept.len()]);
                    assert(stroke_of(welded(all.weldable, extent)[k - kept.len()], all.weldable));
                }
            }
        }
        blend_join_widths(&mut roads, extent);
        // Areas are emitted per tile, with no cross-tile union: edge-exact clipping
        // makes same-kind neighbours abut seamlessly when filled, and the per-vertex
        // `clip` flags carry the tile-cut edges so a border pass can skip them.
        let areas: Vec<SceneArea> = sort_areas(areas);
        Scene { target_zoom, extent, roads, areas, labels, pois }
    }

    pub fn roads(&self) -> (r: &[SceneRoad])
        ensures
            r@ == self.roads@,
    {
        self.roads.as_slice()
    }

    pub fn areas(&self) -> (r: &[SceneArea])
        ensures
            r@ == self.areas@,
    {
        self.areas.as_slice()
    }

    pub fn labels(&self) -> (r: &[SceneLabel])
        ensures
            r@ == self.labels@,
    {
        self.labels.as_slice()
    }

    pub fn pois(&self) -> (r: &[ScenePoi])
        ensures
            r@ == self.pois@,
    {
        self.pois.as_slice()
    }

    /// Every geometry in the view (roads, then areas, then labels, then POIs).
    pub fn features(&self) -> (r: Vec<Feature<'_>>)
        ensures
            r@.len() == self.roads@.len() + self.areas@.len() + self.labels@.len()
                + self.pois@.len(),
            forall|i: int| 0 <= i < r@.len() ==> is_feature(*self, i, #[trigger] r@[i]),
    {
        let mut out: Vec<Feature> = Vec::new();
        let mut i: usize = 0;
        while i < self.roads.len()
            invariant
                i <= self.roads@.len(),
                out@.len() == i,
                forall|k: int| 0 <= k < out@.len() ==> is_feature(*self, k, #[trigger] out@[k]),
            decreases self.roads@.len() - i,
        {
            out.push(Feature::Road(&self.roads[i]));
            i = i + 1;
        }
        let mut i: usize = 0;
        while i < self.areas.len()
            invariant
                i <= self.areas@.len(),
                out@.len() == self.roads@.len() + i,
                forall|k: int| 0 <= k < out@.len() ==> is_feature(*self, k, #[trigger] out@[k]),
            decreases self.areas@.len() - i,
        {
            out.push(Feature::Area(&self.areas[i]));
            i = i + 1;
        }
        let mut i: usize = 0;
        while i < self.labels.len()
            invariant
                i <= self.labels@.len(),
                out@.len() == self.roads@.len() + self.areas@.len() + i,
                forall|k: int| 0 <= k < out@.len() ==> is_feature(*self, k, #[trigger] out@[k]),
            decreases self.labels@.len() - i,
        {
            out.push(Feature::Label(&self.labels[i]));
            i = i + 1;
        }
        let mut i: usize = 0;
        while i < self.pois.len()
            invariant
                i <= self.pois@.len(),
                out@.len() == self.roads@.len() + self.areas@.len() + self.labels@.len() + i,
                forall|k: int| 0 <= k < out@.len() ==> is_feature(*self, k, #[trigger] out@[k]),
            decreases self.pois@.len() - i,
        {
            out.push(Feature::Poi(&self.pois[i]));
            i = i + 1;
        }
        out
    }
}

/// The `i`-th geometry of a scene.
pub open spec fn is_feature(s: Scene, i: int, f: Feature) -> bool {
    let areas = s.roads@.len();
    let labels = areas + s.areas@.len();
    let pois = labels + s.labels@.len();
    if i < areas {
        f matches Feature::Road(r) && *r == s.roads@[i]
    } else if i < labels {
        f matches Feature::Area(a) && *a == s.areas@[i - areas]
    } else if i < pois {
        f matches Feature::Label(l) && *l == s.labels@[i - labels]
    } else {
        f matches Feature::Poi(p) && *p == s.pois@[i - pois]
    }
}

// ---- rebuilding on change ----

/// What a scene is made from: the display zoom, and each slot's tile with the tile its
/// data comes from.
pub struct Composition {
    pub display_zoom: u8,
    pub slots: Seq<(Tile, Tile)>,
}

pub open spec fn composition_of(vis: Seq<SlotView>, display_zoom: u8) -> Composition {
    Composition { display_zoom, slots: Seq::new(vis.len(), |i: int| (vis[i].tile, vis[i].source)) }
}

/// A scene producer that rebuilds only when the visible tile composition changes, so a
/// slight pan within the same tiles costs no re-transform and re-weld.
pub struct SceneView<V> {
    view: V,
    last: Option<(u8, Vec<(Tile, Tile)>)>,
}

impl<V> SceneView<V> {
    pub closed spec fn tiles_from(&self) -> V {
        self.view
    }

    /// The composition of the scene that was last built, if one counts.
    pub closed spec fn last_built(&self) -> Option<Composition> {
        match self.last {
            Some((z, slots)) => Some(Composition { display_zoom: z, slots: slots@ }),
            None => None,
        }
    }

    /// A producer beside the view that its visible tiles come from.
    pub fn new(view: V) -> (r: Self)
        ensures
            r.tiles_from() == view,
            r.last_built() is None,
    {
        SceneView { view, last: None }
    }

    /// The underlying view (e.g. to inspect the cache).
    pub fn view(&self) -> (r: &V)
        ensures
            *r == self.tiles_from(),
    {
        &self.view
    }

    /// A fresh `Scene` only if the visible tile composition changed since the last call
    /// (new tiles, tiles leaving view, a fallback upgrading to its exact tile, or another
    /// display zoom). `None` means the previously returned scene is still valid.
    pub fn update(&mut self, visible: Vec<VisibleTile<DecodedTile>>, display_zoom: u8) -> (r: Option<
        Scene,
    >)
        requires
            assemblable(slots_view(visible@), display_zoom),
        ensures
            r is None <==> old(self).last_built() == Some(
                composition_of(slots_view(visible@), display_zoom),
            ),
            r matches Some(scene) ==> is_scene_of(scene, slots_view(visible@), display_zoom),
            final(self).last_built() == Some(composition_of(slots_view(visible@), display_zoom)),
            final(self).tiles_from() == old(self).tiles_from(),
    {
        let ghost now = composition_of(slots_view(visible@), display_zoom);
        let mut slots: Vec<(Tile, Tile)> = Vec::new();
        let mut i: usize = 0;
        while i < visible.len()
            invariant
                i <= visible@.len(),
                slots@.len() == i,
                now == composition_of(slots_view(visible@), display_zoom),
                forall|k: int| 0 <= k < i ==> #[trigger] slots@[k] == now.slots[k],
            decreases visible@.len() - i,
        {
            slots.push((visible[i].tile, visible[i].source));
            i = i + 1;
        }
        assert(slots@ =~= now.slots);
        let same: bool = match &self.last {
            Some((z, before)) => *z == display_zoom && same_slots(before, &slots),
            None => false,
        };
        if same {
            return None;
        }
        self.last = Some((display_zoom, slots));
        Some(Scene::from_visible(visible, display_zoom))
    }

    /// Force the next `update` to rebuild (e.g. after a style change that isn't reflected
    /// in the tile set).
    pub fn invalidate(&mut self)
        ensures
            final(self).last_built() is None,
            final(self).tiles_from() == old(self).tiles_from(),
    {
        self.last = None;
    }
}

fn same_slots(a: &Vec<(Tile, Tile)>, b: &Vec<(Tile, Tile)>) -> (r: bool)
    ensures
        r == (a@ == b@),
{
    if a.len() != b.len() {
        return false;
    }
    let mut i: usize = 0;
    while i < a.len()
        invariant
            i <= a@.len(),
            a@.len() == b@.len(),
            forall|k: int| 0 <= k < i ==> #[trigger] a@[k] == b@[k],
        decreases a@.len() - i,
    {
        if a[i].0 != b[i].0 || a[i].1 != b[i].1 {
            assert(a@[i as int] != b@[i as int]);
            return false;
        }
        i = i + 1;
    }
    assert(a@ =~= b@);
    true
}

} // verus!
