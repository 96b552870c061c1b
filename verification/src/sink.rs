//! Tiler policy: at which zooms a shape is cut into tiles, and the records its pieces
//! become.

use vstd::prelude::*;

use crate::feature::{AreaKind, EdgeNode, LabelClass, Lanes, RoadKind};
use crate::grid::{AreaPiece, LinePiece};
use crate::record::{
    coords_view, name_view, point_view, rings_view, GeometryView, RecordView, TileGeometry,
    TileRecord,
};
use crate::tiler::TileParams;

verus! {

/// Coarsest zoom at which a shape is materialized from raw per-feature geometry.
pub const AGG_MAX_ZOOM: u8 = 8;

/// Materialized zooms (client overzooms the gaps).
pub fn standard_zooms() -> (r: Vec<u8>)
    ensures
        r@ == seq![14u8, 12u8, 10u8, 8u8, 6u8, 4u8],
{
    let r: Vec<u8> = vec![14u8, 12u8, 10u8, 8u8, 6u8, 4u8];
    assert(r@ =~= seq![14u8, 12u8, 10u8, 8u8, 6u8, 4u8]);
    r
}

/// Whether a kind is materialized from the global aggregation mask at coarse zooms.
pub fn is_aggregated(kind: AreaKind) -> (r: bool)
    ensures
        r == (kind == AreaKind::Forest),
{
    kind == AreaKind::Forest
}

/// The zooms of a list from `lo` to `hi`.
pub open spec fn zooms_between(zooms: Seq<u8>, lo: u8, hi: u8) -> Seq<u8>
    decreases zooms.len(),
{
    if zooms.len() == 0 {
        Seq::empty()
    } else {
        let front = zooms_between(zooms.drop_last(), lo, hi);
        if lo <= zooms.last() <= hi {
            front.push(zooms.last())
        } else {
            front
        }
    }
}

/// The zooms between two bounds are those of the list that lie between them.
pub proof fn zooms_between_exact(zooms: Seq<u8>, lo: u8, hi: u8, z: u8)
    ensures
        zooms_between(zooms, lo, hi).contains(z) <==> zooms.contains(z) && lo <= z <= hi,
    decreases zooms.len(),
{
    if zooms.len() > 0 {
        let rest = zooms.drop_last();
        zooms_between_exact(rest, lo, hi, z);
        let front = zooms_between(rest, lo, hi);
        let out = zooms_between(zooms, lo, hi);
        if out.contains(z) {
            let k = choose|k: int| 0 <= k < out.len() && out[k] == z;
            if k < front.len() {
                assert(front[k] == z);
                assert(front.contains(z));
                let m = choose|m: int| 0 <= m < rest.len() && rest[m] == z;
                assert(zooms[m] == z);
            } else {
                assert(zooms[zooms.len() - 1] == z);
            }
        }
        if zooms.contains(z) && lo <= z <= hi {
            let m = choose|m: int| 0 <= m < zooms.len() && zooms[m] == z;
            if m < rest.len() {
                assert(rest[m] == z);
                assert(front.contains(z));
                let k = choose|k: int| 0 <= k < front.len() && front[k] == z;
                assert(out[k] == z);
            } else {
                assert(out[front.len() as int] == z);
            }
        }
    }
}

/// The least zoom at which an area is cut from its own geometry.
pub open spec fn raw_floor(kind: AreaKind) -> u8 {
    if kind == AreaKind::Forest && kind.spec_min_zoom() <= AGG_MAX_ZOOM {
        (AGG_MAX_ZOOM + 1) as u8
    } else {
        kind.spec_min_zoom()
    }
}

/// At every zoom at which an aggregated kind shows, it is cut either from its own geometry
/// or from the aggregated one, and never from both.
pub proof fn raw_or_aggregated(zooms: Seq<u8>, kind: AreaKind, z: u8)
    requires
        kind == AreaKind::Forest,
        zooms.contains(z),
    ensures
        ({
            let raw = zooms_between(zooms, raw_floor(kind), 255).contains(z);
            let agg = zooms_between(zooms, kind.spec_min_zoom(), AGG_MAX_ZOOM).contains(z);
            &&& !(raw && agg)
            &&& (raw || agg) <==> z >= kind.spec_min_zoom()
        }),
{
    zooms_between_exact(zooms, raw_floor(kind), 255, z);
    zooms_between_exact(zooms, kind.spec_min_zoom(), AGG_MAX_ZOOM, z);
}

/// The low-zoom road network and the roads' own geometry are cut at different zooms: the
/// two ranges don't overlap.
pub proof fn network_and_raw_roads_apart(zooms: Seq<u8>, kind: RoadKind, z: u8)
    requires
        kind != RoadKind::MajorRoad,
        kind != RoadKind::Border,
    ensures
        ({
            let network = zooms_between(zooms, RoadKind::MajorRoad.spec_min_zoom(), AGG_MAX_ZOOM);
            let raw = zooms_between(zooms, kind.spec_min_zoom(), 255);
            !(network.contains(z) && raw.contains(z))
        }),
{
    zooms_between_exact(zooms, RoadKind::MajorRoad.spec_min_zoom(), AGG_MAX_ZOOM, z);
    zooms_between_exact(zooms, kind.spec_min_zoom(), 255, z);
}

/// The end of a piece: a clip-created endpoint becomes `Cut`, so that the renderer
/// continues the line into the neighbour; a true end keeps the road's own node state.
pub open spec fn piece_end(own: EdgeNode, cut: bool) -> EdgeNode {
    if cut {
        EdgeNode::Cut
    } else {
        own
    }
}

fn end_of(own: EdgeNode, cut: bool) -> (r: EdgeNode)
    ensures
        r == piece_end(own, cut),
{
    if cut {
        EdgeNode::Cut
    } else {
        own
    }
}

/// What an area is besides its geometry.
#[derive(Debug, Clone, Copy)]
pub struct AreaStyle {
    pub kind: AreaKind,
    pub layer: i8,
    pub floors: u8,
}

/// What a road is besides its geometry.
#[derive(Debug, Clone)]
pub struct RoadStyle {
    pub kind: RoadKind,
    pub start: EdgeNode,
    pub end: EdgeNode,
    pub layer: i8,
    pub lanes: Lanes,
    pub name: Option<String>,
}

/// Tiling of shapes across all materialized zooms.
pub struct TileSink {
    /// Extent / bucket config; each zoom derives its own grid params.
    pub base: TileParams,
    /// Materialized zoom levels (client overzooms the gaps).
    pub zooms: Vec<u8>,
}

impl TileSink {
    pub fn new(base: TileParams, zooms: Vec<u8>) -> (r: Self)
        ensures
            r.base == base,
            r.zooms@ == zooms@,
    {
        TileSink { base, zooms }
    }

    /// Per-zoom grid params: grid zoom = `z`, `bucket_zoom` 0 (bucket routing goes by
    /// `base`).
    pub fn zoom_params(&self, z: u8) -> (r: TileParams)
        ensures
            r.grid_zoom == z,
            r.min_zoom == self.base.min_zoom,
            r.bucket_zoom == 0,
            r.extent == self.base.extent,
    {
        TileParams::new(z, self.base.min_zoom, 0, self.base.extent)
    }

    /// Whether a zoom is kept full-detail (the finest / base grid zoom).
    pub fn full_detail(&self, z: u8) -> (r: bool)
        ensures
            r == (z == self.base.grid_zoom),
    {
        z == self.base.grid_zoom
    }

    fn between(&self, lo: u8, hi: u8) -> (r: Vec<u8>)
        ensures
            r@ == zooms_between(self.zooms@, lo, hi),
    {
        let mut r: Vec<u8> = Vec::new();
        let mut i: usize = 0;
        assert(r@ =~= zooms_between(self.zooms@.take(0), lo, hi));
        while i < self.zooms.len()
            invariant
                i <= self.zooms@.len(),
                r@ == zooms_between(self.zooms@.take(i as int), lo, hi),
            decreases self.zooms@.len() - i,
        {
            let z: u8 = self.zooms[i];
            if lo <= z && z <= hi {
                r.push(z);
            }
            i = i + 1;
            proof {
                let done = self.zooms@.take(i as int);
                assert(done.drop_last() =~= self.zooms@.take(i - 1));
                assert(done.last() == z);
            }
        }
        assert(self.zooms@.take(i as int) =~= self.zooms@);
        r
    }

    /// The zooms at which an area is cut from its own geometry: those at which its class
    /// shows, and for an aggregated kind only those finer than the aggregation.
    pub fn area_zooms(&self, kind: AreaKind) -> (r: Vec<u8>)
        ensures
            r@ == zooms_between(self.zooms@, raw_floor(kind), 255),
    {
        let floor: u8 = kind.min_zoom();
        if is_aggregated(kind) && floor <= AGG_MAX_ZOOM {
            self.between(AGG_MAX_ZOOM + 1, 255)
        } else {
            self.between(floor, 255)
        }
    }

    /// The zooms at which the merged geometry of an aggregated kind is cut.
    pub fn aggregated_zooms(&self, kind: AreaKind) -> (r: Vec<u8>)
        ensures
            r@ == zooms_between(self.zooms@, kind.spec_min_zoom(), AGG_MAX_ZOOM),
    {
        self.between(kind.min_zoom(), AGG_MAX_ZOOM)
    }

    /// The zooms at which a road is cut.
    pub fn road_zooms(&self, kind: RoadKind) -> (r: Vec<u8>)
        ensures
            r@ == zooms_between(self.zooms@, kind.spec_min_zoom(), 255),
    {
        self.between(kind.min_zoom(), 255)
    }

    /// The coarse zooms at which an aggregated road is cut.
    pub fn aggregated_road_zooms(&self, kind: RoadKind) -> (r: Vec<u8>)
        ensures
            r@ == zooms_between(self.zooms@, kind.spec_min_zoom(), AGG_MAX_ZOOM),
    {
        self.between(kind.min_zoom(), AGG_MAX_ZOOM)
    }

    /// The zooms at which a label stands.
    pub fn label_zooms(&self, class: LabelClass) -> (r: Vec<u8>)
        ensures
            r@ == zooms_between(self.zooms@, class.spec_min_zoom(), 255),
    {
        self.between(class.min_zoom(), 255)
    }
}

/// The record of an area's piece.
pub fn area_record(tile_key: u64, style: &AreaStyle, piece: AreaPiece) -> (r: TileRecord)
    ensures
        r@ == (RecordView {
            tile_key,
            layer: style.layer,
            geometry: GeometryView::Area {
                kind: style.kind,
                floors: style.floors,
                rings: rings_view(piece.rings@),
                clip: piece.clip@,
            },
        }),
{
    TileRecord {
        tile_key,
        layer: style.layer,
        geometry: TileGeometry::Area {
            kind: style.kind,
            floors: style.floors,
            rings: piece.rings,
            clip: piece.clip,
        },
    }
}

/// The record of a road's piece.
pub fn road_record(tile_key: u64, style: &RoadStyle, piece: LinePiece) -> (r: TileRecord)
    ensures
        r@ == (RecordView {
            tile_key,
            layer: style.layer,
            geometry: GeometryView::Road {
                kind: style.kind,
                start: piece_end(style.start, piece.start_cut),
                end: piece_end(style.end, piece.end_cut),
                coords: coords_view(piece.points@),
                lanes_forward: style.lanes.forward,
                lanes_backward: style.lanes.backward,
                name: name_view(style.name),
            },
        }),
{
    let name: Option<String> = match &style.name {
        Some(s) => Some(s.clone()),
        None => None,
    };
    TileRecord {
        tile_key,
        layer: style.layer,
        geometry: TileGeometry::Road {
            kind: style.kind,
            start: end_of(style.start, piece.start_cut),
            end: end_of(style.end, piece.end_cut),
            coords: piece.points,
            lanes_forward: style.lanes.forward,
            lanes_backward: style.lanes.backward,
            name,
        },
    }
}

/// The record of a label.
pub fn label_record(tile_key: u64, class: LabelClass, anchor: [i16; 2], name: &String) -> (r:
    TileRecord)
    ensures
        r@ == (RecordView {
            tile_key,
            layer: 0,
            geometry: GeometryView::Label { class, anchor: point_view(anchor), name: name@ },
        }),
{
    TileRecord {
        tile_key,
        layer: 0,
        geometry: TileGeometry::Label { class, anchor, name: name.clone() },
    }
}

} // verus!
