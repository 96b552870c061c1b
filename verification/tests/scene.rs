//! Tile cache, scene assembly, painting and tiling policy.

use shashlik_tiles::compress::pack_tile;
use shashlik_tiles::decode::{DecArea, DecLabel, DecPoi, DecRoad, DecodedTile};
use shashlik_tiles::feature::{AreaKind, EdgeNode, LabelClass, Lanes, PoiKind, RoadKind, RoadStructure};
use shashlik_tiles::grid::{
    bbox_area, canonicalize, finish_ring, least_area, make_piece, split_block, visible_runs,
    AreaPiece, LinePiece, Run, TileBlock, Visible,
};
use shashlik_tiles::mask::{
    crop, morph_close, morph_pass, occupied_bbox, padded, CellBox, PolygonMask, W,
};
use shashlik_tiles::painter::{area_color, area_rank, draw_order, poi_color, road_color, road_rank, Base};
use shashlik_tiles::record::{TileGeometry, TileRecord};
use shashlik_tiles::scene::{
    is_assemblable, Feature, Scene, SceneArea, SceneView, VisibleTile,
};
use shashlik_tiles::sink::{
    area_record, is_aggregated, label_record, road_record, standard_zooms, AreaStyle, RoadStyle,
    TileSink, AGG_MAX_ZOOM,
};
use shashlik_tiles::strokes::{chain_group, dedup_parallel, Step, Turn};
use shashlik_tiles::tile::Tile;
use shashlik_tiles::tile_cache::TileCache;
use shashlik_tiles::tiler::TileParams;
use shashlik_tiles::view::{Lru, TilePayload};
use std::sync::Arc;

#[test]
fn scene_area_to_geo_polygon() {
    let area = SceneArea {
        kind: AreaKind::Water,
        layer: 0,
        floors: 1,
        rings: vec![
            vec![[0, 0], [10, 0], [10, 10], [0, 10]], // 10×10 outer
            vec![[2, 2], [4, 2], [4, 4], [2, 4]],     // 2×2 hole
        ],
        clip: vec![],
    };
    let rings = area.closed_rings();
    // Rings closed (first == last appended).
    assert_eq!(rings.len(), 2);
    assert_eq!(rings[0].len(), 5);
    assert_eq!(rings[1].len(), 5);
    // Area = outer 100 minus hole 4.
    let line = |r: &Vec<[i32; 2]>| {
        geo::LineString::from(
            r.iter()
                .map(|p| (p[0] as f64, p[1] as f64))
                .collect::<Vec<_>>(),
        )
    };
    let poly = geo::Polygon::new(line(&rings[0]), vec![line(&rings[1])]);
    assert_eq!(geo::Area::unsigned_area(&poly), 96.0);
}

#[test]
fn closed_rings_are_left_closed() {
    let area = SceneArea {
        kind: AreaKind::Land,
        layer: 0,
        floors: 1,
        rings: vec![vec![[0, 0], [1, 0], [0, 0]], vec![]],
        clip: vec![],
    };
    assert_eq!(area.closed_rings(), vec![vec![[0, 0], [1, 0], [0, 0]], vec![]]);
}

fn road(kind: RoadKind, coords: Vec<[i16; 2]>, start: EdgeNode, end: EdgeNode) -> DecRoad {
    DecRoad {
        kind,
        layer: 0,
        lanes: Lanes::new(1, 1),
        start,
        end,
        structure: RoadStructure::AtGrade,
        name: None,
        coords,
    }
}

fn tile_with(roads: Vec<DecRoad>) -> DecodedTile {
    DecodedTile {
        extent: 8192,
        roads,
        areas: vec![],
        labels: vec![],
        pois: vec![],
    }
}

fn slot(tile: Tile, source: Tile, data: DecodedTile) -> VisibleTile<DecodedTile> {
    VisibleTile {
        tile,
        source,
        data: Arc::new(data),
    }
}

#[test]
fn scene_welds_across_tiles_in_the_scene_frame() {
    let (left, right) = (Tile::new(4, 7, 14), Tile::new(5, 7, 14));
    let a = tile_with(vec![road(
        RoadKind::Primary,
        vec![[4000, 50], [8192, 50]],
        EdgeNode::Disconnected,
        EdgeNode::Cut,
    )]);
    let b = tile_with(vec![road(
        RoadKind::Primary,
        vec![[0, 50], [100, 50]],
        EdgeNode::Cut,
        EdgeNode::Disconnected,
    )]);
    let visible = vec![slot(left, left, a), slot(right, right, b)];
    assert!(is_assemblable(&visible, 14));
    let scene = Scene::from_visible(visible, 14);
    assert_eq!((scene.target_zoom, scene.extent), (14, 8192));
    assert_eq!(scene.roads().len(), 1);
    let y = 7 * 8192 + 50;
    assert_eq!(
        scene.roads()[0].coords,
        vec![[4 * 8192 + 4000, y], [5 * 8192, y], [5 * 8192 + 100, y]]
    );
}

#[test]
fn fallback_tiles_are_scaled_and_hidden_classes_dropped() {
    let (exact, coarse) = (Tile::new(8, 8, 14), Tile::new(2, 2, 12));
    let mut t = tile_with(vec![road(
        RoadKind::Motorway,
        vec![[1, 2], [3, 4]],
        EdgeNode::Cut,
        EdgeNode::Cut,
    )]);
    t.areas.push(DecArea {
        kind: AreaKind::Building,
        layer: 0,
        floors: 2,
        rings: vec![vec![[0, 0], [1, 0], [1, 1]]],
        clip: vec![],
    });
    t.labels.push(DecLabel {
        class: LabelClass::City,
        rank: 0,
        anchor: [5, 6],
        name: "X".to_string(),
    });
    t.pois.push(DecPoi {
        kind: PoiKind::TrafficSignal,
        anchor: [7, 8],
    });
    let visible = vec![
        slot(exact, exact, tile_with(vec![])),
        slot(Tile::new(9, 8, 14), coarse, t),
    ];
    let scene = Scene::from_visible(visible, 12);
    assert_eq!(scene.target_zoom, 14);
    let at = |i: i32, l: i32| (i * 8192 + l) * 4;
    assert_eq!(scene.roads().len(), 1);
    assert_eq!(
        scene.roads()[0].coords,
        vec![[at(2, 1), at(2, 2)], [at(2, 3), at(2, 4)]]
    );
    assert!(scene.areas().is_empty(), "buildings are hidden at 12");
    assert_eq!(scene.labels()[0].anchor, [at(2, 5), at(2, 6)]);
    assert!(scene.pois().is_empty());
    assert_eq!(scene.features().len(), 2);
    assert!(matches!(scene.features()[0], Feature::Road(_)));
    assert!(matches!(scene.features()[1], Feature::Label(_)));
}

#[test]
fn scene_view_rebuilds_only_on_change() {
    // A (garbage) blob decodes to an empty tile, which is fine for the change gate.
    let garbage = || DecodedTile::from_tile_bytes(vec![14, 0, 0]);
    let view = |x: u32| {
        let t = Tile::new(x, 3, 14);
        vec![slot(t, t, garbage())]
    };
    let mut sv = SceneView::new(TileCache::<DecodedTile>::new(vec![14], 1 << 20, 22));
    assert_eq!(sv.view().zoom_levels(), &vec![14]);
    assert!(sv.update(view(1), 14).is_some(), "first call builds");
    assert!(sv.update(view(1), 14).is_none(), "unchanged view → reuse");
    assert!(sv.update(view(2), 14).is_some(), "moved to new tiles → rebuild");
    sv.invalidate();
    assert!(sv.update(view(2), 14).is_some(), "invalidate forces a rebuild");
    assert!(sv.update(view(2), 13).is_some(), "another display zoom");
    let upgraded = vec![slot(Tile::new(2, 3, 14), Tile::new(1, 1, 13), garbage())];
    assert!(sv.update(upgraded, 13).is_some(), "another source tile");
}

// ---- the cache ----

fn dense(t: Tile) -> Vec<u8> {
    format!("{}/{}/{}", t.z, t.x, t.y).into_bytes()
}

/// Load what is missing, then compose.
fn update(
    cache: &mut Lru<Vec<u8>>,
    tiles: &Vec<Tile>,
    max_zoom: u8,
    source: &dyn Fn(Tile) -> Option<Vec<u8>>,
) -> Vec<VisibleTile<Vec<u8>>> {
    for t in cache.missing(tiles) {
        cache.absorb(t, source(t), tiles);
    }
    cache.compose(tiles, tiles[0].z > max_zoom)
}

fn square(z: u8, x: u32, y: u32) -> Vec<Tile> {
    vec![
        Tile::new(x, y, z),
        Tile::new(x + 1, y, z),
        Tile::new(x, y + 1, z),
        Tile::new(x + 1, y + 1, z),
    ]
}

#[test]
fn update_loads_and_caches_visible_tiles() {
    let mut cache: Lru<Vec<u8>> = Lru::new(8 * 1024 * 1024);
    let tiles = square(14, 8191, 8191);
    let visible = update(&mut cache, &tiles, 14, &|t| Some(dense(t)));
    assert_eq!(visible.len(), 4);
    assert!(visible.iter().all(|v| !v.is_fallback()));
    // All visible tiles are now cached and resolve to their own data.
    for v in &visible {
        let cached = cache.get(v.tile).expect("cached");
        assert_eq!(&*cached, format!("14/{}/{}", v.tile.x, v.tile.y).as_bytes());
    }
}

#[test]
fn missing_tiles_fall_back_to_coarser_ancestor() {
    let source = |t: Tile| if t.z == 12 { Some(vec![t.z]) } else { None };
    let mut cache: Lru<Vec<u8>> = Lru::new(1 << 20);
    // Warm the cache with the z12 coverage first.
    update(&mut cache, &square(12, 2047, 2047), 12, &source);
    // Now ask at z14: those tiles are absent in the source, so each visible slot is served
    // by its cached z12 ancestor.
    let visible = update(&mut cache, &square(14, 8191, 8191), 12, &source);
    assert_eq!(visible.len(), 4);
    assert!(visible.iter().all(|v| v.is_fallback() && v.source.z == 12));
}

#[test]
fn absent_tiles_stay_blank_at_a_materialized_level() {
    let source = |t: Tile| if t.z == 12 { Some(vec![t.z]) } else { None };
    let mut cache: Lru<Vec<u8>> = Lru::new(1 << 20);
    update(&mut cache, &square(12, 2047, 2047), 14, &source);
    let tiles = square(14, 8191, 8191);
    assert!(update(&mut cache, &tiles, 14, &source).is_empty());
    // A tile that could not be loaded is drawn from its ancestor instead.
    let other = vec![Tile::new(8190, 8190, 14)];
    assert_eq!(cache.compose(&other, false)[0].source, Tile::new(2047, 2047, 12));
}

#[test]
fn budget_evicts_unprotected_tiles() {
    // Budget for ~2 tiles (each payload is a few bytes); pan across many.
    let mut cache: Lru<Vec<u8>> = Lru::new(12);
    let near = vec![Tile::new(8191, 8191, 14)];
    update(&mut cache, &near, 14, &|t| Some(dense(t)));
    // Pan far away; the earlier tiles are unprotected and should be evicted.
    let far = vec![Tile::new(9000, 7000, 14)];
    let visible = update(&mut cache, &far, 14, &|t| Some(dense(t)));
    assert!(!visible.is_empty());
    assert!(!cache.contains(near[0]));
    let used = cache.used_bytes();
    assert!(used <= 64, "cache grew unbounded: {used} bytes");
}

#[test]
fn decoded_payload_counts_its_footprint() {
    let record = TileRecord {
        tile_key: 0,
        layer: 0,
        geometry: TileGeometry::Label {
            class: LabelClass::City,
            anchor: [1, 2],
            name: "Tokyo".to_string(),
        },
    };
    let blob = pack_tile(&[record], 4096).unwrap();
    let tile = DecodedTile::from_tile_bytes(blob);
    assert_eq!(tile.extent, 4096);
    assert_eq!(tile.labels[0].name, "Tokyo");
    assert_eq!(tile.byte_size(), 5 + 16 + 64);
    assert_eq!(DecodedTile::from_tile_bytes(vec![1, 2, 3]).byte_size(), 64);
}

// ---- painting ----

#[test]
fn painters_order_stacks_layers_then_areas_then_roads() {
    let mut t = tile_with(vec![
        road(RoadKind::Motorway, vec![[0, 0], [9, 9]], EdgeNode::Cut, EdgeNode::Cut),
        road(RoadKind::Residential, vec![[50, 0], [90, 9]], EdgeNode::Cut, EdgeNode::Cut),
    ]);
    t.roads[0].layer = -1;
    for kind in [AreaKind::Forest, AreaKind::Grass, AreaKind::Water] {
        t.areas.push(DecArea {
            kind,
            layer: 0,
            floors: 1,
            rings: vec![vec![[0, 0], [1, 0], [1, 1]]],
            clip: vec![],
        });
    }
    let tile = Tile::new(0, 0, 14);
    let scene = Scene::from_visible(vec![slot(tile, tile, t)], 16);
    let order = draw_order(&scene);
    assert_eq!(order.len(), 5);
    let kinds: Vec<String> = order
        .iter()
        .map(|b| match b {
            Base::Area(i) => format!("{:?}", scene.areas()[*i].kind),
            Base::Road(i) => format!("{:?}", scene.roads()[*i].kind),
        })
        .collect();
    assert_eq!(kinds, vec!["Motorway", "Water", "Grass", "Forest", "Residential"]);
}

#[test]
fn palette_and_ranks() {
    assert_eq!(poi_color(PoiKind::TrafficSignal), 11);
    assert_eq!(area_color(AreaKind::Building), 3);
    assert_eq!(area_color(AreaKind::Land), 4);
    assert_eq!(road_color(RoadKind::Motorway), 5);
    assert_eq!(road_color(RoadKind::Border), 12);
    assert_eq!(road_color(RoadKind::Footway), 7);
    assert_eq!(area_rank(AreaKind::Land), 0);
    assert_eq!(road_rank(RoadKind::Border), 6);
}

// ---- tiling policy ----

#[test]
fn aggregated_kinds_split_the_zooms() {
    let sink = TileSink::new(TileParams::standard(), standard_zooms());
    assert!(is_aggregated(AreaKind::Forest) && !is_aggregated(AreaKind::Water));
    assert_eq!(sink.area_zooms(AreaKind::Forest), vec![14, 12, 10]);
    assert_eq!(sink.aggregated_zooms(AreaKind::Forest), vec![8, 6, 4]);
    assert_eq!(sink.area_zooms(AreaKind::Water), vec![14, 12, 10, 8, 6, 4]);
    assert_eq!(sink.area_zooms(AreaKind::Building), vec![14]);
    assert_eq!(sink.road_zooms(RoadKind::Motorway), vec![14, 12, 10]);
    assert_eq!(sink.aggregated_road_zooms(RoadKind::MajorRoad), vec![8, 6, 4]);
    assert_eq!(sink.label_zooms(LabelClass::Town), vec![14, 12, 10, 8]);
    assert!(sink.full_detail(14) && !sink.full_detail(AGG_MAX_ZOOM));
    let zp = sink.zoom_params(6);
    assert_eq!((zp.grid_zoom, zp.bucket_zoom, zp.extent), (6, 0, 8192));
}

#[test]
fn cut_ends_become_cut_nodes() {
    let style = RoadStyle {
        kind: RoadKind::Primary,
        start: EdgeNode::Connected,
        end: EdgeNode::Disconnected,
        layer: 2,
        lanes: Lanes::new(2, 1),
        name: Some("A1".to_string()),
    };
    let piece = LinePiece {
        points: vec![[0, 0], [8192, 5]],
        start_cut: false,
        end_cut: true,
    };
    assert_eq!(
        road_record(77, &style, piece),
        TileRecord {
            tile_key: 77,
            layer: 2,
            geometry: TileGeometry::Road {
                kind: RoadKind::Primary,
                start: EdgeNode::Connected,
                end: EdgeNode::Cut,
                coords: vec![[0, 0], [8192, 5]],
                lanes_forward: 2,
                lanes_backward: 1,
                name: Some("A1".to_string()),
            },
        }
    );
    let name = "Tokyo".to_string();
    let r = label_record(5, LabelClass::City, [1, 2], &name);
    assert_eq!(r.layer, 0);
    assert_eq!(
        r.geometry,
        TileGeometry::Label {
            class: LabelClass::City,
            anchor: [1, 2],
            name
        }
    );
}

// ---- pieces ----

#[test]
fn pieces_are_canonical_and_flagged() {
    assert_eq!(
        canonicalize(vec![[5, 5], [0, 9], [0, 3]]),
        vec![[0, 3], [5, 5], [0, 9]]
    );
    assert_eq!(
        finish_ring(vec![[5, 5], [0, 9], [0, 3], [5, 5]]),
        vec![[0, 3], [5, 5], [0, 9]]
    );
    assert_eq!(bbox_area(&vec![[0, 0], [10, 3], [-2, 5]]), 60);
    assert_eq!(bbox_area(&vec![]), 0);
    let outer = vec![[8192, 0], [8192, 100], [8000, 50], [8192, 0]];
    let holes = vec![vec![[1, 1], [2, 2], [1, 1]], vec![[9, 9], [5, 5], [9, 5]]];
    let p = make_piece(outer, holes, 8192, 0).unwrap();
    assert_eq!(
        p.rings,
        vec![
            vec![[8000, 50], [8192, 0], [8192, 100]],
            vec![[5, 5], [9, 5], [9, 9]]
        ]
    );
    assert_eq!(p.clip, vec![false, true, true, false, false, false]);
    // Smaller than two by two pixels of a 512-pixel tile.
    let tiny = vec![[0, 0], [31, 0], [0, 31]];
    assert!(make_piece(tiny.clone(), vec![], 8192, least_area(8192)).is_none());
    assert!(make_piece(vec![[0, 0], [32, 0], [0, 32]], vec![], 8192, least_area(8192)).is_some());
    assert!(make_piece(tiny, vec![], 8192, 0).is_some());
    assert!(make_piece(vec![[0, 0], [5, 5], [0, 0]], vec![], 8192, 0).is_none());
}

fn leaves(b: TileBlock, out: &mut Vec<(u32, u32)>) {
    match split_block(&b) {
        None => out.push((b.x0, b.y0)),
        Some((p, q)) => {
            leaves(p, out);
            leaves(q, out);
        }
    }
}

#[test]
fn splitting_reaches_every_tile_once() {
    let mut seen = Vec::new();
    leaves(
        TileBlock {
            x0: 3,
            y0: 10,
            x1: 7,
            y1: 12,
        },
        &mut seen,
    );
    seen.sort_unstable();
    let mut want = Vec::new();
    for x in 3..=7 {
        for y in 10..=12 {
            want.push((x, y));
        }
    }
    assert_eq!(seen, want);
}

#[test]
fn lines_break_where_they_leave() {
    let inside = |cut_in, cut_out| Visible::Inside { cut_in, cut_out };
    let run = |first, last, start_cut, end_cut| Run {
        first,
        last,
        start_cut,
        end_cut,
    };
    assert_eq!(
        visible_runs(&vec![inside(false, false), inside(false, false)]),
        vec![run(0, 1, false, false)]
    );
    assert_eq!(visible_runs(&vec![inside(true, true)]), vec![run(0, 0, true, true)]);
    assert!(visible_runs(&vec![Visible::Outside]).is_empty());
    // Leaves in the second segment, comes back in the fourth.
    assert_eq!(
        visible_runs(&vec![
            inside(false, false),
            inside(false, true),
            Visible::Outside,
            inside(true, false),
            inside(false, false)
        ]),
        vec![run(0, 1, false, true), run(3, 4, true, false)]
    );
    // Ends on the boundary and goes on outside.
    assert_eq!(
        visible_runs(&vec![inside(false, false), Visible::Outside]),
        vec![run(0, 0, false, true)]
    );
}

// ---- masks ----

#[test]
fn mask_boxes_and_crops() {
    let mut raw = vec![0u8; 12 * 8];
    assert_eq!(occupied_bbox(&raw, 12, 8), None);
    for (x, y) in [(4, 2), (7, 5), (5, 3)] {
        raw[y * 12 + x] = 1;
    }
    let b = occupied_bbox(&raw, 12, 8).unwrap();
    assert_eq!(
        b,
        CellBox {
            x0: 4,
            y0: 2,
            x1: 7,
            y1: 5
        }
    );
    let p = padded(&b, 3, 12, 8);
    assert_eq!((p.x0, p.y0, p.x1, p.y1), (1, 0, 10, 7));
    let c = crop(&raw, 12, 8, &b);
    assert_eq!(c, vec![1, 0, 0, 0, 0, 1, 0, 0, 0, 0, 0, 0, 0, 0, 0, 1]);
}

#[test]
fn closing_bridges_gaps() {
    // Two cells two apart, in the middle of a row.
    let mut raw = vec![0u8; 9 * 5];
    raw[2 * 9 + 3] = 1;
    raw[2 * 9 + 5] = 1;
    let wide = morph_pass(&raw, 9, 5, 1, true, true);
    assert_eq!(wide[18..27].to_vec(), vec![0, 0, 1, 1, 1, 1, 1, 0, 0]);
    let closed = morph_close(&raw, 9, 5, 1);
    assert_eq!(closed[18..27].to_vec(), vec![0, 0, 0, 1, 1, 1, 0, 0, 0]);
    assert_eq!(closed.iter().map(|&v| v as u32).sum::<u32>(), 3);
    assert_eq!(morph_close(&raw, 9, 5, 0), raw);
    // A radius beyond the raster fills it, and takes it away again.
    assert_eq!(morph_pass(&raw, 9, 5, 1000, true, true)[18..27].to_vec(), vec![1; 9]);
    assert_eq!(morph_close(&raw, 9, 5, 1000), vec![0; 45]);
}

#[test]
fn mask_closes_its_occupied_window() {
    let mut mask = PolygonMask::new();
    assert!(mask.closed().is_none());
    mask.set(0, 5);
    mask.set_span(2, 3, 6);
    let c = mask.closed().unwrap();
    let w = c.window;
    assert_eq!((w.x0, w.y0, w.x1, w.y1), (0, 4, 4, 7));
    assert_eq!(
        c.cells,
        vec![
            0, 0, 0, 0, 0, //
            1, 0, 0, 0, 0, //
            0, 0, 1, 1, 0, //
            0, 0, 0, 0, 0,
        ]
    );
    mask.set(W - 1, W - 1);
    let w = mask.closed().unwrap().window;
    assert_eq!((w.x1, w.y1), (W - 1, W - 1));
}

#[test]
fn area_records_carry_their_piece() {
    let style = AreaStyle {
        kind: AreaKind::Building,
        layer: 1,
        floors: 7,
    };
    let piece = AreaPiece {
        rings: vec![vec![[0, 0], [5, 0], [5, 5]]],
        clip: vec![true, true, false],
    };
    assert_eq!(
        area_record(9, &style, piece),
        TileRecord {
            tile_key: 9,
            layer: 1,
            geometry: TileGeometry::Area {
                kind: AreaKind::Building,
                floors: 7,
                rings: vec![vec![[0, 0], [5, 0], [5, 5]]],
                clip: vec![true, true, false],
            },
        }
    );
}

#[test]
fn unloaded_and_overzoomed_tiles_use_the_cache() {
    let mut cache: TileCache<Vec<u8>> = TileCache::new(vec![14, 12], 1 << 20, 12);
    assert_eq!(cache.zoom_levels(), &vec![12, 14]);
    let coarse = square(12, 2047, 2047);
    let missing = cache.missing(&coarse);
    assert_eq!(missing, coarse);
    let loaded = missing.iter().map(|t| Some(dense(*t))).collect();
    cache.load(&missing, loaded, &coarse);
    assert!(cache.missing(&coarse).is_empty());
    assert_eq!(&*cache.get(coarse[2]).unwrap(), &dense(coarse[2]));
    let fine = square(14, 8191, 8191);
    cache.load(&fine, vec![None, None, None, None], &fine);
    assert!(cache.missing(&fine).is_empty(), "absence is remembered");
    let visible = cache.update(14, &fine);
    assert_eq!(visible.len(), 4);
    assert!(visible.iter().all(|v| v.is_fallback()));
    // What is absent is not remembered of a prefetch.
    let ring = vec![Tile::new(1, 1, 14), Tile::new(2, 1, 14)];
    cache.prefetched(&ring, vec![None, Some(vec![1])]);
    assert_eq!(cache.missing(&ring), vec![ring[0]]);
}

// ---- strokes ----

fn turn(line: usize, at_start: bool, score: u64) -> Turn {
    Turn {
        line,
        at_start,
        score,
    }
}

fn step(line: usize, forward: bool) -> Step {
    Step { line, forward }
}

#[test]
fn strokes_take_the_best_turns_both_ways() {
    // Line 0 runs into 1 or 2 (2 is straighter); 3 ends where 0 starts; 4 is too short.
    let mut turns: Vec<Vec<Turn>> = (0..10).map(|_| Vec::new()).collect();
    turns[1] = vec![turn(1, true, 5), turn(2, false, 9)];
    turns[0] = vec![turn(3, false, 7)];
    turns[7] = vec![turn(0, true, 7)];
    let strokes = chain_group(&turns, &vec![true, true, true, true, false]);
    assert_eq!(
        strokes,
        vec![
            vec![step(3, true), step(0, true), step(2, false)],
            vec![step(1, true)]
        ]
    );
}

#[test]
fn the_last_of_equal_turns_wins() {
    let mut turns: Vec<Vec<Turn>> = (0..6).map(|_| Vec::new()).collect();
    turns[1] = vec![turn(1, true, 5), turn(2, true, 5)];
    let strokes = chain_group(&turns, &vec![true, true, true]);
    assert_eq!(strokes[0], vec![step(0, true), step(2, true)]);
    assert_eq!(strokes[1], vec![step(1, true)]);
}

#[test]
fn parallel_strokes_lose_to_longer_ones() {
    // 1 is the longest; 0 hugs 1, 2 hugs 0 only, 3 is as long as 2 and hugs it.
    let alongside = vec![vec![2], vec![0], vec![3], vec![2]];
    assert_eq!(
        dedup_parallel(&vec![20, 30, 10, 10], &alongside),
        vec![false, true, true, false]
    );
    // A shorter stroke never removes a longer one.
    assert_eq!(dedup_parallel(&vec![5, 9], &vec![vec![1], vec![]]), vec![true, true]);
}
