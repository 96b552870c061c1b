//! Welding road pieces and blending widths.

use shashlik_tiles::blend::blend_join_widths;
use shashlik_tiles::endpoint_grid::EndpointGrid;
use shashlik_tiles::feature::EdgeNode::{self, Connected, Cut, Disconnected};
use shashlik_tiles::feature::{Lanes, RoadKind, RoadStructure};
use shashlik_tiles::turn::cosine_of;
use shashlik_tiles::weld::{tolerance, weld_scene_roads, SceneRoad, CONTINUATION_MIN_COS};

fn scene_road(coords: Vec<[i32; 2]>, start: EdgeNode, end: EdgeNode) -> SceneRoad {
    SceneRoad {
        kind: RoadKind::Primary,
        layer: 0,
        start,
        end,
        structure: RoadStructure::AtGrade,
        name: None,
        lanes: vec![Lanes::new(1, 1); coords.len()], // total 2
        coords,
    }
}

/// Per-vertex total lane count (forward + backward), for assertions.
fn totals(r: &SceneRoad) -> Vec<u8> {
    r.lanes.iter().map(|l| l.forward + l.backward).collect()
}

#[test]
fn welds_road_pieces_across_a_shared_edge() {
    // Two pieces meeting at the tile edge [8192,50] → one polyline.
    let a = scene_road(vec![[4000, 50], [8192, 50]], Disconnected, Cut);
    let b = scene_road(vec![[8192, 50], [12000, 50]], Cut, Disconnected);
    let welded = weld_scene_roads(vec![a, b], 8192);
    assert_eq!(welded.len(), 1);
    assert_eq!(welded[0].coords, vec![[4000, 50], [8192, 50], [12000, 50]]);
    assert_eq!(
        (welded[0].start, welded[0].end),
        (Disconnected, Disconnected)
    );
}

#[test]
fn leaves_a_lone_viewport_edge_cut_unjoined() {
    // Cut at the viewport edge with no neighbour loaded → stays cut.
    let a = scene_road(vec![[0, 50], [8192, 50]], Disconnected, Cut);
    let welded = weld_scene_roads(vec![a], 8192);
    assert_eq!(welded.len(), 1);
    assert_eq!(welded[0].end, Cut);
}

#[test]
fn welds_lane_change_at_an_interior_connected_node() {
    // One road that changes lane count is two ways meeting at an interior Connected node
    // (never a Cut). They must weld into one polyline whose per-vertex lane counts carry
    // the change, so the stroke tapers smoothly.
    let mut a = scene_road(vec![[0, 0], [100, 0]], Disconnected, Connected);
    a.lanes = vec![Lanes::new(2, 0); 2];
    let mut b = scene_road(vec![[100, 0], [200, 0]], Connected, Disconnected);
    b.lanes = vec![Lanes::new(3, 0); 2];
    let welded = weld_scene_roads(vec![a, b], 8192);
    assert_eq!(welded.len(), 1, "adjacent ways must weld into one stroke");
    assert_eq!(welded[0].coords, vec![[0, 0], [100, 0], [200, 0]]);
    assert_eq!(welded[0].lanes.len(), welded[0].coords.len());
    // The lane count steps at the shared node — width ramps across the segment.
    assert_eq!(totals(&welded[0]), vec![2, 2, 3]);
}

#[test]
fn weld_keeps_lane_direction_consistent_when_reversing() {
    // Two halves of one asymmetric road (2 forward / 1 backward). Piece B is stored in the
    // opposite direction, so the welder appends it reversed — its forward/backward must
    // swap so every welded vertex names the same physical side.
    let mut a = scene_road(vec![[0, 0], [100, 0]], Disconnected, Connected);
    a.lanes = vec![Lanes::new(2, 1); 2];
    let mut b = scene_road(vec![[200, 0], [100, 0]], Disconnected, Connected);
    b.lanes = vec![Lanes::new(1, 2); 2]; // stored reversed → split swapped
    let welded = weld_scene_roads(vec![a, b], 8192);
    assert_eq!(welded.len(), 1);
    let first = welded[0].lanes[0];
    assert!(
        welded[0].lanes.iter().all(|&l| l == first),
        "split stays consistent along the weld: {:?}",
        welded[0].lanes
    );
    assert_eq!(first.forward + first.backward, 3);
    assert_ne!(first.forward, first.backward, "asymmetric split preserved");
}

#[test]
fn welds_the_through_line_at_a_junction() {
    // A straight road (a—b) with a branch (c) at [100,0]: the straight line welds through
    // the junction; the perpendicular branch stays split.
    let a = scene_road(vec![[0, 0], [100, 0]], Disconnected, Connected);
    let b = scene_road(vec![[100, 0], [200, 0]], Connected, Disconnected);
    let c = scene_road(vec![[100, 0], [100, 100]], Connected, Disconnected);
    let welded = weld_scene_roads(vec![a, b, c], 8192);
    assert_eq!(welded.len(), 2, "through-line welds, branch stays split");
    let through = welded.iter().find(|r| r.coords.len() == 3).unwrap();
    assert_eq!(through.coords, vec![[0, 0], [100, 0], [200, 0]]);
}

#[test]
fn welds_both_lines_through_a_crossing() {
    // Two straight same-kind roads crossing at [0,0]: each welds through, so the result is
    // two crossing polylines with no butt-cap gap at the node.
    let ew1 = scene_road(vec![[-100, 0], [0, 0]], Disconnected, Connected);
    let ew2 = scene_road(vec![[0, 0], [100, 0]], Connected, Disconnected);
    let ns1 = scene_road(vec![[0, -100], [0, 0]], Disconnected, Connected);
    let ns2 = scene_road(vec![[0, 0], [0, 100]], Connected, Disconnected);
    let welded = weld_scene_roads(vec![ew1, ew2, ns1, ns2], 8192);
    assert_eq!(
        welded.len(),
        2,
        "each straight line welds through the crossing"
    );
    assert!(welded.iter().all(|r| r.coords.len() == 3));
}

#[test]
fn stitches_a_sub_tolerance_gap() {
    // A shared node digitised as two near-coincident points (5 units apart, under the
    // 8-unit tolerance at extent 8192) must still weld into one stroke, bridging the gap.
    let a = scene_road(vec![[0, 0], [100, 0]], Disconnected, Connected);
    let b = scene_road(vec![[105, 0], [200, 0]], Connected, Disconnected);
    let welded = weld_scene_roads(vec![a, b], 8192);
    assert_eq!(welded.len(), 1, "sub-tolerance gap stitches");
    // Bridge segment kept: both near-coincident points are present.
    assert_eq!(welded[0].coords, vec![[0, 0], [100, 0], [105, 0], [200, 0]]);
}

#[test]
fn leaves_distinct_roads_beyond_tolerance_split() {
    // Ends 40 units apart (well beyond the 8-unit tolerance) are distinct roads — e.g.
    // parallel carriageways — and must not merge.
    let a = scene_road(vec![[0, 0], [100, 0]], Disconnected, Connected);
    let b = scene_road(vec![[100, 40], [200, 40]], Connected, Disconnected);
    let welded = weld_scene_roads(vec![a, b], 8192);
    assert_eq!(welded.len(), 2, "gap beyond tolerance stays split");
}

#[test]
fn blend_matches_width_at_a_split_join() {
    // A 2-lane piece and a 1-lane piece of the same kind meet at a node the welder left
    // split (here modelled as two separate roads). Their widths must match at the join: the
    // 1-lane end is raised to 2, the 2-lane end stays 2. Interior vertices are untouched.
    let mut wide = scene_road(vec![[0, 0], [50, 0], [100, 0]], Disconnected, Connected);
    wide.lanes = vec![Lanes::new(2, 0); 3];
    let mut thin = scene_road(vec![[100, 0], [150, 0], [200, 0]], Connected, Disconnected);
    thin.lanes = vec![Lanes::new(1, 0); 3];
    let mut roads = vec![wide, thin];
    blend_join_widths(&mut roads, 8192);
    assert_eq!(totals(&roads[0]), vec![2, 2, 2], "wide end unchanged");
    assert_eq!(
        totals(&roads[1]),
        vec![2, 1, 1],
        "thin join end raised to match; interior untouched"
    );
}

#[test]
fn blend_leaves_different_kinds_alone() {
    // A minor road ending into a major road of a different kind keeps its own width — no
    // ballooning at the junction.
    let mut major = scene_road(vec![[0, 0], [100, 0]], Disconnected, Connected);
    major.kind = RoadKind::Primary;
    major.lanes = vec![Lanes::new(2, 2); 2];
    let mut minor = scene_road(vec![[100, 0], [200, 0]], Connected, Disconnected);
    minor.kind = RoadKind::Service;
    minor.lanes = vec![Lanes::new(1, 0); 2];
    let mut roads = vec![major, minor];
    blend_join_widths(&mut roads, 8192);
    assert_eq!(totals(&roads[1]), vec![1, 1], "cross-kind join not blended");
}

#[test]
fn straightest_candidate_wins() {
    // Two candidates leave the node ahead of `a`: a slight bend and a straight one.
    let a = scene_road(vec![[0, 0], [100, 0]], Disconnected, Connected);
    let bent = scene_road(vec![[100, 0], [200, 30]], Connected, Disconnected);
    let straight = scene_road(vec![[100, 0], [200, 1]], Connected, Disconnected);
    let welded = weld_scene_roads(vec![a, bent, straight], 8192);
    assert_eq!(welded.len(), 2);
    let through = welded.iter().find(|r| r.coords.len() == 3).unwrap();
    assert_eq!(through.coords, vec![[0, 0], [100, 0], [200, 1]]);
}

#[test]
fn bends_sharper_than_sixty_degrees_stay_split() {
    // Each pair meets alone at its node, one with a right angle, one nearly straight.
    let a = scene_road(vec![[0, 0], [100, 0]], Disconnected, Connected);
    let up = scene_road(vec![[100, 0], [100, 100]], Connected, Disconnected);
    let third = scene_road(vec![[100, 0], [101, -100]], Connected, Disconnected);
    let welded = weld_scene_roads(vec![a, up, third], 8192);
    // `up` and `third` run straight into each other; `a` stays on its own.
    assert_eq!(welded.len(), 2);
    assert!(welded
        .iter()
        .any(|r| r.coords == vec![[0, 0], [100, 0]] || r.coords == vec![[100, 0], [0, 0]]));
}

#[test]
fn welding_keeps_kinds_apart_and_every_vertex() {
    let a = scene_road(vec![[0, 0], [100, 0]], Disconnected, Connected);
    let mut b = scene_road(vec![[100, 0], [200, 0]], Connected, Disconnected);
    b.kind = RoadKind::Service;
    let welded = weld_scene_roads(vec![a, b], 8192);
    assert_eq!(welded.len(), 2, "kinds are never joined");
    let n: usize = welded.iter().map(|r| r.coords.len()).sum();
    assert_eq!(n, 4);
}

#[test]
fn welded_layer_is_the_highest_of_the_pieces() {
    let mut a = scene_road(vec![[0, 0], [100, 0]], Disconnected, Connected);
    a.layer = -1;
    let mut b = scene_road(vec![[100, 0], [200, 0]], Connected, Disconnected);
    b.layer = 1;
    let welded = weld_scene_roads(vec![a, b], 8192);
    assert_eq!(welded.len(), 1);
    assert_eq!(welded[0].layer, 1);
}

#[test]
fn pieces_weld_whatever_lies_between_their_ends() {
    // Only the steps at the ends of a piece matter; one inside it may be of any length.
    let far = i32::MAX - 10;
    let a = scene_road(
        vec![[0, 0], [10, 0], [-far, 0], [far, 0], [far - 10, 0]],
        Disconnected,
        Cut,
    );
    let b = scene_road(vec![[far - 10, 0], [far - 100, 0]], Cut, Disconnected);
    let welded = weld_scene_roads(vec![a, b], 8192);
    assert_eq!(welded.len(), 1);
    assert_eq!(welded[0].coords.len(), 6);
}

/// The cosine of a turn in doubles.
fn double_cosine(u: (i64, i64), v: (i64, i64)) -> f64 {
    let unit = |d: (i64, i64)| {
        let (x, y) = (d.0 as f64, d.1 as f64);
        let l = (x * x + y * y).sqrt().max(1e-9);
        [x / l, y / l]
    };
    let (a, b) = (unit(u), unit(v));
    a[0] * b[0] + a[1] * b[1]
}

#[test]
fn turns_score_as_doubles_do() {
    // A score holds 53 significant bits, so it is a double as it is.
    let one = 2f64.powi(118);
    let mut state = 7u64;
    let mut next = |bits: u32| {
        state = state.wrapping_mul(6364136223846793005).wrapping_add(1442695040888963407);
        let v = (state >> 33) as i64 >> (31 - bits);
        if state & 0x100_0000 == 0 { v } else { -v }
    };
    for i in 0..20_000u32 {
        let (a, b) = (1 + i % 31, 1 + i / 31 % 31);
        let (u, v) = ((next(a), next(b)), (next(b), next(a)));
        assert_eq!(cosine_of(u, v) as f64, double_cosine(u, v) * one, "{u:?} {v:?}");
    }
    assert_eq!(cosine_of((0, 0), (5, 0)), 0);
    assert_eq!(cosine_of((3, 0), (5, 0)), 1 << 118);
    assert_eq!(cosine_of((3, 0), (-5, 0)), -(1 << 118));
    assert_eq!(CONTINUATION_MIN_COS, 1 << 117);
}

#[test]
fn equal_directions_are_settled_by_the_last_bit() {
    // Two branches lead the same way; their scores differ in the last bit.
    let (u, short, long) = ((1, 3), (1, 1), (3, 3));
    assert_eq!(
        cosine_of(u, short) < cosine_of(u, long),
        double_cosine(u, short) < double_cosine(u, long)
    );
    let mut differing = 0;
    for k in 2..200i64 {
        let (a, b) = (cosine_of((1, 2), (1, 3)), cosine_of((1, 2), (k, 3 * k)));
        let (x, y) = (double_cosine((1, 2), (1, 3)), double_cosine((1, 2), (k, 3 * k)));
        assert_eq!(a < b, x < y);
        assert_eq!(a > b, x > y);
        differing += (a != b) as u32;
    }
    assert!(differing > 0);
}

#[test]
fn endpoint_grid_finds_points_within_tolerance() {
    let grid = EndpointGrid::new(vec![[0, 0], [8, 0], [9, 0], [-8, -8], [100, 100]], 8);
    let mut hits = grid.hits([0, 0]);
    hits.sort_unstable();
    // The distance is the larger of the two coordinates': [-8, -8] is 8 away.
    assert_eq!(hits, vec![0, 1, 3]);
}

#[test]
fn tolerance_scales_with_extent() {
    assert_eq!(tolerance(8192), 8);
    assert_eq!(tolerance(512), 1);
}
