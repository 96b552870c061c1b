//! Blocks, tags and what is extracted from them.

use shashlik_tiles::bitset::BitSet;
use shashlik_tiles::blob::{
    header_len, next_step, read_next_blob, BlobAction, BlobEvent, BlobState, OsmBlobReaderError,
};
use shashlik_tiles::classifier::{BlockShapeClassifier, ShapeClassification};
use shashlik_tiles::extractor::{
    all_within, area_label_class, collect_relation_member_ways, extract_place_labels,
    extract_relations, extract_ways, hole_owner, largest_polygon, list_needed_refs,
    list_node_coords, list_road_refs, mark_ids, mark_node, FilteredRelations, KeptWay, RoadTracker,
};
use shashlik_tiles::feature::{AreaKind, EdgeNode, LabelClass, Lanes, PoiKind, RoadKind, RoadStructure};
use shashlik_tiles::filters::{relation_tag_filter, way_tag_filter};
use shashlik_tiles::ids::{sorted_unique, IdLists, IdSet};
use shashlik_tiles::osm::{
    delta, merge_summaries, summarize_block, BlockSummary, DecodedNode, DenseNodes, MemberType,
    Node, OsmPbfIndex, PrimitiveBlock, PrimitiveGroup, Primitives, Relation, Way,
};
use shashlik_tiles::relation_features::{
    border_ways, important_ways, need_ways, resolve_ways, scan_relations, Borders, RelationFeature,
    RouteRoads,
};
use shashlik_tiles::rings::{assemble_rings, is_ring};
use shashlik_tiles::store::PackedCoord;
use shashlik_tiles::tags::{unpack_tags, StringMap, Tag, TagFilter};

/// Build a `(strings, tags)` pair from `(key, value)` string pairs.
fn tagset(pairs: &[(&str, &str)]) -> (Vec<Vec<u8>>, Vec<Tag>) {
    let mut strings: Vec<Vec<u8>> = Vec::new();
    let mut intern = |s: &str| -> u32 {
        let i = strings.len() as u32;
        strings.push(s.as_bytes().to_vec());
        i
    };
    let tags = pairs
        .iter()
        .map(|(k, v)| Tag::new((intern(k), intern(v))))
        .collect();
    (strings, tags)
}

fn lanes(pairs: &[(&str, &str)]) -> Lanes {
    let (strings, tags) = tagset(pairs);
    BlockShapeClassifier::unresolved().lanes_of(&tags, &strings)
}

#[test]
fn lanes_oneway_puts_all_forward() {
    assert_eq!(
        lanes(&[("lanes", "3"), ("oneway", "yes")]),
        Lanes::new(3, 0)
    );
    // oneway with no lanes tag → 1 forward.
    assert_eq!(lanes(&[("oneway", "yes")]), Lanes::new(1, 0));
    // reversed one-way → all backward.
    assert_eq!(lanes(&[("lanes", "2"), ("oneway", "-1")]), Lanes::new(0, 2));
}

#[test]
fn lanes_two_way_splits_total() {
    assert_eq!(lanes(&[("lanes", "4")]), Lanes::new(2, 2));
    // odd total: extra lane goes forward (likely a centre turn lane).
    assert_eq!(lanes(&[("lanes", "3")]), Lanes::new(2, 1));
    // no tags at all → a lane each way.
    assert_eq!(lanes(&[("highway", "residential")]), Lanes::new(1, 1));
}

#[test]
fn lanes_explicit_directions_win() {
    assert_eq!(
        lanes(&[
            ("lanes", "5"),
            ("lanes:forward", "3"),
            ("lanes:backward", "2")
        ]),
        Lanes::new(3, 2)
    );
    // one side explicit + total → derive the other.
    assert_eq!(
        lanes(&[("lanes", "5"), ("lanes:forward", "3")]),
        Lanes::new(3, 2)
    );
}

#[test]
fn lane_values_are_trimmed() {
    assert_eq!(lanes(&[("lanes", " 4 ")]), Lanes::new(2, 2));
    assert_eq!(lanes(&[("lanes", "many")]), Lanes::new(1, 1));
}

fn floors(pairs: &[(&str, &str)]) -> u8 {
    let (strings, tags) = tagset(pairs);
    BlockShapeClassifier::unresolved().floors_of(&tags, &strings)
}

#[test]
fn floors_default_and_parse() {
    assert_eq!(floors(&[("building", "yes")]), 1); // no levels tag → 1
    assert_eq!(floors(&[("building:levels", "5")]), 5);
    assert_eq!(floors(&[("building:levels", "2.5")]), 3); // rounds
    assert_eq!(floors(&[("building:levels", "0")]), 1); // clamped to ≥1
    assert_eq!(floors(&[("building:levels", "garbage")]), 1);
}

#[test]
fn floors_take_any_decimal_number() {
    let of = |text: &str| floors(&[("building:levels", text)]);
    assert_eq!(of(" +12.49 "), 12);
    assert_eq!(of("12.5"), 13);
    assert_eq!(of(".5"), 1);
    assert_eq!(of("7."), 7);
    assert_eq!(of("1.2e1"), 12);
    assert_eq!(of("1234E-2"), 12);
    assert_eq!(of("2555e-1"), 255);
    assert_eq!(of("300"), 255);
    assert_eq!(of("0.001e5"), 100);
    assert_eq!(of("1e99999999999999999999999999"), 255);
    assert_eq!(of("0e99999999999999999999999999"), 1);
    assert_eq!(of("9e-99999999999999999999999999"), 1);
    assert_eq!(of("-3"), 1);
    assert_eq!(of("Inf"), 255);
    assert_eq!(of("-infinity"), 1);
    for text in ["", "+", ".", "e5", "5e", "5e+", "1.2.3", "4 5", "nan", "5f"] {
        assert_eq!(of(text), 1, "{text}");
    }
}

// ---- blocks ----

const WORDS: [&str; 36] = [
    "", "highway", "motorway", "residential", "footway", "natural", "water", "wood", "building",
    "yes", "name", "Ring", "type", "multipolygon", "inner", "outer", "layer", "-1", "bridge",
    "boundary", "administrative", "admin_level", "2", "route", "road", "place", "town",
    "traffic_signals", "lanes", "4", "landuse", "forest", "leisure", "park", "tunnel", "no",
];

fn sid(word: &str) -> u32 {
    WORDS.iter().position(|w| *w == word).unwrap() as u32
}

fn strings() -> Vec<Vec<u8>> {
    WORDS.iter().map(|w| w.as_bytes().to_vec()).collect()
}

fn tags(pairs: &[(&str, &str)]) -> Vec<Tag> {
    pairs.iter().map(|(k, v)| Tag::new((sid(k), sid(v)))).collect()
}

fn way(id: i64, pairs: &[(&str, &str)], refs: &[i64]) -> Way {
    // Node refs are stored as differences.
    let mut last = 0;
    let refs = refs
        .iter()
        .map(|&r| {
            let d = r - last;
            last = r;
            d
        })
        .collect();
    Way {
        id,
        keys: pairs.iter().map(|(k, _)| sid(k)).collect(),
        vals: pairs.iter().map(|(_, v)| sid(v)).collect(),
        refs,
    }
}

fn relation(id: i64, pairs: &[(&str, &str)], members: &[(i64, MemberType, &str)]) -> Relation {
    let mut last = 0;
    Relation {
        id,
        keys: pairs.iter().map(|(k, _)| sid(k)).collect(),
        vals: pairs.iter().map(|(_, v)| sid(v)).collect(),
        roles_sid: members.iter().map(|m| sid(m.2) as i32).collect(),
        memids: members
            .iter()
            .map(|m| {
                let d = m.0 - last;
                last = m.0;
                d
            })
            .collect(),
        types: members.iter().map(|m| m.1).collect(),
    }
}

fn group() -> PrimitiveGroup {
    PrimitiveGroup {
        nodes: vec![],
        dense: None,
        ways: vec![],
        relations: vec![],
        changesets: vec![],
    }
}

fn block(groups: Vec<PrimitiveGroup>) -> PrimitiveBlock {
    PrimitiveBlock {
        strings: strings(),
        groups,
        granularity: 100,
        lat_offset: 0,
        lon_offset: 0,
    }
}

fn ways_block(ways: Vec<Way>) -> PrimitiveBlock {
    let mut g = group();
    g.ways = ways;
    block(vec![g])
}

fn relations_block(relations: Vec<Relation>) -> PrimitiveBlock {
    let mut g = group();
    g.relations = relations;
    block(vec![g])
}

fn way_filter() -> TagFilter {
    TagFilter(vec![
        vec![("highway".into(), vec![])],
        vec![("natural".into(), vec!["water".into(), "wood".into()])],
        vec![("building".into(), vec![])],
    ])
}

fn relation_filter() -> TagFilter {
    TagFilter(vec![vec![
        ("natural".into(), vec!["water".into()]),
        ("type".into(), vec!["multipolygon".into()]),
    ]])
}

#[test]
fn string_table_skips_the_first_and_keeps_the_last() {
    let table: Vec<Vec<u8>> = ["", "a", "b", "a"].iter().map(|s| s.as_bytes().to_vec()).collect();
    let map = StringMap::of_table(&table);
    assert_eq!(map.get_str("a"), Some(3));
    assert_eq!(map.get_str("b"), Some(2));
    assert_eq!(map.get_str(""), None);
    assert_eq!(map.get(b"c"), None);
}

#[test]
fn filters_match_any_clause_of_any_group() {
    let table = strings();
    let map = StringMap::of_table(&table);
    let f = relation_filter().get_sid_filter(&map);
    assert!(f.matches(&tags(&[("natural", "water"), ("type", "multipolygon")])));
    assert!(f.matches(&tags(&[("natural", "wood"), ("type", "multipolygon")])));
    assert!(f.matches(&tags(&[("natural", "water")])));
    assert!(!f.matches(&tags(&[("natural", "wood")])));
    let f = way_filter().get_sid_filter(&map);
    assert!(f.matches(&tags(&[("name", "Ring"), ("highway", "footway")])));
    assert!(!f.matches(&tags(&[("name", "Ring")])));
    // A clause none of whose values the table has accepts nothing.
    let absent = TagFilter(vec![vec![("natural".into(), vec!["lava".into()])]]);
    assert!(!absent.get_sid_filter(&map).matches(&tags(&[("natural", "water")])));
}

/// Whether a filter accepts one tag of a block that holds just its strings.
fn accepts(filter: &TagFilter, key: &str, value: &str) -> bool {
    let (strings, tags) = tagset(&[("", ""), (key, value)]);
    let map = StringMap::of_table(&strings);
    filter.get_sid_filter(&map).matches(&tags[1..].to_vec())
}

#[test]
fn build_filters_let_through_what_is_drawn() {
    let ways = way_tag_filter();
    for (key, value) in [
        ("highway", "motorway"),
        ("highway", "footway"),
        ("railway", "rail"),
        ("railway", "light_rail"),
        ("railway", "narrow_gauge"),
        ("natural", "water"),
        ("natural", "wood"),
        ("landuse", "forest"),
        ("landuse", "grass"),
        ("landuse", "meadow"),
        ("leisure", "park"),
        ("building", "yes"),
    ] {
        assert!(accepts(&ways, key, value), "{key}={value}");
    }
    for (key, value) in [
        ("railway", "tram"),
        ("natural", "peak"),
        ("landuse", "quarry"),
        ("leisure", "pitch"),
        ("type", "multipolygon"),
        ("name", "highway"),
    ] {
        assert!(!accepts(&ways, key, value), "{key}={value}");
    }
    let relations = relation_tag_filter();
    for (key, value) in [
        ("natural", "water"),
        ("landuse", "meadow"),
        ("leisure", "park"),
        ("building", "house"),
        ("type", "multipolygon"),
        ("boundary", "administrative"),
        ("admin_level", "2"),
    ] {
        assert!(accepts(&relations, key, value), "{key}={value}");
    }
    for (key, value) in [("highway", "primary"), ("admin_level", "4"), ("type", "route")] {
        assert!(!accepts(&relations, key, value), "{key}={value}");
    }
}

#[test]
fn relations_are_classed_like_ways() {
    let table = strings();
    let c = BlockShapeClassifier::new(&StringMap::of_table(&table));
    let area = tags(&[("name", "Ring"), ("natural", "water")]);
    assert_eq!(c.classify_relation(&area), c.classify_way(&area));
    assert_eq!(c.classify_relation(&area), ShapeClassification::Area(AreaKind::Water));
    // A road is drawn of a way only.
    let both = tags(&[("highway", "motorway"), ("natural", "water")]);
    assert_eq!(c.classify_way(&both), ShapeClassification::Road(RoadKind::Motorway));
    assert_eq!(c.classify_relation(&both), ShapeClassification::Area(AreaKind::Water));
}

#[test]
fn packed_tags_are_split_at_zeroes() {
    let groups = unpack_tags(&vec![1, 2, 0, 0, 3, 4, 5, 6, 0]);
    assert_eq!(groups.len(), 3);
    assert_eq!(groups[0], vec![Tag::new((1, 2))]);
    assert!(groups[1].is_empty());
    assert_eq!(groups[2], vec![Tag::new((3, 4)), Tag::new((5, 6))]);
}

#[test]
fn deltas_accumulate() {
    assert_eq!(delta(&vec![5, -2, 10]), vec![5, 3, 13]);
    assert_eq!(delta(&vec![]), Vec::<i64>::new());
}

#[test]
fn nodes_decode_to_nano_degrees() {
    let dense = DenseNodes {
        id: vec![10, 1],
        lat: vec![500_000_000, 1],
        lon: vec![-100, 100],
        keys_vals: vec![sid("place") as i32, sid("town") as i32, 0, 0],
    };
    let nodes = dense.decode_nodes(100, 7, -7);
    assert_eq!(nodes.len(), 2);
    assert_eq!((nodes[0].id, nodes[1].id), (10, 11));
    assert_eq!(nodes[0].lat_nano, 50_000_000_007);
    assert_eq!(nodes[0].lon_nano, -10_007);
    assert_eq!(nodes[1].lat_nano, 50_000_000_107);
    assert_eq!(nodes[1].lon_nano, -7);
    assert_eq!(nodes[0].tags, tags(&[("place", "town")]));
    assert!(nodes[1].tags.is_empty());
    let plain = Node {
        id: 3,
        lat: 2,
        lon: 4,
        keys: vec![1],
        vals: vec![2],
    };
    let d = plain.decode(100, 0, 1);
    assert_eq!((d.id, d.lat_nano, d.lon_nano), (3, 200, 401));
    assert_eq!(d.tags, vec![Tag::new((1, 2))]);
}

#[test]
fn groups_are_told_apart() {
    let mut g = group();
    g.ways = vec![way(1, &[], &[])];
    assert!(matches!(g.primitives(), Primitives::Ways(w) if w.len() == 1));
    let mut g = group();
    g.dense = Some(DenseNodes {
        id: vec![],
        lat: vec![],
        lon: vec![],
        keys_vals: vec![],
    });
    assert!(matches!(g.primitives(), Primitives::DenseNodes(_)));
}

#[test]
fn index_collects_offsets_and_greatest_ids() {
    let mut nodes = group();
    nodes.dense = Some(DenseNodes {
        id: vec![100, 50],
        lat: vec![0, 0],
        lon: vec![0, 0],
        keys_vals: vec![],
    });
    let a = summarize_block(&block(vec![nodes]), 10);
    let b = summarize_block(&ways_block(vec![way(7, &[], &[]), way(5, &[], &[])]), 500);
    let c = summarize_block(&relations_block(vec![relation(1, &[], &[])]), 900);
    assert_eq!(a.max_node_id, 150);
    assert_eq!(b.ways, Some(500));
    let s = merge_summaries(&merge_summaries(&c, &a), &b);
    assert_eq!(
        s,
        BlockSummary {
            ways: Some(500),
            relations: Some(900),
            max_node_id: 150,
            max_way_id: 7
        }
    );
    let index = OsmPbfIndex::index(&s, 1000).unwrap();
    assert_eq!((index.ways, index.relations, index.end), (500, 900, 1000));
    assert_eq!(OsmPbfIndex::from_bytes(&index.to_bytes()), Some(index));
    assert_eq!(OsmPbfIndex::from_bytes(&index.to_bytes()[1..]), None);
    assert_eq!(OsmPbfIndex::index(&a, 1000), None);
}

#[test]
fn ways_classify_by_their_first_known_tag() {
    let table = strings();
    let c = BlockShapeClassifier::new(&StringMap::of_table(&table));
    assert_eq!(
        c.classify_way(&tags(&[("name", "Ring"), ("highway", "motorway")])),
        ShapeClassification::Road(RoadKind::Motorway)
    );
    assert_eq!(
        c.classify_way(&tags(&[("building", "yes")])),
        ShapeClassification::Area(AreaKind::Building)
    );
    assert_eq!(
        c.classify_way(&tags(&[("name", "Ring")])),
        ShapeClassification::Unknown
    );
    assert_eq!(
        c.classify_relation(&tags(&[("highway", "motorway")])),
        ShapeClassification::Unknown
    );
    assert_eq!(
        c.classify_relation(&tags(&[("leisure", "park")])),
        ShapeClassification::Area(AreaKind::Grass)
    );
    assert_eq!(
        c.structure_of(&tags(&[("bridge", "yes")])),
        RoadStructure::Bridge
    );
    assert_eq!(
        c.structure_of(&tags(&[("bridge", "no")])),
        RoadStructure::AtGrade
    );
    assert_eq!(c.layer_of(&tags(&[("layer", "-1")]), &table), -1);
    assert_eq!(c.layer_of(&tags(&[("layer", "yes")]), &table), 0);
    assert_eq!(c.layer_of(&tags(&[("bridge", "yes")]), &table), 0);
    assert_eq!(c.name_of(&tags(&[("name", "Ring")]), &table).as_deref(), Some("Ring"));
    assert_eq!(c.classify_place(&tags(&[("place", "town")])), Some(LabelClass::Town));
    assert_eq!(
        c.classify_poi(&tags(&[("highway", "traffic_signals")])),
        Some(PoiKind::TrafficSignal)
    );
    assert_eq!(area_label_class(AreaKind::Forest), Some(LabelClass::Park));
    assert_eq!(area_label_class(AreaKind::Building), None);
}

#[test]
fn ways_are_kept_with_their_attributes() {
    let b = ways_block(vec![
        way(1, &[("highway", "residential"), ("name", "Ring"), ("lanes", "4")], &[5, 3, 9]),
        way(2, &[("highway", "footway")], &[1, 2]),
        way(3, &[("natural", "water")], &[3, 7, 8, 3]),
        way(4, &[("name", "Ring")], &[30, 40]),
    ]);
    let (kept, refs) = extract_ways(&b, &way_filter());
    assert_eq!(kept.len(), 2, "footways and unknown ways are not emitted");
    match &kept[0] {
        KeptWay::Road {
            kind,
            layer,
            lanes,
            refs,
            name,
        } => {
            assert_eq!((*kind, *layer), (RoadKind::Residential, 0));
            assert_eq!(*lanes, Lanes::new(2, 2));
            assert_eq!(refs, &vec![5, 3, 9]);
            assert_eq!(name.as_deref(), Some("Ring"));
        }
        _ => panic!("a road"),
    }
    match &kept[1] {
        KeptWay::Area { kind, refs, .. } => {
            assert_eq!(*kind, AreaKind::Water);
            assert_eq!(refs, &vec![3, 7, 8, 3]);
        }
        _ => panic!("an area"),
    }
    assert_eq!(refs, vec![3, 5, 7, 8, 9]);
    let mut wanted = IdSet::new();
    wanted.insert(4);
    let mut needed = list_needed_refs(&b, &way_filter(), &wanted);
    needed.sort_unstable();
    assert_eq!(needed, vec![3, 3, 3, 5, 7, 8, 9, 30, 40]);
    assert_eq!(list_road_refs(&b, &way_filter()), vec![5, 3, 9]);
}

#[test]
fn connectivity_tells_shared_nodes() {
    let mut t = RoadTracker::new(10);
    t.note(&vec![1, 2, 3]);
    t.note(&vec![3, 4]);
    let c = t.into_connectivity();
    assert_eq!(c.edge(3), EdgeNode::Connected);
    assert_eq!(c.edge(1), EdgeNode::Disconnected);
    assert_eq!(c.junction_count(), 1);
}

#[test]
fn referenced_nodes_are_marked() {
    let mut bits = BitSet::with_capacity(50);
    let ids = vec![3, 49, 3];
    assert!(all_within(&ids, 50));
    assert!(!all_within(&vec![50], 50));
    assert!(!all_within(&vec![-1], 50));
    mark_ids(&mut bits, &ids);
    assert!(bits.contains(3) && bits.contains(49) && !bits.contains(4));
    assert_eq!(bits.count_ones(), 2);
}

#[test]
fn relations_point_to_ways_and_relations() {
    let water = [("natural", "water"), ("type", "multipolygon")];
    let b = relations_block(vec![
        relation(
            1,
            &water,
            &[
                (10, MemberType::Way, "outer"),
                (11, MemberType::Way, "inner"),
                (2, MemberType::Relation, ""),
                (99, MemberType::Node, ""),
            ],
        ),
        relation(2, &[("name", "Ring")], &[(20, MemberType::Way, "outer")]),
    ]);
    let mut found = FilteredRelations::new();
    found.merge(FilteredRelations::scan_block(&b, &relation_filter()));
    assert!(found.relations.contains(1) && !found.relations.contains(2));
    assert!(found.relation_ways.contains(10) && found.relation_ways.contains(11));
    assert!(!found.relation_ways.contains(20) && !found.relation_ways.contains(99));
    assert!(found.relation_relations.contains(2));
    let sub = FilteredRelations::rescan_block(&b, &found.relation_relations);
    assert_eq!(sub.get(2), Some(&vec![20]));
    assert_eq!(sub.get(1), None);
    found.add_sub_relation(2, vec![20]);
    assert!(found.relation_ways.contains(20));
    assert_eq!(found.relation_ways.len(), 3);
}

#[test]
fn multipolygons_are_stitched_by_role() {
    let ways = ways_block(vec![
        way(10, &[], &[1, 2, 3]),
        way(12, &[], &[1, 4, 3]),
        way(11, &[], &[7, 8, 9, 7]),
    ]);
    let mut wanted = IdSet::new();
    for id in [10, 11, 12] {
        wanted.insert(id);
    }
    let members: IdLists = collect_relation_member_ways(&ways, &wanted);
    assert_eq!(members.get(12), Some(&vec![1, 4, 3]));
    let b = relations_block(vec![relation(
        1,
        &[("natural", "water"), ("type", "multipolygon"), ("name", "Ring")],
        &[
            (10, MemberType::Way, "outer"),
            (11, MemberType::Way, "inner"),
            (12, MemberType::Way, "outer"),
        ],
    )]);
    let areas = extract_relations(&b, &relation_filter(), &members);
    assert_eq!(areas.len(), 1);
    assert_eq!(areas[0].kind, AreaKind::Water);
    assert_eq!(areas[0].name.as_deref(), Some("Ring"));
    assert_eq!(areas[0].outer, vec![vec![1, 2, 3, 4, 1]]);
    assert_eq!(areas[0].inner, vec![vec![7, 8, 9, 7]]);
}

#[test]
fn rings_close_or_are_dropped() {
    assert!(is_ring(&[1, 2, 3, 1]));
    assert!(!is_ring(&[1, 2, 3]));
    assert_eq!(
        assemble_rings(vec![vec![1, 2], vec![3, 1], vec![2, 3]]),
        vec![vec![1, 2, 3, 1]]
    );
    assert_eq!(assemble_rings(vec![vec![1, 2], vec![3, 4]]), Vec::<Vec<i64>>::new());
}

#[test]
fn nodes_show_places_and_signals() {
    let table = strings();
    let c = BlockShapeClassifier::new(&StringMap::of_table(&table));
    let node = |pairs: &[(&str, &str)]| DecodedNode {
        id: 1,
        lat_nano: 0,
        lon_nano: 0,
        tags: tags(pairs),
    };
    let m = mark_node(&node(&[("place", "town"), ("name", "Ring")]), &c, &table);
    assert_eq!(m.label, Some((LabelClass::Town, "Ring".to_string())));
    assert_eq!(m.poi, None);
    let m = mark_node(&node(&[("place", "town")]), &c, &table);
    assert_eq!(m.label, None, "a label needs a name");
    let m = mark_node(&node(&[("highway", "traffic_signals")]), &c, &table);
    assert_eq!(m.poi, Some(PoiKind::TrafficSignal));
}

#[test]
fn features_claim_relations_and_resolve_ways() {
    let border = [("boundary", "administrative"), ("admin_level", "2")];
    let route = [("type", "route"), ("route", "road")];
    let b = relations_block(vec![
        relation(1, &border, &[(10, MemberType::Way, ""), (11, MemberType::Way, "")]),
        relation(2, &border, &[(11, MemberType::Way, ""), (12, MemberType::Way, "")]),
        relation(3, &route, &[(20, MemberType::Way, ""), (21, MemberType::Way, "")]),
        relation(4, &route, &[(22, MemberType::Way, "")]),
        relation(5, &route, &[(5, MemberType::Node, "")]),
        relation(6, &[("route", "road")], &[(23, MemberType::Way, "")]),
    ]);
    let borders = scan_relations(&b, &Borders);
    assert_eq!(borders, vec![vec![10, 11], vec![11, 12]]);
    assert_eq!(border_ways(&borders), vec![10, 11, 12]);
    let routes = scan_relations(&b, &RouteRoads);
    assert_eq!(routes, vec![vec![20, 21], vec![22]]);
    let mut needed = IdSet::new();
    need_ways(&mut needed, &borders);
    need_ways(&mut needed, &routes);
    assert_eq!(needed.len(), 6);
    let mut resolved = resolve_ways(
        &ways_block(vec![
            way(20, &[("highway", "motorway")], &[1, 2]),
            way(22, &[("highway", "residential")], &[2, 3]),
            way(77, &[("highway", "motorway")], &[2, 3]),
        ]),
        &needed,
    );
    resolved.extend(resolve_ways(
        &ways_block(vec![way(21, &[("highway", "residential")], &[5, 6])]),
        &needed,
    ));
    assert_eq!(resolved.get(20).unwrap().refs, vec![1, 2]);
    assert!(resolved.get(77).is_none(), "not needed");
    // Only the route with a motorway counts, with all its ways.
    assert_eq!(important_ways(&routes, &resolved), vec![20, 21]);
    let table = strings();
    let map = StringMap::of_table(&table);
    assert!(!Borders.claims(&tags(&[("admin_level", "2")]), &map));
}

#[test]
fn ids_sort_and_lists_append() {
    assert_eq!(sorted_unique(&vec![5, -1, 5, 3]), vec![-1, 3, 5]);
    let mut lists = IdLists::new();
    lists.append(4, &vec![1]);
    lists.append(4, &vec![2, 3]);
    assert_eq!(lists.get(4), Some(&vec![1, 2, 3]));
    let mut other = IdLists::new();
    other.insert(4, vec![9]);
    other.insert(5, vec![]);
    lists.extend(other);
    assert_eq!(lists.get(4), Some(&vec![9]));
    assert_eq!(lists.get(5), Some(&vec![]));
    let mut a = IdSet::new();
    assert!(a.insert(1));
    assert!(!a.insert(1));
    let mut b = IdSet::new();
    b.extend_from(&vec![2, 3, 2]);
    a.extend(b);
    assert_eq!(a.len(), 3);
}

#[test]
fn nodes_of_a_block_are_packed_and_shown() {
    let mut plain = group();
    plain.nodes = vec![Node {
        id: 7,
        lat: 350_000_000,
        lon: -1_390_000_000,
        keys: vec![sid("place"), sid("name")],
        vals: vec![sid("town"), sid("Ring")],
    }];
    let mut dense = group();
    dense.dense = Some(DenseNodes {
        id: vec![8, 1],
        lat: vec![1, 1],
        lon: vec![2, 2],
        keys_vals: vec![0, sid("highway") as i32, sid("traffic_signals") as i32, 0],
    });
    let mut b = block(vec![plain, dense]);
    let at = |lon_e7: i32, lat_e7: i32| PackedCoord { lon_e7, lat_e7 };
    assert_eq!(
        list_node_coords(&b),
        vec![
            (7, at(-1_390_000_000, 350_000_000)),
            (8, at(2, 1)),
            (9, at(4, 2))
        ]
    );
    let marks = extract_place_labels(&b);
    assert_eq!(marks.len(), 2);
    assert_eq!(marks[0].label, Some((LabelClass::Town, "Ring".to_string())));
    assert_eq!(marks[0].coord, at(-1_390_000_000, 350_000_000));
    assert_eq!(marks[1].poi, Some(PoiKind::TrafficSignal));
    assert_eq!(marks[1].coord, at(4, 2));
    // Other granularities round to the nearest, halves away from zero.
    b.granularity = 50;
    assert_eq!(list_node_coords(&b)[1], (8, at(1, 1)));
    assert_eq!(
        PackedCoord::from_lonlat(-150, -149),
        PackedCoord {
            lon_e7: -2,
            lat_e7: -1
        }
    );
    assert_eq!(PackedCoord::from_lonlat(1 << 100, 0).lon_e7, i32::MAX);
}

/// A small generator of test numbers.
fn next_number(state: &mut u64) -> u64 {
    *state = state.wrapping_mul(6364136223846793005).wrapping_add(1442695040888963407);
    *state >> 11
}

#[test]
fn coordinates_are_packed_as_doubles_are() {
    let packed = |nano: i128| ((0.000000001 * nano as f64) * 1e7).round() as i32;
    let mut state = 1;
    for i in 0..20_000u32 {
        let bits = next_number(&mut state) as i128 * (next_number(&mut state) as i128 + 1);
        let nano = match i % 4 {
            0 => (next_number(&mut state) % 7_200_000_000) as i128 * 50 - 180_000_000_000,
            1 => (next_number(&mut state) % 360_000_000_000) as i128 - 180_000_000_000,
            2 => -(bits >> (i % 100)),
            _ => bits >> (i % 100),
        };
        let c = PackedCoord::from_lonlat(nano, -nano);
        assert_eq!((c.lon_e7, c.lat_e7), (packed(nano), packed(-nano)), "{nano}");
    }
    for nano in [i128::MAX, i128::MIN + 1, 0, 1, 49, 50, 51, 214_748_364_750, -214_748_364_850] {
        assert_eq!(PackedCoord::from_lonlat(nano, nano).lon_e7, packed(nano), "{nano}");
    }
    assert_eq!(PackedCoord::from_lonlat(i128::MIN, 0).lon_e7, i32::MIN);
}

#[test]
fn member_types_have_numbers() {
    assert_eq!(MemberType::from_number(0), Some(MemberType::Node));
    assert_eq!(MemberType::from_number(1), Some(MemberType::Way));
    assert_eq!(MemberType::from_number(2), Some(MemberType::Relation));
    assert_eq!(MemberType::from_number(3), None);
    assert_eq!(MemberType::from_number(-1), None);
}

#[test]
fn holes_go_to_the_first_outer_ring_around_them() {
    assert_eq!(hole_owner(1, &vec![]), Some(0));
    assert_eq!(hole_owner(3, &vec![false, true, true]), Some(1));
    assert_eq!(hole_owner(2, &vec![false, false]), None);
    assert_eq!(hole_owner(0, &vec![]), None);
    assert_eq!(largest_polygon(&vec![3, 9, 9, 1]), Some(2));
    assert_eq!(largest_polygon(&vec![]), None);
}

#[test]
fn blobs_are_framed_and_others_skipped() {
    assert_eq!(header_len([0, 0, 1, 2]), Some(258));
    assert_eq!(header_len([0x80, 0, 0, 0]), None);
    let (state, action) = read_next_blob();
    assert_eq!(action, BlobAction::Read { len: 4 });
    let (state, action) = next_step(state, &BlobEvent::Len([0, 0, 0, 13]));
    assert_eq!(action, BlobAction::Read { len: 13 });
    let header = BlobEvent::Header {
        kind: "OSMHeader",
        datasize: 120,
    };
    let (state, action) = next_step(state, &header);
    assert_eq!(action, BlobAction::Skip { by: 120 });
    let (state, action) = next_step(state, &BlobEvent::Skipped);
    assert_eq!(action, BlobAction::Read { len: 4 });
    let (state, _) = next_step(state, &BlobEvent::Len([0, 0, 0, 5]));
    let data = BlobEvent::Header {
        kind: "OSMData",
        datasize: 99,
    };
    let (state, action) = next_step(state, &data);
    assert_eq!((state, action), (BlobState::Blob, BlobAction::Read { len: 99 }));
    assert_eq!(next_step(state, &BlobEvent::Blob).1, BlobAction::Yield);
    assert_eq!(next_step(state, &BlobEvent::EndOfFile).1, BlobAction::End);
    assert_eq!(
        next_step(state, &BlobEvent::ReadFailed).1,
        BlobAction::Fail(OsmBlobReaderError::Read)
    );
    assert_eq!(
        next_step(state, &BlobEvent::DecodeFailed).1,
        BlobAction::Fail(OsmBlobReaderError::Decode)
    );
}

#[test]
fn untagged_lanes_follow_the_class() {
    assert_eq!(RoadKind::Motorway.carriageway_lanes(3), 3);
    assert_eq!(
        RoadKind::Motorway.carriageway_lanes(0),
        RoadKind::Motorway.default_lanes()
    );
}

#[test]
fn any_unicode_whitespace_is_trimmed() {
    assert_eq!(lanes(&[("lanes", "\u{3000}4\u{a0}")]), Lanes::new(2, 2));
    assert_eq!(lanes(&[("lanes", "\t+6\n")]), Lanes::new(3, 3));
    // A zero-width space is no whitespace.
    assert_eq!(lanes(&[("lanes", "\u{200b}4")]), Lanes::new(1, 1));
}
