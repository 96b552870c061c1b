//! The tag filters of a build.

use vstd::prelude::*;
use vstd::utf8::encode_utf8;

use crate::classifier::{
    area_of, classifier_for, relation_class, road_of, way_class, way_class_of, ShapeClassification,
};
use crate::tags::{clause_accepts, filter_accepts, id_in, Tag, TagFilter};

verus! {

/// A clause: a key, and the values it accepts.
pub type ClauseView = (Seq<char>, Seq<Seq<char>>);

pub open spec fn texts_view(v: Seq<String>) -> Seq<Seq<char>> {
    Seq::new(v.len(), |i: int| v[i]@)
}

pub open spec fn clause_view(c: (String, Vec<String>)) -> ClauseView {
    (c.0@, texts_view(c.1@))
}

pub open spec fn group_view(g: Seq<(String, Vec<String>)>) -> Seq<ClauseView> {
    Seq::new(g.len(), |i: int| clause_view(g[i]))
}

/// The groups of clauses of a filter.
pub open spec fn filter_view(f: TagFilter) -> Seq<Seq<ClauseView>> {
    Seq::new(f.0@.len(), |i: int| group_view(f.0@[i]@))
}

/// The ways that a build looks at: roads, railways, water, wood, parks and buildings.
pub open spec fn way_clauses() -> Seq<Seq<ClauseView>> {
    seq![
        seq![("highway"@, seq![])],
        seq![("railway"@, seq!["rail"@, "light_rail"@, "narrow_gauge"@])],
        seq![("natural"@, seq!["water"@, "wood"@])],
        seq![("landuse"@, seq!["forest"@, "grass"@, "meadow"@])],
        seq![("leisure"@, seq!["park"@])],
        seq![("building"@, seq![])],
    ]
}

/// The relations that a build looks at: multipolygons, and the administrative borders of
/// countries.
pub open spec fn relation_clauses() -> Seq<Seq<ClauseView>> {
    let multipolygon = ("type"@, seq!["multipolygon"@]);
    seq![
        seq![("natural"@, seq!["water"@, "wood"@]), multipolygon],
        seq![("landuse"@, seq!["forest"@, "grass"@, "meadow"@]), multipolygon],
        seq![("leisure"@, seq!["park"@]), multipolygon],
        seq![("building"@, seq![]), multipolygon],
        seq![("boundary"@, seq!["administrative"@]), ("admin_level"@, seq!["2"@])],
    ]
}

/// A clause of a filter accepts a tag with its key, and one of its values where it has
/// any.
proof fn lemma_accepted(
    f: TagFilter,
    ids: Map<Seq<u8>, u32>,
    tags: Seq<Tag>,
    t: int,
    g: int,
    v: int,
)
    requires
        0 <= t < tags.len(),
        0 <= g < filter_view(f).len(),
        filter_view(f)[g].len() > 0,
        ({
            let (key, values) = filter_view(f)[g][0];
            &&& id_in(ids, encode_utf8(key)) == Some(tags[t].key)
            &&& values.len() == 0 || (0 <= v < values.len() && id_in(ids, encode_utf8(values[v]))
                == Some(tags[t].value))
        }),
    ensures
        filter_accepts(f.0@, ids, tags),
{
    let clause = f.0@[g]@[0];
    assert(filter_view(f)[g][0] == clause_view(clause));
    if clause.1@.len() > 0 {
        assert(texts_view(clause.1@)[v] == clause.1@[v]@);
    }
    assert(clause_accepts(f.0@[g]@[0], ids, tags[t]));
}

/// A tag that names an area passes a filter that starts its groups as a build's filters
/// do.
proof fn lemma_area_accepted(f: TagFilter, ids: Map<Seq<u8>, u32>, tags: Seq<Tag>, t: int, g: int)
    requires
        0 <= t < tags.len(),
        area_of(classifier_for(ids), tags[t]) is Some,
        0 <= g,
        g + 4 <= filter_view(f).len(),
        forall|k: int|
            0 <= k < 4 ==> (#[trigger] filter_view(f)[g + k]).len() > 0 && filter_view(f)[g + k][0]
                == way_clauses()[2 + k][0],
    ensures
        filter_accepts(f.0@, ids, tags),
{
    reveal(classifier_for);
    let c = classifier_for(ids);
    let tag = tags[t];
    assert(filter_view(f)[g + 0].len() > 0);
    assert(filter_view(f)[g + 1].len() > 0);
    assert(filter_view(f)[g + 2].len() > 0);
    assert(filter_view(f)[g + 3].len() > 0);
    if c.natural == Some(tag.key) && c.water == Some(tag.value) {
        lemma_accepted(f, ids, tags, t, g, 0);
    } else if c.building == Some(tag.key) {
        lemma_accepted(f, ids, tags, t, g + 3, 0);
    } else if c.natural == Some(tag.key) && c.wood == Some(tag.value) {
        lemma_accepted(f, ids, tags, t, g, 1);
    } else if c.landuse == Some(tag.key) && c.forest == Some(tag.value) {
        lemma_accepted(f, ids, tags, t, g + 1, 0);
    } else if c.landuse == Some(tag.key) && c.grass == Some(tag.value) {
        lemma_accepted(f, ids, tags, t, g + 1, 1);
    } else if c.landuse == Some(tag.key) && c.meadow == Some(tag.value) {
        lemma_accepted(f, ids, tags, t, g + 1, 2);
    } else {
        lemma_accepted(f, ids, tags, t, g + 2, 0);
    }
}

proof fn lemma_road_accepted(f: TagFilter, ids: Map<Seq<u8>, u32>, tags: Seq<Tag>, t: int)
    requires
        filter_view(f) == way_clauses(),
        0 <= t < tags.len(),
        road_of(classifier_for(ids), tags[t]) is Some,
    ensures
        filter_accepts(f.0@, ids, tags),
{
    reveal(classifier_for);
    let c = classifier_for(ids);
    let tag = tags[t];
    assert(way_clauses()[0].len() == 1 && way_clauses()[1].len() == 1);
    if c.highway == Some(tag.key) {
        lemma_accepted(f, ids, tags, t, 0, 0);
    } else if c.rail == Some(tag.value) {
        lemma_accepted(f, ids, tags, t, 1, 0);
    } else if c.light_rail == Some(tag.value) {
        lemma_accepted(f, ids, tags, t, 1, 1);
    } else {
        lemma_accepted(f, ids, tags, t, 1, 2);
    }
}

/// The filter on ways is only a fast reject: every way that is drawn passes it.
pub proof fn drawn_ways_pass(f: TagFilter, ids: Map<Seq<u8>, u32>, tags: Seq<Tag>, i: nat)
    requires
        filter_view(f) == way_clauses(),
        way_class(classifier_for(ids), tags, i) != ShapeClassification::Unknown,
    ensures
        filter_accepts(f.0@, ids, tags),
    decreases tags.len() - i,
{
    let c = classifier_for(ids);
    if way_class_of(c, tags[i as int]) is None {
        drawn_ways_pass(f, ids, tags, i + 1);
    } else if road_of(c, tags[i as int]) is Some {
        lemma_road_accepted(f, ids, tags, i as int);
    } else {
        assert forall|k: int| 0 <= k < 4 implies (#[trigger] filter_view(f)[2 + k]).len() > 0
            && filter_view(f)[2 + k][0] == way_clauses()[2 + k][0] by {}
        lemma_area_accepted(f, ids, tags, i as int, 2);
    }
}

/// The filter on relations is only a fast reject: every relation that is drawn as an area
/// passes it.
pub proof fn drawn_relations_pass(f: TagFilter, ids: Map<Seq<u8>, u32>, tags: Seq<Tag>, i: nat)
    requires
        filter_view(f) == relation_clauses(),
        relation_class(classifier_for(ids), tags, i) != ShapeClassification::Unknown,
    ensures
        filter_accepts(f.0@, ids, tags),
    decreases tags.len() - i,
{
    if area_of(classifier_for(ids), tags[i as int]) is None {
        drawn_relations_pass(f, ids, tags, i + 1);
    } else {
        assert forall|k: int| 0 <= k < 4 implies (#[trigger] filter_view(f)[0 + k]).len() > 0
            && filter_view(f)[0 + k][0] == way_clauses()[2 + k][0] by {}
        lemma_area_accepted(f, ids, tags, i as int, 0);
    }
}

fn texts(values: &[&str]) -> (r: Vec<String>)
    ensures
        texts_view(r@) == Seq::new(values@.len(), |i: int| values@[i]@),
{
    let mut r: Vec<String> = Vec::new();
    let mut i: usize = 0;
    while i < values.len()
        invariant
            i <= values@.len(),
            r@.len() == i,
            forall|k: int| 0 <= k < i ==> (#[trigger] r@[k])@ == values@[k]@,
        decreases values@.len() - i,
    {
        r.push(values[i].to_owned());
        i = i + 1;
    }
    assert(texts_view(r@) =~= Seq::new(values@.len(), |i: int| values@[i]@));
    r
}

fn clause(key: &str, values: &[&str]) -> (r: (String, Vec<String>))
    ensures
        clause_view(r) == (key@, Seq::new(values@.len(), |i: int| values@[i]@)),
{
    (key.to_owned(), texts(values))
}

/// The filter on the ways of a build.
pub fn way_tag_filter() -> (r: TagFilter)
    ensures
        filter_view(r) == way_clauses(),
{
    let groups: Vec<Vec<(String, Vec<String>)>> = vec![
        vec![clause("highway", &[])],
        vec![clause("railway", &["rail", "light_rail", "narrow_gauge"])],
        vec![clause("natural", &["water", "wood"])],
        vec![clause("landuse", &["forest", "grass", "meadow"])],
        vec![clause("leisure", &["park"])],
        vec![clause("building", &[])],
    ];
    let r = TagFilter(groups);
    assert(filter_view(r) =~~= way_clauses());
    r
}

/// The filter on the relations of a build. Border lines are drawn from the ways of
/// administrative relations, so those have a clause of their own.
pub fn relation_tag_filter() -> (r: TagFilter)
    ensures
        filter_view(r) == relation_clauses(),
{
    let groups: Vec<Vec<(String, Vec<String>)>> = vec![
        vec![clause("natural", &["water", "wood"]), clause("type", &["multipolygon"])],
        vec![clause("landuse", &["forest", "grass", "meadow"]), clause("type", &["multipolygon"])],
        vec![clause("leisure", &["park"]), clause("type", &["multipolygon"])],
        vec![clause("building", &[]), clause("type", &["multipolygon"])],
        vec![clause("boundary", &["administrative"]), clause("admin_level", &["2"])],
    ];
    let r = TagFilter(groups);
    assert(filter_view(r) =~~= relation_clauses());
    r
}

} // verus!
