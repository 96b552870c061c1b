//! What tags mean, in the words of the tags.

use vstd::prelude::*;
use vstd::utf8::encode_utf8;

use crate::bytes::utf8_roundtrip;
use crate::classifier::{
    area_of, classifier_for, first_with_key, has_signals, lane_tags, layer_from, name_from, name_in,
    place_in, relation_class, signed_value, split, structure_from, way_class, way_class_of,
    BlockShapeClassifier, LaneTags, Oneway, ShapeClassification,
};
use crate::feature::{AreaKind, LabelClass, RoadKind, RoadStructure};
use crate::tags::{id_in, table_ids, Tag};
use crate::text::{digits_value, is_digit, parsed_i8, parsed_u8};

verus! {

// ---- words of a block ----

/// `id` is where the block's string table has the word: its last place, past the first.
pub open spec fn spells(strings: Seq<Vec<u8>>, id: u32, word: Seq<char>) -> bool {
    &&& 1 <= id < strings.len()
    &&& strings[id as int]@ == encode_utf8(word)
    &&& forall|j: int| id < j < strings.len() ==> (#[trigger] strings[j])@ != encode_utf8(word)
}

/// The classifier of a block with a string table.
pub open spec fn block_classifier(strings: Seq<Vec<u8>>) -> BlockShapeClassifier {
    classifier_for(table_ids(strings, strings.len()))
}

proof fn lemma_last_place(strings: Seq<Vec<u8>>, text: Seq<u8>, n: nat, id: u32)
    requires
        n <= strings.len() <= 0x1_0000_0000,
    ensures
        id_in(table_ids(strings, n), text) == Some(id) <==> 1 <= id < n && strings[id as int]@
            == text && forall|j: int| id < j < n ==> (#[trigger] strings[j])@ != text,
    decreases n,
{
    if n > 1 {
        lemma_last_place(strings, text, (n - 1) as nat, id);
        if strings[n - 1]@ == text && id < n - 1 {
            assert(strings[n - 1]@ == text);
        }
    }
}

/// An id that spells one word is the id of a word exactly if it is that word.
pub proof fn lemma_word(strings: Seq<Vec<u8>>, id: u32, word: Seq<char>, other: Seq<char>)
    requires
        strings.len() <= 0x1_0000_0000,
        spells(strings, id, word),
    ensures
        id_in(table_ids(strings, strings.len()), encode_utf8(other)) == Some(id) <==> other == word,
{
    lemma_last_place(strings, encode_utf8(other), strings.len(), id);
    lemma_last_place(strings, encode_utf8(word), strings.len(), id);
    utf8_roundtrip(word);
    utf8_roundtrip(other);
}

// ---- ways ----

/// What a way is whose only tag is `tag`.
pub open spec fn one_tag(strings: Seq<Vec<u8>>, tag: Tag) -> ShapeClassification {
    way_class(block_classifier(strings), seq![tag], 0)
}

proof fn lemma_one_tag(c: BlockShapeClassifier, tag: Tag)
    ensures
        way_class(c, seq![tag], 0) == match way_class_of(c, tag) {
            Some(class) => class,
            None => ShapeClassification::Unknown,
        },
        relation_class(c, seq![tag], 0) == match area_of(c, tag) {
            Some(kind) => ShapeClassification::Area(kind),
            None => ShapeClassification::Unknown,
        },
{
    reveal_with_fuel(way_class, 2);
    reveal_with_fuel(relation_class, 2);
}

proof fn lemma_highway_keys(strings: Seq<Vec<u8>>, tag: Tag)
    requires
        strings.len() <= 0x1_0000_0000,
        spells(strings, tag.key, "highway"@),
    ensures
        block_classifier(strings).highway == Some(tag.key),
        block_classifier(strings).railway != Some(tag.key),
        area_of(block_classifier(strings), tag) is None,
{
    reveal(classifier_for);
    let key = "highway"@;
    reveal_strlit("highway");
    reveal_strlit("railway");
    reveal_strlit("natural");
    reveal_strlit("building");
    reveal_strlit("landuse");
    reveal_strlit("leisure");
    assert("highway"@[0] == 'h' && "railway"@[0] == 'r' && "natural"@[0] == 'n');
    assert("building"@[0] == 'b' && "landuse"@[0] == 'l' && "leisure"@[0] == 'l');
    lemma_word(strings, tag.key, key, "highway"@);
    lemma_word(strings, tag.key, key, "railway"@);
    lemma_word(strings, tag.key, key, "natural"@);
    lemma_word(strings, tag.key, key, "building"@);
    lemma_word(strings, tag.key, key, "landuse"@);
    lemma_word(strings, tag.key, key, "leisure"@);
}

/// A way tagged `highway=V`, or `highway=V_link` where roads of the kind have links, is a
/// road of the kind that V names.
pub proof fn highway_names_kind(strings: Seq<Vec<u8>>, tag: Tag, value: Seq<char>)
    requires
        strings.len() <= 0x1_0000_0000,
        spells(strings, tag.key, "highway"@),
        spells(strings, tag.value, value),
    ensures
        (value == "motorway"@ || value == "motorway_link"@) ==> one_tag(strings, tag) == ShapeClassification::Road(RoadKind::Motorway),
        (value == "trunk"@ || value == "trunk_link"@) ==> one_tag(strings, tag) == ShapeClassification::Road(RoadKind::Trunk),
        (value == "primary"@ || value == "primary_link"@) ==> one_tag(strings, tag) == ShapeClassification::Road(RoadKind::Primary),
        (value == "secondary"@ || value == "secondary_link"@) ==> one_tag(strings, tag) == ShapeClassification::Road(RoadKind::Secondary),
        (value == "tertiary"@ || value == "tertiary_link"@) ==> one_tag(strings, tag) == ShapeClassification::Road(RoadKind::Tertiary),
        value == "unclassified"@ ==> one_tag(strings, tag) == ShapeClassification::Road(RoadKind::Unclassified),
        value == "residential"@ ==> one_tag(strings, tag) == ShapeClassification::Road(RoadKind::Residential),
        value == "living_street"@ ==> one_tag(strings, tag) == ShapeClassification::Road(RoadKind::LivingStreet),
        value == "service"@ ==> one_tag(strings, tag) == ShapeClassification::Road(RoadKind::Service),
        value == "raceway"@ ==> one_tag(strings, tag) == ShapeClassification::Road(RoadKind::Raceway),
        value == "road"@ ==> one_tag(strings, tag) == ShapeClassification::Road(RoadKind::Unknown),
{
    reveal(classifier_for);
    lemma_highway_keys(strings, tag);
    lemma_one_tag(block_classifier(strings), tag);
    reveal_strlit("motorway");
    reveal_strlit("motorway_link");
    reveal_strlit("trunk");
    reveal_strlit("trunk_link");
    reveal_strlit("primary");
    reveal_strlit("primary_link");
    reveal_strlit("secondary");
    reveal_strlit("secondary_link");
    reveal_strlit("tertiary");
    reveal_strlit("tertiary_link");
    reveal_strlit("unclassified");
    reveal_strlit("residential");
    reveal_strlit("living_street");
    reveal_strlit("service");
    reveal_strlit("raceway");
    reveal_strlit("road");
    assert("motorway"@.len() == 8 && "motorway"@[0] == 'm');
    assert("motorway_link"@.len() == 13 && "motorway_link"@[0] == 'm');
    assert("trunk"@.len() == 5 && "trunk"@[0] == 't');
    assert("trunk_link"@.len() == 10 && "trunk_link"@[0] == 't');
    assert("primary"@.len() == 7 && "primary"@[0] == 'p');
    assert("primary_link"@.len() == 12 && "primary_link"@[0] == 'p');
    assert("secondary"@.len() == 9 && "secondary"@[0] == 's');
    assert("secondary_link"@.len() == 14 && "secondary_link"@[0] == 's');
    assert("tertiary"@.len() == 8 && "tertiary"@[0] == 't');
    assert("tertiary_link"@.len() == 13 && "tertiary_link"@[0] == 't');
    assert("unclassified"@.len() == 12 && "unclassified"@[0] == 'u');
    assert("residential"@.len() == 11 && "residential"@[0] == 'r');
    assert("living_street"@.len() == 13 && "living_street"@[0] == 'l');
    assert("service"@.len() == 7 && "service"@[0] == 's');
    assert("raceway"@.len() == 7 && "raceway"@[0] == 'r');
    assert("road"@.len() == 4 && "road"@[0] == 'r');
    lemma_word(strings, tag.value, value, "motorway"@);
    lemma_word(strings, tag.value, value, "motorway_link"@);
    lemma_word(strings, tag.value, value, "trunk"@);
    lemma_word(strings, tag.value, value, "trunk_link"@);
    lemma_word(strings, tag.value, value, "primary"@);
    lemma_word(strings, tag.value, value, "primary_link"@);
    lemma_word(strings, tag.value, value, "secondary"@);
    lemma_word(strings, tag.value, value, "secondary_link"@);
    lemma_word(strings, tag.value, value, "tertiary"@);
    lemma_word(strings, tag.value, value, "tertiary_link"@);
    lemma_word(strings, tag.value, value, "unclassified"@);
    lemma_word(strings, tag.value, value, "residential"@);
    lemma_word(strings, tag.value, value, "living_street"@);
    lemma_word(strings, tag.value, value, "service"@);
    lemma_word(strings, tag.value, value, "raceway"@);
    lemma_word(strings, tag.value, value, "road"@);
}

/// A way tagged `highway` with another value is not drawn.
pub proof fn other_highways_unknown(strings: Seq<Vec<u8>>, tag: Tag, value: Seq<char>)
    requires
        strings.len() <= 0x1_0000_0000,
        spells(strings, tag.key, "highway"@),
        spells(strings, tag.value, value),
        value != "motorway"@,
        value != "motorway_link"@,
        value != "trunk"@,
        value != "trunk_link"@,
        value != "primary"@,
        value != "primary_link"@,
        value != "secondary"@,
        value != "secondary_link"@,
        value != "tertiary"@,
        value != "tertiary_link"@,
        value != "unclassified"@,
        value != "residential"@,
        value != "living_street"@,
        value != "service"@,
        value != "raceway"@,
        value != "road"@,
    ensures
        one_tag(strings, tag) == ShapeClassification::Unknown,
{
    reveal(classifier_for);
    lemma_highway_keys(strings, tag);
    lemma_one_tag(block_classifier(strings), tag);
    lemma_word(strings, tag.value, value, "motorway"@);
    lemma_word(strings, tag.value, value, "motorway_link"@);
    lemma_word(strings, tag.value, value, "trunk"@);
    lemma_word(strings, tag.value, value, "trunk_link"@);
    lemma_word(strings, tag.value, value, "primary"@);
    lemma_word(strings, tag.value, value, "primary_link"@);
    lemma_word(strings, tag.value, value, "secondary"@);
    lemma_word(strings, tag.value, value, "secondary_link"@);
    lemma_word(strings, tag.value, value, "tertiary"@);
    lemma_word(strings, tag.value, value, "tertiary_link"@);
    lemma_word(strings, tag.value, value, "unclassified"@);
    lemma_word(strings, tag.value, value, "residential"@);
    lemma_word(strings, tag.value, value, "living_street"@);
    lemma_word(strings, tag.value, value, "service"@);
    lemma_word(strings, tag.value, value, "raceway"@);
    lemma_word(strings, tag.value, value, "road"@);
}

/// A way tagged `railway=rail` is a railway, a light or narrow-gauge one a minor railway,
/// and no other railway is drawn.
pub proof fn railway_names_kind(strings: Seq<Vec<u8>>, tag: Tag, value: Seq<char>)
    requires
        strings.len() <= 0x1_0000_0000,
        spells(strings, tag.key, "railway"@),
        spells(strings, tag.value, value),
    ensures
        value == "rail"@ ==> one_tag(strings, tag) == ShapeClassification::Road(RoadKind::Rail),
        (value == "light_rail"@ || value == "narrow_gauge"@) ==> one_tag(strings, tag)
            == ShapeClassification::Road(RoadKind::RailMinor),
        value != "rail"@ && value != "light_rail"@ && value != "narrow_gauge"@ ==> one_tag(
            strings,
            tag,
        ) == ShapeClassification::Unknown,
{
    reveal(classifier_for);
    let key = "railway"@;
    reveal_strlit("highway");
    reveal_strlit("railway");
    reveal_strlit("natural");
    reveal_strlit("building");
    reveal_strlit("landuse");
    reveal_strlit("leisure");
    reveal_strlit("rail");
    reveal_strlit("light_rail");
    reveal_strlit("narrow_gauge");
    assert("highway"@[0] == 'h' && "railway"@[0] == 'r' && "natural"@[0] == 'n');
    assert("building"@[0] == 'b' && "landuse"@[0] == 'l' && "leisure"@[0] == 'l');
    assert("rail"@.len() == 4 && "light_rail"@.len() == 10 && "narrow_gauge"@.len() == 12);
    lemma_word(strings, tag.key, key, "highway"@);
    lemma_word(strings, tag.key, key, "railway"@);
    lemma_word(strings, tag.key, key, "natural"@);
    lemma_word(strings, tag.key, key, "building"@);
    lemma_word(strings, tag.key, key, "landuse"@);
    lemma_word(strings, tag.key, key, "leisure"@);
    lemma_word(strings, tag.value, value, "rail"@);
    lemma_word(strings, tag.value, value, "light_rail"@);
    lemma_word(strings, tag.value, value, "narrow_gauge"@);
    lemma_one_tag(block_classifier(strings), tag);
}

/// A way and a relation tagged `natural`, `building`, `landuse` or `leisure` are areas of
/// the kind that the tag means, and areas only with the values that are drawn.
pub proof fn area_tags_name_kind(
    strings: Seq<Vec<u8>>,
    tag: Tag,
    key: Seq<char>,
    value: Seq<char>,
)
    requires
        strings.len() <= 0x1_0000_0000,
        spells(strings, tag.key, key),
        spells(strings, tag.value, value),
        key != "highway"@,
        key != "railway"@,
    ensures
        relation_class(block_classifier(strings), seq![tag], 0) == one_tag(strings, tag),
        key == "natural"@ && value == "water"@ ==> one_tag(strings, tag)
            == ShapeClassification::Area(AreaKind::Water),
        key == "natural"@ && value == "wood"@ ==> one_tag(strings, tag)
            == ShapeClassification::Area(AreaKind::Forest),
        key == "landuse"@ && value == "forest"@ ==> one_tag(strings, tag)
            == ShapeClassification::Area(AreaKind::Forest),
        key == "landuse"@ && (value == "grass"@ || value == "meadow"@) ==> one_tag(strings, tag)
            == ShapeClassification::Area(AreaKind::Grass),
        key == "leisure"@ && value == "park"@ ==> one_tag(strings, tag)
            == ShapeClassification::Area(AreaKind::Grass),
        key == "building"@ ==> one_tag(strings, tag) == ShapeClassification::Area(
            AreaKind::Building,
        ),
        !(key == "natural"@ && (value == "water"@ || value == "wood"@)) && !(key == "landuse"@ && (
        value == "forest"@ || value == "grass"@ || value == "meadow"@)) && !(key == "leisure"@
            && value == "park"@) && key != "building"@ ==> one_tag(strings, tag)
            == ShapeClassification::Unknown,
{
    reveal(classifier_for);
    reveal_strlit("natural");
    reveal_strlit("building");
    reveal_strlit("landuse");
    reveal_strlit("leisure");
    reveal_strlit("water");
    reveal_strlit("wood");
    reveal_strlit("forest");
    reveal_strlit("grass");
    reveal_strlit("meadow");
    reveal_strlit("park");
    assert("natural"@[0] == 'n' && "building"@[0] == 'b');
    assert("landuse"@[1] == 'a' && "leisure"@[1] == 'e' && "landuse"@[0] == 'l' && "leisure"@[0]
        == 'l');
    assert("water"@[2] == 't' && "wood"@[2] == 'o' && "forest"@[0] == 'f' && "grass"@[0] == 'g');
    assert("meadow"@[0] == 'm' && "park"@[0] == 'p' && "water"@[0] == 'w' && "wood"@[0] == 'w');
    lemma_word(strings, tag.key, key, "highway"@);
    lemma_word(strings, tag.key, key, "railway"@);
    lemma_word(strings, tag.key, key, "natural"@);
    lemma_word(strings, tag.key, key, "building"@);
    lemma_word(strings, tag.key, key, "landuse"@);
    lemma_word(strings, tag.key, key, "leisure"@);
    lemma_word(strings, tag.value, value, "water"@);
    lemma_word(strings, tag.value, value, "wood"@);
    lemma_word(strings, tag.value, value, "forest"@);
    lemma_word(strings, tag.value, value, "grass"@);
    lemma_word(strings, tag.value, value, "meadow"@);
    lemma_word(strings, tag.value, value, "park"@);
    lemma_one_tag(block_classifier(strings), tag);
}

proof fn lemma_way_skip(c: BlockShapeClassifier, a: Seq<Tag>, b: Seq<Tag>, i: nat)
    requires
        i <= a.len(),
    ensures
        way_class(c, a + b, i) == if way_class(c, a, i) != ShapeClassification::Unknown {
            way_class(c, a, i)
        } else {
            way_class(c, a + b, a.len())
        },
        relation_class(c, a + b, i) == if relation_class(c, a, i) != ShapeClassification::Unknown {
            relation_class(c, a, i)
        } else {
            relation_class(c, a + b, a.len())
        },
    decreases a.len() - i,
{
    if i < a.len() {
        assert((a + b)[i as int] == a[i as int]);
        lemma_way_skip(c, a, b, i + 1);
    }
}

proof fn lemma_way_behind(c: BlockShapeClassifier, a: Seq<Tag>, b: Seq<Tag>, i: nat)
    requires
        i <= b.len(),
    ensures
        way_class(c, a + b, a.len() + i) == way_class(c, b, i),
        relation_class(c, a + b, a.len() + i) == relation_class(c, b, i),
    decreases b.len() - i,
{
    if i < b.len() {
        assert((a + b)[(a.len() + i) as int] == b[i as int]);
        lemma_way_behind(c, a, b, i + 1);
    }
}

/// The first tags that mean anything decide what a way or a relation is; those behind them
/// count only where the first mean nothing.
pub proof fn first_tags_decide(c: BlockShapeClassifier, a: Seq<Tag>, b: Seq<Tag>)
    ensures
        way_class(c, a, 0) != ShapeClassification::Unknown ==> way_class(c, a + b, 0) == way_class(
            c,
            a,
            0,
        ),
        way_class(c, a, 0) == ShapeClassification::Unknown ==> way_class(c, a + b, 0) == way_class(
            c,
            b,
            0,
        ),
        relation_class(c, a, 0) != ShapeClassification::Unknown ==> relation_class(c, a + b, 0)
            == relation_class(c, a, 0),
        relation_class(c, a, 0) == ShapeClassification::Unknown ==> relation_class(c, a + b, 0)
            == relation_class(c, b, 0),
        way_class(c, Seq::empty(), 0) == ShapeClassification::Unknown,
{
    lemma_way_skip(c, a, b, 0);
    lemma_way_behind(c, a, b, 0);
}

// ---- places and signals ----

/// A node tagged `place=V` is a place of the class that V names, and no place with another
/// value; one tagged `highway=traffic_signals` has signals, and one without the tag none.
pub proof fn place_names_class(strings: Seq<Vec<u8>>, tag: Tag, key: Seq<char>, value: Seq<char>)
    requires
        strings.len() <= 0x1_0000_0000,
        spells(strings, tag.key, key),
        spells(strings, tag.value, value),
    ensures
        ({
            let place = place_in(block_classifier(strings), seq![tag]);
            &&& key == "place"@ && value == "city"@ ==> place == Some(LabelClass::City)
            &&& key == "place"@ && value == "town"@ ==> place == Some(LabelClass::Town)
            &&& key == "place"@ && value == "village"@ ==> place == Some(LabelClass::Village)
            &&& key == "place"@ && value == "suburb"@ ==> place == Some(LabelClass::Suburb)
            &&& key == "place"@ && value == "hamlet"@ ==> place == Some(LabelClass::Hamlet)
            &&& key == "place"@ && value == "locality"@ ==> place == Some(LabelClass::Locality)
            &&& place is Some ==> key == "place"@ && (value == "city"@ || value == "town"@ || value
                == "village"@ || value == "suburb"@ || value == "hamlet"@ || value == "locality"@)
        }),
        has_signals(block_classifier(strings), seq![tag]) <==> key == "highway"@ && value
            == "traffic_signals"@,
{
    reveal(classifier_for);
    reveal_with_fuel(first_with_key, 2);
    reveal_strlit("city");
    reveal_strlit("town");
    reveal_strlit("village");
    reveal_strlit("suburb");
    reveal_strlit("hamlet");
    reveal_strlit("locality");
    assert("city"@[0] == 'c' && "town"@[0] == 't' && "village"@[0] == 'v' && "suburb"@[0] == 's');
    assert("hamlet"@[0] == 'h' && "locality"@[0] == 'l');
    lemma_word(strings, tag.key, key, "place"@);
    lemma_word(strings, tag.key, key, "highway"@);
    lemma_word(strings, tag.value, value, "city"@);
    lemma_word(strings, tag.value, value, "town"@);
    lemma_word(strings, tag.value, value, "village"@);
    lemma_word(strings, tag.value, value, "suburb"@);
    lemma_word(strings, tag.value, value, "hamlet"@);
    lemma_word(strings, tag.value, value, "locality"@);
    lemma_word(strings, tag.value, value, "traffic_signals"@);
    assert(seq![tag][0] == tag);
}

/// A bridge or tunnel tag with any value but `no` makes the structure; a bridge wins.
pub proof fn structure_by_tags(
    strings: Seq<Vec<u8>>,
    tags: Seq<Tag>,
    bridge: u32,
    tunnel: u32,
    no: u32,
)
    requires
        strings.len() <= 0x1_0000_0000,
        spells(strings, bridge, "bridge"@),
        spells(strings, tunnel, "tunnel"@),
        spells(strings, no, "no"@),
    ensures
        ({
            let structure = structure_from(block_classifier(strings), tags);
            let bridged = exists|i: int|
                0 <= i < tags.len() && (#[trigger] tags[i]).key == bridge && tags[i].value != no;
            let tunnelled = exists|i: int|
                0 <= i < tags.len() && (#[trigger] tags[i]).key == tunnel && tags[i].value != no;
            &&& bridged ==> structure == RoadStructure::Bridge
            &&& !bridged && tunnelled ==> structure == RoadStructure::Tunnel
            &&& !bridged && !tunnelled ==> structure == RoadStructure::AtGrade
        }),
{
    reveal(classifier_for);
    lemma_word(strings, bridge, "bridge"@, "bridge"@);
    lemma_word(strings, tunnel, "tunnel"@, "tunnel"@);
    lemma_word(strings, no, "no"@, "no"@);
    let c = block_classifier(strings);
    assert(c.bridge == Some(bridge) && c.tunnel == Some(tunnel) && c.no == Some(no));
    if exists|i: int|
        0 <= i < tags.len() && (#[trigger] tags[i]).key == bridge && tags[i].value != no {
        let i = choose|i: int|
            0 <= i < tags.len() && (#[trigger] tags[i]).key == bridge && tags[i].value != no;
        assert(crate::classifier::separates(c, tags[i], c.bridge));
    }
    if exists|i: int|
        0 <= i < tags.len() && (#[trigger] tags[i]).key == tunnel && tags[i].value != no {
        let i = choose|i: int|
            0 <= i < tags.len() && (#[trigger] tags[i]).key == tunnel && tags[i].value != no;
        assert(crate::classifier::separates(c, tags[i], c.tunnel));
    }
}

proof fn lemma_first_with_key(tags: Seq<Tag>, key: u32, from: nat, i: int)
    requires
        from <= i < tags.len(),
        tags[i].key == key,
        forall|k: int| from <= k < i ==> (#[trigger] tags[k]).key != key,
    ensures
        first_with_key(tags, key, from) == Some(tags[i]),
    decreases i - from,
{
    if from < i {
        assert(tags[from as int].key != key);
        lemma_first_with_key(tags, key, from + 1, i);
    }
}

proof fn lemma_none_with_key(tags: Seq<Tag>, key: u32, from: nat)
    requires
        forall|k: int| from <= k < tags.len() ==> (#[trigger] tags[k]).key != key,
    ensures
        first_with_key(tags, key, from) is None,
    decreases tags.len() - from,
{
    if from < tags.len() {
        assert(tags[from as int].key != key);
        lemma_none_with_key(tags, key, from + 1);
    }
}

/// The layer is the number in the first `layer` tag; 0 where that holds no number, and
/// where there is no such tag.
pub proof fn layer_is_first_number(strings: Seq<Vec<u8>>, tags: Seq<Tag>, layer: u32, i: int)
    requires
        strings.len() <= 0x1_0000_0000,
        spells(strings, layer, "layer"@),
        0 <= i <= tags.len(),
        forall|k: int| 0 <= k < i ==> (#[trigger] tags[k]).key != layer,
        i < tags.len() ==> tags[i].key == layer,
    ensures
        i < tags.len() && signed_value(strings, tags[i].value) is Some ==> layer_from(
            block_classifier(strings),
            tags,
            strings,
        ) == signed_value(strings, tags[i].value)->0,
        i == tags.len() || signed_value(strings, tags[i].value) is None ==> layer_from(
            block_classifier(strings),
            tags,
            strings,
        ) == 0,
{
    reveal(classifier_for);
    lemma_word(strings, layer, "layer"@, "layer"@);
    if i < tags.len() {
        lemma_first_with_key(tags, layer, 0, i);
    } else {
        lemma_none_with_key(tags, layer, 0);
    }
}

proof fn lemma_name_from(tags: Seq<Tag>, key: u32, strings: Seq<Vec<u8>>, from: nat, i: int)
    requires
        from <= i < tags.len(),
        tags[i].key == key,
        forall|k: int| from <= k < i ==> (#[trigger] tags[k]).key != key,
    ensures
        name_from(tags, key, strings, from) == name_from(tags, key, strings, i as nat),
    decreases i - from,
{
    if from < i {
        assert(tags[from as int].key != key);
        lemma_name_from(tags, key, strings, from + 1, i);
    }
}

/// The name is the text of the first `name` tag, where that is not empty; without such a
/// tag there is none.
pub proof fn name_is_first_text(
    strings: Seq<Vec<u8>>,
    tags: Seq<Tag>,
    name: u32,
    i: int,
    text: Seq<char>,
)
    requires
        strings.len() <= 0x1_0000_0000,
        spells(strings, name, "name"@),
        0 <= i < tags.len(),
        tags[i].key == name,
        forall|k: int| 0 <= k < i ==> (#[trigger] tags[k]).key != name,
        tags[i].value < strings.len(),
        strings[tags[i].value as int]@ == encode_utf8(text),
        text.len() > 0,
    ensures
        name_in(block_classifier(strings), tags, strings) == Some(text),
{
    reveal(classifier_for);
    lemma_word(strings, name, "name"@, "name"@);
    lemma_name_from(tags, name, strings, 0, i);
    utf8_roundtrip(text);
}

// ---- lanes ----

/// What the lane tags mean for the two directions of a road. A one-way road has lanes in
/// its own direction only: as many as the tag for it says, else as the total, else one. A
/// two-way road has a lane each way at least; a total is shared out with an odd one
/// forward, and what is tagged for one direction leaves the rest of the total for the
/// other.
pub proof fn lanes_by_direction(l: LaneTags)
    ensures
        ({
            let s = split(l);
            let most = |n: u8|
                if n > 0 {
                    n
                } else {
                    1u8
                };
            &&& l.oneway == Oneway::Forward ==> s.backward == 0 && s.forward == match (
                l.forward,
                l.total,
            ) {
                (Some(f), _) => most(f),
                (None, Some(t)) => most(t),
                (None, None) => 1,
            }
            &&& l.oneway == Oneway::Reversed ==> s.forward == 0 && s.backward == match (
                l.backward,
                l.total,
            ) {
                (Some(b), _) => most(b),
                (None, Some(t)) => most(t),
                (None, None) => 1,
            }
            &&& l.oneway == Oneway::No ==> {
                &&& s.forward >= 1 && s.backward >= 1
                &&& l.forward matches Some(f) ==> s.forward == most(f)
                &&& l.backward matches Some(b) ==> s.backward == most(b)
                &&& l.forward is None && l.backward is None && l.total is None ==> s.forward == 1
                    && s.backward == 1
                &&& l.forward is None && l.backward is None ==> (l.total matches Some(t) ==> (t >= 2
                    ==> s.forward + s.backward == t && 0 <= s.forward - s.backward <= 1) && (t < 2
                    ==> s.forward == 1 && s.backward == 1))
                &&& l.forward is Some && l.backward is None ==> match l.total {
                    Some(t) => if t > l.forward->0 {
                        s.backward == t - l.forward->0
                    } else {
                        s.backward == 1
                    },
                    None => s.backward == s.forward,
                }
                &&& l.forward is None && l.backward is Some ==> match l.total {
                    Some(t) => if t > l.backward->0 {
                        s.forward == t - l.backward->0
                    } else {
                        s.forward == 1
                    },
                    None => s.forward == s.backward,
                }
            }
        }),
{
}

proof fn lemma_lane_tags_kept(tags: Seq<Tag>, strings: Seq<Vec<u8>>, i: nat, n: nat, word: Seq<char>)
    requires
        i <= n <= tags.len(),
        forall|k: int|
            i <= k < n ==> !((#[trigger] tags[k]).key < strings.len()
                && strings[tags[k].key as int]@ == encode_utf8(word)),
    ensures
        word == "lanes"@ ==> lane_tags(tags, strings, n).total == lane_tags(tags, strings, i).total,
        word == "lanes:forward"@ ==> lane_tags(tags, strings, n).forward == lane_tags(
            tags,
            strings,
            i,
        ).forward,
        word == "lanes:backward"@ ==> lane_tags(tags, strings, n).backward == lane_tags(
            tags,
            strings,
            i,
        ).backward,
        word == "oneway"@ ==> lane_tags(tags, strings, n).oneway == lane_tags(
            tags,
            strings,
            i,
        ).oneway,
    decreases n - i,
{
    if i < n {
        lemma_lane_tags_kept(tags, strings, i, (n - 1) as nat, word);
        let t = tags[n - 1];
        assert(!(t.key < strings.len() && strings[t.key as int]@ == encode_utf8(word)));
    }
}

/// Tag `i` is the last with the key `word`.
pub open spec fn last_with(tags: Seq<Tag>, strings: Seq<Vec<u8>>, word: Seq<char>, i: int) -> bool {
    &&& 0 <= i < tags.len()
    &&& tags[i].key < strings.len() && strings[tags[i].key as int]@ == encode_utf8(word)
    &&& forall|k: int|
        i < k < tags.len() ==> !((#[trigger] tags[k]).key < strings.len()
            && strings[tags[k].key as int]@ == encode_utf8(word))
}

/// No tag has the key `word`.
pub open spec fn none_with(tags: Seq<Tag>, strings: Seq<Vec<u8>>, word: Seq<char>) -> bool {
    forall|k: int|
        0 <= k < tags.len() ==> !((#[trigger] tags[k]).key < strings.len()
            && strings[tags[k].key as int]@ == encode_utf8(word))
}

/// Each lane count is the number in the last tag with its key; there is none without one.
pub proof fn lane_counts_by_key(tags: Seq<Tag>, strings: Seq<Vec<u8>>, i: int)
    ensures
        ({
            let l = lane_tags(tags, strings, tags.len());
            &&& last_with(tags, strings, "lanes"@, i) ==> l.total
                == crate::classifier::unsigned_value(strings, tags[i].value)
            &&& last_with(tags, strings, "lanes:forward"@, i) ==> l.forward
                == crate::classifier::unsigned_value(strings, tags[i].value)
            &&& last_with(tags, strings, "lanes:backward"@, i) ==> l.backward
                == crate::classifier::unsigned_value(strings, tags[i].value)
            &&& none_with(tags, strings, "lanes"@) ==> l.total is None
            &&& none_with(tags, strings, "lanes:forward"@) ==> l.forward is None
            &&& none_with(tags, strings, "lanes:backward"@) ==> l.backward is None
            &&& none_with(tags, strings, "oneway"@) ==> l.oneway == Oneway::No
        }),
{
    lemma_lane_keys_apart();
    if last_with(tags, strings, "lanes"@, i) {
        lemma_lane_tags_kept(tags, strings, (i + 1) as nat, tags.len(), "lanes"@);
    }
    if last_with(tags, strings, "lanes:forward"@, i) {
        lemma_lane_tags_kept(tags, strings, (i + 1) as nat, tags.len(), "lanes:forward"@);
    }
    if last_with(tags, strings, "lanes:backward"@, i) {
        lemma_lane_tags_kept(tags, strings, (i + 1) as nat, tags.len(), "lanes:backward"@);
    }
    if none_with(tags, strings, "lanes"@) {
        lemma_lane_tags_kept(tags, strings, 0, tags.len(), "lanes"@);
    }
    if none_with(tags, strings, "lanes:forward"@) {
        lemma_lane_tags_kept(tags, strings, 0, tags.len(), "lanes:forward"@);
    }
    if none_with(tags, strings, "lanes:backward"@) {
        lemma_lane_tags_kept(tags, strings, 0, tags.len(), "lanes:backward"@);
    }
    if none_with(tags, strings, "oneway"@) {
        lemma_lane_tags_kept(tags, strings, 0, tags.len(), "oneway"@);
    }
}

proof fn lemma_lane_keys_apart()
    ensures
        encode_utf8("lanes"@) != encode_utf8("lanes:forward"@),
        encode_utf8("lanes"@) != encode_utf8("lanes:backward"@),
        encode_utf8("lanes:forward"@) != encode_utf8("lanes:backward"@),
        encode_utf8("lanes"@) != encode_utf8("oneway"@),
        encode_utf8("lanes:forward"@) != encode_utf8("oneway"@),
        encode_utf8("lanes:backward"@) != encode_utf8("oneway"@),
{
    reveal_strlit("lanes");
    reveal_strlit("lanes:forward");
    reveal_strlit("lanes:backward");
    reveal_strlit("oneway");
    utf8_roundtrip("lanes"@);
    utf8_roundtrip("lanes:forward"@);
    utf8_roundtrip("lanes:backward"@);
    utf8_roundtrip("oneway"@);
    assert("lanes"@.len() == 5 && "lanes:forward"@.len() == 13);
    assert("lanes:backward"@.len() == 14 && "oneway"@.len() == 6);
}

/// A road whose last `oneway` tag has the text `yes`, `true` or `1` is one-way, one with
/// `-1` or `reverse` one-way against its direction, and one with another text two-way.
pub proof fn oneway_by_text(tags: Seq<Tag>, strings: Seq<Vec<u8>>, i: int, text: Seq<char>)
    requires
        last_with(tags, strings, "oneway"@, i),
        tags[i].value < strings.len(),
        strings[tags[i].value as int]@ == encode_utf8(text),
    ensures
        ({
            let way = lane_tags(tags, strings, tags.len()).oneway;
            &&& (text == "yes"@ || text == "true"@ || text == "1"@) ==> way == Oneway::Forward
            &&& (text == "-1"@ || text == "reverse"@) ==> way == Oneway::Reversed
            &&& text == "no"@ ==> way == Oneway::No
        }),
{
    lemma_lane_keys_apart();
    lemma_lane_tags_kept(tags, strings, (i + 1) as nat, tags.len(), "oneway"@);
    utf8_roundtrip(text);
    reveal_strlit("yes");
    reveal_strlit("true");
    reveal_strlit("1");
    reveal_strlit("-1");
    reveal_strlit("reverse");
    reveal_strlit("no");
    assert("yes"@[0] == 'y' && "yes"@[2] == 's' && "true"@[0] == 't' && "true"@[3] == 'e');
    assert("1"@[0] == '1' && "-1"@[0] == '-' && "-1"@[1] == '1');
    assert("reverse"@[0] == 'r' && "reverse"@[6] == 'e' && "no"@[0] == 'n' && "no"@[1] == 'o');
    utf8_roundtrip("yes"@);
    utf8_roundtrip("true"@);
    utf8_roundtrip("1"@);
    utf8_roundtrip("-1"@);
    utf8_roundtrip("reverse"@);
    utf8_roundtrip("no"@);
}

// ---- numbers ----

/// Reading a number takes its digits one behind the other, each ten times less than the one
/// before it; a plus sign changes nothing and a minus sign negates.
pub proof fn numbers_read_digit_by_digit(s: Seq<u8>, d: u8)
    requires
        d <= 9,
    ensures
        parsed_u8(seq![(48 + d) as u8]) == Some(d),
        s.len() > 0 && is_digit(s[0]) ==> (parsed_u8(s) matches Some(n) ==> parsed_u8(
            s.push((48 + d) as u8),
        ) == if 10 * n + d <= 255 {
            Some((10 * n + d) as u8)
        } else {
            None
        }),
        s.len() > 0 && is_digit(s[0]) ==> parsed_u8(seq![43u8] + s) == parsed_u8(s),
        s.len() > 0 && is_digit(s[0]) ==> parsed_i8(seq![43u8] + s) == parsed_i8(s),
        s.len() > 0 && is_digit(s[0]) ==> (parsed_u8(s) matches Some(n) ==> (n <= 127 ==> parsed_i8(
            s,
        ) == Some(n as i8) && parsed_i8(seq![45u8] + s) == Some((-(n as int)) as i8)) && (n == 128
            ==> parsed_i8(s) is None && parsed_i8(seq![45u8] + s) == Some(-128i8)) && (n > 128
            ==> parsed_i8(s) is None && parsed_i8(seq![45u8] + s) is None)),
{
    let one = seq![(48 + d) as u8];
    assert(digits_value(one) == d) by {
        reveal_with_fuel(digits_value, 2);
        assert(one.drop_last() =~= Seq::empty());
    }
    let more = s.push((48 + d) as u8);
    assert(more.drop_last() =~= s);
    assert((seq![43u8] + s).skip(1) =~= s);
    assert((seq![45u8] + s).skip(1) =~= s);
    if s.len() > 0 && is_digit(s[0]) && parsed_u8(s) is Some {
        assert forall|i: int| 0 <= i < more.len() implies is_digit(#[trigger] more[i]) by {
            if i < s.len() {
                assert(is_digit(s[i]));
            }
        }
    }
}

} // verus!
