//! What the blocks of a map file say.

use vstd::prelude::*;
use vstd::utf8::encode_utf8;

use crate::bytes::i32_bits;
use crate::classifier::{way_class, BlockShapeClassifier, ShapeClassification};
use crate::classifier_law::{lemma_word, spells};
use crate::extractor::{
    member_ids, members_of, merged_scan, relation_rescan, relation_scan, RelationScan,
};
use crate::feature::RoadKind;
use crate::filters::{clause_view, relation_clauses, way_clauses, ClauseView};
use crate::layout_law::wide_at;
use crate::osm::{
    dense_nodes, groups_summary, index_at, max_node, max_way, merged, paired, plain_node,
    running_sum, with_group, BlockSummary, DenseNodes, MemberType, Node, PrimitiveGroup, Relation,
    RelationMember, Way,
};
use crate::relation_features::{
    any_group, first_seen, first_seen_exact, group_ways_set, groups_of, has_pair, joined,
    resolved_ways, touches_motorway, Borders, RelationFeature, ResolvedView, RouteRoads,
};
use crate::tags::{clause_accepts, id_in, packed_group, packed_groups, table_ids, Tag};

verus! {

// ---- columns ----

/// A column of differences: each value differs from the one before by what stands there,
/// up to whole turns of 64 bits, and the first stands for itself.
pub proof fn columns_add_up(v: Seq<i64>, i: int)
    requires
        0 <= i < v.len(),
    ensures
        i == 0 ==> running_sum(v, i) == v[0],
        i > 0 ==> (running_sum(v, i) - running_sum(v, i - 1) - v[i]) % 0x1_0000_0000_0000_0000
            == 0,
        i > 0 && i64::MIN <= running_sum(v, i - 1) + v[i] <= i64::MAX ==> running_sum(v, i)
            == running_sum(v, i - 1) + v[i],
{
}

/// Keys and values go together by place, as far as both go.
pub proof fn tags_pair_up(keys: Seq<u32>, vals: Seq<u32>, i: int)
    ensures
        paired(keys, vals).len() <= keys.len(),
        paired(keys, vals).len() <= vals.len(),
        paired(keys, vals).len() == keys.len() || paired(keys, vals).len() == vals.len(),
        0 <= i < paired(keys, vals).len() ==> paired(keys, vals)[i].key == keys[i] && paired(
            keys,
            vals,
        )[i].value == vals[i],
{
}

/// A node's latitude and longitude are each its own number times the granularity plus its
/// own offset.
pub proof fn nodes_stand_on_the_grid(n: Node, d: DenseNodes, g: i32, lat: i64, lon: i64, i: int)
    ensures
        plain_node(n, g, lat, lon).id == n.id,
        plain_node(n, g, lat, lon).lat_nano == n.lat * g + lat,
        plain_node(n, g, lat, lon).lon_nano == n.lon * g + lon,
        plain_node(n, g, lat, lon).tags == paired(n.keys@, n.vals@),
        0 <= i < dense_nodes(d, g, lat, lon).len() ==> {
            let m = dense_nodes(d, g, lat, lon)[i];
            &&& i < d.id@.len() && i < d.lat@.len() && i < d.lon@.len()
            &&& m.id == running_sum(d.id@, i)
            &&& m.lat_nano == running_sum(d.lat@, i) * g + lat
            &&& m.lon_nano == running_sum(d.lon@, i) * g + lon
            &&& m.tags == packed_groups(d.keys_vals@, 0)[i]
        },
{
}

/// A member of a relation: its id, type and role by place.
pub proof fn members_line_up(r: Relation, i: int)
    ensures
        r.member_list().len() <= r.roles_sid@.len(),
        r.member_list().len() <= r.memids@.len(),
        r.member_list().len() <= r.types@.len(),
        r.member_list().len() == r.roles_sid@.len() || r.member_list().len() == r.memids@.len()
            || r.member_list().len() == r.types@.len(),
        0 <= i < r.member_list().len() ==> {
            let m = r.member_list()[i];
            &&& m.id == running_sum(r.memids@, i)
            &&& m.member_type == r.types@[i]
            &&& r.roles_sid@[i] >= 0 ==> m.role_tag == r.roles_sid@[i]
        },
{
}

// ---- packed tags ----

/// Tags as numbers: key and value of each, then a zero.
pub open spec fn tag_numbers(tags: Seq<Tag>) -> Seq<i32>
    decreases tags.len(),
{
    if tags.len() == 0 {
        seq![0i32]
    } else {
        seq![tags[0].key as i32, tags[0].value as i32] + tag_numbers(tags.skip(1))
    }
}

/// The tags of one node after the other.
pub open spec fn group_numbers(groups: Seq<Seq<Tag>>) -> Seq<i32>
    decreases groups.len(),
{
    if groups.len() == 0 {
        Seq::empty()
    } else {
        tag_numbers(groups[0]) + group_numbers(groups.skip(1))
    }
}

/// Keys that are not zero, and keys and values in 31 bits.
pub open spec fn packable(groups: Seq<Seq<Tag>>) -> bool {
    forall|i: int, j: int|
        #![trigger groups[i][j]]
        0 <= i < groups.len() && 0 <= j < groups[i].len() ==> 0 < groups[i][j].key <= i32::MAX
            && groups[i][j].value <= i32::MAX
}

proof fn lemma_group_read(kv: Seq<i32>, at: nat, tags: Seq<Tag>, acc: Seq<Tag>)
    requires
        at + tag_numbers(tags).len() <= kv.len(),
        kv.subrange(at as int, at as int + tag_numbers(tags).len()) == tag_numbers(tags),
        forall|j: int|
            0 <= j < tags.len() ==> 0 < (#[trigger] tags[j]).key <= i32::MAX && tags[j].value
                <= i32::MAX,
    ensures
        packed_group(kv, at, acc) == Some((acc + tags, at + tag_numbers(tags).len())),
    decreases tags.len(),
{
    let all = tag_numbers(tags);
    let part = kv.subrange(at as int, at as int + all.len());
    if tags.len() == 0 {
        assert(part[0] == 0);
        assert(kv[at as int] == 0);
        assert(acc + tags =~= acc);
    } else {
        let rest = tags.skip(1);
        let more = tag_numbers(rest);
        assert(more.len() >= 1) by {
            lemma_numbers_end(rest);
        }
        assert(part[0] == kv[at as int] && part[1] == kv[at as int + 1]);
        assert(kv[at as int] == tags[0].key as i32 && kv[at as int + 1] == tags[0].value as i32);
        assert(kv.subrange(at as int + 2, at as int + 2 + more.len()) =~= more) by {
            assert forall|i: int| 0 <= i < more.len() implies kv[at + 2 + i] == more[i] by {
                assert(part[2 + i] == all[2 + i]);
            }
        }
        assert forall|j: int| 0 <= j < rest.len() implies 0 < (#[trigger] rest[j]).key <= i32::MAX
            && rest[j].value <= i32::MAX by {
            assert(rest[j] == tags[j + 1]);
        }
        let t = tags[0];
        lemma_group_read(kv, at + 2, rest, acc.push(t));
        assert(acc.push(t) + rest =~= acc + tags);
        assert(Tag { key: i32_bits(kv[at as int]) as u32, value: i32_bits(kv[at as int + 1]) as u32 } == t);
    }
}

proof fn lemma_numbers_end(tags: Seq<Tag>)
    ensures
        tag_numbers(tags).len() == 2 * tags.len() + 1,
    decreases tags.len(),
{
    if tags.len() > 0 {
        lemma_numbers_end(tags.skip(1));
    }
}

/// Packed tags come out node by node as they were packed.
pub proof fn packed_tags_unpack(groups: Seq<Seq<Tag>>)
    requires
        packable(groups),
    ensures
        packed_groups(group_numbers(groups), 0) == groups,
{
    let kv = group_numbers(groups);
    assert(kv.subrange(0, kv.len() as int) =~= kv);
    lemma_groups_read(kv, 0, groups);
}

proof fn lemma_groups_read(kv: Seq<i32>, at: nat, groups: Seq<Seq<Tag>>)
    requires
        packable(groups),
        at <= kv.len(),
        kv.subrange(at as int, kv.len() as int) == group_numbers(groups),
    ensures
        packed_groups(kv, at) == groups,
    decreases groups.len(),
{
    let tail = kv.subrange(at as int, kv.len() as int);
    if groups.len() == 0 {
        assert(tail.len() == 0);
        assert(packed_groups(kv, at) =~= groups);
    } else {
        let first = groups[0];
        let rest = groups.skip(1);
        let a = tag_numbers(first);
        let b = group_numbers(rest);
        lemma_numbers_end(first);
        assert(tail == a + b);
        assert(kv.subrange(at as int, at as int + a.len()) =~= a) by {
            assert forall|i: int| 0 <= i < a.len() implies kv[at + i] == a[i] by {
                assert(tail[i] == (a + b)[i]);
            }
        }
        assert forall|j: int| 0 <= j < first.len() implies 0 < (#[trigger] first[j]).key
            <= i32::MAX && first[j].value <= i32::MAX by {
            assert(groups[0][j] == first[j]);
        }
        lemma_group_read(kv, at, first, Seq::empty());
        assert(Seq::<Tag>::empty() + first =~= first);
        let next = at + a.len();
        assert(kv.subrange(next as int, kv.len() as int) =~= b) by {
            assert forall|i: int| 0 <= i < b.len() implies kv[next + i] == b[i] by {
                assert(tail[a.len() + i] == (a + b)[a.len() + i]);
            }
        }
        assert(packable(rest)) by {
            assert forall|i: int, j: int|
                #![trigger rest[i][j]]
                0 <= i < rest.len() && 0 <= j < rest[i].len() implies 0 < rest[i][j].key
                <= i32::MAX && rest[i][j].value <= i32::MAX by {
                assert(groups[i + 1][j] == rest[i][j]);
            }
        }
        lemma_groups_read(kv, next, rest);
        assert(seq![first] + rest =~= groups);
    }
}

// ---- filters ----

/// A clause accepts a tag by its words: the key is the clause's, and the value one of the
/// clause's values or the clause has none.
pub proof fn clauses_go_by_words(
    clause: (String, Vec<String>),
    strings: Seq<Vec<u8>>,
    tag: Tag,
    key: Seq<char>,
    value: Seq<char>,
)
    requires
        strings.len() <= 0x1_0000_0000,
        spells(strings, tag.key, key),
        spells(strings, tag.value, value),
    ensures
        clause_accepts(clause, table_ids(strings, strings.len()), tag) <==> accepts_words(
            clause_view(clause),
            key,
            value,
        ),
{
    let ids = table_ids(strings, strings.len());
    lemma_word(strings, tag.key, key, clause.0@);
    assert forall|v: int| 0 <= v < clause.1@.len() implies (id_in(
        ids,
        encode_utf8((#[trigger] clause.1@[v])@),
    ) == Some(tag.value)) == (clause.1@[v]@ == value) by {
        lemma_word(strings, tag.value, value, clause.1@[v]@);
    }
    let cv = clause_view(clause);
    if clause_accepts(clause, ids, tag) && clause.1@.len() > 0 {
        let v = choose|v: int|
            0 <= v < clause.1@.len() && id_in(ids, encode_utf8((#[trigger] clause.1@[v])@)) == Some(
                tag.value,
            );
        assert(cv.1[v] == value);
    }
    if accepts_words(cv, key, value) && clause.1@.len() > 0 {
        let v = choose|v: int| 0 <= v < cv.1.len() && cv.1[v] == value;
        assert(clause.1@[v]@ == value);
    }
}

/// The clause has the key, and the value or no values at all.
pub open spec fn accepts_words(c: ClauseView, key: Seq<char>, value: Seq<char>) -> bool {
    c.0 == key && (c.1.len() == 0 || c.1.contains(value))
}

/// Some clause of some group accepts the words.
pub open spec fn groups_accept_words(
    groups: Seq<Seq<ClauseView>>,
    key: Seq<char>,
    value: Seq<char>,
) -> bool {
    exists|g: int, c: int|
        #![trigger groups[g][c]]
        0 <= g < groups.len() && 0 <= c < groups[g].len() && accepts_words(groups[g][c], key, value)
}

/// The ways that are looked at: any highway or building, railways of three sorts, water and
/// wood, forest, grass and meadow, and parks.
pub proof fn ways_looked_at(key: Seq<char>, value: Seq<char>)
    ensures
        groups_accept_words(way_clauses(), key, value) <==> {
            ||| key == "highway"@
            ||| key == "building"@
            ||| key == "railway"@ && (value == "rail"@ || value == "light_rail"@ || value
                == "narrow_gauge"@)
            ||| key == "natural"@ && (value == "water"@ || value == "wood"@)
            ||| key == "landuse"@ && (value == "forest"@ || value == "grass"@ || value == "meadow"@)
            ||| key == "leisure"@ && value == "park"@
        },
{
    let gs = way_clauses();
    assert(gs[0][0].0 == "highway"@ && gs[0][0].1.len() == 0);
    assert(gs[5][0].0 == "building"@ && gs[5][0].1.len() == 0);
    let (r, n, l, p) = (gs[1][0].1, gs[2][0].1, gs[3][0].1, gs[4][0].1);
    lemma_one_of_three(r, "rail"@, "light_rail"@, "narrow_gauge"@, value);
    lemma_one_of_two(n, "water"@, "wood"@, value);
    lemma_one_of_three(l, "forest"@, "grass"@, "meadow"@, value);
    assert(p.contains(value) <==> value == "park"@) by {
        if value == "park"@ {
            assert(p[0] == value);
        }
    }
    assert(gs[1][0].0 == "railway"@ && gs[2][0].0 == "natural"@ && gs[3][0].0 == "landuse"@
        && gs[4][0].0 == "leisure"@);
    if groups_accept_words(gs, key, value) {
        let (g, c) = choose|g: int, c: int|
            #![trigger gs[g][c]]
            0 <= g < gs.len() && 0 <= c < gs[g].len() && accepts_words(gs[g][c], key, value);
        assert(c == 0);
    }
}

proof fn lemma_one_of_three(
    s: Seq<Seq<char>>,
    a: Seq<char>,
    b: Seq<char>,
    c: Seq<char>,
    x: Seq<char>,
)
    requires
        s == seq![a, b, c],
    ensures
        s.contains(x) <==> x == a || x == b || x == c,
{
    assert(s[0] == a && s[1] == b && s[2] == c);
}

proof fn lemma_one_of_two(s: Seq<Seq<char>>, a: Seq<char>, b: Seq<char>, x: Seq<char>)
    requires
        s == seq![a, b],
    ensures
        s.contains(x) <==> x == a || x == b,
{
    assert(s[0] == a && s[1] == b);
}

/// The relations that are looked at: multipolygons, the areas of ways, and administrative
/// boundaries of level 2.
pub proof fn relations_looked_at(key: Seq<char>, value: Seq<char>)
    ensures
        groups_accept_words(relation_clauses(), key, value) <==> {
            ||| key == "type"@ && value == "multipolygon"@
            ||| key == "building"@
            ||| key == "natural"@ && (value == "water"@ || value == "wood"@)
            ||| key == "landuse"@ && (value == "forest"@ || value == "grass"@ || value == "meadow"@)
            ||| key == "leisure"@ && value == "park"@
            ||| key == "boundary"@ && value == "administrative"@
            ||| key == "admin_level"@ && value == "2"@
        },
{
    let gs = relation_clauses();
    lemma_one_of_two(gs[0][0].1, "water"@, "wood"@, value);
    lemma_one_of_three(gs[1][0].1, "forest"@, "grass"@, "meadow"@, value);
    assert(gs[0][1].1[0] == "multipolygon"@ && gs[2][0].1[0] == "park"@ && gs[4][0].1[0]
        == "administrative"@ && gs[4][1].1[0] == "2"@);
    assert(gs[0][0].0 == "natural"@ && gs[1][0].0 == "landuse"@ && gs[2][0].0 == "leisure"@
        && gs[3][0].0 == "building"@ && gs[4][0].0 == "boundary"@ && gs[4][1].0 == "admin_level"@
        && gs[0][1].0 == "type"@ && gs[1][1].0 == "type"@ && gs[2][1].0 == "type"@ && gs[3][1].0
        == "type"@);
    if groups_accept_words(gs, key, value) {
        let (g, c) = choose|g: int, c: int|
            #![trigger gs[g][c]]
            0 <= g < gs.len() && 0 <= c < gs[g].len() && accepts_words(gs[g][c], key, value);
        assert(c == 0 || c == 1);
        assert(g == 0 || g == 1 || g == 2 || g == 3 || g == 4);
    }
}

// ---- relation scans ----

/// The members of a type are the ids of exactly those members, in order.
pub proof fn members_by_type(ms: Seq<RelationMember>, t: MemberType, n: nat, id: i64)
    requires
        n <= ms.len(),
    ensures
        member_ids(ms, t, n).contains(id) <==> exists|j: int|
            0 <= j < n && (#[trigger] ms[j]).member_type == t && ms[j].id == id,
    decreases n,
{
    if n > 0 {
        members_by_type(ms, t, (n - 1) as nat, id);
        let front = member_ids(ms, t, (n - 1) as nat);
        let out = member_ids(ms, t, n);
        if out.contains(id) {
            let k = choose|k: int| 0 <= k < out.len() && out[k] == id;
            if k < front.len() {
                assert(front[k] == id);
                assert(front.contains(id));
            } else {
                assert(ms[n - 1].member_type == t && ms[n - 1].id == id);
            }
        }
        if exists|j: int| 0 <= j < n && (#[trigger] ms[j]).member_type == t && ms[j].id == id {
            let j = choose|j: int| 0 <= j < n && (#[trigger] ms[j]).member_type == t && ms[j].id == id;
            if j < n - 1 {
                assert(ms[j].member_type == t && ms[j].id == id);
                assert(front.contains(id));
                let k = choose|k: int| 0 <= k < front.len() && front[k] == id;
                assert(out[k] == id);
            } else {
                assert(out[front.len() as int] == id);
            }
        }
    }
}

/// A relation that the filter accepts is noted with its id and all the relations it points
/// to, and only such.
pub proof fn scans_note_relations(
    rs: Seq<Relation>,
    filter: Seq<Vec<(String, Vec<String>)>>,
    ids: Map<Seq<u8>, u32>,
    n: nat,
    id: i64,
)
    requires
        n <= rs.len(),
    ensures
        relation_scan(rs, filter, ids, n).relations.contains(id) <==> exists|i: int|
            0 <= i < n && crate::tags::filter_accepts(filter, ids, (#[trigger] rs[i]).tag_list())
                && rs[i].id == id,
        relation_scan(rs, filter, ids, n).sub_relations.contains(id) <==> exists|i: int|
            0 <= i < n && crate::tags::filter_accepts(filter, ids, (#[trigger] rs[i]).tag_list())
                && members_of(rs[i], MemberType::Relation).contains(id),
    decreases n,
{
    if n > 0 {
        scans_note_relations(rs, filter, ids, (n - 1) as nat, id);
        let r = rs[n - 1];
        assert(members_of(r, MemberType::Relation).to_set().contains(id) == members_of(
            r,
            MemberType::Relation,
        ).contains(id));
    }
}

/// The second scan gives each wanted relation that occurs once its own member ways.
pub proof fn rescan_finds_ways(rs: Seq<Relation>, wanted: Set<i64>, n: nat, i: int)
    requires
        n <= rs.len(),
        0 <= i < n,
        wanted.contains(rs[i].id),
        forall|j: int| 0 <= j < n && j != i ==> (#[trigger] rs[j]).id != rs[i].id,
    ensures
        relation_rescan(rs, wanted, n).contains_key(rs[i].id),
        relation_rescan(rs, wanted, n)[rs[i].id] == members_of(rs[i], MemberType::Way),
    decreases n,
{
    let k = (n - 1) as nat;
    if i < k {
        assert(rs[n - 1].id != rs[i].id);
        rescan_finds_ways(rs, wanted, k, i);
    } else {
        lemma_rescan_unseen(rs, wanted, k, rs[i].id);
        assert(Seq::<i64>::empty() + members_of(rs[i], MemberType::Way) =~= members_of(
            rs[i],
            MemberType::Way,
        ));
    }
}

proof fn lemma_rescan_unseen(rs: Seq<Relation>, wanted: Set<i64>, n: nat, id: i64)
    requires
        n <= rs.len(),
        forall|j: int| 0 <= j < n ==> (#[trigger] rs[j]).id != id,
    ensures
        !relation_rescan(rs, wanted, n).contains_key(id),
    decreases n,
{
    if n > 0 {
        lemma_rescan_unseen(rs, wanted, (n - 1) as nat, id);
        assert(rs[n - 1].id != id);
    }
}

// ---- borders and routes ----

/// A pair of words is among the tags exactly if some tag has the key and the value.
pub proof fn pairs_go_by_words(
    strings: Seq<Vec<u8>>,
    tag: Tag,
    key: Seq<char>,
    value: Seq<char>,
    k: Seq<char>,
    v: Seq<char>,
)
    requires
        strings.len() <= 0x1_0000_0000,
        spells(strings, tag.key, key),
        spells(strings, tag.value, value),
    ensures
        has_pair(table_ids(strings, strings.len()), seq![tag], k, v) <==> k == key && v == value,
{
    lemma_word(strings, tag.key, key, k);
    lemma_word(strings, tag.value, value, v);
    let tags = seq![tag];
    assert(tags[0] == tag);
}

/// A border is an administrative boundary of level 2; a main route is a road route. More
/// tags do not matter.
pub proof fn borders_and_routes(ids: Map<Seq<u8>, u32>, tags: Seq<Tag>)
    ensures
        Borders.claimed(ids, tags) <==> has_pair(ids, tags, "boundary"@, "administrative"@)
            && has_pair(ids, tags, "admin_level"@, "2"@),
        RouteRoads.claimed(ids, tags) <==> has_pair(ids, tags, "type"@, "route"@) && has_pair(
            ids,
            tags,
            "route"@,
            "road"@,
        ),
{
}

/// The relations of a feature give their member ways, those without any left out.
pub proof fn features_give_their_ways<F: RelationFeature>(
    feature: F,
    ids: Map<Seq<u8>, u32>,
    rs: Seq<Relation>,
    n: nat,
    i: int,
)
    requires
        n <= rs.len(),
        0 <= i < n,
        feature.claimed(ids, rs[i].tag_list()),
        members_of(rs[i], MemberType::Way).len() > 0,
    ensures
        groups_of(feature, ids, rs, n).contains(members_of(rs[i], MemberType::Way)),
    decreases n,
{
    let out = groups_of(feature, ids, rs, n);
    let front = groups_of(feature, ids, rs, (n - 1) as nat);
    let own = members_of(rs[i], MemberType::Way);
    if i < n - 1 {
        features_give_their_ways(feature, ids, rs, (n - 1) as nat, i);
        let k = choose|k: int| 0 <= k < front.len() && front[k] == own;
        assert(out[k] == own);
    } else {
        assert(out[front.len() as int] == own);
    }
}

/// A route with a motorway among its ways is a main one, whatever else it has.
pub proof fn motorways_make_main_routes(route: Seq<i64>, resolved: Map<i64, ResolvedView>, i: int)
    requires
        0 <= i < route.len(),
        resolved.contains_key(route[i]),
        resolved[route[i]].class == ShapeClassification::Road(RoadKind::Motorway),
    ensures
        touches_motorway(route, resolved),
{
}

/// Ways that are looked up get their own nodes and class.
pub proof fn ways_resolve_to_themselves(
    ws: Seq<Way>,
    needed: Set<i64>,
    c: BlockShapeClassifier,
    n: nat,
    i: int,
)
    requires
        n <= ws.len(),
        0 <= i < n,
        needed.contains(ws[i].id),
        forall|j: int| i < j < n ==> (#[trigger] ws[j]).id != ws[i].id,
    ensures
        resolved_ways(ws, needed, c, n).contains_key(ws[i].id),
        resolved_ways(ws, needed, c, n)[ws[i].id].refs == ws[i].node_refs(),
        resolved_ways(ws, needed, c, n)[ws[i].id].class == way_class(c, ws[i].tag_list(), 0),
    decreases n,
{
    if i < n - 1 {
        assert(ws[n - 1].id != ws[i].id);
        ways_resolve_to_themselves(ws, needed, c, (n - 1) as nat, i);
    }
}

// ---- the index of a file ----

/// The fields of a saved index, eight bytes each.
pub proof fn index_fields(s: Seq<u8>)
    ensures
        index_at(s) is Some <==> s.len() == 40,
        index_at(s) matches Some(i) ==> {
            &&& i.ways == wide_at(s, 0)
            &&& i.relations == wide_at(s, 8)
            &&& i.end == wide_at(s, 16)
            &&& (i.max_node_id - wide_at(s, 24)) % 0x1_0000_0000_0000_0000 == 0
            &&& (i.max_way_id - wide_at(s, 32)) % 0x1_0000_0000_0000_0000 == 0
        },
{
    if s.len() == 40 {
        crate::layout_law::lemma_eight(s, 0);
        crate::layout_law::lemma_eight(s, 8);
        crate::layout_law::lemma_eight(s, 16);
        crate::layout_law::lemma_eight(s, 24);
        crate::layout_law::lemma_eight(s, 32);
    }
}

/// The highest ids are no lower than any id, and are ids themselves or where the count
/// began.
pub proof fn highest_ids(ways: Seq<Way>, nodes: Seq<Node>, floor: i64, n: nat, m: nat)
    requires
        n <= ways.len(),
        m <= nodes.len(),
    ensures
        max_way(ways, floor, n) >= floor,
        forall|i: int| 0 <= i < n ==> (#[trigger] ways[i]).id <= max_way(ways, floor, n),
        max_way(ways, floor, n) == floor || exists|i: int|
            0 <= i < n && (#[trigger] ways[i]).id == max_way(ways, floor, n),
        max_node(nodes, floor, m) >= floor,
        forall|i: int| 0 <= i < m ==> (#[trigger] nodes[i]).id <= max_node(nodes, floor, m),
        max_node(nodes, floor, m) == floor || exists|i: int|
            0 <= i < m && (#[trigger] nodes[i]).id == max_node(nodes, floor, m),
    decreases n, m,
{
    if n > 0 {
        highest_ids(ways, nodes, floor, (n - 1) as nat, m);
    } else if m > 0 {
        highest_ids(ways, nodes, floor, n, (m - 1) as nat);
    }
}

/// A block with ways counts as one from its position on, and so does one with relations.
pub proof fn sections_start_at_blocks(groups: Seq<PrimitiveGroup>, pos: u64, n: nat)
    requires
        n <= groups.len(),
    ensures
        groups_summary(groups, pos, n).ways == (if exists|i: int|
            0 <= i < n && (#[trigger] groups[i]).kind_of() is Ways {
            Some(pos)
        } else {
            None::<u64>
        }),
        groups_summary(groups, pos, n).relations == (if exists|i: int|
            0 <= i < n && (#[trigger] groups[i]).kind_of() is Relations {
            Some(pos)
        } else {
            None::<u64>
        }),
    decreases n,
{
    if n > 0 {
        sections_start_at_blocks(groups, pos, (n - 1) as nat);
        assert(groups[n - 1].kind_of() is Ways || !(groups[n - 1].kind_of() is Ways));
    }
}

/// Of two parts of a file the earlier start and the higher ids count.
pub proof fn parts_merge(a: BlockSummary, b: BlockSummary)
    ensures
        merged(a, b).max_node_id >= a.max_node_id && merged(a, b).max_node_id >= b.max_node_id,
        merged(a, b).max_node_id == a.max_node_id || merged(a, b).max_node_id == b.max_node_id,
        merged(a, b).max_way_id >= a.max_way_id && merged(a, b).max_way_id >= b.max_way_id,
        merged(a, b).max_way_id == a.max_way_id || merged(a, b).max_way_id == b.max_way_id,
        merged(a, b).ways is None <==> a.ways is None && b.ways is None,
        merged(a, b).ways matches Some(p) ==> (a.ways == Some(p) || b.ways == Some(p))
            && (a.ways matches Some(q) ==> p <= q) && (b.ways matches Some(q) ==> p <= q),
        merged(a, b).relations is None <==> a.relations is None && b.relations is None,
        merged(a, b).relations matches Some(p) ==> (a.relations == Some(p) || b.relations == Some(
            p,
        )) && (a.relations matches Some(q) ==> p <= q) && (b.relations matches Some(q) ==> p <= q),
{
}

// ---- borders ----

proof fn lemma_joined_contains(
    groups: Seq<Seq<i64>>,
    chosen: spec_fn(Seq<i64>) -> bool,
    way: i64,
)
    ensures
        joined(groups, chosen).contains(way) <==> exists|i: int|
            0 <= i < groups.len() && chosen(#[trigger] groups[i]) && groups[i].contains(way),
    decreases groups.len(),
{
    if groups.len() > 0 {
        let rest = groups.drop_last();
        let last = groups.last();
        lemma_joined_contains(rest, chosen, way);
        let front = joined(rest, chosen);
        let out = joined(groups, chosen);
        if out.contains(way) {
            let k = choose|k: int| 0 <= k < out.len() && out[k] == way;
            if k < front.len() {
                assert(front[k] == way);
                assert(front.contains(way));
                let i = choose|i: int|
                    0 <= i < rest.len() && chosen(#[trigger] rest[i]) && rest[i].contains(way);
                assert(groups[i] == rest[i]);
            } else {
                assert(last[k - front.len()] == way);
                assert(groups[groups.len() - 1] == last);
            }
        }
        if exists|i: int|
            0 <= i < groups.len() && chosen(#[trigger] groups[i]) && groups[i].contains(way) {
            let i = choose|i: int|
                0 <= i < groups.len() && chosen(#[trigger] groups[i]) && groups[i].contains(way);
            if i < rest.len() {
                assert(rest[i] == groups[i]);
                assert(front.contains(way));
                let k = choose|k: int| 0 <= k < front.len() && front[k] == way;
                assert(out[k] == way);
            } else {
                let k = choose|k: int| 0 <= k < last.len() && last[k] == way;
                assert(out[front.len() + k] == way);
            }
        }
    }
}

/// The ways of borders are those of all border relations, each once.
pub proof fn all_borders_count(groups: Seq<Seq<i64>>, way: i64)
    ensures
        first_seen(joined(groups, any_group())).contains(way) <==> exists|i: int|
            0 <= i < groups.len() && (#[trigger] groups[i]).contains(way),
        first_seen(joined(groups, any_group())).no_duplicates(),
        group_ways_set(groups).contains(way) <==> exists|i: int|
            0 <= i < groups.len() && (#[trigger] groups[i]).contains(way),
{
    lemma_joined_contains(groups, any_group(), way);
    first_seen_exact(joined(groups, any_group()));
    assert(first_seen(joined(groups, any_group())).contains(way) <==> joined(
        groups,
        any_group(),
    ).contains(way));
    if exists|i: int| 0 <= i < groups.len() && (#[trigger] groups[i]).contains(way) {
        let i = choose|i: int| 0 <= i < groups.len() && (#[trigger] groups[i]).contains(way);
        assert(any_group()(groups[i]));
    }
}

/// A later occurrence of a way changes nothing, and a first one comes behind the others.
pub proof fn ways_listed_at_first_sight(s: Seq<i64>, way: i64)
    ensures
        first_seen(s).contains(way) ==> first_seen(s.push(way)) == first_seen(s),
        !first_seen(s).contains(way) ==> first_seen(s.push(way)) == first_seen(s).push(way),
{
    assert(s.push(way).drop_last() =~= s);
}

/// What a group adds to the index: dense nodes their last id, plain nodes and ways their
/// highest ids, ways and relations the place of their block; and nothing else changes.
pub proof fn groups_count_for_the_index(s: BlockSummary, g: PrimitiveGroup, pos: u64)
    ensures
        ({
            let out = with_group(s, g, pos);
            &&& g.nodes@.len() == 0 ==> (g.dense matches Some(d) ==> {
                &&& d.id@.len() > 0 ==> out.max_node_id >= running_sum(d.id@, d.id@.len() - 1)
                &&& out.max_node_id >= s.max_node_id
                &&& out.max_node_id == s.max_node_id || out.max_node_id == 0 || (d.id@.len() > 0
                    && out.max_node_id == running_sum(d.id@, d.id@.len() - 1))
                &&& out.max_way_id == s.max_way_id && out.ways == s.ways && out.relations
                    == s.relations
            })
            &&& g.nodes@.len() > 0 ==> {
                &&& forall|i: int|
                    0 <= i < g.nodes@.len() ==> (#[trigger] g.nodes@[i]).id <= out.max_node_id
                &&& out.max_node_id >= s.max_node_id
                &&& out.max_way_id == s.max_way_id && out.ways == s.ways && out.relations
                    == s.relations
            }
            &&& g.nodes@.len() == 0 && g.dense is None && g.ways@.len() > 0 ==> {
                &&& forall|i: int|
                    0 <= i < g.ways@.len() ==> (#[trigger] g.ways@[i]).id <= out.max_way_id
                &&& out.max_way_id >= s.max_way_id
                &&& out.ways == Some(pos) && out.max_node_id == s.max_node_id && out.relations
                    == s.relations
            }
            &&& g.nodes@.len() == 0 && g.dense is None && g.ways@.len() == 0 && g.relations@.len()
                > 0 ==> out.relations == Some(pos) && out.ways == s.ways && out.max_node_id
                == s.max_node_id && out.max_way_id == s.max_way_id
        }),
{
    highest_ids(g.ways@, g.nodes@, s.max_way_id, g.ways@.len(), g.nodes@.len());
    highest_ids(g.ways@, g.nodes@, s.max_node_id, g.ways@.len(), g.nodes@.len());
}

/// Scans of two parts of a file taken together note what either noted, and keep the member
/// ways that the first has of relations of relations.
pub proof fn scans_taken_together(a: RelationScan, b: RelationScan, id: i64)
    ensures
        merged_scan(a, b).relations.contains(id) <==> a.relations.contains(id)
            || b.relations.contains(id),
        merged_scan(a, b).ways.contains(id) <==> a.ways.contains(id) || b.ways.contains(id),
        merged_scan(a, b).sub_relations.contains(id) <==> a.sub_relations.contains(id)
            || b.sub_relations.contains(id),
        merged_scan(a, b).sub_ways == a.sub_ways,
{
}

/// Some relation that the feature claims has these member ways.
pub open spec fn ways_of_some_claimed<F: RelationFeature>(
    ways: Seq<i64>,
    feature: F,
    ids: Map<Seq<u8>, u32>,
    rs: Seq<Relation>,
) -> bool {
    exists|i: int|
        0 <= i < rs.len() && feature.claimed(ids, (#[trigger] rs[i]).tag_list()) && members_of(
            rs[i],
            MemberType::Way,
        ) == ways
}

/// Only relations that the feature claims give ways, and none gives an empty list.
pub proof fn features_take_no_other_ways<F: RelationFeature>(
    feature: F,
    ids: Map<Seq<u8>, u32>,
    rs: Seq<Relation>,
    n: nat,
    k: int,
)
    requires
        n <= rs.len(),
        0 <= k < groups_of(feature, ids, rs, n).len(),
    ensures
        groups_of(feature, ids, rs, n)[k].len() > 0,
        ways_of_some_claimed(groups_of(feature, ids, rs, n)[k], feature, ids, rs),
    decreases n,
{
    let front = groups_of(feature, ids, rs, (n - 1) as nat);
    if k < front.len() {
        features_take_no_other_ways(feature, ids, rs, (n - 1) as nat, k);
    } else {
        assert(feature.claimed(ids, rs[n - 1].tag_list()));
    }
}

} // verus!
