//! Feature types built from relations and their member ways: country borders and
//! route-derived major roads.
//!
//! Relations are offered to each feature, and the union of all claimed member ways is
//! resolved in one pass over the ways, shared across the features.

use vstd::prelude::*;
use vstd::utf8::encode_utf8;

use crate::classifier::{classifier_for, way_class, BlockShapeClassifier, ShapeClassification};
use crate::extractor::{
    block_ids, block_relations, block_ways, ids_of_type, list_relations, list_ways, members_of,
};
use crate::feature::RoadKind;
use crate::ids::IdSet;
use crate::osm::{DecodedRelation, DecodedWay, MemberType, PrimitiveBlock, Relation, Way};
use crate::rings::lists_view;
use crate::tags::{id_in, StringMap, Tag};

verus! {

/// Whether a tag with the key and the value is among the tags.
pub open spec fn has_pair(
    ids: Map<Seq<u8>, u32>,
    tags: Seq<Tag>,
    key: Seq<char>,
    value: Seq<char>,
) -> bool {
    exists|i: int|
        0 <= i < tags.len() && id_in(ids, encode_utf8(key)) == Some((#[trigger] tags[i]).key)
            && id_in(ids, encode_utf8(value)) == Some(tags[i].value)
}

fn pair_in(tags: &[Tag], smap: &StringMap, key: &str, value: &str) -> (r: bool)
    ensures
        r == has_pair(smap.ids(), tags@, key@, value@),
{
    let k: u32 = match smap.get_str(key) {
        Some(k) => k,
        None => return false,
    };
    let v: u32 = match smap.get_str(value) {
        Some(v) => v,
        None => return false,
    };
    let mut i: usize = 0;
    while i < tags.len()
        invariant
            i <= tags@.len(),
            id_in(smap.ids(), encode_utf8(key@)) == Some(k),
            id_in(smap.ids(), encode_utf8(value@)) == Some(v),
            forall|j: int| 0 <= j < i ==> !((#[trigger] tags@[j]).key == k && tags@[j].value == v),
        decreases tags@.len() - i,
    {
        if tags[i].key == k && tags[i].value == v {
            return true;
        }
        i = i + 1;
    }
    false
}

/// A feature type assembled from relations and their member ways.
pub trait RelationFeature {
    /// Whether a relation with the tags, in a block with the string ids, belongs to this
    /// feature.
    spec fn claimed(&self, ids: Map<Seq<u8>, u32>, tags: Seq<Tag>) -> bool;

    fn claims(&self, tags: &[Tag], smap: &StringMap) -> (r: bool)
        ensures
            r == self.claimed(smap.ids(), tags@),
    ;
}

/// Country borders: `boundary=administrative`, `admin_level=2` relations.
pub struct Borders;

impl RelationFeature for Borders {
    open spec fn claimed(&self, ids: Map<Seq<u8>, u32>, tags: Seq<Tag>) -> bool {
        has_pair(ids, tags, "boundary"@, "administrative"@) && has_pair(
            ids,
            tags,
            "admin_level"@,
            "2"@,
        )
    }

    fn claims(&self, tags: &[Tag], smap: &StringMap) -> (r: bool) {
        pair_in(tags, smap, "boundary", "administrative") && pair_in(tags, smap, "admin_level", "2")
    }
}

/// Route-derived major roads: `type=route`, `route=road` relations.
pub struct RouteRoads;

impl RelationFeature for RouteRoads {
    open spec fn claimed(&self, ids: Map<Seq<u8>, u32>, tags: Seq<Tag>) -> bool {
        has_pair(ids, tags, "type"@, "route"@) && has_pair(ids, tags, "route"@, "road"@)
    }

    fn claims(&self, tags: &[Tag], smap: &StringMap) -> (r: bool) {
        pair_in(tags, smap, "type", "route") && pair_in(tags, smap, "route", "road")
    }
}

// ---- claimed relations ----

/// The member ways of each of the first `n` relations that the feature claims; relations
/// without member ways do not count.
pub open spec fn groups_of<F: RelationFeature>(
    feature: F,
    ids: Map<Seq<u8>, u32>,
    rs: Seq<Relation>,
    n: nat,
) -> Seq<Seq<i64>>
    decreases n,
{
    if n == 0 {
        Seq::empty()
    } else {
        let front = groups_of(feature, ids, rs, (n - 1) as nat);
        let r = rs[n - 1];
        let ways = members_of(r, MemberType::Way);
        if ways.len() > 0 && feature.claimed(ids, r.tag_list()) {
            front.push(ways)
        } else {
            front
        }
    }
}

/// The groups of member ways that a feature claims in a block.
pub fn scan_relations<F: RelationFeature>(block: &PrimitiveBlock, feature: &F) -> (r: Vec<Vec<i64>>)
    ensures
        lists_view(r@) == groups_of(
            *feature,
            block_ids(*block),
            block_relations(*block),
            block_relations(*block).len(),
        ),
{
    let smap = StringMap::of_table(&block.strings);
    let relations: Vec<&Relation> = list_relations(block);
    let ghost rs = block_relations(*block);
    let ghost ids = block_ids(*block);
    let mut out: Vec<Vec<i64>> = Vec::new();
    let mut i: usize = 0;
    assert(lists_view(out@) =~= groups_of(*feature, ids, rs, 0));
    while i < relations.len()
        invariant
            i <= relations@.len(),
            rs == block_relations(*block),
            ids == block_ids(*block),
            smap.ids() == ids,
            relations@.len() == rs.len(),
            forall|k: int| 0 <= k < relations@.len() ==> *(#[trigger] relations@[k]) == rs[k],
            lists_view(out@) == groups_of(*feature, ids, rs, i as nat),
        decreases relations@.len() - i,
    {
        let d: DecodedRelation = relations[i].decode();
        let ways: Vec<i64> = ids_of_type(&d.members, MemberType::Way);
        let ghost before = lists_view(out@);
        let ghost w = ways@;
        assert(*relations@[i as int] == rs[i as int]);
        if ways.len() > 0 && feature.claims(&d.tags, &smap) {
            out.push(ways);
            assert(lists_view(out@) =~= before.push(w));
        }
        i = i + 1;
    }
    out
}

/// The ways of all groups.
pub open spec fn group_ways_set(groups: Seq<Seq<i64>>) -> Set<i64> {
    Set::new(|w: i64| exists|i: int| 0 <= i < groups.len() && (#[trigger] groups[i]).contains(w))
}

/// Add the member ways of a feature's groups to those to be resolved.
pub fn need_ways(needed: &mut IdSet, groups: &Vec<Vec<i64>>)
    ensures
        final(needed)@ == old(needed)@.union(group_ways_set(lists_view(groups@))),
{
    let ghost gs = lists_view(groups@);
    let mut i: usize = 0;
    assert(needed@ =~= old(needed)@.union(group_ways_set(gs.take(0))));
    while i < groups.len()
        invariant
            i <= groups@.len(),
            gs == lists_view(groups@),
            needed@ == old(needed)@.union(group_ways_set(gs.take(i as int))),
        decreases groups@.len() - i,
    {
        needed.extend_from(&groups[i]);
        i = i + 1;
        proof {
            let a = gs.take(i - 1);
            let b = gs.take(i as int);
            assert(b =~= a.push(gs[i - 1]));
            assert forall|w: i64| group_ways_set(b).contains(w) == (group_ways_set(a).contains(w)
                || gs[i - 1].contains(w)) by {
                if group_ways_set(a).contains(w) {
                    let k = choose|k: int| 0 <= k < a.len() && (#[trigger] a[k]).contains(w);
                    assert(b[k].contains(w));
                }
                if gs[i - 1].contains(w) {
                    assert(b[i - 1].contains(w));
                }
                if group_ways_set(b).contains(w) {
                    let k = choose|k: int| 0 <= k < b.len() && (#[trigger] b[k]).contains(w);
                    if k < a.len() {
                        assert(a[k].contains(w));
                    }
                }
            }
            assert(gs[i - 1] == groups@[i - 1]@);
            assert(needed@ =~= old(needed)@.union(group_ways_set(b)));
        }
    }
    assert(gs.take(i as int) =~= gs);
}

// ---- resolved ways ----

/// A member way resolved in the shared ways pass.
pub struct ResolvedWay {
    pub refs: Vec<i64>,
    pub class: ShapeClassification,
}

pub struct ResolvedView {
    pub refs: Seq<i64>,
    pub class: ShapeClassification,
}

impl View for ResolvedWay {
    type V = ResolvedView;

    open spec fn view(&self) -> ResolvedView {
        ResolvedView { refs: self.refs@, class: self.class }
    }
}

/// All resolved member ways, keyed by way id, held in a `hashbrown` map.
#[verifier::external_body]
pub struct ResolvedWays {
    map: hashbrown::HashMap<i64, ResolvedWay>,
}

/// The entries of the map.
pub uninterp spec fn resolved_entries(m: ResolvedWays) -> Map<i64, ResolvedView>;

impl View for ResolvedWays {
    type V = Map<i64, ResolvedView>;

    open spec fn view(&self) -> Map<i64, ResolvedView> {
        resolved_entries(*self)
    }
}

impl ResolvedWays {
    /// `hashbrown::HashMap::new`: a map without entries.
    #[verifier::external_body]
    fn empty() -> (r: Self)
        ensures
            resolved_entries(r).dom() == Set::<i64>::empty(),
    {
        ResolvedWays { map: hashbrown::HashMap::new() }
    }

    /// `hashbrown::HashMap::get`: the way under an id, if there is one.
    #[verifier::external_body]
    fn way_under(&self, id: i64) -> (r: Option<&ResolvedWay>)
        ensures
            match r {
                Some(w) => resolved_entries(*self).contains_key(id) && resolved_entries(*self)[id]
                    == w@,
                None => !resolved_entries(*self).contains_key(id),
            },
    {
        self.map.get(&id)
    }

    /// `hashbrown::HashMap::insert`: puts the way under the id, in place of any way that
    /// was there.
    #[verifier::external_body]
    fn put_way(&mut self, id: i64, way: ResolvedWay)
        ensures
            resolved_entries(*final(self)) == resolved_entries(*old(self)).insert(id, way@),
    {
        self.map.insert(id, way);
    }

    /// `hashbrown::HashMap::extend`, given the other map: takes over every entry of it, in
    /// place of entries under the same ids.
    #[verifier::external_body]
    fn take_ways(&mut self, other: ResolvedWays)
        ensures
            resolved_entries(*final(self)) == resolved_entries(*old(self)).union_prefer_right(
                resolved_entries(other),
            ),
    {
        self.map.extend(other.map)
    }

    pub fn new() -> (r: Self)
        ensures
            r@ == Map::<i64, ResolvedView>::empty(),
    {
        let r = ResolvedWays::empty();
        assert(r@ =~= Map::<i64, ResolvedView>::empty());
        r
    }

    pub fn get(&self, id: i64) -> (r: Option<&ResolvedWay>)
        ensures
            match r {
                Some(w) => self@.contains_key(id) && self@[id] == w@,
                None => !self@.contains_key(id),
            },
    {
        self.way_under(id)
    }

    /// Take over every way of another pass.
    pub fn extend(&mut self, other: ResolvedWays)
        ensures
            final(self)@ == old(self)@.union_prefer_right(other@),
    {
        self.take_ways(other)
    }
}

/// The needed ways among the first `n`, with their node refs and classes.
pub open spec fn resolved_ways(
    ws: Seq<Way>,
    needed: Set<i64>,
    c: BlockShapeClassifier,
    n: nat,
) -> Map<i64, ResolvedView>
    decreases n,
{
    if n == 0 {
        Map::empty()
    } else {
        let m = resolved_ways(ws, needed, c, (n - 1) as nat);
        let w = ws[n - 1];
        if needed.contains(w.id) {
            m.insert(
                w.id,
                ResolvedView { refs: w.node_refs(), class: way_class(c, w.tag_list(), 0) },
            )
        } else {
            m
        }
    }
}

/// For every way of a block in `needed`, record its node refs and its classification
/// (some features filter members by class, e.g. motorway).
pub fn resolve_ways(block: &PrimitiveBlock, needed: &IdSet) -> (r: ResolvedWays)
    ensures
        r@ == resolved_ways(
            block_ways(*block),
            needed@,
            classifier_for(block_ids(*block)),
            block_ways(*block).len(),
        ),
{
    let smap = StringMap::of_table(&block.strings);
    let classifier = BlockShapeClassifier::new(&smap);
    let ways: Vec<&Way> = list_ways(block);
    let ghost ws = block_ways(*block);
    let ghost c = classifier_for(block_ids(*block));
    let mut out = ResolvedWays::new();
    let mut i: usize = 0;
    while i < ways.len()
        invariant
            i <= ways@.len(),
            ws == block_ways(*block),
            c == classifier_for(block_ids(*block)),
            classifier == c,
            ways@.len() == ws.len(),
            forall|k: int| 0 <= k < ways@.len() ==> *(#[trigger] ways@[k]) == ws[k],
            out@ == resolved_ways(ws, needed@, c, i as nat),
        decreases ways@.len() - i,
    {
        assert(*ways@[i as int] == ws[i as int]);
        if needed.contains(ways[i].id) {
            let d: DecodedWay = ways[i].decode();
            let class: ShapeClassification = classifier.classify_way(&d.tags);
            out.put_way(d.id, ResolvedWay { refs: d.refs, class });
        }
        i = i + 1;
    }
    out
}

// ---- the ways of a feature ----

/// The ids of a list, each once, in the order in which they first occur.
pub open spec fn first_seen(s: Seq<i64>) -> Seq<i64>
    decreases s.len(),
{
    if s.len() == 0 {
        Seq::empty()
    } else {
        let front = first_seen(s.drop_last());
        if front.contains(s.last()) {
            front
        } else {
            front.push(s.last())
        }
    }
}

/// No id occurs twice, and none is lost or added.
pub proof fn first_seen_exact(s: Seq<i64>)
    ensures
        first_seen(s).no_duplicates(),
        forall|w: i64| #[trigger] first_seen(s).contains(w) <==> s.contains(w),
    decreases s.len(),
{
    if s.len() > 0 {
        let rest = s.drop_last();
        first_seen_exact(rest);
        let front = first_seen(rest);
        let out = first_seen(s);
        assert forall|w: i64| #[trigger] out.contains(w) <==> s.contains(w) by {
            if s.contains(w) {
                let k = choose|k: int| 0 <= k < s.len() && s[k] == w;
                if k < rest.len() {
                    assert(rest[k] == w);
                    assert(front.contains(w));
                    let m = choose|m: int| 0 <= m < front.len() && front[m] == w;
                    assert(out[m] == w);
                } else if !front.contains(w) {
                    assert(out[front.len() as int] == w);
                }
            }
            if out.contains(w) {
                let k = choose|k: int| 0 <= k < out.len() && out[k] == w;
                if k < front.len() {
                    assert(front[k] == w);
                    assert(front.contains(w));
                    let m = choose|m: int| 0 <= m < rest.len() && rest[m] == w;
                    assert(s[m] == w);
                } else {
                    assert(s[s.len() - 1] == w);
                }
            }
        }
    }
}

/// The ways of the chosen groups, one behind the other.
pub open spec fn joined(groups: Seq<Seq<i64>>, chosen: spec_fn(Seq<i64>) -> bool) -> Seq<i64>
    decreases groups.len(),
{
    if groups.len() == 0 {
        Seq::empty()
    } else {
        let front = joined(groups.drop_last(), chosen);
        if chosen(groups.last()) {
            front + groups.last()
        } else {
            front
        }
    }
}

/// A route is important if any of its member ways is a motorway.
pub open spec fn touches_motorway(route: Seq<i64>, resolved: Map<i64, ResolvedView>) -> bool {
    exists|i: int|
        0 <= i < route.len() && resolved.contains_key(#[trigger] route[i])
            && resolved[route[i]].class == ShapeClassification::Road(RoadKind::Motorway)
}

pub open spec fn any_group() -> spec_fn(Seq<i64>) -> bool {
    |g: Seq<i64>| true
}

pub open spec fn important_group(resolved: Map<i64, ResolvedView>) -> spec_fn(Seq<i64>) -> bool {
    |g: Seq<i64>| touches_motorway(g, resolved)
}

/// A list of ids without repeats, with the set of its ids.
struct Distinct {
    set: IdSet,
    list: Vec<i64>,
}

impl Distinct {
    spec fn holds(&self, s: Seq<i64>) -> bool {
        &&& self.list@ == first_seen(s)
        &&& forall|w: i64| self.set@.contains(w) <==> self.list@.contains(w)
    }

    fn new() -> (r: Self)
        ensures
            r.holds(Seq::empty()),
    {
        Distinct { set: IdSet::new(), list: Vec::new() }
    }

    fn add_all(&mut self, more: &Vec<i64>, Ghost(s): Ghost<Seq<i64>>)
        requires
            old(self).holds(s),
        ensures
            final(self).holds(s + more@),
    {
        let mut i: usize = 0;
        assert(s + more@.take(0) =~= s);
        while i < more.len()
            invariant
                i <= more@.len(),
                self.holds(s + more@.take(i as int)),
            decreases more@.len() - i,
        {
            let w: i64 = more[i];
            let ghost before = self.list@;
            let ghost now = s + more@.take(i as int);
            if self.set.insert(w) {
                self.list.push(w);
            }
            i = i + 1;
            proof {
                let next = s + more@.take(i as int);
                assert(next.drop_last() =~= now);
                assert(next.last() == w);
                assert(self.list@ == first_seen(next));
                assert forall|x: i64| self.set@.contains(x) <==> self.list@.contains(x) by {
                    if before.contains(x) {
                        let k = choose|k: int| 0 <= k < before.len() && before[k] == x;
                        assert(self.list@[k] == x);
                    }
                    if self.list@.contains(x) && x != w {
                        let k = choose|k: int| 0 <= k < self.list@.len() && self.list@[k] == x;
                        assert(before[k] == x);
                    }
                    if !before.contains(w) {
                        assert(self.list@[before.len() as int] == w);
                    }
                }
            }
        }
        assert(more@.take(i as int) =~= more@);
    }
}

/// The ways of a border: all member ways, each once (a shared border belongs to both
/// neighbours).
pub fn border_ways(groups: &Vec<Vec<i64>>) -> (r: Vec<i64>)
    ensures
        r@ == first_seen(joined(lists_view(groups@), any_group())),
{
    let ghost gs = lists_view(groups@);
    let mut out = Distinct::new();
    let mut i: usize = 0;
    assert(joined(gs.take(0), any_group()) =~= Seq::empty());
    while i < groups.len()
        invariant
            i <= groups@.len(),
            gs == lists_view(groups@),
            out.holds(joined(gs.take(i as int), any_group())),
        decreases groups@.len() - i,
    {
        out.add_all(&groups[i], Ghost(joined(gs.take(i as int), any_group())));
        i = i + 1;
        proof {
            let done = gs.take(i as int);
            assert(done.drop_last() =~= gs.take(i - 1));
            assert(done.last() == groups@[i - 1]@);
        }
    }
    assert(gs.take(i as int) =~= gs);
    out.list
}

fn has_motorway(route: &Vec<i64>, resolved: &ResolvedWays) -> (r: bool)
    ensures
        r == touches_motorway(route@, resolved@),
{
    let mut i: usize = 0;
    while i < route.len()
        invariant
            i <= route@.len(),
            forall|k: int|
                0 <= k < i ==> !(resolved@.contains_key(#[trigger] route@[k])
                    && resolved@[route@[k]].class == ShapeClassification::Road(RoadKind::Motorway)),
        decreases route@.len() - i,
    {
        if let Some(w) = resolved.get(route[i]) {
            if let ShapeClassification::Road(RoadKind::Motorway) = w.class {
                assert(resolved@.contains_key(route@[i as int]));
                return true;
            }
        }
        i = i + 1;
    }
    false
}

/// The ways of the low-zoom road network: every member way of a route that touches a
/// motorway, each once.
pub fn important_ways(groups: &Vec<Vec<i64>>, resolved: &ResolvedWays) -> (r: Vec<i64>)
    ensures
        r@ == first_seen(joined(lists_view(groups@), important_group(resolved@))),
{
    let ghost gs = lists_view(groups@);
    let ghost f = important_group(resolved@);
    let mut out = Distinct::new();
    let mut i: usize = 0;
    assert(joined(gs.take(0), f) =~= Seq::empty());
    while i < groups.len()
        invariant
            i <= groups@.len(),
            gs == lists_view(groups@),
            f == important_group(resolved@),
            out.holds(joined(gs.take(i as int), f)),
        decreases groups@.len() - i,
    {
        proof {
            let done = gs.take(i + 1);
            assert(done.drop_last() =~= gs.take(i as int));
            assert(done.last() == groups@[i as int]@);
        }
        if has_motorway(&groups[i], resolved) {
            out.add_all(&groups[i], Ghost(joined(gs.take(i as int), f)));
        }
        i = i + 1;
    }
    assert(gs.take(i as int) =~= gs);
    out.list
}

/// A way is in the low-zoom network exactly if some route that touches a motorway has it.
pub proof fn network_ways(groups: Seq<Seq<i64>>, resolved: Map<i64, ResolvedView>, way: i64)
    ensures
        first_seen(joined(groups, important_group(resolved))).contains(way) <==> exists|i: int|
            0 <= i < groups.len() && touches_motorway(#[trigger] groups[i], resolved)
                && groups[i].contains(way),
{
    first_seen_exact(joined(groups, important_group(resolved)));
    lemma_joined(groups, resolved, way);
}

proof fn lemma_joined(groups: Seq<Seq<i64>>, resolved: Map<i64, ResolvedView>, way: i64)
    ensures
        joined(groups, important_group(resolved)).contains(way) <==> exists|i: int|
            0 <= i < groups.len() && touches_motorway(#[trigger] groups[i], resolved)
                && groups[i].contains(way),
    decreases groups.len(),
{
    let f = important_group(resolved);
    if groups.len() > 0 {
        let rest = groups.drop_last();
        lemma_joined(rest, resolved, way);
        let front = joined(rest, f);
        let out = joined(groups, f);
        if out.contains(way) {
            let k = choose|k: int| 0 <= k < out.len() && out[k] == way;
            if k < front.len() {
                assert(front[k] == way);
                assert(front.contains(way));
                let i = choose|i: int|
                    0 <= i < rest.len() && touches_motorway(#[trigger] rest[i], resolved)
                        && rest[i].contains(way);
                assert(groups[i].contains(way));
            } else {
                assert(groups.last()[k - front.len()] == way);
                assert(groups[groups.len() - 1].contains(way));
            }
        }
        if exists|i: int|
            0 <= i < groups.len() && touches_motorway(#[trigger] groups[i], resolved)
                && groups[i].contains(way) {
            let i = choose|i: int|
                0 <= i < groups.len() && touches_motorway(#[trigger] groups[i], resolved)
                    && groups[i].contains(way);
            if i < rest.len() {
                assert(rest[i].contains(way));
                assert(front.contains(way));
                let k = choose|k: int| 0 <= k < front.len() && front[k] == way;
                assert(out[k] == way);
            } else {
                let k = choose|k: int| 0 <= k < groups[i].len() && groups[i][k] == way;
                assert(out[front.len() + k] == way);
            }
        }
    }
}

} // verus!
