//! What each pass over the OSM data keeps of a block.

use vstd::prelude::*;

use crate::bitset::BitSet;
use crate::classifier::{
    classifier_for, floors_from, has_signals, lane_tags, layer_from, name_in, place_in, relation_class,
    split, way_class, BlockShapeClassifier, ShapeClassification,
};
use crate::feature::{AreaKind, EdgeNode, LabelClass, Lanes, PoiKind, RoadKind};
use crate::ids::{sorted_distinct, sorted_unique, IdLists, IdSet};
use crate::osm::{
    dense_nodes, nodes_view, plain_node, DecodedNode, DecodedRelation, DecodedWay, MemberType,
    NodeView, PrimitiveBlock, PrimitiveGroup, Primitives, Relation, RelationMember, Way,
};
use crate::record::name_view;
use crate::rings::{assemble_rings, is_ring, lists_view, ring_refs, rings_of};
use crate::store::{rounded_e7, saturated, PackedCoord};
use crate::tags::{filter_accepts, id_in, table_ids, SidTagFilter, StringMap, Tag, TagFilter};

verus! {

/// The string ids of a block.
pub open spec fn block_ids(b: PrimitiveBlock) -> Map<Seq<u8>, u32> {
    table_ids(b.strings@, b.strings@.len())
}

/// The ways of a group; none where it holds another kind.
pub open spec fn ways_in(g: PrimitiveGroup) -> Seq<Way> {
    match g.kind_of() {
        Primitives::Ways(w) => w@,
        _ => Seq::empty(),
    }
}

/// The relations of a group; none where it holds another kind.
pub open spec fn relations_in(g: PrimitiveGroup) -> Seq<Relation> {
    match g.kind_of() {
        Primitives::Relations(r) => r@,
        _ => Seq::empty(),
    }
}

/// The ways of the first `n` groups.
pub open spec fn group_ways(gs: Seq<PrimitiveGroup>, n: nat) -> Seq<Way>
    decreases n,
{
    if n == 0 {
        Seq::empty()
    } else {
        group_ways(gs, (n - 1) as nat) + ways_in(gs[n - 1])
    }
}

/// The relations of the first `n` groups.
pub open spec fn group_relations(gs: Seq<PrimitiveGroup>, n: nat) -> Seq<Relation>
    decreases n,
{
    if n == 0 {
        Seq::empty()
    } else {
        group_relations(gs, (n - 1) as nat) + relations_in(gs[n - 1])
    }
}

/// All ways of a block.
pub open spec fn block_ways(b: PrimitiveBlock) -> Seq<Way> {
    group_ways(b.groups@, b.groups@.len())
}

/// All relations of a block.
pub open spec fn block_relations(b: PrimitiveBlock) -> Seq<Relation> {
    group_relations(b.groups@, b.groups@.len())
}

/// All ways of a block, by reference.
pub(crate) fn list_ways(block: &PrimitiveBlock) -> (r: Vec<&Way>)
    ensures
        r@.len() == block_ways(*block).len(),
        forall|i: int| 0 <= i < r@.len() ==> *(#[trigger] r@[i]) == block_ways(*block)[i],
{
    let mut r: Vec<&Way> = Vec::new();
    let mut g: usize = 0;
    while g < block.groups.len()
        invariant
            g <= block.groups@.len(),
            r@.len() == group_ways(block.groups@, g as nat).len(),
            forall|i: int|
                0 <= i < r@.len() ==> *(#[trigger] r@[i]) == group_ways(block.groups@, g as nat)[i],
        decreases block.groups@.len() - g,
    {
        let group: &PrimitiveGroup = &block.groups[g];
        let ghost front = group_ways(block.groups@, g as nat);
        let ghost all = group_ways(block.groups@, (g + 1) as nat);
        if group.nodes.len() == 0 && group.dense.is_none() && group.ways.len() > 0 {
            let mut k: usize = 0;
            while k < group.ways.len()
                invariant
                    k <= group.ways@.len(),
                    all == front + group.ways@,
                    r@.len() == front.len() + k,
                    forall|i: int| 0 <= i < r@.len() ==> *(#[trigger] r@[i]) == all[i],
                decreases group.ways@.len() - k,
            {
                r.push(&group.ways[k]);
                k = k + 1;
            }
        } else {
            assert(all =~= front);
        }
        g = g + 1;
    }
    r
}

/// All relations of a block, by reference.
pub(crate) fn list_relations(block: &PrimitiveBlock) -> (r: Vec<&Relation>)
    ensures
        r@.len() == block_relations(*block).len(),
        forall|i: int| 0 <= i < r@.len() ==> *(#[trigger] r@[i]) == block_relations(*block)[i],
{
    let mut r: Vec<&Relation> = Vec::new();
    let mut g: usize = 0;
    while g < block.groups.len()
        invariant
            g <= block.groups@.len(),
            r@.len() == group_relations(block.groups@, g as nat).len(),
            forall|i: int|
                0 <= i < r@.len() ==> *(#[trigger] r@[i]) == group_relations(
                    block.groups@,
                    g as nat,
                )[i],
        decreases block.groups@.len() - g,
    {
        let group: &PrimitiveGroup = &block.groups[g];
        let ghost front = group_relations(block.groups@, g as nat);
        let ghost all = group_relations(block.groups@, (g + 1) as nat);
        if group.nodes.len() == 0 && group.dense.is_none() && group.ways.len() == 0
            && group.relations.len() > 0 {
            let mut k: usize = 0;
            while k < group.relations.len()
                invariant
                    k <= group.relations@.len(),
                    all == front + group.relations@,
                    r@.len() == front.len() + k,
                    forall|i: int| 0 <= i < r@.len() ==> *(#[trigger] r@[i]) == all[i],
                decreases group.relations@.len() - k,
            {
                r.push(&group.relations[k]);
                k = k + 1;
            }
        } else {
            assert(all =~= front);
        }
        g = g + 1;
    }
    r
}

// ---- relations and what they point to ----

/// The ids of the members of one type, among the first `n`.
pub open spec fn member_ids(ms: Seq<RelationMember>, t: MemberType, n: nat) -> Seq<i64>
    decreases n,
{
    if n == 0 {
        Seq::empty()
    } else {
        let front = member_ids(ms, t, (n - 1) as nat);
        if ms[n - 1].member_type == t {
            front.push(ms[n - 1].id)
        } else {
            front
        }
    }
}

/// The ids of a relation's members of one type.
pub open spec fn members_of(r: Relation, t: MemberType) -> Seq<i64> {
    member_ids(r.member_list(), t, r.member_list().len())
}

pub(crate) fn ids_of_type(members: &Vec<RelationMember>, t: MemberType) -> (r: Vec<i64>)
    ensures
        r@ == member_ids(members@, t, members@.len()),
{
    let mut r: Vec<i64> = Vec::new();
    let mut i: usize = 0;
    assert(r@ =~= member_ids(members@, t, 0));
    while i < members.len()
        invariant
            i <= members@.len(),
            r@ == member_ids(members@, t, i as nat),
        decreases members@.len() - i,
    {
        if members[i].member_type == t {
            r.push(members[i].id);
        }
        i = i + 1;
    }
    r
}

/// The member ways of a relation.
pub fn member_ways_of(relation: &Relation) -> (r: Vec<i64>)
    ensures
        r@ == members_of(*relation, MemberType::Way),
{
    let d: DecodedRelation = relation.decode();
    ids_of_type(&d.members, MemberType::Way)
}

/// What a relation scan collects.
#[verifier::ext_equal]
pub struct RelationScan {
    /// The relations that the filter accepts.
    pub relations: Set<i64>,
    /// The ways that relations point to.
    pub ways: Set<i64>,
    /// The relations that relations point to.
    pub sub_relations: Set<i64>,
    /// The ways of those relations, by relation.
    pub sub_ways: Map<i64, Seq<i64>>,
}

/// The scan of no relations.
pub open spec fn empty_scan() -> RelationScan {
    RelationScan {
        relations: Set::empty(),
        ways: Set::empty(),
        sub_relations: Set::empty(),
        sub_ways: Map::empty(),
    }
}

/// Two scans taken together. What the second knows of ways of relations of relations is
/// not taken over: it is found in a scan of its own.
pub open spec fn merged_scan(a: RelationScan, b: RelationScan) -> RelationScan {
    RelationScan {
        relations: a.relations.union(b.relations),
        ways: a.ways.union(b.ways),
        sub_relations: a.sub_relations.union(b.sub_relations),
        sub_ways: a.sub_ways,
    }
}

/// The scan after the first `n` relations: the relations that the filter accepts, and the
/// ways and relations that they point to. The ways of those relations are left to a second
/// scan.
pub open spec fn relation_scan(
    rs: Seq<Relation>,
    filter: Seq<Vec<(String, Vec<String>)>>,
    ids: Map<Seq<u8>, u32>,
    n: nat,
) -> RelationScan
    decreases n,
{
    if n == 0 {
        empty_scan()
    } else {
        let s = relation_scan(rs, filter, ids, (n - 1) as nat);
        let r = rs[n - 1];
        if filter_accepts(filter, ids, r.tag_list()) {
            RelationScan {
                relations: s.relations.insert(r.id),
                ways: s.ways.union(members_of(r, MemberType::Way).to_set()),
                sub_relations: s.sub_relations.union(
                    members_of(r, MemberType::Relation).to_set(),
                ),
                sub_ways: s.sub_ways,
            }
        } else {
            s
        }
    }
}

/// The ways of the relations of relations, after the first `n` relations.
pub open spec fn relation_rescan(rs: Seq<Relation>, wanted: Set<i64>, n: nat) -> Map<i64, Seq<i64>>
    decreases n,
{
    if n == 0 {
        Map::empty()
    } else {
        let m = relation_rescan(rs, wanted, (n - 1) as nat);
        let r = rs[n - 1];
        if wanted.contains(r.id) {
            m.insert(
                r.id,
                (if m.contains_key(r.id) {
                    m[r.id]
                } else {
                    Seq::empty()
                }) + members_of(r, MemberType::Way),
            )
        } else {
            m
        }
    }
}

/// Result of relation scan: all filtered relations and ways/relations that they point to.
pub struct FilteredRelations {
    /// Relations matched by filter
    pub relations: IdSet,
    /// Ways pointed to by relations
    pub relation_ways: IdSet,
    /// Relations pointed to by relations
    pub relation_relations: IdSet,
    /// Ways pointed to by relations of relations
    pub relation_relation_ways: IdLists,
}

impl FilteredRelations {
    pub open spec fn scan(&self) -> RelationScan {
        RelationScan {
            relations: self.relations@,
            ways: self.relation_ways@,
            sub_relations: self.relation_relations@,
            sub_ways: self.relation_relation_ways@,
        }
    }

    pub fn new() -> (r: Self)
        ensures
            r.scan() == empty_scan(),
    {
        FilteredRelations {
            relations: IdSet::new(),
            relation_ways: IdSet::new(),
            relation_relations: IdSet::new(),
            relation_relation_ways: IdLists::new(),
        }
    }

    /// First scan of a block: the relations that the filter accepts, and what they point
    /// to.
    pub fn scan_block(block: &PrimitiveBlock, relation_tag_filter: &TagFilter) -> (r: Self)
        ensures
            r.scan() == relation_scan(
                block_relations(*block),
                relation_tag_filter.0@,
                block_ids(*block),
                block_relations(*block).len(),
            ),
    {
        let string_map = StringMap::of_table(&block.strings);
        let filter: SidTagFilter = relation_tag_filter.get_sid_filter(&string_map);
        let relations: Vec<&Relation> = list_relations(block);
        let ghost rs = block_relations(*block);
        let mut out = FilteredRelations::new();
        let mut i: usize = 0;
        while i < relations.len()
            invariant
                i <= relations@.len(),
                rs == block_relations(*block),
                relations@.len() == rs.len(),
                forall|k: int| 0 <= k < relations@.len() ==> *(#[trigger] relations@[k]) == rs[k],
                forall|tags: Seq<Tag>| #[trigger]
                    filter.accepts(tags) == filter_accepts(
                        relation_tag_filter.0@,
                        block_ids(*block),
                        tags,
                    ),
                out.scan() == relation_scan(
                    rs,
                    relation_tag_filter.0@,
                    block_ids(*block),
                    i as nat,
                ),
            decreases relations@.len() - i,
        {
            let d: DecodedRelation = relations[i].decode();
            if filter.matches(&d.tags) {
                out.relations.insert(d.id);
                out.relation_ways.extend_from(&ids_of_type(&d.members, MemberType::Way));
                out.relation_relations.extend_from(&ids_of_type(&d.members, MemberType::Relation));
            }
            i = i + 1;
        }
        out
    }

    /// Take in what another block's scan found.
    pub fn merge(&mut self, other: FilteredRelations)
        ensures
            final(self).scan() == merged_scan(old(self).scan(), other.scan()),
    {
        self.relations.extend(other.relations);
        self.relation_ways.extend(other.relation_ways);
        self.relation_relations.extend(other.relation_relations);
    }

    /// Second scan of a block: the ways of the relations that relations point to.
    pub fn rescan_block(block: &PrimitiveBlock, relation_relations: &IdSet) -> (r: IdLists)
        ensures
            r@ == relation_rescan(
                block_relations(*block),
                relation_relations@,
                block_relations(*block).len(),
            ),
    {
        let relations: Vec<&Relation> = list_relations(block);
        let ghost rs = block_relations(*block);
        let mut out = IdLists::new();
        let mut i: usize = 0;
        while i < relations.len()
            invariant
                i <= relations@.len(),
                rs == block_relations(*block),
                relations@.len() == rs.len(),
                forall|k: int| 0 <= k < relations@.len() ==> *(#[trigger] relations@[k]) == rs[k],
                out@ == relation_rescan(rs, relation_relations@, i as nat),
            decreases relations@.len() - i,
        {
            if relation_relations.contains(relations[i].id) {
                out.append(relations[i].id, &member_ways_of(relations[i]));
            }
            i = i + 1;
        }
        out
    }

    /// Take in what a second scan found: the ways of relations of relations are ways
    /// pointed to by relations.
    pub fn add_sub_relation(&mut self, relation: i64, ways: Vec<i64>)
        ensures
            final(self).scan() == (RelationScan {
                ways: old(self).scan().ways.union(ways@.to_set()),
                sub_ways: old(self).scan().sub_ways.insert(relation, ways@),
                ..old(self).scan()
            }),
    {
        self.relation_ways.extend_from(&ways);
        self.relation_relation_ways.insert(relation, ways);
    }
}

/// Scanning relations in two parts and merging gives what scanning them all does.
pub proof fn scan_in_parts(
    a: Seq<Relation>,
    b: Seq<Relation>,
    filter: Seq<Vec<(String, Vec<String>)>>,
    ids: Map<Seq<u8>, u32>,
)
    ensures
        relation_scan(a + b, filter, ids, (a + b).len()) == merged_scan(
            relation_scan(a, filter, ids, a.len()),
            relation_scan(b, filter, ids, b.len()),
        ),
{
    lemma_scan_front(a, b, filter, ids, a.len());
    lemma_scan_back(a, b, filter, ids, b.len());
}

proof fn lemma_scan_front(
    a: Seq<Relation>,
    b: Seq<Relation>,
    filter: Seq<Vec<(String, Vec<String>)>>,
    ids: Map<Seq<u8>, u32>,
    n: nat,
)
    requires
        n <= a.len(),
    ensures
        relation_scan(a + b, filter, ids, n) == relation_scan(a, filter, ids, n),
    decreases n,
{
    if n > 0 {
        lemma_scan_front(a, b, filter, ids, (n - 1) as nat);
        assert((a + b)[n - 1] == a[n - 1]);
    }
}

proof fn lemma_scan_back(
    a: Seq<Relation>,
    b: Seq<Relation>,
    filter: Seq<Vec<(String, Vec<String>)>>,
    ids: Map<Seq<u8>, u32>,
    n: nat,
)
    requires
        n <= b.len(),
        relation_scan(a + b, filter, ids, a.len()) == relation_scan(a, filter, ids, a.len()),
    ensures
        relation_scan(a + b, filter, ids, a.len() + n) == merged_scan(
            relation_scan(a, filter, ids, a.len()),
            relation_scan(b, filter, ids, n),
        ),
    decreases n,
{
    let front = relation_scan(a, filter, ids, a.len());
    if n > 0 {
        lemma_scan_back(a, b, filter, ids, (n - 1) as nat);
        assert((a + b)[a.len() + n - 1] == b[n - 1]);
        assert(relation_scan(a + b, filter, ids, a.len() + n) =~= merged_scan(
            front,
            relation_scan(b, filter, ids, n),
        ));
    } else {
        assert(merged_scan(front, empty_scan()) =~= front);
    }
}

/// A way is collected exactly if an accepted relation has it as a member.
pub proof fn scan_collects_members(
    rs: Seq<Relation>,
    filter: Seq<Vec<(String, Vec<String>)>>,
    ids: Map<Seq<u8>, u32>,
    way: i64,
)
    ensures
        relation_scan(rs, filter, ids, rs.len()).ways.contains(way) <==> exists|i: int|
            0 <= i < rs.len() && filter_accepts(filter, ids, (#[trigger] rs[i]).tag_list())
                && members_of(rs[i], MemberType::Way).contains(way),
{
    lemma_scan_ways(rs, filter, ids, way, rs.len());
}

proof fn lemma_scan_ways(
    rs: Seq<Relation>,
    filter: Seq<Vec<(String, Vec<String>)>>,
    ids: Map<Seq<u8>, u32>,
    way: i64,
    n: nat,
)
    requires
        n <= rs.len(),
    ensures
        relation_scan(rs, filter, ids, n).ways.contains(way) <==> exists|i: int|
            0 <= i < n && filter_accepts(filter, ids, (#[trigger] rs[i]).tag_list()) && members_of(
                rs[i],
                MemberType::Way,
            ).contains(way),
    decreases n,
{
    if n > 0 {
        lemma_scan_ways(rs, filter, ids, way, (n - 1) as nat);
    }
}

// ---- ways ----

/// A way kept by the filter/classifier, carrying its node refs (and layer) until its
/// block's coords are resolved.
pub enum KeptWay {
    Road { kind: RoadKind, layer: i8, lanes: Lanes, refs: Vec<i64>, name: Option<String> },
    Area {
        kind: AreaKind,
        layer: i8,
        floors: u8,
        refs: Vec<i64>,
        name: Option<String>,
    },
}

pub enum KeptView {
    Road {
        kind: RoadKind,
        layer: i8,
        lanes: Lanes,
        refs: Seq<i64>,
        name: Option<Seq<char>>,
    },
    Area {
        kind: AreaKind,
        layer: i8,
        floors: u8,
        refs: Seq<i64>,
        name: Option<Seq<char>>,
    },
}

impl View for KeptWay {
    type V = KeptView;

    open spec fn view(&self) -> KeptView {
        match *self {
            KeptWay::Road { kind, layer, lanes, refs, name } => KeptView::Road {
                kind,
                layer,
                lanes,
                refs: refs@,
                name: name_view(name),
            },
            KeptWay::Area { kind, layer, floors, refs, name } => KeptView::Area {
                kind,
                layer,
                floors,
                refs: refs@,
                name: name_view(name),
            },
        }
    }
}

pub open spec fn kept_view(s: Seq<KeptWay>) -> Seq<KeptView> {
    Seq::new(s.len(), |i: int| s[i]@)
}

pub open spec fn kept_refs(k: KeptView) -> Seq<i64> {
    match k {
        KeptView::Road { refs, .. } => refs,
        KeptView::Area { refs, .. } => refs,
    }
}

/// What is kept of a way that the filter accepts: a road of two or more nodes, an area
/// whose way is a ring.
#[verifier::opaque]
pub open spec fn kept_way(
    w: Way,
    c: BlockShapeClassifier,
    strings: Seq<Vec<u8>>,
) -> Option<KeptView> {
    let tags = w.tag_list();
    let refs = w.node_refs();
    let layer = layer_from(c, tags, strings);
    let name = name_in(c, tags, strings);
    match way_class(c, tags, 0) {
        ShapeClassification::Road(kind) => if refs.len() >= 2 {
            Some(
                KeptView::Road {
                    kind,
                    layer,
                    lanes: split(lane_tags(tags, strings, tags.len())),
                    refs,
                    name,
                },
            )
        } else {
            None
        },
        ShapeClassification::Area(kind) => if ring_refs(refs) {
            Some(
                KeptView::Area { kind, layer, floors: floors_from(tags, strings), refs, name },
            )
        } else {
            None
        },
        ShapeClassification::Unknown => None,
    }
}

/// What is kept of the first `n` ways.
pub open spec fn kept_ways(
    ws: Seq<Way>,
    filter: Seq<Vec<(String, Vec<String>)>>,
    ids: Map<Seq<u8>, u32>,
    strings: Seq<Vec<u8>>,
    n: nat,
) -> Seq<KeptView>
    decreases n,
{
    if n == 0 {
        Seq::empty()
    } else {
        let front = kept_ways(ws, filter, ids, strings, (n - 1) as nat);
        let w = ws[n - 1];
        if filter_accepts(filter, ids, w.tag_list()) {
            match kept_way(w, classifier_for(ids), strings) {
                Some(k) => front.push(k),
                None => front,
            }
        } else {
            front
        }
    }
}

/// The node refs of the first `n` kept ways.
pub open spec fn all_refs(ks: Seq<KeptView>, n: nat) -> Seq<i64>
    decreases n,
{
    if n == 0 {
        Seq::empty()
    } else {
        all_refs(ks, (n - 1) as nat) + kept_refs(ks[n - 1])
    }
}

fn keep_way(
    d: DecodedWay,
    classifier: &BlockShapeClassifier,
    strings: &Vec<Vec<u8>>,
    Ghost(w): Ghost<Way>,
) -> (r: Option<KeptWay>)
    requires
        d.refs@ == w.node_refs(),
        d.tags@ == w.tag_list(),
    ensures
        match r {
            Some(k) => kept_way(w, *classifier, strings@) == Some(k@),
            None => kept_way(w, *classifier, strings@) is None,
        },
{
    reveal(kept_way);
    let layer: i8 = classifier.layer_of(&d.tags, strings);
    let name: Option<String> = classifier.name_of(&d.tags, strings);
    match classifier.classify_way(&d.tags) {
        ShapeClassification::Road(kind) => {
            if d.refs.len() >= 2 {
                let lanes: Lanes = classifier.lanes_of(&d.tags, strings);
                Some(KeptWay::Road { kind, layer, lanes, refs: d.refs, name })
            } else {
                None
            }
        },
        ShapeClassification::Area(kind) => {
            if is_ring(&d.refs) {
                let floors: u8 = classifier.floors_of(&d.tags, strings);
                Some(KeptWay::Area { kind, layer, floors, refs: d.refs, name })
            } else {
                None
            }
        },
        ShapeClassification::Unknown => None,
    }
}

fn append_ids(out: &mut Vec<i64>, more: &Vec<i64>)
    ensures
        final(out)@ == old(out)@ + more@,
{
    let mut i: usize = 0;
    assert(out@ =~= out@ + more@.take(0));
    while i < more.len()
        invariant
            i <= more@.len(),
            out@ == old(out)@ + more@.take(i as int),
        decreases more@.len() - i,
    {
        out.push(more[i]);
        i = i + 1;
        assert(more@.take(i as int) =~= more@.take(i - 1).push(more@[i - 1]));
    }
    assert(more@.take(i as int) =~= more@);
}

/// The kept ways of a block and every node that they need, each once in ascending order:
/// resolving nodes in this order makes for near-sequential store access.
pub fn extract_ways(block: &PrimitiveBlock, way_tag_filter: &TagFilter) -> (r: (
    Vec<KeptWay>,
    Vec<i64>,
))
    ensures
        kept_view(r.0@) == kept_ways(
            block_ways(*block),
            way_tag_filter.0@,
            block_ids(*block),
            block.strings@,
            block_ways(*block).len(),
        ),
        sorted_distinct(r.1@, all_refs(kept_view(r.0@), r.0@.len())),
{
    let string_map = StringMap::of_table(&block.strings);
    let classifier = BlockShapeClassifier::new(&string_map);
    let filter: SidTagFilter = way_tag_filter.get_sid_filter(&string_map);
    let ways: Vec<&Way> = list_ways(block);
    let ghost ws = block_ways(*block);
    let ghost ids = block_ids(*block);
    let mut kept: Vec<KeptWay> = Vec::new();
    let mut refs: Vec<i64> = Vec::new();
    let mut i: usize = 0;
    assert(kept_view(kept@) =~= kept_ways(ws, way_tag_filter.0@, ids, block.strings@, 0));
    assert(refs@ =~= all_refs(kept_view(kept@), 0));
    while i < ways.len()
        invariant
            i <= ways@.len(),
            ws == block_ways(*block),
            ids == block_ids(*block),
            ways@.len() == ws.len(),
            forall|k: int| 0 <= k < ways@.len() ==> *(#[trigger] ways@[k]) == ws[k],
            classifier == classifier_for(ids),
            forall|tags: Seq<Tag>| #[trigger]
                filter.accepts(tags) == filter_accepts(way_tag_filter.0@, ids, tags),
            kept_view(kept@) == kept_ways(ws, way_tag_filter.0@, ids, block.strings@, i as nat),
            refs@ == all_refs(kept_view(kept@), kept@.len()),
        decreases ways@.len() - i,
    {
        let d: DecodedWay = ways[i].decode();
        if filter.matches(&d.tags) {
            if let Some(k) = keep_way(d, &classifier, &block.strings, Ghost(ws[i as int])) {
                let ghost before = kept_view(kept@);
                match &k {
                    KeptWay::Road { refs: r, .. } => append_ids(&mut refs, r),
                    KeptWay::Area { refs: r, .. } => append_ids(&mut refs, r),
                }
                let ghost view = k@;
                kept.push(k);
                proof {
                    assert(kept_view(kept@) =~= before.push(view));
                    lemma_refs_prefix(before, view, before.len());
                }
            }
        }
        i = i + 1;
    }
    let unique: Vec<i64> = sorted_unique(&refs);
    (kept, unique)
}

proof fn lemma_refs_prefix(ks: Seq<KeptView>, k: KeptView, n: nat)
    requires
        n <= ks.len(),
    ensures
        all_refs(ks.push(k), n) == all_refs(ks, n),
    decreases n,
{
    if n > 0 {
        lemma_refs_prefix(ks, k, (n - 1) as nat);
    }
}

// ---- connectivity ----

/// The way is a road that the filter accepts.
#[verifier::opaque]
pub open spec fn is_road_way(
    w: Way,
    filter: Seq<Vec<(String, Vec<String>)>>,
    ids: Map<Seq<u8>, u32>,
) -> bool {
    filter_accepts(filter, ids, w.tag_list()) && way_class(
        classifier_for(ids),
        w.tag_list(),
        0,
    ) is Road
}

/// The node refs of the roads among the first `n` ways.
pub open spec fn road_refs(
    ws: Seq<Way>,
    filter: Seq<Vec<(String, Vec<String>)>>,
    ids: Map<Seq<u8>, u32>,
    n: nat,
) -> Seq<i64>
    decreases n,
{
    if n == 0 {
        Seq::empty()
    } else {
        let front = road_refs(ws, filter, ids, (n - 1) as nat);
        if is_road_way(ws[n - 1], filter, ids) {
            front + ws[n - 1].node_refs()
        } else {
            front
        }
    }
}

/// The node refs of the roads of a block.
pub open spec fn block_road_refs(b: PrimitiveBlock, filter: Seq<Vec<(String, Vec<String>)>>) -> Seq<
    i64,
> {
    road_refs(block_ways(b), filter, block_ids(b), block_ways(b).len())
}

/// How often an id occurs.
pub open spec fn occurrences(s: Seq<i64>, x: i64) -> nat
    decreases s.len(),
{
    if s.len() == 0 {
        0
    } else {
        occurrences(s.drop_last(), x) + if s.last() == x {
            1nat
        } else {
            0nat
        }
    }
}

pub open spec fn ids_within(s: Seq<i64>, capacity: u64) -> bool {
    forall|i: int| 0 <= i < s.len() ==> 0 <= #[trigger] s[i] < capacity
}

/// Whether tags make a road that the filter accepts.
fn is_road(tags: &Vec<Tag>, filter: &SidTagFilter, classifier: &BlockShapeClassifier) -> (r: bool)
    ensures
        r == (filter.accepts(tags@) && way_class(*classifier, tags@, 0) is Road),
{
    filter.matches(tags) && match classifier.classify_way(tags) {
        ShapeClassification::Road(_) => true,
        _ => false,
    }
}

proof fn lemma_road_way(
    w: Way,
    sids: SidTagFilter,
    filter: Seq<Vec<(String, Vec<String>)>>,
    ids: Map<Seq<u8>, u32>,
)
    requires
        sids.accepts(w.tag_list()) == filter_accepts(filter, ids, w.tag_list()),
    ensures
        is_road_way(w, filter, ids) == (sids.accepts(w.tag_list()) && way_class(
            classifier_for(ids),
            w.tag_list(),
            0,
        ) is Road),
{
    reveal(is_road_way);
}

/// The node refs of the roads of a block, in order.
pub fn list_road_refs(block: &PrimitiveBlock, way_tag_filter: &TagFilter) -> (r: Vec<i64>)
    ensures
        r@ == block_road_refs(*block, way_tag_filter.0@),
{
    let string_map = StringMap::of_table(&block.strings);
    let classifier = BlockShapeClassifier::new(&string_map);
    let filter: SidTagFilter = way_tag_filter.get_sid_filter(&string_map);
    let ways: Vec<&Way> = list_ways(block);
    let ghost ws = block_ways(*block);
    let ghost ids = block_ids(*block);
    let mut refs: Vec<i64> = Vec::new();
    let mut i: usize = 0;
    assert(refs@ =~= road_refs(ws, way_tag_filter.0@, ids, 0));
    while i < ways.len()
        invariant
            i <= ways@.len(),
            ws == block_ways(*block),
            ids == block_ids(*block),
            ways@.len() == ws.len(),
            forall|k: int| 0 <= k < ways@.len() ==> *(#[trigger] ways@[k]) == ws[k],
            classifier == classifier_for(ids),
            forall|tags: Seq<Tag>| #[trigger]
                filter.accepts(tags) == filter_accepts(way_tag_filter.0@, ids, tags),
            refs@ == road_refs(ws, way_tag_filter.0@, ids, i as nat),
        decreases ways@.len() - i,
    {
        let d: DecodedWay = ways[i].decode();
        if is_road(&d.tags, &filter, &classifier) {
            append_ids(&mut refs, &d.refs);
        }
        proof {
            lemma_road_way(ws[i as int], filter, way_tag_filter.0@, ids);
        }
        i = i + 1;
    }
    refs
}

/// Which nodes were referenced by roads once, and which twice or more.
pub struct RoadTracker {
    seen: BitSet,
    shared: BitSet,
}

impl RoadTracker {
    pub closed spec fn seen(&self) -> BitSet {
        self.seen
    }

    pub closed spec fn shared(&self) -> BitSet {
        self.shared
    }

    pub open spec fn wf(&self) -> bool {
        &&& self.seen().wf()
        &&& self.shared().wf()
        &&& self.seen().spec_capacity() == self.shared().spec_capacity()
    }

    pub fn new(capacity: u64) -> (r: Self)
        requires
            (capacity + 63) / 64 <= usize::MAX,
        ensures
            r.wf(),
            r.seen().spec_capacity() == capacity,
            forall|id: u64| !#[trigger] r.seen().has(id),
            forall|id: u64| !#[trigger] r.shared().has(id),
    {
        RoadTracker { seen: BitSet::with_capacity(capacity), shared: BitSet::with_capacity(capacity) }
    }

    /// Take in road node refs: a node seen a second time (by any road) is a junction.
    pub fn note(&mut self, refs: &Vec<i64>)
        requires
            old(self).wf(),
            ids_within(refs@, old(self).seen().spec_capacity()),
        ensures
            final(self).wf(),
            final(self).seen().spec_capacity() == old(self).seen().spec_capacity(),
            forall|id: u64| #[trigger]
                final(self).seen().has(id) == (old(self).seen().has(id) || (id <= i64::MAX
                    && occurrences(refs@, id as i64) >= 1)),
            forall|id: u64| #[trigger]
                final(self).shared().has(id) == (old(self).shared().has(id) || (id <= i64::MAX && (
                occurrences(refs@, id as i64) >= 2 || (old(self).seen().has(id) && occurrences(
                    refs@,
                    id as i64,
                ) >= 1)))),
    {
        let mut i: usize = 0;
        let ghost s = refs@;
        assert(s.take(0) =~= Seq::empty());
        while i < refs.len()
            invariant
                i <= refs@.len(),
                s == refs@,
                self.wf(),
                self.seen().spec_capacity() == old(self).seen().spec_capacity(),
                ids_within(s, self.seen().spec_capacity()),
                forall|id: u64| #[trigger]
                    self.seen().has(id) == (old(self).seen().has(id) || (id <= i64::MAX
                        && occurrences(s.take(i as int), id as i64) >= 1)),
                forall|id: u64| #[trigger]
                    self.shared().has(id) == (old(self).shared().has(id) || (id <= i64::MAX && (
                    occurrences(s.take(i as int), id as i64) >= 2 || (old(self).seen().has(id)
                        && occurrences(s.take(i as int), id as i64) >= 1)))),
            decreases refs@.len() - i,
        {
            assert(0 <= s[i as int] < self.seen().spec_capacity());
            let id: u64 = refs[i] as u64;
            let ghost before = *self;
            if self.seen.test_and_set(id) {
                self.shared.set(id);
            }
            i = i + 1;
            proof {
                let done = s.take(i as int);
                assert(done.drop_last() =~= s.take(i - 1));
                assert(done.last() == s[i - 1]);
                assert forall|k: u64| #[trigger] self.seen().has(k) == (old(self).seen().has(k) || (k
                    <= i64::MAX && occurrences(done, k as i64) >= 1)) by {
                    assert(self.seen.has(k) == (k == id || before.seen.has(k)));
                    assert(before.seen().has(k) == before.seen.has(k));
                }
                assert forall|k: u64| #[trigger] self.shared().has(k) == (old(self).shared().has(k)
                    || (k <= i64::MAX && (occurrences(done, k as i64) >= 2 || (old(self).seen().has(
                    k,
                ) && occurrences(done, k as i64) >= 1)))) by {
                    assert(before.seen().has(id) == before.seen.has(id));
                    assert(before.shared().has(k) == before.shared.has(k));
                    if k != id {
                        assert(occurrences(done, k as i64) == occurrences(
                            s.take(i - 1),
                            k as i64,
                        ) || k > i64::MAX);
                    }
                }
            }
        }
        assert(s.take(i as int) =~= s);
    }

    /// Keep only the junctions.
    pub fn into_connectivity(self) -> (r: RoadConnectivity)
        requires
            self.wf(),
        ensures
            r.junctions() == self.shared(),
    {
        RoadConnectivity { shared: self.shared }
    }
}

/// Which nodes are shared between two or more roads (junctions).
///
/// A road endpoint is `Connected` iff its node is a junction, else a true dead-end.
/// Backed by a node-id bitset, so cost is fixed by max node id.
pub struct RoadConnectivity {
    shared: BitSet,
}

impl RoadConnectivity {
    pub closed spec fn junctions(&self) -> BitSet {
        self.shared
    }

    /// Classify a road endpoint from its node id.
    pub fn edge(&self, node_id: i64) -> (r: EdgeNode)
        requires
            self.junctions().wf(),
        ensures
            r == if node_id >= 0 && self.junctions().has(node_id as u64) {
                EdgeNode::Connected
            } else {
                EdgeNode::Disconnected
            },
    {
        if node_id >= 0 && self.shared.contains(node_id as u64) {
            EdgeNode::Connected
        } else {
            EdgeNode::Disconnected
        }
    }

    /// Number of junction nodes: diagnostics only.
    pub fn junction_count(&self) -> (r: u64)
        requires
            self.junctions().wf(),
        ensures
            r == crate::bitset::count_below(
                self.junctions().words(),
                self.junctions().spec_capacity() as nat,
            ),
    {
        self.shared.count_ones()
    }
}

// ---- the nodes that are needed ----

/// The way's nodes are needed: a relation points to it, or the filter accepts it and the
/// classifier will emit it.
#[verifier::opaque]
pub open spec fn is_needed(
    w: Way,
    filter: Seq<Vec<(String, Vec<String>)>>,
    ids: Map<Seq<u8>, u32>,
    relation_ways: Set<i64>,
) -> bool {
    relation_ways.contains(w.id) || (filter_accepts(filter, ids, w.tag_list()) && way_class(
        classifier_for(ids),
        w.tag_list(),
        0,
    ) != ShapeClassification::Unknown)
}

/// The node refs of the needed ways among the first `n`.
pub open spec fn needed_refs(
    ws: Seq<Way>,
    filter: Seq<Vec<(String, Vec<String>)>>,
    ids: Map<Seq<u8>, u32>,
    relation_ways: Set<i64>,
    n: nat,
) -> Seq<i64>
    decreases n,
{
    if n == 0 {
        Seq::empty()
    } else {
        let front = needed_refs(ws, filter, ids, relation_ways, (n - 1) as nat);
        if is_needed(ws[n - 1], filter, ids, relation_ways) {
            front + ws[n - 1].node_refs()
        } else {
            front
        }
    }
}

proof fn lemma_kept_is_needed(
    w: Way,
    filter: Seq<Vec<(String, Vec<String>)>>,
    ids: Map<Seq<u8>, u32>,
    strings: Seq<Vec<u8>>,
    relation_ways: Set<i64>,
)
    requires
        filter_accepts(filter, ids, w.tag_list()),
        kept_way(w, classifier_for(ids), strings) is Some,
    ensures
        kept_refs(kept_way(w, classifier_for(ids), strings)->0) == w.node_refs(),
        is_needed(w, filter, ids, relation_ways),
{
    reveal(kept_way);
    reveal(is_needed);
}

/// Every node of a kept way is needed, so that its location is at hand when the way's
/// geometry is built.
pub proof fn needed_covers_kept(
    ws: Seq<Way>,
    filter: Seq<Vec<(String, Vec<String>)>>,
    ids: Map<Seq<u8>, u32>,
    strings: Seq<Vec<u8>>,
    relation_ways: Set<i64>,
    n: nat,
    k: int,
    node: i64,
)
    requires
        n <= ws.len(),
        0 <= k < kept_ways(ws, filter, ids, strings, n).len(),
        kept_refs(kept_ways(ws, filter, ids, strings, n)[k]).contains(node),
    ensures
        needed_refs(ws, filter, ids, relation_ways, n).contains(node),
    decreases n,
{
    if n > 0 {
        let m = (n - 1) as nat;
        let front = kept_ways(ws, filter, ids, strings, m);
        let w = ws[n - 1];
        if k < front.len() {
            needed_covers_kept(ws, filter, ids, strings, relation_ways, m, k, node);
        } else {
            lemma_kept_is_needed(w, filter, ids, strings, relation_ways);
        }
        lemma_needed_grows(ws, filter, ids, relation_ways, n, node);
    }
}

/// Every node of a way that a kept relation points to is needed.
pub proof fn needed_covers_members(
    ws: Seq<Way>,
    filter: Seq<Vec<(String, Vec<String>)>>,
    ids: Map<Seq<u8>, u32>,
    relation_ways: Set<i64>,
    n: nat,
    id: i64,
    node: i64,
)
    requires
        n <= ws.len(),
        wanted_ways(ws, relation_ways, n).contains_key(id),
        wanted_ways(ws, relation_ways, n)[id].contains(node),
    ensures
        needed_refs(ws, filter, ids, relation_ways, n).contains(node),
    decreases n,
{
    if n > 0 {
        let m = (n - 1) as nat;
        let w = ws[n - 1];
        if !(relation_ways.contains(w.id) && w.id == id) {
            needed_covers_members(ws, filter, ids, relation_ways, m, id, node);
        } else {
            assert(is_needed(w, filter, ids, relation_ways)) by {
                reveal(is_needed);
            }
        }
        lemma_needed_grows(ws, filter, ids, relation_ways, n, node);
    }
}

proof fn lemma_needed_grows(
    ws: Seq<Way>,
    filter: Seq<Vec<(String, Vec<String>)>>,
    ids: Map<Seq<u8>, u32>,
    relation_ways: Set<i64>,
    n: nat,
    node: i64,
)
    requires
        0 < n <= ws.len(),
    ensures
        needed_refs(ws, filter, ids, relation_ways, (n - 1) as nat).contains(node) ==> needed_refs(
            ws,
            filter,
            ids,
            relation_ways,
            n,
        ).contains(node),
        is_needed(ws[n - 1], filter, ids, relation_ways) && ws[n - 1].node_refs().contains(node)
            ==> needed_refs(ws, filter, ids, relation_ways, n).contains(node),
{
    let front = needed_refs(ws, filter, ids, relation_ways, (n - 1) as nat);
    let all = needed_refs(ws, filter, ids, relation_ways, n);
    let own = ws[n - 1].node_refs();
    if front.contains(node) {
        let k = choose|k: int| 0 <= k < front.len() && front[k] == node;
        assert(all[k] == node);
    }
    if is_needed(ws[n - 1], filter, ids, relation_ways) && own.contains(node) {
        let k = choose|k: int| 0 <= k < own.len() && own[k] == node;
        assert(all[front.len() + k] == node);
    }
}

/// Whether tags make something that the filter accepts and the classifier emits.
fn is_shown(tags: &Vec<Tag>, filter: &SidTagFilter, classifier: &BlockShapeClassifier) -> (r: bool)
    ensures
        r == (filter.accepts(tags@) && way_class(*classifier, tags@, 0)
            != ShapeClassification::Unknown),
{
    filter.matches(tags) && match classifier.classify_way(tags) {
        ShapeClassification::Unknown => false,
        _ => true,
    }
}

proof fn lemma_needed_way(
    w: Way,
    sids: SidTagFilter,
    filter: Seq<Vec<(String, Vec<String>)>>,
    ids: Map<Seq<u8>, u32>,
    relation_ways: Set<i64>,
)
    requires
        sids.accepts(w.tag_list()) == filter_accepts(filter, ids, w.tag_list()),
    ensures
        is_needed(w, filter, ids, relation_ways) == (relation_ways.contains(w.id) || (sids.accepts(
            w.tag_list(),
        ) && way_class(classifier_for(ids), w.tag_list(), 0) != ShapeClassification::Unknown)),
{
    reveal(is_needed);
}

/// The nodes that extraction needs of a block's ways. Using the classifier here, not just
/// the filter, keeps nodes of ways that are never emitted out.
pub fn list_needed_refs(block: &PrimitiveBlock, way_tag_filter: &TagFilter, relation_ways: &IdSet) -> (r:
    Vec<i64>)
    ensures
        r@ == needed_refs(
            block_ways(*block),
            way_tag_filter.0@,
            block_ids(*block),
            relation_ways@,
            block_ways(*block).len(),
        ),
{
    let string_map = StringMap::of_table(&block.strings);
    let classifier = BlockShapeClassifier::new(&string_map);
    let filter: SidTagFilter = way_tag_filter.get_sid_filter(&string_map);
    let ways: Vec<&Way> = list_ways(block);
    let ghost ws = block_ways(*block);
    let ghost ids = block_ids(*block);
    let mut refs: Vec<i64> = Vec::new();
    let mut i: usize = 0;
    assert(refs@ =~= needed_refs(ws, way_tag_filter.0@, ids, relation_ways@, 0));
    while i < ways.len()
        invariant
            i <= ways@.len(),
            ws == block_ways(*block),
            ids == block_ids(*block),
            ways@.len() == ws.len(),
            forall|k: int| 0 <= k < ways@.len() ==> *(#[trigger] ways@[k]) == ws[k],
            classifier == classifier_for(ids),
            forall|tags: Seq<Tag>| #[trigger]
                filter.accepts(tags) == filter_accepts(way_tag_filter.0@, ids, tags),
            refs@ == needed_refs(ws, way_tag_filter.0@, ids, relation_ways@, i as nat),
        decreases ways@.len() - i,
    {
        let d: DecodedWay = ways[i].decode();
        // A relation member (any tags), or a way the classifier will actually emit: the
        // coarse filter is just a fast reject.
        if relation_ways.contains(d.id) || is_shown(&d.tags, &filter, &classifier) {
            append_ids(&mut refs, &d.refs);
        }
        proof {
            lemma_needed_way(ws[i as int], filter, way_tag_filter.0@, ids, relation_ways@);
        }
        i = i + 1;
    }
    refs
}

/// Mark node ids in a bitset.
pub fn mark_ids(bits: &mut BitSet, ids: &Vec<i64>)
    requires
        old(bits).wf(),
        ids_within(ids@, old(bits).spec_capacity()),
    ensures
        final(bits).wf(),
        final(bits).spec_capacity() == old(bits).spec_capacity(),
        forall|id: u64| #[trigger]
            final(bits).has(id) == (old(bits).has(id) || (id <= i64::MAX && ids@.contains(
                id as i64,
            ))),
{
    let mut i: usize = 0;
    let ghost s = ids@;
    while i < ids.len()
        invariant
            i <= ids@.len(),
            s == ids@,
            bits.wf(),
            bits.spec_capacity() == old(bits).spec_capacity(),
            ids_within(s, bits.spec_capacity()),
            forall|id: u64| #[trigger]
                bits.has(id) == (old(bits).has(id) || (id <= i64::MAX && exists|k: int|
                    0 <= k < i && #[trigger] s[k] == id as i64)),
        decreases ids@.len() - i,
    {
        assert(0 <= s[i as int] < bits.spec_capacity());
        let ghost before = *bits;
        bits.set(ids[i] as u64);
        i = i + 1;
        proof {
            assert forall|id: u64| #[trigger] bits.has(id) == (old(bits).has(id) || (id <= i64::MAX
                && exists|k: int| 0 <= k < i && #[trigger] s[k] == id as i64)) by {
                assert(bits.has(id) == (id == s[i - 1] as u64 || before.has(id)));
                if id == s[i - 1] as u64 {
                    assert(s[i - 1] == id as i64);
                }
                if exists|k: int| 0 <= k < i && #[trigger] s[k] == id as i64 {
                    let k = choose|k: int| 0 <= k < i && #[trigger] s[k] == id as i64;
                    if k < i - 1 && id <= i64::MAX {
                        assert(s[k] == id as i64);
                        assert(before.has(id));
                    }
                }
            }
        }
    }
    proof {
        assert forall|id: u64| #[trigger] bits.has(id) == (old(bits).has(id) || (id <= i64::MAX
            && ids@.contains(id as i64))) by {
            if id <= i64::MAX && ids@.contains(id as i64) {
                let k = choose|k: int| 0 <= k < s.len() && s[k] == id as i64;
                assert(s[k] == id as i64);
            }
        }
    }
}

/// Whether all ids lie in `0..capacity`.
pub fn all_within(ids: &Vec<i64>, capacity: u64) -> (r: bool)
    ensures
        r == ids_within(ids@, capacity),
{
    let mut i: usize = 0;
    while i < ids.len()
        invariant
            i <= ids@.len(),
            forall|k: int| 0 <= k < i ==> 0 <= #[trigger] ids@[k] < capacity,
        decreases ids@.len() - i,
    {
        if ids[i] < 0 || ids[i] as u64 >= capacity {
            assert(!(0 <= ids@[i as int] < capacity));
            return false;
        }
        i = i + 1;
    }
    true
}

// ---- member ways and areas of relations ----

/// The refs of the wanted ways among the first `n`, by way id.
pub open spec fn wanted_ways(ws: Seq<Way>, wanted: Set<i64>, n: nat) -> Map<i64, Seq<i64>>
    decreases n,
{
    if n == 0 {
        Map::empty()
    } else {
        let m = wanted_ways(ws, wanted, (n - 1) as nat);
        let w = ws[n - 1];
        if wanted.contains(w.id) {
            m.insert(w.id, w.node_refs())
        } else {
            m
        }
    }
}

/// Collect the node refs of every way of a block that a filtered relation references,
/// keyed by way id. Refs (not coords) are kept so multipolygon rings can be stitched by
/// exact node-id equality.
pub fn collect_relation_member_ways(block: &PrimitiveBlock, relation_ways: &IdSet) -> (r: IdLists)
    ensures
        r@ == wanted_ways(block_ways(*block), relation_ways@, block_ways(*block).len()),
{
    let ways: Vec<&Way> = list_ways(block);
    let ghost ws = block_ways(*block);
    let mut out = IdLists::new();
    let mut i: usize = 0;
    while i < ways.len()
        invariant
            i <= ways@.len(),
            ws == block_ways(*block),
            ways@.len() == ws.len(),
            forall|k: int| 0 <= k < ways@.len() ==> *(#[trigger] ways@[k]) == ws[k],
            out@ == wanted_ways(ws, relation_ways@, i as nat),
        decreases ways@.len() - i,
    {
        if relation_ways.contains(ways[i].id) {
            let d: DecodedWay = ways[i].decode();
            out.insert(d.id, d.refs);
        }
        i = i + 1;
    }
    out
}

/// The refs of the member ways among the first `n` members with (`inner`) or without the
/// inner role.
pub open spec fn role_fragments(
    ms: Seq<RelationMember>,
    ways: Map<i64, Seq<i64>>,
    inner_sid: Option<u32>,
    inner: bool,
    n: nat,
) -> Seq<Seq<i64>>
    decreases n,
{
    if n == 0 {
        Seq::empty()
    } else {
        let front = role_fragments(ms, ways, inner_sid, inner, (n - 1) as nat);
        let m = ms[n - 1];
        if m.member_type == MemberType::Way && ways.contains_key(m.id) && (inner_sid == Some(
            m.role_tag,
        )) == inner {
            front.push(ways[m.id])
        } else {
            front
        }
    }
}

/// The areas of a relation: its rings by role. A member whose role is not `inner` is
/// treated as outer.
pub struct RelationArea {
    pub kind: AreaKind,
    pub layer: i8,
    pub floors: u8,
    pub name: Option<String>,
    pub outer: Vec<Vec<i64>>,
    pub inner: Vec<Vec<i64>>,
}

pub struct RelationAreaView {
    pub kind: AreaKind,
    pub layer: i8,
    pub floors: u8,
    pub name: Option<Seq<char>>,
    pub outer: Seq<Seq<i64>>,
    pub inner: Seq<Seq<i64>>,
}

impl View for RelationArea {
    type V = RelationAreaView;

    open spec fn view(&self) -> RelationAreaView {
        RelationAreaView {
            kind: self.kind,
            layer: self.layer,
            floors: self.floors,
            name: name_view(self.name),
            outer: lists_view(self.outer@),
            inner: lists_view(self.inner@),
        }
    }
}

pub open spec fn relation_areas_view(s: Seq<RelationArea>) -> Seq<RelationAreaView> {
    Seq::new(s.len(), |i: int| s[i]@)
}

/// What a relation that the filter accepts becomes: an area with at least one outer ring.
#[verifier::opaque]
pub open spec fn relation_area(
    r: Relation,
    c: BlockShapeClassifier,
    strings: Seq<Vec<u8>>,
    ways: Map<i64, Seq<i64>>,
    inner_sid: Option<u32>,
) -> Option<RelationAreaView> {
    let tags = r.tag_list();
    let ms = r.member_list();
    let outer = rings_of(role_fragments(ms, ways, inner_sid, false, ms.len()));
    match relation_class(c, tags, 0) {
        ShapeClassification::Area(kind) => if outer.len() > 0 {
            Some(
                RelationAreaView {
                    kind,
                    layer: layer_from(c, tags, strings),
                    floors: floors_from(tags, strings),
                    name: name_in(c, tags, strings),
                    outer,
                    inner: rings_of(role_fragments(ms, ways, inner_sid, true, ms.len())),
                },
            )
        } else {
            None
        },
        _ => None,
    }
}

/// What the first `n` relations become.
pub open spec fn relation_areas(
    rs: Seq<Relation>,
    filter: Seq<Vec<(String, Vec<String>)>>,
    ids: Map<Seq<u8>, u32>,
    strings: Seq<Vec<u8>>,
    ways: Map<i64, Seq<i64>>,
    n: nat,
) -> Seq<RelationAreaView>
    decreases n,
{
    if n == 0 {
        Seq::empty()
    } else {
        let front = relation_areas(rs, filter, ids, strings, ways, (n - 1) as nat);
        let r = rs[n - 1];
        if filter_accepts(filter, ids, r.tag_list()) {
            match relation_area(
                r,
                classifier_for(ids),
                strings,
                ways,
                id_in(ids, vstd::utf8::encode_utf8("inner"@)),
            ) {
                Some(a) => front.push(a),
                None => front,
            }
        } else {
            front
        }
    }
}

fn copy_list(v: &Vec<i64>) -> (r: Vec<i64>)
    ensures
        r@ == v@,
{
    let mut r: Vec<i64> = Vec::new();
    append_ids(&mut r, v);
    assert(r@ =~= v@);
    r
}

fn fragments_of(members: &Vec<RelationMember>, ways: &IdLists, inner_sid: Option<u32>, inner: bool) -> (r:
    Vec<Vec<i64>>)
    ensures
        lists_view(r@) == role_fragments(members@, ways@, inner_sid, inner, members@.len()),
        r@.len() <= members@.len(),
{
    let mut r: Vec<Vec<i64>> = Vec::new();
    let mut i: usize = 0;
    assert(lists_view(r@) =~= role_fragments(members@, ways@, inner_sid, inner, 0));
    while i < members.len()
        invariant
            i <= members@.len(),
            r@.len() <= i,
            lists_view(r@) == role_fragments(members@, ways@, inner_sid, inner, i as nat),
        decreases members@.len() - i,
    {
        let m: RelationMember = members[i];
        let ghost before = lists_view(r@);
        if m.member_type == MemberType::Way {
            if let Some(refs) = ways.get(m.id) {
                let is_inner: bool = match inner_sid {
                    Some(s) => s == m.role_tag,
                    None => false,
                };
                if is_inner == inner {
                    r.push(copy_list(refs));
                    assert(lists_view(r@) =~= before.push(refs@));
                }
            }
        }
        i = i + 1;
    }
    r
}

fn area_of(
    d: &DecodedRelation,
    classifier: &BlockShapeClassifier,
    strings: &Vec<Vec<u8>>,
    member_ways: &IdLists,
    inner_sid: Option<u32>,
    Ghost(r): Ghost<Relation>,
) -> (a: Option<RelationArea>)
    requires
        d.tags@ == r.tag_list(),
        d.members@ == r.member_list(),
    ensures
        match a {
            Some(v) => relation_area(r, *classifier, strings@, member_ways@, inner_sid) == Some(v@),
            None => relation_area(r, *classifier, strings@, member_ways@, inner_sid) is None,
        },
{
    reveal(relation_area);
    if let ShapeClassification::Area(kind) = classifier.classify_relation(&d.tags) {
        let outer: Vec<Vec<i64>> = assemble_rings(
            fragments_of(&d.members, member_ways, inner_sid, false),
        );
        if outer.len() > 0 {
            let inner: Vec<Vec<i64>> = assemble_rings(
                fragments_of(&d.members, member_ways, inner_sid, true),
            );
            return Some(
                RelationArea {
                    kind,
                    layer: classifier.layer_of(&d.tags, strings),
                    floors: classifier.floors_of(&d.tags, strings),
                    name: classifier.name_of(&d.tags, strings),
                    outer,
                    inner,
                },
            );
        }
    }
    None
}

/// The areas of a block's relations: for each that the filter accepts and that classifies
/// as an area, member ways are gathered by role from `member_ways` and stitched into
/// rings. Sub-relation members are not expanded.
pub fn extract_relations(
    block: &PrimitiveBlock,
    relation_tag_filter: &TagFilter,
    member_ways: &IdLists,
) -> (r: Vec<RelationArea>)
    ensures
        relation_areas_view(r@) == relation_areas(
            block_relations(*block),
            relation_tag_filter.0@,
            block_ids(*block),
            block.strings@,
            member_ways@,
            block_relations(*block).len(),
        ),
{
    let string_map = StringMap::of_table(&block.strings);
    let classifier = BlockShapeClassifier::new(&string_map);
    let filter: SidTagFilter = relation_tag_filter.get_sid_filter(&string_map);
    let inner_sid: Option<u32> = string_map.get_str("inner");
    let relations: Vec<&Relation> = list_relations(block);
    let ghost rs = block_relations(*block);
    let ghost ids = block_ids(*block);
    let mut out: Vec<RelationArea> = Vec::new();
    let mut i: usize = 0;
    assert(relation_areas_view(out@) =~= relation_areas(
        rs,
        relation_tag_filter.0@,
        ids,
        block.strings@,
        member_ways@,
        0,
    ));
    while i < relations.len()
        invariant
            i <= relations@.len(),
            rs == block_relations(*block),
            ids == block_ids(*block),
            relations@.len() == rs.len(),
            forall|k: int| 0 <= k < relations@.len() ==> *(#[trigger] relations@[k]) == rs[k],
            classifier == classifier_for(ids),
            inner_sid == id_in(ids, vstd::utf8::encode_utf8("inner"@)),
            forall|tags: Seq<Tag>| #[trigger]
                filter.accepts(tags) == filter_accepts(relation_tag_filter.0@, ids, tags),
            relation_areas_view(out@) == relation_areas(
                rs,
                relation_tag_filter.0@,
                ids,
                block.strings@,
                member_ways@,
                i as nat,
            ),
        decreases relations@.len() - i,
    {
        let d: DecodedRelation = relations[i].decode();
        if filter.matches(&d.tags) {
            let area: Option<RelationArea> = area_of(
                &d,
                &classifier,
                &block.strings,
                member_ways,
                inner_sid,
                Ghost(rs[i as int]),
            );
            if let Some(a) = area {
                let ghost before = relation_areas_view(out@);
                let ghost view = a@;
                out.push(a);
                assert(relation_areas_view(out@) =~= before.push(view));
            }
        }
        i = i + 1;
    }
    out
}

// ---- labels and symbols ----

/// The label class for a named area of the given kind, or `None` for kinds we don't label
/// (buildings: too numerous, and z14-only anyway).
pub fn area_label_class(kind: AreaKind) -> (r: Option<LabelClass>)
    ensures
        r == match kind {
            AreaKind::Water => Some(LabelClass::Water),
            AreaKind::Forest => Some(LabelClass::Park),
            AreaKind::Grass => Some(LabelClass::Park),
            AreaKind::Building => None,
            AreaKind::Land => None,
        },
{
    match kind {
        AreaKind::Water => Some(LabelClass::Water),
        AreaKind::Forest => Some(LabelClass::Park),
        AreaKind::Grass => Some(LabelClass::Park),
        _ => None,
    }
}

/// What a node shows: a place label (which needs a name) and a symbol.
pub struct NodeMarks {
    pub label: Option<(LabelClass, String)>,
    pub poi: Option<PoiKind>,
}

/// The place label and symbol of a node.
pub fn mark_node(node: &DecodedNode, classifier: &BlockShapeClassifier, strings: &Vec<Vec<u8>>) -> (r:
    NodeMarks)
    ensures
        match r.label {
            Some((class, name)) => place_in(*classifier, node.tags@) == Some(class) && name_in(
                *classifier,
                node.tags@,
                strings@,
            ) == Some(name@),
            None => place_in(*classifier, node.tags@) is None || name_in(
                *classifier,
                node.tags@,
                strings@,
            ) is None,
        },
        r.poi == (if has_signals(*classifier, node.tags@) {
            Some(PoiKind::TrafficSignal)
        } else {
            None
        }),
{
    let label: Option<(LabelClass, String)> = match classifier.classify_place(&node.tags) {
        Some(class) => match classifier.name_of(&node.tags, strings) {
            Some(name) => Some((class, name)),
            None => None,
        },
        None => None,
    };
    NodeMarks { label, poi: classifier.classify_poi(&node.tags) }
}

// ---- the nodes of a block ----

/// The nodes of a group; none where it holds another kind.
pub open spec fn nodes_in(g: PrimitiveGroup, b: PrimitiveBlock) -> Seq<NodeView> {
    match g.kind_of() {
        Primitives::Nodes(ns) => Seq::new(
            ns@.len(),
            |i: int| plain_node(ns@[i], b.granularity, b.lat_offset, b.lon_offset),
        ),
        Primitives::DenseNodes(d) => dense_nodes(d, b.granularity, b.lat_offset, b.lon_offset),
        _ => Seq::empty(),
    }
}

/// The nodes of the first `n` groups.
pub open spec fn group_nodes(b: PrimitiveBlock, n: nat) -> Seq<NodeView>
    decreases n,
{
    if n == 0 {
        Seq::empty()
    } else {
        group_nodes(b, (n - 1) as nat) + nodes_in(b.groups@[n - 1], b)
    }
}

/// All nodes of a block.
pub open spec fn block_nodes(b: PrimitiveBlock) -> Seq<NodeView> {
    group_nodes(b, b.groups@.len())
}

/// Decode all nodes of a block.
pub fn list_nodes(block: &PrimitiveBlock) -> (r: Vec<DecodedNode>)
    ensures
        nodes_view(r@) == block_nodes(*block),
{
    let mut r: Vec<DecodedNode> = Vec::new();
    let mut g: usize = 0;
    assert(nodes_view(r@) =~= group_nodes(*block, 0));
    while g < block.groups.len()
        invariant
            g <= block.groups@.len(),
            nodes_view(r@) == group_nodes(*block, g as nat),
        decreases block.groups@.len() - g,
    {
        let group: &PrimitiveGroup = &block.groups[g];
        let ghost front = nodes_view(r@);
        let ghost own = nodes_in(*group, *block);
        if group.nodes.len() > 0 {
            let mut k: usize = 0;
            assert(front + own.take(0) =~= front);
            while k < group.nodes.len()
                invariant
                    k <= group.nodes@.len(),
                    own == nodes_in(*group, *block),
                    group.nodes@.len() > 0,
                    nodes_view(r@) == front + own.take(k as int),
                decreases group.nodes@.len() - k,
            {
                let ghost before = nodes_view(r@);
                let d: DecodedNode = group.nodes[k].decode(
                    block.granularity,
                    block.lat_offset,
                    block.lon_offset,
                );
                let ghost dv = d@;
                assert(own[k as int] == dv);
                r.push(d);
                assert(nodes_view(r@) =~= before.push(dv));
                k = k + 1;
                assert(own.take(k as int) =~= own.take(k - 1).push(own[k - 1]));
                assert(nodes_view(r@) =~= front + own.take(k as int));
            }
            assert(own.take(k as int) =~= own);
        } else if let Some(dense) = &group.dense {
            let mut more: Vec<DecodedNode> = dense.list_nodes(
                block.granularity,
                block.lat_offset,
                block.lon_offset,
            );
            r.append(&mut more);
            assert(nodes_view(r@) =~= front + own);
        } else {
            assert(front + own =~= front);
        }
        g = g + 1;
    }
    r
}

/// A node's packed coordinate.
pub open spec fn packed(n: NodeView) -> PackedCoord {
    PackedCoord {
        lon_e7: saturated(rounded_e7(n.lon_nano)),
        lat_e7: saturated(rounded_e7(n.lat_nano)),
    }
}

/// The ids and packed coordinates of a block's nodes, for the node store.
pub fn list_node_coords(block: &PrimitiveBlock) -> (r: Vec<(i64, PackedCoord)>)
    ensures
        r@ == Seq::new(
            block_nodes(*block).len(),
            |i: int| (block_nodes(*block)[i].id, packed(block_nodes(*block)[i])),
        ),
{
    let nodes: Vec<DecodedNode> = list_nodes(block);
    let ghost ns = block_nodes(*block);
    let mut r: Vec<(i64, PackedCoord)> = Vec::new();
    let mut i: usize = 0;
    while i < nodes.len()
        invariant
            i <= nodes@.len(),
            ns == nodes_view(nodes@),
            r@.len() == i,
            forall|k: int| 0 <= k < i ==> #[trigger] r@[k] == (ns[k].id, packed(ns[k])),
        decreases nodes@.len() - i,
    {
        let n: &DecodedNode = &nodes[i];
        assert(ns[i as int] == n@);
        r.push((n.id, PackedCoord::from_lonlat(n.lon_nano, n.lat_nano)));
        i = i + 1;
    }
    assert(r@ =~= Seq::new(ns.len(), |i: int| (ns[i].id, packed(ns[i]))));
    r
}

/// A node that shows something, and where.
pub struct PlacedMark {
    pub coord: PackedCoord,
    pub label: Option<(LabelClass, String)>,
    pub poi: Option<PoiKind>,
}

pub struct MarkView {
    pub coord: PackedCoord,
    pub label: Option<(LabelClass, Seq<char>)>,
    pub poi: Option<PoiKind>,
}

impl View for PlacedMark {
    type V = MarkView;

    open spec fn view(&self) -> MarkView {
        MarkView {
            coord: self.coord,
            label: match self.label {
                Some((class, name)) => Some((class, name@)),
                None => None,
            },
            poi: self.poi,
        }
    }
}

/// What a node shows.
#[verifier::opaque]
pub open spec fn node_mark(n: NodeView, c: BlockShapeClassifier, strings: Seq<Vec<u8>>) -> MarkView {
    MarkView {
        coord: packed(n),
        label: match (place_in(c, n.tags), name_in(c, n.tags, strings)) {
            (Some(class), Some(name)) => Some((class, name)),
            _ => None,
        },
        poi: if has_signals(c, n.tags) {
            Some(PoiKind::TrafficSignal)
        } else {
            None
        },
    }
}

/// The nodes among the first `n` that show a place label or a symbol.
pub open spec fn marks_of(
    ns: Seq<NodeView>,
    c: BlockShapeClassifier,
    strings: Seq<Vec<u8>>,
    n: nat,
) -> Seq<MarkView>
    decreases n,
{
    if n == 0 {
        Seq::empty()
    } else {
        let front = marks_of(ns, c, strings, (n - 1) as nat);
        let m = node_mark(ns[n - 1], c, strings);
        if m.label is Some || m.poi is Some {
            front.push(m)
        } else {
            front
        }
    }
}

pub open spec fn marks_view(s: Seq<PlacedMark>) -> Seq<MarkView> {
    Seq::new(s.len(), |i: int| s[i]@)
}

fn place_marks(n: &DecodedNode, classifier: &BlockShapeClassifier, strings: &Vec<Vec<u8>>) -> (r:
    PlacedMark)
    ensures
        r@ == node_mark(n@, *classifier, strings@),
{
    reveal(node_mark);
    let marks: NodeMarks = mark_node(n, classifier, strings);
    PlacedMark {
        coord: PackedCoord::from_lonlat(n.lon_nano, n.lat_nano),
        label: marks.label,
        poi: marks.poi,
    }
}

/// Extract the place labels (`place=*` nodes with a name) and symbols of a block's nodes.
/// Point labels are not clipped: each is placed in the single tile containing its anchor.
pub fn extract_place_labels(block: &PrimitiveBlock) -> (r: Vec<PlacedMark>)
    ensures
        marks_view(r@) == marks_of(
            block_nodes(*block),
            classifier_for(block_ids(*block)),
            block.strings@,
            block_nodes(*block).len(),
        ),
{
    let string_map = StringMap::of_table(&block.strings);
    let classifier = BlockShapeClassifier::new(&string_map);
    let nodes: Vec<DecodedNode> = list_nodes(block);
    let ghost ns = block_nodes(*block);
    let ghost c = classifier_for(block_ids(*block));
    let mut r: Vec<PlacedMark> = Vec::new();
    let mut i: usize = 0;
    assert(marks_view(r@) =~= marks_of(ns, c, block.strings@, 0));
    while i < nodes.len()
        invariant
            i <= nodes@.len(),
            ns == nodes_view(nodes@),
            classifier == c,
            marks_view(r@) == marks_of(ns, c, block.strings@, i as nat),
        decreases nodes@.len() - i,
    {
        let n: &DecodedNode = &nodes[i];
        assert(ns[i as int] == n@);
        let ghost before = marks_view(r@);
        let m: PlacedMark = place_marks(n, &classifier, &block.strings);
        let ghost mv = m@;
        if m.label.is_some() || m.poi.is_some() {
            r.push(m);
            assert(marks_view(r@) =~= before.push(mv));
        }
        i = i + 1;
    }
    r
}

// ---- holes of a multipolygon ----

/// The outer ring that a hole goes to: a single outer ring owns all holes; of several the
/// first that contains the hole; none if no outer ring contains it.
pub open spec fn owner_of(outers: nat, inside: Seq<bool>) -> Option<int> {
    if outers == 1 {
        Some(0)
    } else {
        first_true(inside, outers, 0)
    }
}

pub open spec fn first_true(s: Seq<bool>, n: nat, i: nat) -> Option<int>
    decreases n - i,
{
    if i >= n {
        None
    } else if s[i as int] {
        Some(i as int)
    } else {
        first_true(s, n, i + 1)
    }
}

/// The outer ring that owns a hole. `inside[i]` tells whether outer ring `i` contains it;
/// an inner ring outside every outer ring is malformed and has no owner.
pub fn hole_owner(outers: usize, inside: &Vec<bool>) -> (r: Option<usize>)
    requires
        outers == 1 || inside@.len() == outers,
    ensures
        match r {
            Some(i) => owner_of(outers as nat, inside@) == Some(i as int) && i < outers,
            None => owner_of(outers as nat, inside@) is None,
        },
{
    if outers == 1 {
        return Some(0);
    }
    let mut i: usize = 0;
    while i < outers
        invariant
            i <= outers,
            inside@.len() == outers,
            outers != 1,
            owner_of(outers as nat, inside@) == first_true(inside@, outers as nat, i as nat),
        decreases outers - i,
    {
        if inside[i] {
            return Some(i);
        }
        i = i + 1;
    }
    None
}

/// The last of the largest: no size is larger, and no later one as large.
pub open spec fn is_last_largest(sizes: Seq<u64>, i: int) -> bool {
    &&& 0 <= i < sizes.len()
    &&& forall|k: int| 0 <= k < sizes.len() ==> #[trigger] sizes[k] <= sizes[i]
    &&& forall|k: int| i < k < sizes.len() ==> #[trigger] sizes[k] < sizes[i]
}

/// The polygon to hang a multipolygon's label on: the last of the largest.
pub fn largest_polygon(sizes: &Vec<u64>) -> (r: Option<usize>)
    ensures
        match r {
            Some(i) => is_last_largest(sizes@, i as int),
            None => sizes@.len() == 0,
        },
{
    let n: usize = sizes.len();
    if n == 0 {
        return None;
    }
    let mut best: usize = 0;
    let mut i: usize = 1;
    while i < n
        invariant
            best < i <= n,
            n == sizes@.len(),
            forall|k: int| 0 <= k < i ==> #[trigger] sizes@[k] <= sizes@[best as int],
            forall|k: int| best < k < i ==> #[trigger] sizes@[k] < sizes@[best as int],
        decreases n - i,
    {
        if sizes[i] >= sizes[best] {
            best = i;
        }
        i = i + 1;
    }
    Some(best)
}

} // verus!
