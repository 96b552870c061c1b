//! The OSM data model: primitive groups as a block holds them, and their decoded forms.

use vstd::prelude::*;

use crate::bytes::{bits_of_i32, i32_bits};
use crate::tags::{packed_groups, unpack_tags, Tag, Tags};

verus! {

#[derive(Debug, Clone, Copy, PartialEq, Eq, Structural)]
pub enum MemberType {
    Node,
    Way,
    Relation,
}

impl MemberType {
    /// The type with a number, if there is one.
    pub fn from_number(t: i32) -> (r: Option<MemberType>)
        ensures
            r == match t {
                0i32 => Some(MemberType::Node),
                1i32 => Some(MemberType::Way),
                2i32 => Some(MemberType::Relation),
                _ => None,
            },
    {
        match t {
            0 => Some(MemberType::Node),
            1 => Some(MemberType::Way),
            2 => Some(MemberType::Relation),
            _ => None,
        }
    }
}

/// A node as stored: coordinates in units of the block's granularity.
pub struct Node {
    pub id: i64,
    pub lat: i64,
    pub lon: i64,
    pub keys: Vec<u32>,
    pub vals: Vec<u32>,
}

/// Nodes as stored in columns: ids and coordinates as differences, tags packed.
pub struct DenseNodes {
    pub id: Vec<i64>,
    pub lat: Vec<i64>,
    pub lon: Vec<i64>,
    pub keys_vals: Vec<i32>,
}

/// A way as stored: node refs as differences.
pub struct Way {
    pub id: i64,
    pub keys: Vec<u32>,
    pub vals: Vec<u32>,
    pub refs: Vec<i64>,
}

/// A relation as stored: member ids as differences.
pub struct Relation {
    pub id: i64,
    pub keys: Vec<u32>,
    pub vals: Vec<u32>,
    pub roles_sid: Vec<i32>,
    pub memids: Vec<i64>,
    pub types: Vec<MemberType>,
}

/// The primitives of a group, of which a well-formed one holds a single kind.
pub struct PrimitiveGroup {
    pub nodes: Vec<Node>,
    pub dense: Option<DenseNodes>,
    pub ways: Vec<Way>,
    pub relations: Vec<Relation>,
    /// Ids of change sets.
    pub changesets: Vec<i64>,
}

/// A block: its string table, its groups and its coordinate frame.
pub struct PrimitiveBlock {
    pub strings: Vec<Vec<u8>>,
    pub groups: Vec<PrimitiveGroup>,
    pub granularity: i32,
    pub lat_offset: i64,
    pub lon_offset: i64,
}

pub enum Primitives {
    Nodes(Vec<Node>),
    DenseNodes(DenseNodes),
    Ways(Vec<Way>),
    Relations(Vec<Relation>),
    ChangeSets(Vec<i64>),
}

impl PrimitiveGroup {
    /// The kind of primitives that the group holds: the first that it has any of.
    pub open spec fn kind_of(self) -> Primitives {
        if self.nodes@.len() > 0 {
            Primitives::Nodes(self.nodes)
        } else if self.dense is Some {
            Primitives::DenseNodes(self.dense->0)
        } else if self.ways@.len() > 0 {
            Primitives::Ways(self.ways)
        } else if self.relations@.len() > 0 {
            Primitives::Relations(self.relations)
        } else {
            Primitives::ChangeSets(self.changesets)
        }
    }

    pub fn primitives(self) -> (r: Primitives)
        ensures
            r == self.kind_of(),
    {
        if self.nodes.len() > 0 {
            return Primitives::Nodes(self.nodes);
        }
        if let Some(dense) = self.dense {
            return Primitives::DenseNodes(dense);
        }
        if self.ways.len() > 0 {
            return Primitives::Ways(self.ways);
        }
        if self.relations.len() > 0 {
            return Primitives::Relations(self.relations);
        }
        Primitives::ChangeSets(self.changesets)
    }
}

// ---- differences ----

/// The value at `i` of a column of differences: the running sum, wrapping around at 64
/// bits.
pub open spec fn running_sum(v: Seq<i64>, i: int) -> i64
    decreases i,
{
    if i <= 0 {
        v[0]
    } else {
        running_sum(v, i - 1).wrapping_add(v[i])
    }
}

/// A column of differences, decoded.
pub open spec fn running_sums(v: Seq<i64>) -> Seq<i64> {
    Seq::new(v.len(), |i: int| running_sum(v, i))
}

/// Decode a column of differences.
pub fn delta(v: &Vec<i64>) -> (r: Vec<i64>)
    ensures
        r@ == running_sums(v@),
{
    let mut r: Vec<i64> = Vec::new();
    let mut acu: i64 = 0;
    let mut i: usize = 0;
    while i < v.len()
        invariant
            i <= v@.len(),
            i > 0 ==> acu == running_sum(v@, i - 1),
            r@.len() == i,
            forall|k: int| 0 <= k < i ==> #[trigger] r@[k] == running_sum(v@, k),
        decreases v@.len() - i,
    {
        acu = if i == 0 {
            v[0]
        } else {
            acu.wrapping_add(v[i])
        };
        r.push(acu);
        i = i + 1;
    }
    assert(r@ =~= running_sums(v@));
    r
}

/// The differences of a column.
pub open spec fn differences(v: Seq<i64>) -> Seq<i64> {
    Seq::new(
        v.len(),
        |i: int|
            if i == 0 {
                v[0]
            } else {
                v[i].wrapping_sub(v[i - 1])
            },
    )
}

/// Decoding the differences of a column gives the column back.
pub proof fn delta_roundtrip(v: Seq<i64>)
    ensures
        running_sums(differences(v)) == v,
{
    assert forall|i: int| 0 <= i < v.len() implies running_sum(differences(v), i) == v[i] by {
        lemma_delta(v, i);
    }
    assert(running_sums(differences(v)) =~= v);
}

proof fn lemma_delta(v: Seq<i64>, i: int)
    requires
        0 <= i < v.len(),
    ensures
        running_sum(differences(v), i) == v[i],
    decreases i,
{
    if i > 0 {
        lemma_delta(v, i - 1);
    }
}

// ---- decoded forms ----

/// The shorter of two lengths.
pub open spec fn shorter(a: nat, b: nat) -> nat {
    if a <= b {
        a
    } else {
        b
    }
}

/// Keys and values paired, as far as both go.
pub open spec fn paired(keys: Seq<u32>, vals: Seq<u32>) -> Seq<Tag> {
    Seq::new(shorter(keys.len(), vals.len()), |i: int| Tag { key: keys[i], value: vals[i] })
}

fn pair_tags(keys: &Vec<u32>, vals: &Vec<u32>) -> (r: Tags)
    ensures
        r@ == paired(keys@, vals@),
{
    let mut r: Tags = Vec::new();
    let mut i: usize = 0;
    while i < keys.len() && i < vals.len()
        invariant
            i <= keys@.len(),
            i <= vals@.len(),
            r@.len() == i,
            forall|k: int| 0 <= k < i ==> #[trigger] r@[k] == (Tag { key: keys@[k], value: vals@[k] }),
        decreases keys@.len() - i,
    {
        r.push(Tag { key: keys[i], value: vals[i] });
        i = i + 1;
    }
    assert(r@ =~= paired(keys@, vals@));
    r
}

/// A coordinate in units of 1e-9 degrees.
pub open spec fn nano_of(coord: i64, granularity: i32, offset: i64) -> int {
    coord * granularity + offset
}

fn nano(coord: i64, granularity: i32, offset: i64) -> (r: i128)
    ensures
        r == nano_of(coord, granularity, offset),
{
    assert(-0x4000_0000_0000_0000_0000_0000 <= coord * granularity
        <= 0x4000_0000_0000_0000_0000_0000) by (nonlinear_arith)
        requires
            -0x8000_0000_0000_0000 <= coord <= 0x7fff_ffff_ffff_ffff,
            -0x8000_0000 <= granularity <= 0x7fff_ffff,
    ;
    (coord as i128) * (granularity as i128) + offset as i128
}

/// A node with coordinates in units of 1e-9 degrees.
pub struct DecodedNode {
    pub id: i64,
    pub lat_nano: i128,
    pub lon_nano: i128,
    pub tags: Tags,
}

pub struct NodeView {
    pub id: i64,
    pub lat_nano: int,
    pub lon_nano: int,
    pub tags: Seq<Tag>,
}

impl View for DecodedNode {
    type V = NodeView;

    open spec fn view(&self) -> NodeView {
        NodeView {
            id: self.id,
            lat_nano: self.lat_nano as int,
            lon_nano: self.lon_nano as int,
            tags: self.tags@,
        }
    }
}

pub open spec fn nodes_view(s: Seq<DecodedNode>) -> Seq<NodeView> {
    Seq::new(s.len(), |i: int| s[i]@)
}

/// How many nodes a dense group decodes to: as many as every column has.
pub open spec fn dense_len(d: DenseNodes) -> nat {
    shorter(
        shorter(d.id@.len(), d.lat@.len()),
        shorter(d.lon@.len(), packed_groups(d.keys_vals@, 0).len()),
    )
}

pub open spec fn dense_nodes(
    d: DenseNodes,
    granularity: i32,
    lat_offset: i64,
    lon_offset: i64,
) -> Seq<NodeView> {
    Seq::new(
        dense_len(d),
        |i: int|
            NodeView {
                id: running_sum(d.id@, i),
                lat_nano: nano_of(running_sum(d.lat@, i), granularity, lat_offset),
                lon_nano: nano_of(running_sum(d.lon@, i), granularity, lon_offset),
                tags: packed_groups(d.keys_vals@, 0)[i],
            },
    )
}

impl DenseNodes {
    pub fn decode_nodes(self, granularity: i32, lat_offset: i64, lon_offset: i64) -> (r: Vec<
        DecodedNode,
    >)
        ensures
            nodes_view(r@) == dense_nodes(self, granularity, lat_offset, lon_offset),
    {
        self.list_nodes(granularity, lat_offset, lon_offset)
    }

    pub(crate) fn list_nodes(&self, granularity: i32, lat_offset: i64, lon_offset: i64) -> (r: Vec<
        DecodedNode,
    >)
        ensures
            nodes_view(r@) == dense_nodes(*self, granularity, lat_offset, lon_offset),
    {
        let ids: Vec<i64> = delta(&self.id);
        let lats: Vec<i64> = delta(&self.lat);
        let lons: Vec<i64> = delta(&self.lon);
        let mut tags: Vec<Tags> = unpack_tags(&self.keys_vals);
        let ghost groups = packed_groups(self.keys_vals@, 0);
        let mut n: usize = ids.len();
        if lats.len() < n {
            n = lats.len();
        }
        if lons.len() < n {
            n = lons.len();
        }
        if tags.len() < n {
            n = tags.len();
        }
        assert(tags@.len() == groups.len());
        assert(n == dense_len(*self));
        let mut r: Vec<DecodedNode> = Vec::new();
        let mut i: usize = 0;
        while i < n
            invariant
                i <= n,
                n == dense_len(*self),
                ids@ == running_sums(self.id@),
                lats@ == running_sums(self.lat@),
                lons@ == running_sums(self.lon@),
                groups == packed_groups(self.keys_vals@, 0),
                tags@.len() == groups.len(),
                forall|k: int| i <= k < groups.len() ==> (#[trigger] tags@[k])@ == groups[k],
                r@.len() == i,
                forall|k: int|
                    0 <= k < i ==> (#[trigger] r@[k])@ == dense_nodes(
                        *self,
                        granularity,
                        lat_offset,
                        lon_offset,
                    )[k],
            decreases n - i,
        {
            let mut own: Tags = Vec::new();
            let ghost was = tags@;
            std::mem::swap(&mut tags[i], &mut own);
            r.push(
                DecodedNode {
                    id: ids[i],
                    lat_nano: nano(lats[i], granularity, lat_offset),
                    lon_nano: nano(lons[i], granularity, lon_offset),
                    tags: own,
                },
            );
            assert(own == was[i as int]);
            i = i + 1;
        }
        assert(nodes_view(r@) =~= dense_nodes(*self, granularity, lat_offset, lon_offset));
        r
    }
}

pub open spec fn plain_node(n: Node, granularity: i32, lat_offset: i64, lon_offset: i64) -> NodeView {
    NodeView {
        id: n.id,
        lat_nano: nano_of(n.lat, granularity, lat_offset),
        lon_nano: nano_of(n.lon, granularity, lon_offset),
        tags: paired(n.keys@, n.vals@),
    }
}

impl Node {
    pub fn decode(&self, granularity: i32, lat_offset: i64, lon_offset: i64) -> (r: DecodedNode)
        ensures
            r@ == plain_node(*self, granularity, lat_offset, lon_offset),
    {
        DecodedNode {
            id: self.id,
            lat_nano: nano(self.lat, granularity, lat_offset),
            lon_nano: nano(self.lon, granularity, lon_offset),
            tags: pair_tags(&self.keys, &self.vals),
        }
    }
}

pub struct DecodedWay {
    pub id: i64,
    pub refs: Vec<i64>,
    pub tags: Tags,
}

impl Way {
    pub open spec fn tag_list(&self) -> Seq<Tag> {
        paired(self.keys@, self.vals@)
    }

    pub open spec fn node_refs(&self) -> Seq<i64> {
        running_sums(self.refs@)
    }

    pub fn decode(&self) -> (r: DecodedWay)
        ensures
            r.id == self.id,
            r.refs@ == self.node_refs(),
            r.tags@ == self.tag_list(),
    {
        DecodedWay {
            id: self.id,
            refs: delta(&self.refs),
            tags: pair_tags(&self.keys, &self.vals),
        }
    }
}

#[derive(Debug, Clone, Copy, PartialEq, Eq, Structural)]
pub struct RelationMember {
    pub id: i64,
    pub member_type: MemberType,
    pub role_tag: u32,
}

pub struct DecodedRelation {
    pub id: i64,
    pub tags: Tags,
    pub members: Vec<RelationMember>,
}

impl Relation {
    pub open spec fn tag_list(&self) -> Seq<Tag> {
        paired(self.keys@, self.vals@)
    }

    /// The members, as far as roles, ids and types all go.
    pub open spec fn member_list(&self) -> Seq<RelationMember> {
        Seq::new(
            shorter(self.roles_sid@.len(), shorter(self.memids@.len(), self.types@.len())),
            |i: int|
                RelationMember {
                    id: running_sum(self.memids@, i),
                    member_type: self.types@[i],
                    role_tag: i32_bits(self.roles_sid@[i]) as u32,
                },
        )
    }

    pub fn decode(&self) -> (r: DecodedRelation)
        ensures
            r.id == self.id,
            r.tags@ == self.tag_list(),
            r.members@ == self.member_list(),
    {
        let ids: Vec<i64> = delta(&self.memids);
        let mut members: Vec<RelationMember> = Vec::new();
        let mut i: usize = 0;
        while i < self.roles_sid.len() && i < ids.len() && i < self.types.len()
            invariant
                i <= self.roles_sid@.len(),
                i <= ids@.len(),
                i <= self.types@.len(),
                ids@ == running_sums(self.memids@),
                members@.len() == i,
                forall|k: int| 0 <= k < i ==> #[trigger] members@[k] == self.member_list()[k],
            decreases ids@.len() - i,
        {
            members.push(
                RelationMember {
                    id: ids[i],
                    member_type: self.types[i],
                    role_tag: bits_of_i32(self.roles_sid[i]),
                },
            );
            i = i + 1;
        }
        assert(members@ =~= self.member_list());
        DecodedRelation { id: self.id, tags: pair_tags(&self.keys, &self.vals), members }
    }
}

// ---- the section index of a file ----

/// Where the sections of a file start, and its highest ids.
///
/// OSM PBF blocks are ordered nodes → ways → relations. A single scan records the byte
/// offset of the first way block and the first relation block, so every later pass can
/// seek straight to the section it cares about.
#[derive(Debug, Clone, Copy, PartialEq, Eq, Structural)]
pub struct OsmPbfIndex {
    /// Byte offset of the first block containing ways.
    pub ways: u64,
    /// Byte offset of the first block containing relations.
    pub relations: u64,
    /// Total file length.
    pub end: u64,
    /// Highest node id in the file: used to size the node-id bitset/store.
    pub max_node_id: i64,
    /// Highest way id in the file: used to size the way-id bitset/store.
    pub max_way_id: i64,
}

/// What one block, or several, contribute to the index.
#[derive(Debug, Clone, Copy, PartialEq, Eq)]
pub struct BlockSummary {
    pub ways: Option<u64>,
    pub relations: Option<u64>,
    pub max_node_id: i64,
    pub max_way_id: i64,
}

pub open spec fn larger(a: i64, b: i64) -> i64 {
    if a >= b {
        a
    } else {
        b
    }
}

pub open spec fn earlier(a: Option<u64>, b: Option<u64>) -> Option<u64> {
    match (a, b) {
        (Some(x), Some(y)) => Some(
            if x <= y {
                x
            } else {
                y
            },
        ),
        (Some(x), None) => Some(x),
        (None, y) => y,
    }
}

pub open spec fn no_summary() -> BlockSummary {
    BlockSummary { ways: None, relations: None, max_node_id: 0, max_way_id: 0 }
}

/// Two summaries taken together.
pub open spec fn merged(a: BlockSummary, b: BlockSummary) -> BlockSummary {
    BlockSummary {
        ways: earlier(a.ways, b.ways),
        relations: earlier(a.relations, b.relations),
        max_node_id: larger(a.max_node_id, b.max_node_id),
        max_way_id: larger(a.max_way_id, b.max_way_id),
    }
}

/// Summaries can be taken together in any order and grouping.
pub proof fn merged_is_order_free(a: BlockSummary, b: BlockSummary, c: BlockSummary)
    ensures
        merged(a, b) == merged(b, a),
        merged(merged(a, b), c) == merged(a, merged(b, c)),
        a.max_node_id >= 0 && a.max_way_id >= 0 ==> merged(no_summary(), a) == a,
{
}

/// The greatest id among the first `n` ways, and `floor`.
pub open spec fn max_way(ways: Seq<Way>, floor: i64, n: nat) -> i64
    decreases n,
{
    if n == 0 {
        floor
    } else {
        larger(max_way(ways, floor, (n - 1) as nat), ways[n - 1].id)
    }
}

pub open spec fn max_node(nodes: Seq<Node>, floor: i64, n: nat) -> i64
    decreases n,
{
    if n == 0 {
        floor
    } else {
        larger(max_node(nodes, floor, (n - 1) as nat), nodes[n - 1].id)
    }
}

/// The summary with one more group of the block at `pos`. Dense node ids are stored as
/// ascending differences, so the last one is the greatest.
pub open spec fn with_group(s: BlockSummary, g: PrimitiveGroup, pos: u64) -> BlockSummary {
    match g.kind_of() {
        Primitives::DenseNodes(d) => BlockSummary {
            max_node_id: larger(
                s.max_node_id,
                if d.id@.len() == 0 {
                    0
                } else {
                    running_sum(d.id@, d.id@.len() - 1)
                },
            ),
            ..s
        },
        Primitives::Nodes(nodes) => BlockSummary {
            max_node_id: max_node(nodes@, s.max_node_id, nodes@.len()),
            ..s
        },
        Primitives::Ways(ways) => BlockSummary {
            ways: Some(pos),
            max_way_id: max_way(ways@, s.max_way_id, ways@.len()),
            ..s
        },
        Primitives::Relations(_) => BlockSummary { relations: Some(pos), ..s },
        Primitives::ChangeSets(_) => s,
    }
}

/// The summary of the first `n` groups of the block at `pos`.
pub open spec fn groups_summary(groups: Seq<PrimitiveGroup>, pos: u64, n: nat) -> BlockSummary
    decreases n,
{
    if n == 0 {
        no_summary()
    } else {
        with_group(groups_summary(groups, pos, (n - 1) as nat), groups[n - 1], pos)
    }
}

/// What the block at file offset `pos` contributes to the index.
pub fn summarize_block(block: &PrimitiveBlock, pos: u64) -> (r: BlockSummary)
    ensures
        r == groups_summary(block.groups@, pos, block.groups@.len()),
{
    let mut s = BlockSummary { ways: None, relations: None, max_node_id: 0, max_way_id: 0 };
    let mut i: usize = 0;
    while i < block.groups.len()
        invariant
            i <= block.groups@.len(),
            s == groups_summary(block.groups@, pos, i as nat),
        decreases block.groups@.len() - i,
    {
        let g: &PrimitiveGroup = &block.groups[i];
        let ghost was = s;
        if g.nodes.len() > 0 {
            let mut k: usize = 0;
            while k < g.nodes.len()
                invariant
                    k <= g.nodes@.len(),
                    s == (BlockSummary {
                        max_node_id: max_node(g.nodes@, was.max_node_id, k as nat),
                        ..was
                    }),
                decreases g.nodes@.len() - k,
            {
                if g.nodes[k].id > s.max_node_id {
                    s.max_node_id = g.nodes[k].id;
                }
                k = k + 1;
            }
        } else if let Some(d) = &g.dense {
            let mut last: i64 = 0;
            let mut k: usize = 0;
            while k < d.id.len()
                invariant
                    k <= d.id@.len(),
                    last == if k == 0 {
                        0
                    } else {
                        running_sum(d.id@, k - 1)
                    },
                decreases d.id@.len() - k,
            {
                last = last.wrapping_add(d.id[k]);
                k = k + 1;
            }
            if last > s.max_node_id {
                s.max_node_id = last;
            }
        } else if g.ways.len() > 0 {
            s.ways = Some(pos);
            let mut k: usize = 0;
            while k < g.ways.len()
                invariant
                    k <= g.ways@.len(),
                    s == (BlockSummary {
                        ways: Some(pos),
                        max_way_id: max_way(g.ways@, was.max_way_id, k as nat),
                        ..was
                    }),
                decreases g.ways@.len() - k,
            {
                if g.ways[k].id > s.max_way_id {
                    s.max_way_id = g.ways[k].id;
                }
                k = k + 1;
            }
        } else if g.relations.len() > 0 {
            s.relations = Some(pos);
        }
        i = i + 1;
    }
    s
}

/// Take two summaries together: the first way and relation blocks, the highest ids.
pub fn merge_summaries(a: &BlockSummary, b: &BlockSummary) -> (r: BlockSummary)
    ensures
        r == merged(*a, *b),
{
    BlockSummary {
        ways: earlier_of(a.ways, b.ways),
        relations: earlier_of(a.relations, b.relations),
        max_node_id: if a.max_node_id >= b.max_node_id {
            a.max_node_id
        } else {
            b.max_node_id
        },
        max_way_id: if a.max_way_id >= b.max_way_id {
            a.max_way_id
        } else {
            b.max_way_id
        },
    }
}

fn earlier_of(a: Option<u64>, b: Option<u64>) -> (r: Option<u64>)
    ensures
        r == earlier(a, b),
{
    match (a, b) {
        (Some(x), Some(y)) => {
            if x <= y {
                Some(x)
            } else {
                Some(y)
            }
        },
        (Some(x), None) => Some(x),
        (None, y) => y,
    }
}

/// The bytes of a saved index.
pub open spec fn index_bytes(i: OsmPbfIndex) -> Seq<u8> {
    crate::bytes::le_bytes(i.ways as nat, 8) + crate::bytes::le_bytes(i.relations as nat, 8)
        + crate::bytes::le_bytes(i.end as nat, 8) + crate::bytes::le_bytes(i64_bits(i.max_node_id), 8)
        + crate::bytes::le_bytes(i64_bits(i.max_way_id), 8)
}

pub open spec fn i64_bits(v: i64) -> nat {
    if v < 0 {
        (v + 0x1_0000_0000_0000_0000) as nat
    } else {
        v as nat
    }
}

pub open spec fn i64_of(bits: nat) -> i64 {
    if bits < 0x8000_0000_0000_0000 {
        bits as i64
    } else {
        (bits - 0x1_0000_0000_0000_0000) as i64
    }
}

/// How many bytes a saved index has.
pub const INDEX_LEN: usize = 40;

/// The index in the bytes of a file; none where the file has another size.
pub open spec fn index_at(s: Seq<u8>) -> Option<OsmPbfIndex> {
    if s.len() != INDEX_LEN {
        None
    } else {
        Some(
            OsmPbfIndex {
                ways: crate::tileformat::field(s, 0, 8) as u64,
                relations: crate::tileformat::field(s, 8, 8) as u64,
                end: crate::tileformat::field(s, 16, 8) as u64,
                max_node_id: i64_of(crate::tileformat::field(s, 24, 8)),
                max_way_id: i64_of(crate::tileformat::field(s, 32, 8)),
            },
        )
    }
}

/// Reading a saved index gives it back.
pub proof fn index_roundtrip(i: OsmPbfIndex)
    ensures
        index_at(index_bytes(i)) == Some(i),
{
    let s = index_bytes(i);
    crate::bytes::lemma_pow256_values();
    crate::bytes::le_roundtrip(i.ways as nat, 8);
    crate::bytes::le_roundtrip(i.relations as nat, 8);
    crate::bytes::le_roundtrip(i.end as nat, 8);
    crate::bytes::le_roundtrip(i64_bits(i.max_node_id), 8);
    crate::bytes::le_roundtrip(i64_bits(i.max_way_id), 8);
    assert(s.subrange(0, 8) =~= crate::bytes::le_bytes(i.ways as nat, 8));
    assert(s.subrange(8, 16) =~= crate::bytes::le_bytes(i.relations as nat, 8));
    assert(s.subrange(16, 24) =~= crate::bytes::le_bytes(i.end as nat, 8));
    assert(s.subrange(24, 32) =~= crate::bytes::le_bytes(i64_bits(i.max_node_id), 8));
    assert(s.subrange(32, 40) =~= crate::bytes::le_bytes(i64_bits(i.max_way_id), 8));
}

fn bits_of_i64(v: i64) -> (r: u64)
    ensures
        r == i64_bits(v),
{
    if v < 0 {
        (v as i128 + 0x1_0000_0000_0000_0000) as u64
    } else {
        v as u64
    }
}

fn i64_from_bits(b: u64) -> (r: i64)
    ensures
        r == i64_of(b as nat),
{
    if b < 0x8000_0000_0000_0000 {
        b as i64
    } else {
        (b as i128 - 0x1_0000_0000_0000_0000) as i64
    }
}

impl OsmPbfIndex {
    /// The index of a file from the summary of its blocks; none for a file without ways
    /// or relations.
    pub fn index(summary: &BlockSummary, file_len: u64) -> (r: Option<Self>)
        ensures
            r == match (summary.ways, summary.relations) {
                (Some(ways), Some(relations)) => Some(
                    OsmPbfIndex {
                        ways,
                        relations,
                        end: file_len,
                        max_node_id: summary.max_node_id,
                        max_way_id: summary.max_way_id,
                    },
                ),
                _ => None,
            },
    {
        match (summary.ways, summary.relations) {
            (Some(ways), Some(relations)) => Some(
                OsmPbfIndex {
                    ways,
                    relations,
                    end: file_len,
                    max_node_id: summary.max_node_id,
                    max_way_id: summary.max_way_id,
                },
            ),
            _ => None,
        }
    }

    /// The bytes to save.
    pub fn to_bytes(&self) -> (r: Vec<u8>)
        ensures
            r@ == index_bytes(*self),
            r@.len() == INDEX_LEN,
    {
        let mut r: Vec<u8> = Vec::new();
        crate::bytes::put_le(&mut r, self.ways, 8);
        crate::bytes::put_le(&mut r, self.relations, 8);
        crate::bytes::put_le(&mut r, self.end, 8);
        crate::bytes::put_le(&mut r, bits_of_i64(self.max_node_id), 8);
        crate::bytes::put_le(&mut r, bits_of_i64(self.max_way_id), 8);
        proof {
            assert(r@ =~= index_bytes(*self));
            crate::bytes::lemma_le_bytes_len(self.ways as nat, 8);
            crate::bytes::lemma_le_bytes_len(self.relations as nat, 8);
            crate::bytes::lemma_le_bytes_len(self.end as nat, 8);
            crate::bytes::lemma_le_bytes_len(i64_bits(self.max_node_id), 8);
            crate::bytes::lemma_le_bytes_len(i64_bits(self.max_way_id), 8);
        }
        r
    }

    /// Read a saved index. A wrong-sized file means that the on-disk format changed: it
    /// is treated as absent so the index is regenerated.
    pub fn from_bytes(buffer: &[u8]) -> (r: Option<Self>)
        ensures
            r == index_at(buffer@),
    {
        if buffer.len() != INDEX_LEN {
            return None;
        }
        Some(
            OsmPbfIndex {
                ways: crate::tileformat::get_field(buffer, 0, 8),
                relations: crate::tileformat::get_field(buffer, 8, 8),
                end: crate::tileformat::get_field(buffer, 16, 8),
                max_node_id: i64_from_bits(crate::tileformat::get_field(buffer, 24, 8)),
                max_way_id: i64_from_bits(crate::tileformat::get_field(buffer, 32, 8)),
            },
        )
    }
}

} // verus!
