//! On-wire layout of a decoded tile: the flat, little-endian, 2-byte-aligned
//! struct-of-arrays shared by the tile builder and the decoder.

use vstd::prelude::*;
use vstd::slice::slice_subrange;

use crate::bytes::{
    bits_of_i16, bits_of_i32, bits_of_i8, get_le, i16_bits, i16_from_bits, i16_of, i32_bits,
    i32_from_bits, i32_of, i8_bits, i8_from_bits, i8_of, le_bytes, le_roundtrip, le_value, lemma_i16_bits, lemma_i32_bits, lemma_i8_bits,
    lemma_pow256_values, put_le, take, take_at, take_read_roundtrip,
};

verus! {

/// Current tile format version (`TileHeader::version`).
pub const TILE_VERSION: u8 = 2;

/// `RoadMeta.name` / `LabelMeta.name` sentinel meaning "no name".
pub const NAME_NONE: u16 = 0xffff;

/// `TileHeader::flags` bit: a ring clip-mask section is present at the end of
/// the tile (one bit per ring vertex; `true` = clip-produced boundary vertex).
pub const FLAG_RING_CLIP_MASK: u8 = 1;

/// A value with a fixed-size byte image.
pub trait Wire: Sized {
    /// How many bytes an image has.
    spec fn wire_len() -> nat;

    /// The image.
    spec fn to_wire(self) -> Seq<u8>;

    /// The value with the given image.
    spec fn from_wire(s: Seq<u8>) -> Self;

    /// An image has the fixed length and determines the value.
    proof fn wire_roundtrip(self)
        ensures
            self.to_wire().len() == Self::wire_len(),
            Self::from_wire(self.to_wire()) == self,
            1 <= Self::wire_len() <= 16,
    ;

    fn wire_size() -> (n: usize)
        ensures
            n == Self::wire_len(),
            1 <= n <= 16,
    ;

    fn put(&self, buf: &mut Vec<u8>)
        ensures
            final(buf)@ == old(buf)@ + self.to_wire(),
    ;

    fn get(bytes: &[u8]) -> (r: Self)
        requires
            bytes@.len() == Self::wire_len(),
        ensures
            r == Self::from_wire(bytes@),
    ;
}

/// The images of `items`, one behind the other.
pub open spec fn wire_all<T: Wire>(items: Seq<T>) -> Seq<u8>
    decreases items.len(),
{
    if items.len() == 0 {
        Seq::empty()
    } else {
        wire_all(items.drop_last()) + items.last().to_wire()
    }
}

/// Reading one value.
pub open spec fn wire_at<T: Wire>(s: Seq<u8>) -> (Option<T>, Seq<u8>) {
    match take_at(s, T::wire_len()) {
        (Some(b), rest) => (Some(T::from_wire(b)), rest),
        (None, rest) => (None, rest),
    }
}

/// Reading `n` values; nothing where fewer than `n` images are left.
#[verifier::opaque]
pub open spec fn wire_all_at<T: Wire>(s: Seq<u8>, n: nat) -> (Option<Seq<T>>, Seq<u8>) {
    let size = T::wire_len();
    if n * size <= s.len() {
        (
            Some(
                Seq::new(
                    n,
                    |i: int| T::from_wire(s.subrange(i * size as int, i * size as int + size as int)),
                ),
            ),
            s.skip((n * size) as int),
        )
    } else {
        (None, s)
    }
}

pub proof fn lemma_wire_all_len<T: Wire>(items: Seq<T>)
    ensures
        wire_all(items).len() == items.len() * T::wire_len(),
    decreases items.len(),
{
    if items.len() > 0 {
        lemma_wire_all_len(items.drop_last());
        items.last().wire_roundtrip();
        assert((items.len() - 1) * T::wire_len() + T::wire_len() == items.len() * T::wire_len())
            by (nonlinear_arith)
            requires
                items.len() >= 1,
        ;
    } else {
        assert(items.len() * T::wire_len() == 0) by (nonlinear_arith)
            requires
                items.len() == 0,
        ;
    }
}

pub proof fn lemma_wire_all_slot<T: Wire>(items: Seq<T>, i: int)
    requires
        0 <= i < items.len(),
    ensures
        0 <= i * T::wire_len(),
        i * T::wire_len() + T::wire_len() <= wire_all(items).len(),
        wire_all(items).subrange(
            i * T::wire_len() as int,
            i * T::wire_len() as int + T::wire_len() as int,
        ) == items[i].to_wire(),
    decreases items.len(),
{
    let size = T::wire_len() as int;
    let front = wire_all(items.drop_last());
    let whole = wire_all(items);
    lemma_wire_all_len(items.drop_last());
    lemma_wire_all_len(items);
    items.last().wire_roundtrip();
    assert(0 <= i * size) by (nonlinear_arith)
        requires
            0 <= i,
            0 <= size,
    ;
    if i == items.len() - 1 {
        assert(whole.subrange(i * size, i * size + size) =~= items.last().to_wire());
    } else {
        lemma_wire_all_slot(items.drop_last(), i);
        assert(whole.subrange(i * size, i * size + size) =~= front.subrange(
            i * size,
            i * size + size,
        ));
    }
}

/// Values written one behind the other, with anything behind them, read back as
/// they were.
pub proof fn wire_all_roundtrip<T: Wire>(items: Seq<T>, tail: Seq<u8>)
    ensures
        wire_all_at::<T>(wire_all(items) + tail, items.len()) == (Some(items), tail),
{
    reveal(wire_all_at);
    let size = T::wire_len();
    let s = wire_all(items) + tail;
    lemma_wire_all_len(items);
    let got = wire_all_at::<T>(s, items.len()).0.unwrap();
    assert forall|i: int| 0 <= i < items.len() implies got[i] == items[i] by {
        lemma_wire_all_slot(items, i);
        items[i].wire_roundtrip();
        assert(s.subrange(i * size as int, i * size as int + size as int) =~= items[i].to_wire());
    }
    assert(got =~= items);
    assert(s.skip((items.len() * size) as int) =~= tail);
}

pub proof fn wire_one_roundtrip<T: Wire>(item: T, tail: Seq<u8>)
    ensures
        wire_at::<T>(item.to_wire() + tail) == (Some(item), tail),
{
    item.wire_roundtrip();
    take_read_roundtrip(item.to_wire(), tail);
}

/// Append the images of `items`.
pub fn put_all<T: Wire>(buf: &mut Vec<u8>, items: &Vec<T>)
    ensures
        final(buf)@ == old(buf)@ + wire_all(items@),
{
    let mut i: usize = 0;
    assert(buf@ =~= buf@ + wire_all(items@.take(0)));
    while i < items.len()
        invariant
            i <= items@.len(),
            buf@ == old(buf)@ + wire_all(items@.take(i as int)),
        decreases items@.len() - i,
    {
        items[i].put(buf);
        i = i + 1;
        proof {
            let done = items@.take(i as int);
            assert(done.drop_last() =~= items@.take(i - 1));
            assert(done.last() == items@[i - 1]);
            assert(buf@ =~= old(buf)@ + wire_all(done));
        }
    }
    assert(items@.take(i as int) =~= items@);
}

/// Take one value off the cursor.
pub fn read_one<T: Wire>(cursor: &mut &[u8]) -> (r: Option<T>)
    ensures
        (r, final(cursor)@) == wire_at::<T>(old(cursor)@),
{
    match take(cursor, T::wire_size() as u64) {
        Some(b) => Some(T::get(b)),
        None => None,
    }
}

/// Take `n` values off the cursor.
pub fn read_vec<T: Wire>(cursor: &mut &[u8], n: usize) -> (r: Option<Vec<T>>)
    requires
        n <= 0xffff,
    ensures
        match r {
            Some(v) => (Some(v@), final(cursor)@) == wire_all_at::<T>(old(cursor)@, n as nat),
            None => wire_all_at::<T>(old(cursor)@, n as nat).0 is None && final(cursor)@ == old(
                cursor,
            )@,
        },
{
    proof {
        reveal(wire_all_at);
    }
    let size: usize = T::wire_size();
    assert(n * size <= 0xffff * 16) by (nonlinear_arith)
        requires
            n <= 0xffff,
            size <= 16,
    ;
    let total: usize = n * size;
    let ghost s = cursor@;
    match take(cursor, total as u64) {
        None => None,
        Some(b) => {
            let mut v: Vec<T> = Vec::new();
            let mut i: usize = 0;
            while i < n
                invariant
                    i <= n <= 0xffff,
                    size == T::wire_len(),
                    1 <= size <= 16,
                    total == n * size,
                    total <= s.len(),
                    b@ == s.take(total as int),
                    v@.len() == i,
                    forall|k: int|
                        0 <= k < i ==> #[trigger] v@[k] == T::from_wire(
                            s.subrange(k * size as int, k * size as int + size as int),
                        ),
                decreases n - i,
            {
                assert(0 <= i * size && i * size + size <= n * size) by (nonlinear_arith)
                    requires
                        0 <= i < n,
                        size >= 1,
                ;
                assert(n * size <= 0xffff * 16) by (nonlinear_arith)
                    requires
                        n <= 0xffff,
                        size <= 16,
                ;
                let item: &[u8] = slice_subrange(b, i * size, i * size + size);
                assert(item@ =~= s.subrange(i * size as int, i * size as int + size as int));
                v.push(T::get(item));
                i = i + 1;
            }
            assert(v@ =~= wire_all_at::<T>(s, n as nat).0.unwrap());
            Some(v)
        },
    }
}

/// The `n`-byte field at `at`.
pub open spec fn field(s: Seq<u8>, at: int, n: int) -> nat {
    le_value(s.subrange(at, at + n))
}

pub fn get_field(bytes: &[u8], at: usize, n: usize) -> (v: u64)
    requires
        at + n <= bytes@.len(),
        n <= 8,
    ensures
        v == field(bytes@, at as int, n as int),
        n == 2 ==> v <= 0xffff,
{
    proof {
        lemma_pow256_values();
    }
    let len: usize = bytes.len();
    assert(at + n <= len);
    get_le(slice_subrange(bytes, at, at + n))
}

proof fn lemma_field_u16(v: nat)
    requires
        v <= 0xffff,
    ensures
        le_value(le_bytes(v, 2)) == v,
        le_bytes(v, 2).len() == 2,
{
    lemma_pow256_values();
    le_roundtrip(v, 2);
}

impl Wire for u64 {
    open spec fn wire_len() -> nat {
        8
    }

    open spec fn to_wire(self) -> Seq<u8> {
        le_bytes(self as nat, 8)
    }

    open spec fn from_wire(s: Seq<u8>) -> Self {
        le_value(s) as u64
    }

    proof fn wire_roundtrip(self) {
        lemma_pow256_values();
        le_roundtrip(self as nat, 8);
    }

    fn wire_size() -> (n: usize) {
        8
    }

    fn put(&self, buf: &mut Vec<u8>) {
        put_le(buf, *self, 8);
    }

    fn get(bytes: &[u8]) -> (r: Self) {
        get_le(bytes)
    }
}

impl Wire for i32 {
    open spec fn wire_len() -> nat {
        4
    }

    open spec fn to_wire(self) -> Seq<u8> {
        le_bytes(i32_bits(self), 4)
    }

    open spec fn from_wire(s: Seq<u8>) -> Self {
        i32_of(le_value(s) as int)
    }

    proof fn wire_roundtrip(self) {
        lemma_pow256_values();
        lemma_i32_bits(self);
        le_roundtrip(i32_bits(self), 4);
    }

    fn wire_size() -> (n: usize) {
        4
    }

    fn put(&self, buf: &mut Vec<u8>) {
        put_le(buf, bits_of_i32(*self) as u64, 4);
    }

    fn get(bytes: &[u8]) -> (r: Self) {
        proof {
            lemma_pow256_values();
        }
        i32_from_bits(get_le(bytes) as u32)
    }
}

#[derive(Debug, Clone, Copy, PartialEq, Eq, Structural)]
pub struct TileHeader {
    pub version: u8,
    pub flags: u8,
    /// Tile-local coordinate extent (coords span `[0, extent]`).
    pub extent: u16,
    pub road_count: u16,
    pub area_count: u16,
    pub ring_count: u16,
    pub label_count: u16,
    pub poi_count: u16,
    pub string_count: u16,
}

impl Wire for TileHeader {
    open spec fn wire_len() -> nat {
        16
    }

    open spec fn to_wire(self) -> Seq<u8> {
        seq![self.version, self.flags] + le_bytes(self.extent as nat, 2) + le_bytes(
            self.road_count as nat,
            2,
        ) + le_bytes(self.area_count as nat, 2) + le_bytes(self.ring_count as nat, 2) + le_bytes(
            self.label_count as nat,
            2,
        ) + le_bytes(self.poi_count as nat, 2) + le_bytes(self.string_count as nat, 2)
    }

    open spec fn from_wire(s: Seq<u8>) -> Self {
        TileHeader {
            version: s[0],
            flags: s[1],
            extent: field(s, 2, 2) as u16,
            road_count: field(s, 4, 2) as u16,
            area_count: field(s, 6, 2) as u16,
            ring_count: field(s, 8, 2) as u16,
            label_count: field(s, 10, 2) as u16,
            poi_count: field(s, 12, 2) as u16,
            string_count: field(s, 14, 2) as u16,
        }
    }

    proof fn wire_roundtrip(self) {
        lemma_field_u16(self.extent as nat);
        lemma_field_u16(self.road_count as nat);
        lemma_field_u16(self.area_count as nat);
        lemma_field_u16(self.ring_count as nat);
        lemma_field_u16(self.label_count as nat);
        lemma_field_u16(self.poi_count as nat);
        lemma_field_u16(self.string_count as nat);
        let s = self.to_wire();
        assert(s.subrange(2, 4) =~= le_bytes(self.extent as nat, 2));
        assert(s.subrange(4, 6) =~= le_bytes(self.road_count as nat, 2));
        assert(s.subrange(6, 8) =~= le_bytes(self.area_count as nat, 2));
        assert(s.subrange(8, 10) =~= le_bytes(self.ring_count as nat, 2));
        assert(s.subrange(10, 12) =~= le_bytes(self.label_count as nat, 2));
        assert(s.subrange(12, 14) =~= le_bytes(self.poi_count as nat, 2));
        assert(s.subrange(14, 16) =~= le_bytes(self.string_count as nat, 2));
    }

    fn wire_size() -> (n: usize) {
        16
    }

    fn put(&self, buf: &mut Vec<u8>) {
        buf.push(self.version);
        buf.push(self.flags);
        put_le(buf, self.extent as u64, 2);
        put_le(buf, self.road_count as u64, 2);
        put_le(buf, self.area_count as u64, 2);
        put_le(buf, self.ring_count as u64, 2);
        put_le(buf, self.label_count as u64, 2);
        put_le(buf, self.poi_count as u64, 2);
        put_le(buf, self.string_count as u64, 2);
        assert(buf@ =~= old(buf)@ + self.to_wire());
    }

    fn get(bytes: &[u8]) -> (r: Self) {
        TileHeader {
            version: bytes[0],
            flags: bytes[1],
            extent: get_field(bytes, 2, 2) as u16,
            road_count: get_field(bytes, 4, 2) as u16,
            area_count: get_field(bytes, 6, 2) as u16,
            ring_count: get_field(bytes, 8, 2) as u16,
            label_count: get_field(bytes, 10, 2) as u16,
            poi_count: get_field(bytes, 12, 2) as u16,
            string_count: get_field(bytes, 14, 2) as u16,
        }
    }
}

#[derive(Debug, Clone, Copy, PartialEq, Eq, Structural)]
pub struct RoadMeta {
    pub kind: u8,
    /// bits 0..1 = start `EdgeNode`, bits 2..3 = end `EdgeNode`, bits 4..5 =
    /// `RoadStructure`.
    pub caps: u8,
    pub layer: i8,
    /// Lanes forward / backward relative to the coordinate direction. A one-way
    /// road has `lanes_backward == 0`.
    pub lanes_forward: u8,
    pub lanes_backward: u8,
    pub _pad: u8,
    pub vertex_count: u16,
    /// Index into the string table, or [`NAME_NONE`]: the label drawn along the
    /// line.
    pub name: u16,
}

impl Wire for RoadMeta {
    open spec fn wire_len() -> nat {
        10
    }

    open spec fn to_wire(self) -> Seq<u8> {
        seq![
            self.kind,
            self.caps,
            i8_bits(self.layer) as u8,
            self.lanes_forward,
            self.lanes_backward,
            self._pad,
        ] + le_bytes(self.vertex_count as nat, 2) + le_bytes(self.name as nat, 2)
    }

    open spec fn from_wire(s: Seq<u8>) -> Self {
        RoadMeta {
            kind: s[0],
            caps: s[1],
            layer: i8_of(s[2] as int),
            lanes_forward: s[3],
            lanes_backward: s[4],
            _pad: s[5],
            vertex_count: field(s, 6, 2) as u16,
            name: field(s, 8, 2) as u16,
        }
    }

    proof fn wire_roundtrip(self) {
        lemma_field_u16(self.vertex_count as nat);
        lemma_field_u16(self.name as nat);
        lemma_i8_bits(self.layer);
        let s = self.to_wire();
        assert(s.subrange(6, 8) =~= le_bytes(self.vertex_count as nat, 2));
        assert(s.subrange(8, 10) =~= le_bytes(self.name as nat, 2));
    }

    fn wire_size() -> (n: usize) {
        10
    }

    fn put(&self, buf: &mut Vec<u8>) {
        buf.push(self.kind);
        buf.push(self.caps);
        buf.push(bits_of_i8(self.layer));
        buf.push(self.lanes_forward);
        buf.push(self.lanes_backward);
        buf.push(self._pad);
        put_le(buf, self.vertex_count as u64, 2);
        put_le(buf, self.name as u64, 2);
        assert(buf@ =~= old(buf)@ + self.to_wire());
    }

    fn get(bytes: &[u8]) -> (r: Self) {
        RoadMeta {
            kind: bytes[0],
            caps: bytes[1],
            layer: i8_from_bits(bytes[2]),
            lanes_forward: bytes[3],
            lanes_backward: bytes[4],
            _pad: bytes[5],
            vertex_count: get_field(bytes, 6, 2) as u16,
            name: get_field(bytes, 8, 2) as u16,
        }
    }
}

/// A point label: an anchor and a name, drawn by the renderer with collision
/// against other labels (priority = `rank`, lower wins).
#[derive(Debug, Clone, Copy, PartialEq, Eq, Structural)]
pub struct LabelMeta {
    pub class: u8,
    pub rank: u8,
    /// Absolute tile-local anchor (not delta-encoded: labels are single points).
    pub anchor_x: i16,
    pub anchor_y: i16,
    /// Index into the string table.
    pub name: u16,
}

impl Wire for LabelMeta {
    open spec fn wire_len() -> nat {
        8
    }

    open spec fn to_wire(self) -> Seq<u8> {
        seq![self.class, self.rank] + le_bytes(i16_bits(self.anchor_x), 2) + le_bytes(
            i16_bits(self.anchor_y),
            2,
        ) + le_bytes(self.name as nat, 2)
    }

    open spec fn from_wire(s: Seq<u8>) -> Self {
        LabelMeta {
            class: s[0],
            rank: s[1],
            anchor_x: i16_of(field(s, 2, 2) as int),
            anchor_y: i16_of(field(s, 4, 2) as int),
            name: field(s, 6, 2) as u16,
        }
    }

    proof fn wire_roundtrip(self) {
        lemma_i16_bits(self.anchor_x);
        lemma_i16_bits(self.anchor_y);
        lemma_field_u16(i16_bits(self.anchor_x));
        lemma_field_u16(i16_bits(self.anchor_y));
        lemma_field_u16(self.name as nat);
        let s = self.to_wire();
        assert(s.subrange(2, 4) =~= le_bytes(i16_bits(self.anchor_x), 2));
        assert(s.subrange(4, 6) =~= le_bytes(i16_bits(self.anchor_y), 2));
        assert(s.subrange(6, 8) =~= le_bytes(self.name as nat, 2));
    }

    fn wire_size() -> (n: usize) {
        8
    }

    fn put(&self, buf: &mut Vec<u8>) {
        buf.push(self.class);
        buf.push(self.rank);
        put_le(buf, bits_of_i16(self.anchor_x) as u64, 2);
        put_le(buf, bits_of_i16(self.anchor_y) as u64, 2);
        put_le(buf, self.name as u64, 2);
        assert(buf@ =~= old(buf)@ + self.to_wire());
    }

    fn get(bytes: &[u8]) -> (r: Self) {
        LabelMeta {
            class: bytes[0],
            rank: bytes[1],
            anchor_x: i16_from_bits(get_field(bytes, 2, 2) as u16),
            anchor_y: i16_from_bits(get_field(bytes, 4, 2) as u16),
            name: get_field(bytes, 6, 2) as u16,
        }
    }
}

/// A point-of-interest symbol: a kind and an absolute tile-local anchor (no
/// text, not delta-encoded: POIs are single points).
#[derive(Debug, Clone, Copy, PartialEq, Eq, Structural)]
pub struct PoiMeta {
    pub kind: u8,
    pub _pad: u8,
    pub anchor_x: i16,
    pub anchor_y: i16,
}

impl Wire for PoiMeta {
    open spec fn wire_len() -> nat {
        6
    }

    open spec fn to_wire(self) -> Seq<u8> {
        seq![self.kind, self._pad] + le_bytes(i16_bits(self.anchor_x), 2) + le_bytes(
            i16_bits(self.anchor_y),
            2,
        )
    }

    open spec fn from_wire(s: Seq<u8>) -> Self {
        PoiMeta {
            kind: s[0],
            _pad: s[1],
            anchor_x: i16_of(field(s, 2, 2) as int),
            anchor_y: i16_of(field(s, 4, 2) as int),
        }
    }

    proof fn wire_roundtrip(self) {
        lemma_i16_bits(self.anchor_x);
        lemma_i16_bits(self.anchor_y);
        lemma_field_u16(i16_bits(self.anchor_x));
        lemma_field_u16(i16_bits(self.anchor_y));
        let s = self.to_wire();
        assert(s.subrange(2, 4) =~= le_bytes(i16_bits(self.anchor_x), 2));
        assert(s.subrange(4, 6) =~= le_bytes(i16_bits(self.anchor_y), 2));
    }

    fn wire_size() -> (n: usize) {
        6
    }

    fn put(&self, buf: &mut Vec<u8>) {
        buf.push(self.kind);
        buf.push(self._pad);
        put_le(buf, bits_of_i16(self.anchor_x) as u64, 2);
        put_le(buf, bits_of_i16(self.anchor_y) as u64, 2);
        assert(buf@ =~= old(buf)@ + self.to_wire());
    }

    fn get(bytes: &[u8]) -> (r: Self) {
        PoiMeta {
            kind: bytes[0],
            _pad: bytes[1],
            anchor_x: i16_from_bits(get_field(bytes, 2, 2) as u16),
            anchor_y: i16_from_bits(get_field(bytes, 4, 2) as u16),
        }
    }
}

#[derive(Debug, Clone, Copy, PartialEq, Eq, Structural)]
pub struct AreaMeta {
    pub kind: u8,
    pub layer: i8,
    /// Building floor count (`building:levels`, >=1); 1 for non-buildings.
    pub floors: u8,
    pub _pad: u8,
    /// Index of this area's first ring in the ring-meta array (ring 0 = outer).
    pub first_ring: u16,
    pub ring_count: u16,
}

impl Wire for AreaMeta {
    open spec fn wire_len() -> nat {
        8
    }

    open spec fn to_wire(self) -> Seq<u8> {
        seq![self.kind, i8_bits(self.layer) as u8, self.floors, self._pad] + le_bytes(
            self.first_ring as nat,
            2,
        ) + le_bytes(self.ring_count as nat, 2)
    }

    open spec fn from_wire(s: Seq<u8>) -> Self {
        AreaMeta {
            kind: s[0],
            layer: i8_of(s[1] as int),
            floors: s[2],
            _pad: s[3],
            first_ring: field(s, 4, 2) as u16,
            ring_count: field(s, 6, 2) as u16,
        }
    }

    proof fn wire_roundtrip(self) {
        lemma_i8_bits(self.layer);
        lemma_field_u16(self.first_ring as nat);
        lemma_field_u16(self.ring_count as nat);
        let s = self.to_wire();
        assert(s.subrange(4, 6) =~= le_bytes(self.first_ring as nat, 2));
        assert(s.subrange(6, 8) =~= le_bytes(self.ring_count as nat, 2));
    }

    fn wire_size() -> (n: usize) {
        8
    }

    fn put(&self, buf: &mut Vec<u8>) {
        buf.push(self.kind);
        buf.push(bits_of_i8(self.layer));
        buf.push(self.floors);
        buf.push(self._pad);
        put_le(buf, self.first_ring as u64, 2);
        put_le(buf, self.ring_count as u64, 2);
        assert(buf@ =~= old(buf)@ + self.to_wire());
    }

    fn get(bytes: &[u8]) -> (r: Self) {
        AreaMeta {
            kind: bytes[0],
            layer: i8_from_bits(bytes[1]),
            floors: bytes[2],
            _pad: bytes[3],
            first_ring: get_field(bytes, 4, 2) as u16,
            ring_count: get_field(bytes, 6, 2) as u16,
        }
    }
}

#[derive(Debug, Clone, Copy, PartialEq, Eq, Structural)]
pub struct RingMeta {
    pub vertex_count: u16,
}

impl Wire for RingMeta {
    open spec fn wire_len() -> nat {
        2
    }

    open spec fn to_wire(self) -> Seq<u8> {
        le_bytes(self.vertex_count as nat, 2)
    }

    open spec fn from_wire(s: Seq<u8>) -> Self {
        RingMeta { vertex_count: field(s, 0, 2) as u16 }
    }

    proof fn wire_roundtrip(self) {
        lemma_field_u16(self.vertex_count as nat);
        assert(self.to_wire().subrange(0, 2) =~= self.to_wire());
    }

    fn wire_size() -> (n: usize) {
        2
    }

    fn put(&self, buf: &mut Vec<u8>) {
        put_le(buf, self.vertex_count as u64, 2);
    }

    fn get(bytes: &[u8]) -> (r: Self) {
        RingMeta { vertex_count: get_field(bytes, 0, 2) as u16 }
    }
}

/// The zig-zag image of a delta: even for non-negative, odd for negative, taken
/// modulo 2^16.
pub open spec fn zigzag_of(d: int) -> nat {
    ((if d >= 0 {
        2 * d
    } else {
        -2 * d - 1
    }) % 0x1_0000) as nat
}

pub open spec fn dezigzag_of(z: int) -> int {
    if z % 2 == 0 {
        z / 2
    } else {
        -(z / 2) - 1
    }
}

/// Map a signed delta to an unsigned value where small magnitudes (either sign)
/// stay small, so the high byte is usually zero and the stream compresses well.
pub fn zigzag(d: i32) -> (r: u16)
    ensures
        r == zigzag_of(d as int),
{
    let wide: u64 = if d >= 0 {
        2 * (d as u64)
    } else {
        2 * ((-(d as i64)) as u64) - 1
    };
    (wide % 0x1_0000) as u16
}

/// Inverse of [`zigzag`].
pub fn dezigzag(z: u16) -> (r: i32)
    ensures
        r == dezigzag_of(z as int),
        -0x8000 <= r <= 0x7fff,
{
    if z % 2 == 0 {
        (z / 2) as i32
    } else {
        -((z / 2) as i32) - 1
    }
}

/// A delta that fits 16 signed bits survives the zig-zag image, and every image
/// is that of such a delta.
pub proof fn zigzag_roundtrip(d: int, z: u16)
    requires
        -0x8000 <= d <= 0x7fff,
    ensures
        dezigzag_of(zigzag_of(d) as int) == d,
        zigzag_of(d) <= 0xffff,
        zigzag_of(dezigzag_of(z as int)) == z,
        -0x8000 <= dezigzag_of(z as int) <= 0x7fff,
{
}

} // verus!
