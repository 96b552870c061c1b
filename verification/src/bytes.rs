//! Little-endian integers, bit masks and UTF-8 text on byte buffers, and the
//! cursor reads shared by the codecs.
//!
//! A read is described by a spec function from the bytes at the cursor to the
//! value, if there is one, and the bytes left behind.

use vstd::prelude::*;
use vstd::slice::slice_subrange;
use vstd::utf8::{decode_utf8, encode_utf8, valid_utf8};

use crate::varint::{
    lemma_uvarint_scan_bounds, read_uvarint, uvarint_bytes, uvarint_prefix_stable,
    uvarint_roundtrip, uvarint_size, uvarint_value, write_uvarint, MAX_UVARINT_LEN,
};

verus! {

/// The `n` low bytes of `v`, least significant first.
pub open spec fn le_bytes(v: nat, n: nat) -> Seq<u8>
    decreases n,
{
    if n == 0 {
        Seq::empty()
    } else {
        seq![(v % 256) as u8] + le_bytes(v / 256, (n - 1) as nat)
    }
}

/// The number whose little-endian bytes are `s`.
pub open spec fn le_value(s: Seq<u8>) -> nat
    decreases s.len(),
{
    if s.len() == 0 {
        0
    } else {
        s[0] as nat + 256 * le_value(s.skip(1))
    }
}

pub open spec fn pow256(n: nat) -> nat
    decreases n,
{
    if n == 0 {
        1
    } else {
        256 * pow256((n - 1) as nat)
    }
}

pub proof fn lemma_pow256_values()
    ensures
        pow256(1) == 0x100,
        pow256(2) == 0x1_0000,
        pow256(4) == 0x1_0000_0000,
        pow256(7) == 0x100_0000_0000_0000,
        pow256(8) == 0x1_0000_0000_0000_0000,
{
    reveal_with_fuel(pow256, 9);
}

pub proof fn lemma_pow256_monotone(a: nat, b: nat)
    requires
        a <= b,
    ensures
        1 <= pow256(a) <= pow256(b),
    decreases b,
{
    if a < b {
        lemma_pow256_monotone(a, (b - 1) as nat);
    } else if a > 0 {
        lemma_pow256_monotone((a - 1) as nat, (b - 1) as nat);
    }
}

pub broadcast proof fn lemma_le_bytes_len(v: nat, n: nat)
    ensures
        (#[trigger] le_bytes(v, n)).len() == n,
    decreases n,
{
    if n > 0 {
        lemma_le_bytes_len(v / 256, (n - 1) as nat);
    }
}

/// Reading back the bytes of a number that fits gives the number.
pub proof fn le_roundtrip(v: nat, n: nat)
    requires
        v < pow256(n),
    ensures
        le_value(le_bytes(v, n)) == v,
        le_bytes(v, n).len() == n,
    decreases n,
{
    lemma_le_bytes_len(v, n);
    if n > 0 {
        let rest = le_bytes(v / 256, (n - 1) as nat);
        assert(pow256(n) == 256 * pow256((n - 1) as nat));
        le_roundtrip(v / 256, (n - 1) as nat);
        assert(le_bytes(v, n).skip(1) =~= rest);
    }
}

pub proof fn lemma_le_value_bound(s: Seq<u8>)
    ensures
        le_value(s) < pow256(s.len()),
    decreases s.len(),
{
    if s.len() > 0 {
        lemma_le_value_bound(s.skip(1));
        assert(pow256(s.len()) == 256 * pow256((s.len() - 1) as nat));
    }
}

/// Bytes are the little-endian bytes of the number they hold.
pub proof fn le_bytes_of_value(s: Seq<u8>)
    ensures
        le_bytes(le_value(s), s.len()) == s,
    decreases s.len(),
{
    if s.len() > 0 {
        let v = le_value(s);
        le_bytes_of_value(s.skip(1));
        assert(v % 256 == s[0] as nat && v / 256 == le_value(s.skip(1)));
        assert(le_bytes(v, s.len()) =~= seq![s[0]] + s.skip(1));
        assert(seq![s[0]] + s.skip(1) =~= s);
    } else {
        assert(le_bytes(le_value(s), 0) =~= s);
    }
}

/// Append the `n` low bytes of `v`, least significant first.
pub fn put_le(buf: &mut Vec<u8>, v: u64, n: usize)
    ensures
        final(buf)@ == old(buf)@ + le_bytes(v as nat, n as nat),
{
    let mut rest: u64 = v;
    let mut left: usize = n;
    while left > 0
        invariant
            buf@ + le_bytes(rest as nat, left as nat) == old(buf)@ + le_bytes(v as nat, n as nat),
        decreases left,
    {
        let ghost before = buf@;
        let ghost was = rest as nat;
        buf.push((rest % 256) as u8);
        rest = rest / 256;
        left = left - 1;
        assert(buf@ + le_bytes(rest as nat, left as nat) =~= before + le_bytes(
            was,
            (left + 1) as nat,
        ));
    }
    assert(buf@ =~= buf@ + le_bytes(rest as nat, 0));
}

/// The number in `bytes`, least significant byte first.
pub fn get_le(bytes: &[u8]) -> (v: u64)
    requires
        bytes@.len() <= 8,
    ensures
        v == le_value(bytes@),
        v < pow256(bytes@.len()),
{
    let mut i: usize = bytes.len();
    let mut v: u64 = 0;
    proof {
        lemma_pow256_values();
        lemma_le_value_bound(bytes@);
    }
    assert(bytes@.skip(bytes@.len() as int).len() == 0);
    while i > 0
        invariant
            i <= bytes@.len() <= 8,
            v == le_value(bytes@.skip(i as int)),
            pow256(7) == 0x100_0000_0000_0000,
        decreases i,
    {
        i = i - 1;
        let ghost rest = bytes@.skip(i as int);
        proof {
            assert(rest.skip(1) =~= bytes@.skip(i + 1));
            assert(rest[0] == bytes@[i as int]);
            lemma_le_value_bound(rest.skip(1));
            lemma_pow256_monotone((bytes@.len() - i - 1) as nat, 7);
        }
        v = bytes[i] as u64 + 256 * v;
    }
    assert(bytes@.skip(0) =~= bytes@);
    v
}

/// Two's-complement bits of an `i16`.
pub open spec fn i16_bits(v: i16) -> nat {
    if v < 0 {
        (v + 0x1_0000) as nat
    } else {
        v as nat
    }
}

/// The `i16` with the given bits, taken modulo 2^16.
pub open spec fn i16_of(bits: int) -> i16 {
    let m = bits % 0x1_0000;
    if m < 0x8000 {
        m as i16
    } else {
        (m - 0x1_0000) as i16
    }
}

pub open spec fn i8_bits(v: i8) -> nat {
    if v < 0 {
        (v + 0x100) as nat
    } else {
        v as nat
    }
}

pub open spec fn i8_of(bits: int) -> i8 {
    let m = bits % 0x100;
    if m < 0x80 {
        m as i8
    } else {
        (m - 0x100) as i8
    }
}

pub proof fn lemma_i16_bits(v: i16)
    ensures
        i16_bits(v) < 0x1_0000,
        i16_of(i16_bits(v) as int) == v,
{
}

pub proof fn lemma_i8_bits(v: i8)
    ensures
        i8_bits(v) < 0x100,
        i8_of(i8_bits(v) as int) == v,
{
}

pub fn bits_of_i16(v: i16) -> (r: u16)
    ensures
        r == i16_bits(v),
{
    if v < 0 {
        (v as i32 + 0x1_0000) as u16
    } else {
        v as u16
    }
}

pub fn i16_from_bits(b: u16) -> (r: i16)
    ensures
        r == i16_of(b as int),
{
    if b < 0x8000 {
        b as i16
    } else {
        (b as i32 - 0x1_0000) as i16
    }
}

pub fn bits_of_i8(v: i8) -> (r: u8)
    ensures
        r == i8_bits(v),
{
    if v < 0 {
        (v as i16 + 0x100) as u8
    } else {
        v as u8
    }
}

pub fn i8_from_bits(b: u8) -> (r: i8)
    ensures
        r == i8_of(b as int),
{
    if b < 0x80 {
        b as i8
    } else {
        (b as i16 - 0x100) as i8
    }
}

/// Two's-complement bits of an `i32`.
pub open spec fn i32_bits(v: i32) -> nat {
    if v < 0 {
        (v + 0x1_0000_0000) as nat
    } else {
        v as nat
    }
}

/// The low 32 bits of a number, as a signed number.
pub open spec fn i32_of(bits: int) -> i32 {
    let m = bits % 0x1_0000_0000;
    if m < 0x8000_0000 {
        m as i32
    } else {
        (m - 0x1_0000_0000) as i32
    }
}

pub proof fn lemma_i32_bits(v: i32)
    ensures
        i32_bits(v) < 0x1_0000_0000,
        i32_of(i32_bits(v) as int) == v,
{
}

pub fn bits_of_i32(v: i32) -> (r: u32)
    ensures
        r == i32_bits(v),
{
    if v < 0 {
        (v as i64 + 0x1_0000_0000) as u32
    } else {
        v as u32
    }
}

pub fn i32_from_bits(b: u32) -> (r: i32)
    ensures
        r == i32_of(b as int),
{
    if b < 0x8000_0000 {
        b as i32
    } else {
        (b as i64 - 0x1_0000_0000) as i32
    }
}

/// Append all of `data`.
pub fn put_bytes(buf: &mut Vec<u8>, data: &[u8])
    ensures
        final(buf)@ == old(buf)@ + data@,
{
    let mut i: usize = 0;
    while i < data.len()
        invariant
            i <= data@.len(),
            buf@ == old(buf)@ + data@.take(i as int),
        decreases data@.len() - i,
    {
        buf.push(data[i]);
        i = i + 1;
        assert(data@.take(i as int) =~= data@.take(i - 1).push(data@[i - 1]));
    }
    assert(data@.take(i as int) =~= data@);
}

/// A copy of `data`.
pub fn bytes_to_vec(data: &[u8]) -> (r: Vec<u8>)
    ensures
        r@ == data@,
{
    let mut r: Vec<u8> = Vec::new();
    put_bytes(&mut r, data);
    assert(r@ =~= data@);
    r
}

pub proof fn lemma_cat<T>(a: Seq<T>, b: Seq<T>, c: Seq<T>)
    ensures
        (a + b) + c == a + (b + c),
{
    assert((a + b) + c =~= a + (b + c));
}

// ---- cursor reads ----

/// Taking `n` bytes: nothing is taken where fewer are left.
pub open spec fn take_at(s: Seq<u8>, n: nat) -> (Option<Seq<u8>>, Seq<u8>) {
    if n <= s.len() {
        (Some(s.take(n as int)), s.skip(n as int))
    } else {
        (None, s)
    }
}

pub open spec fn u8_at(s: Seq<u8>) -> (Option<u8>, Seq<u8>) {
    if s.len() >= 1 {
        (Some(s[0]), s.skip(1))
    } else {
        (None, s)
    }
}

pub open spec fn le_at(s: Seq<u8>, n: nat) -> (Option<nat>, Seq<u8>) {
    if n <= s.len() {
        (Some(le_value(s.take(n as int))), s.skip(n as int))
    } else {
        (None, s)
    }
}

pub open spec fn uvarint_at(s: Seq<u8>) -> (Option<u64>, Seq<u8>) {
    (uvarint_value(s), s.skip(uvarint_size(s) as int))
}

pub fn read_u8(cursor: &mut &[u8]) -> (r: Option<u8>)
    ensures
        (r, final(cursor)@) == u8_at(old(cursor)@),
{
    let c: &[u8] = *cursor;
    if c.len() == 0 {
        return None;
    }
    *cursor = slice_subrange(c, 1, c.len());
    assert(cursor@ =~= c@.skip(1));
    Some(c[0])
}

/// Take `n` bytes off the cursor.
pub fn take<'a>(cursor: &mut &'a [u8], n: u64) -> (r: Option<&'a [u8]>)
    ensures
        match r {
            Some(b) => (Some(b@), final(cursor)@) == take_at(old(cursor)@, n as nat),
            None => take_at(old(cursor)@, n as nat).0 is None && final(cursor)@ == old(cursor)@,
        },
{
    let c: &'a [u8] = *cursor;
    if n > c.len() as u64 {
        return None;
    }
    let n: usize = n as usize;
    *cursor = slice_subrange(c, n, c.len());
    assert(cursor@ =~= c@.skip(n as int));
    Some(slice_subrange(c, 0, n))
}

/// Take an `n`-byte little-endian number off the cursor.
pub fn read_le(cursor: &mut &[u8], n: usize) -> (r: Option<u64>)
    requires
        n <= 8,
    ensures
        match r {
            Some(v) => (Some(v as nat), final(cursor)@) == le_at(old(cursor)@, n as nat) && v < pow256(
                n as nat,
            ),
            None => le_at(old(cursor)@, n as nat).0 is None && final(cursor)@ == old(cursor)@,
        },
{
    match take(cursor, n as u64) {
        Some(b) => Some(get_le(b)),
        None => None,
    }
}

/// A number written in front of `tail` is read back, leaving `tail`.
pub proof fn le_read_roundtrip(v: nat, n: nat, tail: Seq<u8>)
    requires
        v < pow256(n),
    ensures
        le_at(le_bytes(v, n) + tail, n) == (Some(v), tail),
{
    le_roundtrip(v, n);
    let s = le_bytes(v, n) + tail;
    assert(s.take(n as int) =~= le_bytes(v, n));
    assert(s.skip(n as int) =~= tail);
}

pub proof fn uvarint_read_roundtrip(v: u64, tail: Seq<u8>)
    ensures
        uvarint_at(uvarint_bytes(v as nat) + tail) == (Some(v), tail),
{
    uvarint_roundtrip(v, tail);
    let s = uvarint_bytes(v as nat) + tail;
    assert(s.skip(uvarint_bytes(v as nat).len() as int) =~= tail);
}

pub proof fn take_read_roundtrip(data: Seq<u8>, tail: Seq<u8>)
    ensures
        take_at(data + tail, data.len()) == (Some(data), tail),
{
    assert((data + tail).take(data.len() as int) =~= data);
    assert((data + tail).skip(data.len() as int) =~= tail);
}

pub open spec fn uvarint_reader() -> spec_fn(Seq<u8>) -> (Option<u64>, Seq<u8>) {
    |s: Seq<u8>| uvarint_at(s)
}

pub open spec fn uvarint_image() -> spec_fn(u64) -> Seq<u8> {
    |v: u64| uvarint_bytes(v as nat)
}

/// Varints written one behind the other read back as the values.
pub proof fn uvarints_roundtrip(values: Seq<u64>, tail: Seq<u8>)
    ensures
        many_at(uvarint_reader(), flat(uvarint_image(), values) + tail, values.len()) == (
            Some(values),
            tail,
        ),
{
    assert forall|i: int, t: Seq<u8>| 0 <= i < values.len() implies #[trigger] uvarint_reader()(
        uvarint_image()(values[i]) + t,
    ) == (Some(values[i]), t) by {
        uvarint_read_roundtrip(values[i], t);
    }
    many_roundtrip(uvarint_reader(), uvarint_image(), values, tail);
}

/// Append the values as varints.
pub fn put_uvarints(buf: &mut Vec<u8>, values: &Vec<u64>)
    ensures
        final(buf)@ == old(buf)@ + flat(uvarint_image(), values@),
{
    let mut i: usize = 0;
    assert(buf@ =~= buf@ + flat(uvarint_image(), values@.take(0)));
    while i < values.len()
        invariant
            i <= values@.len(),
            buf@ == old(buf)@ + flat(uvarint_image(), values@.take(i as int)),
        decreases values@.len() - i,
    {
        write_uvarint(buf, values[i]);
        i = i + 1;
        proof {
            let done = values@.take(i as int);
            assert(done.drop_last() =~= values@.take(i - 1));
            assert(done.last() == values@[i - 1]);
            assert(buf@ =~= old(buf)@ + flat(uvarint_image(), done));
        }
    }
    assert(values@.take(i as int) =~= values@);
}

/// Take `n` varints off the cursor.
pub fn read_uvarints(cursor: &mut &[u8], n: u64) -> (r: Option<Vec<u64>>)
    ensures
        (
            match r {
                Some(v) => Some(v@),
                None => None,
            },
            final(cursor)@,
        ) == many_at(uvarint_reader(), old(cursor)@, n as nat),
        r matches Some(v) ==> v@.len() == n,
{
    let ghost s = cursor@;
    let mut out: Vec<u64> = Vec::new();
    let mut i: u64 = 0;
    proof {
        if let Some(items) = many_at(uvarint_reader(), s, n as nat).0 {
            assert(Seq::empty() + items =~= items);
        }
        assert(out@ =~= Seq::empty());
    }
    while i < n
        invariant
            i <= n,
            s == old(cursor)@,
            out@.len() == i,
            many_at(uvarint_reader(), s, n as nat) == prepend(
                out@,
                many_at(uvarint_reader(), cursor@, (n - i) as nat),
            ),
        decreases n - i,
    {
        proof {
            lemma_many_step(uvarint_reader(), out@, cursor@, (n - i) as nat);
        }
        match read_uvarint(cursor) {
            None => return None,
            Some(v) => out.push(v),
        }
        i = i + 1;
    }
    assert(out@ + Seq::empty() =~= out@);
    Some(out)
}

/// Reading `n` items, one behind the other; the first that fails ends the read
/// where it stopped.
pub open spec fn many_at<T>(
    item: spec_fn(Seq<u8>) -> (Option<T>, Seq<u8>),
    s: Seq<u8>,
    n: nat,
) -> (Option<Seq<T>>, Seq<u8>)
    decreases n,
{
    if n == 0 {
        (Some(Seq::empty()), s)
    } else {
        match item(s) {
            (None, rest) => (None, rest),
            (Some(v), rest) => prepend(seq![v], many_at(item, rest, (n - 1) as nat)),
        }
    }
}

/// The result of a read, with items already read put in front.
pub open spec fn prepend<T>(front: Seq<T>, r: (Option<Seq<T>>, Seq<u8>)) -> (
    Option<Seq<T>>,
    Seq<u8>,
) {
    (
        match r.0 {
            Some(items) => Some(front + items),
            None => None,
        },
        r.1,
    )
}

/// One step of a read of many.
pub proof fn lemma_many_step<T>(
    item: spec_fn(Seq<u8>) -> (Option<T>, Seq<u8>),
    front: Seq<T>,
    s: Seq<u8>,
    n: nat,
)
    requires
        n > 0,
    ensures
        item(s) matches (Some(v), rest) ==> prepend(front, many_at(item, s, n)) == prepend(
            front.push(v),
            many_at(item, rest, (n - 1) as nat),
        ),
        item(s) matches (None, rest) ==> prepend(front, many_at(item, s, n)) == (
            None::<Seq<T>>,
            rest,
        ),
{
    if let (Some(v), rest) = item(s) {
        if let Some(items) = many_at(item, rest, (n - 1) as nat).0 {
            assert(front + (seq![v] + items) =~= front.push(v) + items);
        }
    }
}

/// The images of `items`, one behind the other.
pub open spec fn flat<T>(image: spec_fn(T) -> Seq<u8>, items: Seq<T>) -> Seq<u8>
    decreases items.len(),
{
    if items.len() == 0 {
        Seq::empty()
    } else {
        flat(image, items.drop_last()) + image(items.last())
    }
}

pub proof fn lemma_flat_first<T>(image: spec_fn(T) -> Seq<u8>, items: Seq<T>)
    requires
        items.len() > 0,
    ensures
        flat(image, items) == image(items[0]) + flat(image, items.skip(1)),
    decreases items.len(),
{
    if items.len() == 1 {
        assert(items.drop_last() =~= Seq::empty());
        assert(items.skip(1) =~= Seq::empty());
        assert(flat(image, items) =~= image(items[0]) + flat(image, items.skip(1)));
    } else {
        lemma_flat_first(image, items.drop_last());
        assert(items.skip(1).drop_last() =~= items.drop_last().skip(1));
        assert(flat(image, items) =~= image(items[0]) + flat(image, items.skip(1)));
    }
}

/// Where each image reads back as its item whatever follows it, images written
/// one behind the other read back as the items.
pub proof fn many_roundtrip<T>(
    item: spec_fn(Seq<u8>) -> (Option<T>, Seq<u8>),
    image: spec_fn(T) -> Seq<u8>,
    items: Seq<T>,
    tail: Seq<u8>,
)
    requires
        forall|i: int, t: Seq<u8>|
            0 <= i < items.len() ==> #[trigger] item(image(items[i]) + t) == (Some(items[i]), t),
    ensures
        many_at(item, flat(image, items) + tail, items.len()) == (Some(items), tail),
    decreases items.len(),
{
    if items.len() == 0 {
        assert(flat(image, items) + tail =~= tail);
        assert(items =~= Seq::empty());
    } else {
        let rest = items.skip(1);
        lemma_flat_first(image, items);
        let t = flat(image, rest) + tail;
        assert(flat(image, items) + tail =~= image(items[0]) + t);
        assert(item(image(items[0]) + t) == (Some(items[0]), t));
        assert forall|i: int, u: Seq<u8>| 0 <= i < rest.len() implies #[trigger] item(
            image(rest[i]) + u,
        ) == (Some(rest[i]), u) by {
            assert(rest[i] == items[i + 1]);
        }
        many_roundtrip(item, image, rest, tail);
        assert(seq![items[0]] + rest =~= items);
    }
}

// ---- reads and what follows them ----

/// A read that succeeded gives the same with `tail` behind the bytes, and leaves
/// `tail` alone.
pub open spec fn extends<T>(
    read: (Option<T>, Seq<u8>),
    longer: (Option<T>, Seq<u8>),
    tail: Seq<u8>,
) -> bool {
    read.0 is Some ==> longer == (read.0, read.1 + tail)
}

pub proof fn u8_extends(s: Seq<u8>, tail: Seq<u8>)
    ensures
        extends(u8_at(s), u8_at(s + tail), tail),
{
    if s.len() >= 1 {
        assert((s + tail).skip(1) =~= s.skip(1) + tail);
    }
}

pub proof fn take_extends(s: Seq<u8>, n: nat, tail: Seq<u8>)
    ensures
        extends(take_at(s, n), take_at(s + tail, n), tail),
{
    if n <= s.len() {
        assert((s + tail).take(n as int) =~= s.take(n as int));
        assert((s + tail).skip(n as int) =~= s.skip(n as int) + tail);
    }
}

pub proof fn le_extends(s: Seq<u8>, n: nat, tail: Seq<u8>)
    ensures
        extends(le_at(s, n), le_at(s + tail, n), tail),
{
    if n <= s.len() {
        assert((s + tail).take(n as int) =~= s.take(n as int));
        assert((s + tail).skip(n as int) =~= s.skip(n as int) + tail);
    }
}

pub proof fn uvarint_extends(s: Seq<u8>, tail: Seq<u8>)
    ensures
        extends(uvarint_at(s), uvarint_at(s + tail), tail),
{
    if uvarint_value(s) is Some {
        uvarint_prefix_stable(s, tail);
        lemma_uvarint_scan_bounds(s, MAX_UVARINT_LEN as nat);
        let n = uvarint_size(s) as int;
        assert((s + tail).skip(n) =~= s.skip(n) + tail);
    }
}

/// Where the read of one item extends, so does the read of many.
pub proof fn many_extends<T>(
    item: spec_fn(Seq<u8>) -> (Option<T>, Seq<u8>),
    s: Seq<u8>,
    n: nat,
    tail: Seq<u8>,
)
    requires
        forall|t: Seq<u8>| extends(item(t), #[trigger] item(t + tail), tail),
    ensures
        extends(many_at(item, s, n), many_at(item, s + tail, n), tail),
    decreases n,
{
    if n > 0 {
        let (v, rest) = item(s);
        assert(extends(item(s), item(s + tail), tail));
        if v is Some {
            many_extends(item, rest, (n - 1) as nat, tail);
        }
    }
}

pub proof fn uvarints_extend(s: Seq<u8>, n: nat, tail: Seq<u8>)
    ensures
        extends(
            many_at(uvarint_reader(), s, n),
            many_at(uvarint_reader(), s + tail, n),
            tail,
        ),
{
    assert forall|t: Seq<u8>| extends(
        uvarint_reader()(t),
        #[trigger] uvarint_reader()(t + tail),
        tail,
    ) by {
        uvarint_extends(t, tail);
    }
    many_extends(uvarint_reader(), s, n, tail);
}

/// Take a varint off the cursor.
pub fn read_varint(cursor: &mut &[u8]) -> (r: Option<u64>)
    ensures
        (r, final(cursor)@) == uvarint_at(old(cursor)@),
        final(cursor)@.len() <= old(cursor)@.len(),
        r is Some ==> final(cursor)@.len() < old(cursor)@.len(),
{
    read_uvarint(cursor)
}

// ---- bit masks ----

/// The byte whose bit `i` is `bits[i]`, least significant first.
pub open spec fn byte_of(bits: Seq<bool>) -> nat
    decreases bits.len(),
{
    if bits.len() == 0 {
        0
    } else {
        (if bits[0] {
            1nat
        } else {
            0nat
        }) + 2 * byte_of(bits.skip(1))
    }
}

/// Bit `k` of `b`.
pub open spec fn bit_of(b: nat, k: nat) -> bool
    decreases k,
{
    if k == 0 {
        b % 2 == 1
    } else {
        bit_of(b / 2, (k - 1) as nat)
    }
}

/// How many bytes hold `n` flags.
pub open spec fn mask_len(n: nat) -> nat {
    (n + 7) / 8
}

/// The flags that belong in byte `j` of a mask.
pub open spec fn mask_chunk(bits: Seq<bool>, j: int) -> Seq<bool> {
    bits.subrange(8 * j, if 8 * j + 8 <= bits.len() {
        8 * j + 8
    } else {
        bits.len() as int
    })
}

/// One bit per flag, least significant first, the last byte padded with zeros.
#[verifier::opaque]
pub open spec fn mask_bytes(bits: Seq<bool>) -> Seq<u8> {
    Seq::new(mask_len(bits.len()), |j: int| byte_of(mask_chunk(bits, j)) as u8)
}

/// The first `n` flags of a mask.
#[verifier::opaque]
pub open spec fn mask_bits(data: Seq<u8>, n: nat) -> Seq<bool> {
    Seq::new(n, |i: int| bit_of(data[i / 8] as nat, (i % 8) as nat))
}

pub open spec fn pow2n(n: nat) -> nat
    decreases n,
{
    if n == 0 {
        1
    } else {
        2 * pow2n((n - 1) as nat)
    }
}

proof fn lemma_byte_of_bound(bits: Seq<bool>)
    ensures
        byte_of(bits) < pow2n(bits.len()),
    decreases bits.len(),
{
    if bits.len() > 0 {
        lemma_byte_of_bound(bits.skip(1));
        assert(pow2n(bits.len()) == 2 * pow2n((bits.len() - 1) as nat));
    }
}

proof fn lemma_byte_of_small(bits: Seq<bool>)
    requires
        bits.len() <= 8,
    ensures
        byte_of(bits) < 256,
{
    lemma_byte_of_bound(bits);
    reveal_with_fuel(pow2n, 9);
}

proof fn lemma_bit_of_byte(bits: Seq<bool>, k: nat)
    requires
        k < bits.len(),
    ensures
        bit_of(byte_of(bits), k) == bits[k as int],
    decreases k,
{
    if k > 0 {
        lemma_bit_of_byte(bits.skip(1), (k - 1) as nat);
        assert(byte_of(bits) / 2 == byte_of(bits.skip(1)));
        assert(bits.skip(1)[k - 1] == bits[k as int]);
    }
}

/// Unpacking a packed mask gives the flags back.
pub proof fn mask_roundtrip(bits: Seq<bool>)
    ensures
        mask_bits(mask_bytes(bits), bits.len()) == bits,
        mask_bytes(bits).len() == mask_len(bits.len()),
{
    reveal(mask_bytes);
    reveal(mask_bits);
    let data = mask_bytes(bits);
    assert forall|i: int| 0 <= i < bits.len() implies mask_bits(data, bits.len())[i] == bits[i] by {
        let chunk = mask_chunk(bits, i / 8);
        lemma_byte_of_small(chunk);
        lemma_bit_of_byte(chunk, (i % 8) as nat);
        assert(data[i / 8] as nat == byte_of(chunk));
        assert(chunk[i % 8] == bits[i]);
    }
    assert(mask_bits(data, bits.len()) =~= bits);
}

proof fn lemma_byte_of_push(bits: Seq<bool>, b: bool)
    ensures
        byte_of(bits.push(b)) == byte_of(bits) + (if b {
            pow2n(bits.len())
        } else {
            0
        }),
    decreases bits.len(),
{
    if bits.len() == 0 {
        assert(bits.push(b).skip(1) =~= Seq::empty());
        assert(byte_of(bits.push(b).skip(1)) == 0);
        assert(pow2n(0) == 1);
    } else {
        lemma_byte_of_push(bits.skip(1), b);
        assert(bits.push(b).skip(1) =~= bits.skip(1).push(b));
        assert(pow2n(bits.len()) == 2 * pow2n((bits.len() - 1) as nat));
    }
}

/// Append one bit per flag, least significant first, the last byte padded with
/// zeros.
pub fn put_mask(buf: &mut Vec<u8>, bits: &[bool])
    ensures
        final(buf)@ == old(buf)@ + mask_bytes(bits@),
{
    proof {
        reveal(mask_bytes);
    }
    let mut i: usize = 0;
    let ghost mut j: int = 0;
    while i < bits.len()
        invariant
            i <= bits@.len(),
            0 <= j <= mask_len(bits@.len()),
            i == if 8 * j <= bits@.len() {
                8 * j
            } else {
                bits@.len() as int
            },
            buf@ == old(buf)@ + mask_bytes(bits@).take(j),
        decreases bits@.len() - i,
    {
        let mut byte: u8 = 0;
        let mut weight: u16 = 1;
        let mut k: usize = 0;
        let ghost chunk = mask_chunk(bits@, j);
        while k < 8 && i < bits.len()
            invariant
                k <= 8,
                i <= bits@.len(),
                i == 8 * j + k,
                8 * j < bits@.len(),
                chunk == mask_chunk(bits@, j),
                k <= chunk.len() <= 8,
                byte == byte_of(chunk.take(k as int)),
                weight == pow2n(k as nat),
                byte < weight <= 256,
            decreases 8 - k,
        {
            proof {
                assert(chunk.take(k + 1) =~= chunk.take(k as int).push(chunk[k as int]));
                assert(chunk[k as int] == bits@[i as int]);
                lemma_byte_of_push(chunk.take(k as int), bits@[i as int]);
                lemma_byte_of_small(chunk.take(k + 1));
                lemma_byte_of_bound(chunk.take(k + 1));
                reveal_with_fuel(pow2n, 9);
                assert(weight <= 128) by {
                    if k == 0 {
                    } else if k == 1 {
                    } else if k == 2 {
                    } else if k == 3 {
                    } else if k == 4 {
                    } else if k == 5 {
                    } else if k == 6 {
                    } else {
                        assert(k == 7);
                    }
                }
            }
            if bits[i] {
                byte = byte + weight as u8;
            }
            weight = weight * 2;
            k = k + 1;
            i = i + 1;
        }
        assert(chunk.take(k as int) =~= chunk);
        buf.push(byte);
        proof {
            reveal(mask_bytes);
            j = j + 1;
            assert(mask_bytes(bits@).take(j) =~= mask_bytes(bits@).take(j - 1).push(byte));
        }
    }
    assert(mask_bytes(bits@).take(j) =~= mask_bytes(bits@));
}

/// The first `n` flags of `data`.
pub fn get_mask(data: &[u8], n: usize) -> (r: Vec<bool>)
    requires
        data@.len() == mask_len(n as nat),
    ensures
        r@ == mask_bits(data@, n as nat),
{
    proof {
        reveal(mask_bits);
    }
    let mut r: Vec<bool> = Vec::new();
    let mut byte: u8 = 0;
    let mut i: usize = 0;
    while i < n
        invariant
            i <= n,
            data@.len() == mask_len(n as nat),
            r@ == mask_bits(data@, n as nat).take(i as int),
            i % 8 != 0 ==> forall|k: nat|
                #[trigger] bit_of(byte as nat, k) == bit_of(
                    data@[i as int / 8] as nat,
                    (i % 8 + k) as nat,
                ),
        decreases n - i,
    {
        if i % 8 == 0 {
            byte = data[i / 8];
        }
        let ghost was = byte as nat;
        assert forall|k: nat| #[trigger] bit_of(was, k) == bit_of(
            data@[i as int / 8] as nat,
            (i % 8 + k) as nat,
        ) by {}
        assert(bit_of(was, 0) == bit_of(data@[i as int / 8] as nat, (i % 8) as nat));
        r.push(byte % 2 == 1);
        byte = byte / 2;
        i = i + 1;
        proof {
            reveal(mask_bits);
            assert(r@ =~= mask_bits(data@, n as nat).take(i as int));
            if i % 8 != 0 {
                assert forall|k: nat| #[trigger] bit_of(byte as nat, k) == bit_of(
                    data@[i as int / 8] as nat,
                    (i % 8 + k) as nat,
                ) by {
                    assert(bit_of(was, k + 1) == bit_of(byte as nat, k));
                    assert(i as int / 8 == (i - 1) / 8);
                }
            }
        }
    }
    assert(mask_bits(data@, n as nat).take(n as int) =~= mask_bits(data@, n as nat));
    r
}

// ---- text ----

/// `String::from_utf8`: text where the bytes are valid UTF-8, nothing otherwise.
#[verifier::external_body]
pub(crate) fn string_from_utf8(bytes: Vec<u8>) -> (r: Option<String>)
    ensures
        match r {
            Some(s) => valid_utf8(bytes@) && s@ == decode_utf8(bytes@),
            None => !valid_utf8(bytes@),
        },
{
    String::from_utf8(bytes).ok()
}

/// Text as its UTF-8 bytes comes back as the same text.
pub proof fn utf8_roundtrip(chars: Seq<char>)
    ensures
        valid_utf8(encode_utf8(chars)),
        decode_utf8(encode_utf8(chars)) == chars,
{
    vstd::utf8::encode_utf8_valid_utf8(chars);
    vstd::utf8::encode_utf8_decode_utf8(chars);
}

} // verus!
