//! LEB128 unsigned varints, shared by the spill record codec and the PMTiles
//! directory codec.

use vstd::prelude::*;
use vstd::slice::slice_subrange;

verus! {

/// The most bytes a 64-bit value can take.
pub const MAX_UVARINT_LEN: usize = 10;

/// The canonical LEB128 encoding of `v`: seven bits per byte, least significant
/// first, the high bit set on every byte but the last.
pub open spec fn uvarint_bytes(v: nat) -> Seq<u8>
    decreases v,
{
    if v < 128 {
        seq![v as u8]
    } else {
        seq![(v % 128 + 128) as u8] + uvarint_bytes(v / 128)
    }
}

/// What the first bytes of `s` encode, looking at no more than `budget` of them:
/// the value, if a final byte was found, and the number of bytes looked at.
pub open spec fn uvarint_scan(s: Seq<u8>, budget: nat) -> (Option<nat>, nat)
    decreases budget,
{
    if s.len() == 0 || budget == 0 {
        (None, 0)
    } else if s[0] < 128 {
        (Some(s[0] as nat), 1)
    } else {
        let (rest, n) = uvarint_scan(s.skip(1), (budget - 1) as nat);
        (
            match rest {
                Some(v) => Some((s[0] - 128 + 128 * v) as nat),
                None => None,
            },
            n + 1,
        )
    }
}

/// The varint at the front of `s`; `None` where it is truncated or does not fit
/// 64 bits.
pub open spec fn uvarint_value(s: Seq<u8>) -> Option<u64> {
    match uvarint_scan(s, MAX_UVARINT_LEN as nat).0 {
        Some(v) => if v <= u64::MAX {
            Some(v as u64)
        } else {
            None
        },
        None => None,
    }
}

/// How many bytes of `s` a read looks at.
pub open spec fn uvarint_size(s: Seq<u8>) -> nat {
    uvarint_scan(s, MAX_UVARINT_LEN as nat).1
}

pub proof fn lemma_uvarint_scan_bounds(s: Seq<u8>, budget: nat)
    ensures
        uvarint_scan(s, budget).1 <= s.len(),
        uvarint_scan(s, budget).1 <= budget,
        uvarint_scan(s, budget).0 is Some ==> uvarint_scan(s, budget).1 >= 1,
    decreases budget,
{
    if s.len() > 0 && budget > 0 && s[0] >= 128 {
        lemma_uvarint_scan_bounds(s.skip(1), (budget - 1) as nat);
    }
}

pub open spec fn pow128(n: nat) -> nat
    decreases n,
{
    if n == 0 {
        1
    } else {
        128 * pow128((n - 1) as nat)
    }
}

proof fn lemma_scan_of_bytes(v: nat, tail: Seq<u8>, budget: nat)
    requires
        budget >= 1,
        v < pow128(budget),
    ensures
        uvarint_scan(uvarint_bytes(v) + tail, budget) == (
            Some(v),
            uvarint_bytes(v).len(),
        ),
    decreases v,
{
    let s = uvarint_bytes(v) + tail;
    if v < 128 {
        assert(s[0] == v as u8);
    } else {
        let hi = v / 128;
        assert(s.skip(1) =~= uvarint_bytes(hi) + tail);
        assert(s[0] == (v % 128 + 128) as u8);
        assert(pow128(budget) == 128 * pow128((budget - 1) as nat));
        if budget == 1 {
            assert(pow128(0) == 1);
        }
        lemma_scan_of_bytes(hi, tail, (budget - 1) as nat);
    }
}

pub proof fn lemma_uvarint_bytes_len(v: nat, n: nat)
    requires
        n >= 1,
        v < pow128(n),
    ensures
        1 <= uvarint_bytes(v).len() <= n,
    decreases v,
{
    if v >= 128 {
        assert(pow128(n) == 128 * pow128((n - 1) as nat));
        if n == 1 {
            assert(pow128(0) == 1);
        }
        lemma_uvarint_bytes_len(v / 128, (n - 1) as nat);
    }
}

pub proof fn lemma_pow128_values()
    ensures
        pow128(1) == 128,
        pow128(9) == 0x8000_0000_0000_0000,
        pow128(10) == 0x40_0000_0000_0000_0000,
{
    reveal_with_fuel(pow128, 11);
}

/// Reading what was written gives the value back and stops right behind it,
/// whatever follows.
pub proof fn uvarint_roundtrip(v: u64, tail: Seq<u8>)
    ensures
        uvarint_value(uvarint_bytes(v as nat) + tail) == Some(v),
        uvarint_size(uvarint_bytes(v as nat) + tail) == uvarint_bytes(v as nat).len(),
        1 <= uvarint_bytes(v as nat).len() <= MAX_UVARINT_LEN,
{
    lemma_pow128_values();
    lemma_scan_of_bytes(v as nat, tail, 10);
    lemma_uvarint_bytes_len(v as nat, 10);
}

/// A read that succeeds needs only the bytes it looked at: bytes behind them do
/// not change it.
pub proof fn uvarint_prefix_stable(s: Seq<u8>, tail: Seq<u8>)
    requires
        uvarint_value(s) is Some,
    ensures
        uvarint_value(s + tail) == uvarint_value(s),
        uvarint_size(s + tail) == uvarint_size(s),
{
    lemma_scan_extend(s, tail, MAX_UVARINT_LEN as nat);
}

proof fn lemma_scan_extend(s: Seq<u8>, tail: Seq<u8>, budget: nat)
    requires
        uvarint_scan(s, budget).0 is Some,
    ensures
        uvarint_scan(s + tail, budget) == uvarint_scan(s, budget),
    decreases budget,
{
    assert((s + tail)[0] == s[0]);
    if s[0] >= 128 {
        assert((s + tail).skip(1) =~= s.skip(1) + tail);
        lemma_scan_extend(s.skip(1), tail, (budget - 1) as nat);
    }
}

/// Append `v` as an LEB128 unsigned varint.
pub fn write_uvarint(buf: &mut Vec<u8>, v: u64)
    ensures
        final(buf)@ == old(buf)@ + uvarint_bytes(v as nat),
{
    let mut v: u64 = v;
    let ghost v0 = v as nat;
    while v >= 0x80
        invariant
            buf@ + uvarint_bytes(v as nat) == old(buf)@ + uvarint_bytes(v0),
        decreases v,
    {
        let ghost before = buf@;
        let ghost was = v as nat;
        buf.push((v % 0x80 + 0x80) as u8);
        v = v / 0x80;
        assert(buf@ + uvarint_bytes(v as nat) =~= before + uvarint_bytes(was));
    }
    let ghost before = buf@;
    buf.push(v as u8);
    assert(buf@ =~= before + uvarint_bytes(v as nat));
}

/// Read one LEB128 unsigned varint, advancing `cursor` past the bytes looked at.
/// Returns `None` on a truncated or overlong (> 64-bit) encoding.
pub fn read_uvarint(cursor: &mut &[u8]) -> (r: Option<u64>)
    ensures
        r == uvarint_value(old(cursor)@),
        final(cursor)@ == old(cursor)@.skip(uvarint_size(old(cursor)@) as int),
        uvarint_size(old(cursor)@) <= old(cursor)@.len(),
        r is Some ==> uvarint_size(old(cursor)@) >= 1,
{
    let ghost s = cursor@;
    let mut acc: u128 = 0;
    let mut factor: u128 = 1;
    let mut i: usize = 0;
    proof {
        lemma_uvarint_scan_bounds(s, 10);
        lemma_pow128_values();
        assert(pow128(0) == 1);
        assert(s.skip(0) =~= s);
    }
    while i < MAX_UVARINT_LEN
        invariant
            i <= MAX_UVARINT_LEN,
            s == old(cursor)@,
            i <= s.len(),
            cursor@ == s.skip(i as int),
            factor == pow128(i as nat),
            acc < factor,
            i < 10 ==> factor <= pow128(9),
            factor <= pow128(10),
            pow128(9) == 0x8000_0000_0000_0000,
            pow128(10) == 0x40_0000_0000_0000_0000,
            uvarint_scan(s, 10).1 == i + uvarint_scan(s.skip(i as int), (10 - i) as nat).1,
            uvarint_scan(s, 10).0 == match uvarint_scan(s.skip(i as int), (10 - i) as nat).0 {
                Some(v) => Some((acc + factor * v) as nat),
                None => None,
            },
            uvarint_size(s) <= s.len(),
            uvarint_scan(s, 10).0 is Some ==> uvarint_size(s) >= 1,
        decreases MAX_UVARINT_LEN - i,
    {
        let c: &[u8] = *cursor;
        if c.len() == 0 {
            assert(s.skip(uvarint_size(s) as int) =~= s.skip(i as int));
            return None;
        }
        let byte: u8 = c[0];
        *cursor = slice_subrange(c, 1, c.len());
        let ghost before = s.skip(i as int);
        let ghost tail_scan = uvarint_scan(before.skip(1), (9 - i) as nat);
        let low: u128 = (byte % 128) as u128;
        assert(before.skip(1) =~= s.skip(i + 1));
        assert(cursor@ =~= s.skip(i + 1));
        assert(factor * low <= factor * 127) by (nonlinear_arith)
            requires
                low <= 127,
                factor >= 0,
        ;
        let ghost old_acc = acc;
        let ghost old_factor = factor;
        acc = acc + factor * low;
        if byte < 128 {
            assert(uvarint_scan(before, (10 - i) as nat) == (Some(byte as nat), 1nat));
            if acc > u64::MAX as u128 {
                return None;
            }
            return Some(acc as u64);
        }
        factor = factor * 128;
        i = i + 1;
        proof {
            assert(pow128(i as nat) == 128 * pow128((i - 1) as nat));
            lemma_pow128_monotone(i as nat, 10);
            if i < 10 {
                lemma_pow128_monotone(i as nat, 9);
            }
            if let Some(v) = tail_scan.0 {
                assert(old_acc + old_factor * ((byte - 128 + 128 * v) as nat) == acc + factor * v)
                    by (nonlinear_arith)
                    requires
                        acc == old_acc + old_factor * low,
                        low == byte - 128,
                        factor == old_factor * 128,
                        byte >= 128,
                ;
            }
        }
    }
    None
}

proof fn lemma_pow128_monotone(a: nat, b: nat)
    requires
        a <= b,
    ensures
        pow128(a) <= pow128(b),
    decreases b,
{
    if a < b {
        lemma_pow128_monotone(a, (b - 1) as nat);
    }
}

} // verus!
