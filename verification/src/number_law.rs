//! The digits that encodings of numbers are made of.

use vstd::arithmetic::div_mod::{
    lemma_div_denominator, lemma_div_multiples_vanish_fancy, lemma_fundamental_div_mod,
};
use vstd::arithmetic::power::{lemma_pow_positive, pow};
use vstd::prelude::*;

use crate::bytes::{i16_bits, i16_of, i32_bits, i32_of, i8_bits, i8_of, le_bytes, le_value, pow2n};
use crate::hilbert::{hilbert_index, tile_id_of, zoom_offset};
use crate::tileformat::{dezigzag_of, zigzag_of};
use crate::tiler::{compact_of, morton_of, pow4n, spread_of};
use crate::varint::{uvarint_bytes, uvarint_scan, uvarint_size, uvarint_value};

verus! {

/// Digit `i` of `v` in base `b`.
pub open spec fn digit(v: int, b: int, i: nat) -> int {
    (v / pow(b, i)) % b
}

proof fn lemma_digit_shift(a: int, v: int, b: int, i: nat)
    requires
        b >= 2,
        0 <= a < b,
        v >= 0,
    ensures
        digit(a + b * v, b, i + 1) == digit(v, b, i),
        digit(a + b * v, b, 0) == a,
{
    reveal(pow);
    lemma_pow_positive(b, i);
    let w = a + b * v;
    assert(pow(b, i + 1) == b * pow(b, i));
    assert(w / b == v && w % b == a) by (nonlinear_arith)
        requires
            w == a + b * v,
            0 <= a < b,
    ;
    assert(w >= 0) by (nonlinear_arith)
        requires
            w == a + b * v,
            a >= 0,
            b >= 2,
            v >= 0,
    ;
    lemma_div_denominator(w, b, pow(b, i));
    assert(pow(b, 0) == 1);
}

// ---- little-endian numbers ----

/// Byte `i` of a little-endian number is its digit `i` in base 256, and there are as many
/// bytes as asked for.
pub proof fn le_bytes_are_digits(v: nat, n: nat, i: nat)
    requires
        i < n,
    ensures
        le_bytes(v, n).len() == n,
        le_bytes(v, n)[i as int] == digit(v as int, 256, i),
    decreases n,
{
    lemma_fundamental_div_mod(v as int, 256);
    lemma_digit_shift(v as int % 256, v as int / 256, 256, 0);
    if n > 1 {
        le_bytes_are_digits(v / 256, (n - 1) as nat, 0);
    } else {
        assert(le_bytes(v / 256, 0).len() == 0);
    }
    if i > 0 {
        le_bytes_are_digits(v / 256, (n - 1) as nat, (i - 1) as nat);
        lemma_digit_shift(v as int % 256, v as int / 256, 256, (i - 1) as nat);
    }
}

/// A little-endian number is below the power of 256 with its length, and its bytes are its
/// digits.
pub proof fn le_value_has_digits(s: Seq<u8>, i: nat)
    requires
        i < s.len(),
    ensures
        digit(le_value(s) as int, 256, i) == s[i as int],
        le_value(s) < pow(256, s.len()),
    decreases s.len(),
{
    reveal(pow);
    let rest = s.skip(1);
    lemma_digit_shift(s[0] as int, le_value(rest) as int, 256, 0);
    if rest.len() > 0 {
        le_value_has_digits(rest, 0);
    } else {
        assert(pow(256, 0) == 1);
    }
    assert(pow(256, s.len()) == 256 * pow(256, rest.len()));
    if i > 0 {
        le_value_has_digits(rest, (i - 1) as nat);
        lemma_digit_shift(s[0] as int, le_value(rest) as int, 256, (i - 1) as nat);
        assert(rest[i - 1] == s[i as int]);
    }
}

/// Negative numbers stand as their complement to the next power of two.
pub proof fn negatives_are_complements(a: i8, b: i16, c: i32)
    ensures
        i8_bits(a) == if a < 0 {
            256 + a
        } else {
            a as int
        },
        i16_bits(b) == if b < 0 {
            65536 + b
        } else {
            b as int
        },
        i32_bits(c) == if c < 0 {
            4294967296 + c
        } else {
            c as int
        },
        i8_of(i8_bits(a) as int) == a,
        i16_of(i16_bits(b) as int) == b,
        i32_of(i32_bits(c) as int) == c,
{
}

/// A number cut to 16 or 32 bits differs from it by whole turns.
pub proof fn cutting_keeps_remainders(n: int)
    ensures
        (i16_of(n) - n) % 65536 == 0,
        (i32_of(n) - n) % 4294967296 == 0,
        -32768 <= n <= 32767 ==> i16_of(n) == n,
        -2147483648 <= n <= 2147483647 ==> i32_of(n) == n,
{
    lemma_fundamental_div_mod(n, 65536);
    lemma_fundamental_div_mod(n, 4294967296);
}

// ---- variable-length numbers ----

/// A variable-length number has its digits in base 128 in the low seven bits of its bytes,
/// least significant first; every byte but the last has its high bit set; and it takes no
/// more bytes than it has digits.
pub proof fn uvarint_bytes_are_digits(v: nat, i: nat)
    requires
        i < uvarint_bytes(v).len(),
    ensures
        uvarint_bytes(v)[i as int] as int % 128 == digit(v as int, 128, i),
        uvarint_bytes(v)[i as int] >= 128 <==> i + 1 < uvarint_bytes(v).len(),
        v < pow(128, uvarint_bytes(v).len()),
        uvarint_bytes(v).len() > 1 ==> v >= pow(128, (uvarint_bytes(v).len() - 1) as nat),
    decreases v,
{
    reveal(pow);
    let all = uvarint_bytes(v);
    assert(pow(128, 0) == 1);
    assert(pow(128, 1) == 128);
    lemma_digit_shift(v as int % 128, v as int / 128, 128, 0);
    if v >= 128 {
        let rest = uvarint_bytes(v / 128);
        assert(rest.len() >= 1);
        assert(all.len() == rest.len() + 1);
        uvarint_bytes_are_digits(v / 128, 0);
        assert(pow(128, all.len()) == 128 * pow(128, rest.len()));
        if rest.len() > 1 {
            assert(pow(128, rest.len()) == 128 * pow(128, (rest.len() - 1) as nat));
        } else {
            assert(pow(128, rest.len()) == 128);
        }
        if i > 0 {
            uvarint_bytes_are_digits(v / 128, (i - 1) as nat);
            lemma_digit_shift(v as int % 128, v as int / 128, 128, (i - 1) as nat);
            assert(all[i as int] == rest[i - 1]);
        }
    }
}

/// `n` bytes with their high bit set, then one without.
pub open spec fn is_group_run(s: Seq<u8>, n: nat) -> bool {
    n < s.len() && s[n as int] < 128 && forall|k: int| 0 <= k < n ==> #[trigger] s[k] >= 128
}

proof fn lemma_scan(s: Seq<u8>, n: nat, budget: nat, i: nat)
    requires
        is_group_run(s, n),
        i <= n < budget,
    ensures
        uvarint_scan(s, budget).1 == n + 1,
        uvarint_scan(s, budget).0 matches Some(v) && digit(v as int, 128, i) == s[i as int] as int
            % 128 && v < pow(128, n + 1),
    decreases n,
{
    reveal(pow);
    assert(pow(128, 0) == 1);
    assert(pow(128, 1) == 128);
    if n == 0 {
        lemma_digit_shift(s[0] as int, 0, 128, 0);
    } else {
        assert(s[0] >= 128);
        let rest = s.skip(1);
        assert(is_group_run(rest, (n - 1) as nat)) by {
            assert forall|k: int| 0 <= k < n - 1 implies #[trigger] rest[k] >= 128 by {
                assert(s[k + 1] >= 128);
            }
        }
        lemma_scan(rest, (n - 1) as nat, (budget - 1) as nat, 0);
        let w = uvarint_scan(rest, (budget - 1) as nat).0->0;
        assert(pow(128, n + 1) == 128 * pow(128, n));
        lemma_digit_shift(s[0] - 128, w as int, 128, 0);
        if i > 0 {
            lemma_scan(rest, (n - 1) as nat, (budget - 1) as nat, (i - 1) as nat);
            lemma_digit_shift(s[0] - 128, w as int, 128, (i - 1) as nat);
            assert(rest[i - 1] == s[i as int]);
        }
    }
}

/// A read takes the bytes up to the first without its high bit, ten at most, and gives the
/// number with those digits where it fits 64 bits.
pub proof fn uvarint_reads_digits(s: Seq<u8>, n: nat, i: nat)
    requires
        is_group_run(s, n),
        i <= n < 10,
    ensures
        uvarint_size(s) == n + 1,
        uvarint_value(s) matches Some(v) ==> digit(v as int, 128, i) == s[i as int] as int % 128
            && v < pow(128, n + 1),
        n < 9 ==> uvarint_value(s) is Some,
{
    lemma_scan(s, n, 10, i);
    if n < 9 {
        lemma_pow_bound(n + 1);
    }
}

proof fn lemma_pow_bound(n: nat)
    requires
        n <= 9,
    ensures
        pow(128, n) <= 0x8000_0000_0000_0000,
{
    reveal(pow);
    reveal_with_fuel(pow, 11);
    vstd::arithmetic::power::lemma_pow_increases(128, n, 9);
    assert(pow(128, 9) == 0x8000_0000_0000_0000);
}

/// Where ten bytes all have their high bit set, or the bytes end before one without it, no
/// number is read.
pub proof fn unended_uvarint_refused(s: Seq<u8>, n: nat)
    requires
        n == 10 || n == s.len(),
        n <= s.len(),
        n <= 10,
        forall|k: int| 0 <= k < n ==> #[trigger] s[k] >= 128,
    ensures
        uvarint_value(s) is None,
{
    lemma_unended(s, n, 10);
}

proof fn lemma_unended(s: Seq<u8>, n: nat, budget: nat)
    requires
        n == budget || n == s.len(),
        n <= s.len(),
        n <= budget,
        forall|k: int| 0 <= k < n ==> #[trigger] s[k] >= 128,
    ensures
        uvarint_scan(s, budget).0 is None,
    decreases n,
{
    if n > 0 {
        assert(s[0] >= 128);
        let rest = s.skip(1);
        assert forall|k: int| 0 <= k < n - 1 implies #[trigger] rest[k] >= 128 by {
            assert(s[k + 1] >= 128);
        }
        lemma_unended(rest, (n - 1) as nat, (budget - 1) as nat);
    }
}

/// Differences alternate about zero: none, one less, one more, two less, and so on.
pub proof fn zigzag_alternates(d: int)
    requires
        -32768 <= d <= 32767,
    ensures
        d >= 0 ==> zigzag_of(d) == d + d,
        d < 0 ==> zigzag_of(d) == -d - d - 1,
        dezigzag_of(zigzag_of(d) as int) == d,
        zigzag_of(d) < 65536,
{
}

// ---- quadtree numbers ----

/// The numbers of a tile's x and y alternate bit by bit, x first: the four tiles below a
/// tile follow each other as upper left, upper right, lower left, lower right.
pub proof fn morton_halves(x: nat, y: nat)
    ensures
        morton_of(x, y) / 4 == morton_of(x / 2, y / 2),
        morton_of(x, y) % 4 == x % 2 + 2 * (y % 2),
        morton_of(0, 0) == 0,
        spread_of(x) / 4 == spread_of(x / 2),
        spread_of(x) % 4 == x % 2,
        compact_of(x) / 2 == compact_of(x / 4),
        compact_of(x) % 2 == x % 2,
{
}

/// There are four times as many tiles at each zoom as at the one before.
pub proof fn zooms_quadruple(z: nat)
    ensures
        zoom_offset(0) == 0,
        zoom_offset(z + 1) == zoom_offset(z) + pow(4, z),
        3 * zoom_offset(z) + 1 == pow(4, z),
        pow4n(z) == pow(4, z),
        pow2n(z) == pow(2, z),
        pow2n(z) * pow2n(z) == pow(4, z),
    decreases z,
{
    reveal(pow);
    if z > 0 {
        zooms_quadruple((z - 1) as nat);
        let (a, b) = (pow2n(z) as int, pow2n((z - 1) as nat) as int);
        assert(a * a == 4 * (b * b)) by (nonlinear_arith)
            requires
                a == 2 * b,
        ;
    }
}

/// The curve takes the quadrants of a square of side `2 h` in the order upper left, lower
/// left, lower right, upper right: the lower two as the square itself is taken, the upper
/// left one mirrored on the falling diagonal and the upper right one on the rising diagonal.
pub proof fn hilbert_quadrants(z: nat, x: int, y: int)
    requires
        0 <= x < pow2n(z),
        0 <= y < pow2n(z),
    ensures
        ({
            let h = pow2n(z) as int;
            &&& hilbert_index(z + 1, x, y) == hilbert_index(z, y, x)
            &&& hilbert_index(z + 1, x, y + h) == h * h + hilbert_index(z, x, y)
            &&& hilbert_index(z + 1, x + h, y + h) == 2 * (h * h) + hilbert_index(z, x, y)
            &&& hilbert_index(z + 1, x + h, y) == 3 * (h * h) + hilbert_index(
                z,
                h - 1 - y,
                h - 1 - x,
            )
        }),
{
    let h = pow2n(z) as int;
    assert(x / h == 0 && x % h == x && y / h == 0 && y % h == y) by (nonlinear_arith)
        requires
            0 <= x < h,
            0 <= y < h,
    ;
    lemma_div_multiples_vanish_fancy(1, x, h);
    lemma_div_multiples_vanish_fancy(1, y, h);
    assert((x + h) / h == 1 && (y + h) / h == 1 && (x + h) % h == x && (y + h) % h == y)
        by (nonlinear_arith)
        requires
            0 <= x < h,
            0 <= y < h,
    ;
}

/// The curve runs from the upper left corner of the square to its upper right corner, and
/// the ids of a zoom follow those of the one before.
pub proof fn hilbert_ends(z: nat)
    ensures
        hilbert_index(z, 0, 0) == 0,
        hilbert_index(z, pow2n(z) - 1, 0) == pow2n(z) * pow2n(z) - 1,
        tile_id_of(z, 0, 0) == zoom_offset(z),
        tile_id_of(z, pow2n(z) - 1, 0) + 1 == zoom_offset(z + 1),
    decreases z,
{
    zooms_quadruple(z);
    if z > 0 {
        let n = (z - 1) as nat;
        let h = pow2n(n) as int;
        zooms_quadruple(n);
        reveal(pow);
        lemma_pow_positive(2, n);
        hilbert_ends(n);
        hilbert_quadrants(n, 0, 0);
        hilbert_quadrants(n, h - 1, 0);
        assert(pow2n(z) == 2 * h);
        assert(pow2n(z) * pow2n(z) == 4 * (h * h)) by (nonlinear_arith)
            requires
                pow2n(z) == 2 * h,
        ;
        assert(hilbert_index(n, h - 1 - 0, h - 1 - (h - 1)) == h * h - 1);
    }
}

} // verus!
