//! Text values of tags: numbers and trimmed words.

use vstd::prelude::*;
use vstd::utf8::{decode_utf8, encode_utf8, valid_utf8};

use crate::bytes::{bytes_to_vec, string_from_utf8};

verus! {

/// The characters with Unicode's `White_Space` property.
pub open spec fn is_white(c: char) -> bool {
    let u = c as u32;
    ||| 0x9 <= u <= 0xd
    ||| u == 0x20 || u == 0x85 || u == 0xa0 || u == 0x1680
    ||| 0x2000 <= u <= 0x200a
    ||| u == 0x2028 || u == 0x2029 || u == 0x202f || u == 0x205f || u == 0x3000
}

/// The text without leading whitespace.
pub open spec fn without_leading(text: Seq<char>) -> Seq<char>
    decreases text.len(),
{
    if text.len() > 0 && is_white(text.first()) {
        without_leading(text.skip(1))
    } else {
        text
    }
}

/// The text without trailing whitespace.
pub open spec fn without_trailing(text: Seq<char>) -> Seq<char>
    decreases text.len(),
{
    if text.len() > 0 && is_white(text.last()) {
        without_trailing(text.drop_last())
    } else {
        text
    }
}

/// The text without leading and trailing whitespace.
pub open spec fn trimmed(text: Seq<char>) -> Seq<char> {
    without_trailing(without_leading(text))
}

/// `str::trim`: the text without leading and trailing whitespace, which is any character
/// with Unicode's `White_Space` property.
#[verifier::external_body]
pub(crate) fn trim_text(s: &str) -> (r: &str)
    ensures
        r@ == trimmed(s@),
{
    s.trim()
}

/// Whether two byte strings are equal.
pub fn same_bytes(a: &[u8], b: &[u8]) -> (r: bool)
    ensures
        r == (a@ == b@),
{
    if a.len() != b.len() {
        return false;
    }
    let mut i: usize = 0;
    while i < a.len()
        invariant
            i <= a@.len(),
            a@.len() == b@.len(),
            forall|k: int| 0 <= k < i ==> #[trigger] a@[k] == b@[k],
        decreases a@.len() - i,
    {
        if a[i] != b[i] {
            assert(a@[i as int] != b@[i as int]);
            return false;
        }
        i = i + 1;
    }
    assert(a@ =~= b@);
    true
}

pub open spec fn is_digit(b: u8) -> bool {
    48 <= b <= 57
}

/// The number that decimal digits spell.
pub open spec fn digits_value(s: Seq<u8>) -> nat
    decreases s.len(),
{
    if s.len() == 0 {
        0
    } else {
        digits_value(s.drop_last()) * 10 + (s.last() - 48) as nat
    }
}

/// The number that `s` spells, if it is one or more decimal digits and nothing else.
pub open spec fn decimal(s: Seq<u8>) -> Option<nat> {
    if s.len() > 0 && forall|i: int| 0 <= i < s.len() ==> is_digit(#[trigger] s[i]) {
        Some(digits_value(s))
    } else {
        None
    }
}

/// A sign in front of something.
pub open spec fn starts_with(s: Seq<u8>, sign: u8) -> bool {
    s.len() > 1 && s[0] == sign
}

/// An unsigned 8-bit number: decimal digits, optionally behind a plus sign.
pub open spec fn parsed_u8(s: Seq<u8>) -> Option<u8> {
    match decimal(if starts_with(s, 43) {
        s.skip(1)
    } else {
        s
    }) {
        Some(n) => if n <= 255 {
            Some(n as u8)
        } else {
            None
        },
        None => None,
    }
}

/// A signed 8-bit number: decimal digits, optionally behind a plus or minus sign.
pub open spec fn parsed_i8(s: Seq<u8>) -> Option<i8> {
    let negative = starts_with(s, 45);
    match decimal(if starts_with(s, 43) || negative {
        s.skip(1)
    } else {
        s
    }) {
        Some(n) => if negative {
            if n <= 128 {
                Some((-(n as int)) as i8)
            } else {
                None
            }
        } else if n <= 127 {
            Some(n as i8)
        } else {
            None
        },
        None => None,
    }
}

proof fn lemma_digits_grow(s: Seq<u8>, k: int)
    requires
        0 <= k <= s.len(),
        forall|i: int| 0 <= i < s.len() ==> is_digit(#[trigger] s[i]),
    ensures
        digits_value(s.take(k)) <= digits_value(s),
    decreases s.len() - k,
{
    if k < s.len() {
        lemma_digits_grow(s, k + 1);
        assert(s.take(k + 1).drop_last() =~= s.take(k));
        assert(is_digit(s[k]));
        assert(s.take(k + 1).last() == s[k]);
    } else {
        assert(s.take(k) =~= s);
    }
}

/// The number that the digits from `from` on spell, where it is at most `limit`.
fn decimal_up_to(s: &[u8], from: usize, limit: u16) -> (r: Option<u16>)
    requires
        from <= s@.len(),
        limit <= 1000,
    ensures
        match r {
            Some(n) => decimal(s@.skip(from as int)) == Some(n as nat) && n <= limit,
            None => match decimal(s@.skip(from as int)) {
                Some(n) => n > limit,
                None => true,
            },
        },
{
    let ghost d = s@.skip(from as int);
    if from >= s.len() {
        return None;
    }
    let mut v: u16 = 0;
    let mut i: usize = from;
    assert(d.take(0) =~= Seq::empty());
    while i < s.len()
        invariant
            from <= i <= s@.len(),
            limit <= 1000,
            d == s@.skip(from as int),
            v <= limit,
            v == digits_value(d.take(i - from)),
            forall|k: int| 0 <= k < i - from ==> is_digit(#[trigger] d[k]),
        decreases s@.len() - i,
    {
        let b: u8 = s[i];
        assert(d[i - from] == b);
        if b < 48 || b > 57 {
            assert(!is_digit(d[i - from]));
            return None;
        }
        proof {
            let next = d.take(i - from + 1);
            assert(next.drop_last() =~= d.take(i - from));
            assert(next.last() == b);
        }
        v = v * 10 + (b - 48) as u16;
        if v > limit {
            proof {
                if decimal(d) is Some {
                    lemma_digits_grow(d, i - from + 1);
                }
            }
            return None;
        }
        i = i + 1;
    }
    assert(d.take(i - from) =~= d);
    Some(v)
}

/// Parse an unsigned 8-bit number.
pub fn parse_u8(s: &[u8]) -> (r: Option<u8>)
    ensures
        r == parsed_u8(s@),
{
    let from: usize = if s.len() > 1 && s[0] == 43 {
        1
    } else {
        0
    };
    assert(s@.skip(0) =~= s@);
    match decimal_up_to(s, from, 255) {
        Some(n) => Some(n as u8),
        None => None,
    }
}

/// Parse a signed 8-bit number.
pub fn parse_i8(s: &[u8]) -> (r: Option<i8>)
    ensures
        r == parsed_i8(s@),
{
    let negative: bool = s.len() > 1 && s[0] == 45;
    let from: usize = if negative || (s.len() > 1 && s[0] == 43) {
        1
    } else {
        0
    };
    assert(s@.skip(0) =~= s@);
    if negative {
        match decimal_up_to(s, from, 128) {
            Some(n) => Some((-(n as i16)) as i8),
            None => None,
        }
    } else {
        match decimal_up_to(s, from, 127) {
            Some(n) => Some(n as i8),
            None => None,
        }
    }
}

/// The text of a string of a block's table; none where the table has no such string or
/// it is not UTF-8.
pub open spec fn text_of(strings: Seq<Vec<u8>>, sid: u32) -> Option<Seq<char>> {
    if sid < strings.len() && valid_utf8(strings[sid as int]@) {
        Some(decode_utf8(strings[sid as int]@))
    } else {
        None
    }
}

pub fn text_at(strings: &Vec<Vec<u8>>, sid: u32) -> (r: Option<String>)
    ensures
        match r {
            Some(t) => text_of(strings@, sid) == Some(t@),
            None => text_of(strings@, sid) is None,
        },
{
    if (sid as u64) < strings.len() as u64 {
        string_from_utf8(bytes_to_vec(strings[sid as usize].as_slice()))
    } else {
        None
    }
}

/// The bytes of a text without leading and trailing whitespace.
pub open spec fn trimmed_bytes(text: Seq<char>) -> Seq<u8> {
    encode_utf8(trimmed(text))
}

/// Whether a string of a block's table has the given bytes.
pub open spec fn is_string(strings: Seq<Vec<u8>>, sid: u32, text: Seq<char>) -> bool {
    sid < strings.len() && strings[sid as int]@ == encode_utf8(text)
}

pub fn string_is(strings: &Vec<Vec<u8>>, sid: u32, text: &str) -> (r: bool)
    ensures
        r == is_string(strings@, sid, text@),
{
    (sid as u64) < strings.len() as u64 && same_bytes(
        strings[sid as usize].as_slice(),
        text.as_bytes(),
    )
}

} // verus!
