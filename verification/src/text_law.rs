//! How texts are read.

use vstd::prelude::*;

use crate::classifier::{floors_from, levels_in};
use crate::decimal::{floors_in, number_at, run_end, tenths, whole_part};
use crate::metadata::{byte_at, field_name, find, is_space, listed_levels, numbers_at, skip_space};
use crate::tags::Tag;
use crate::text::{
    decimal, digits_value, is_digit, is_white, parsed_u8, text_of, trimmed, without_leading,
    without_trailing,
};

verus! {

// ---- trimming ----

/// Only whitespace.
pub open spec fn all_white(text: Seq<char>) -> bool {
    forall|i: int| 0 <= i < text.len() ==> is_white(#[trigger] text[i])
}

proof fn lemma_leading(text: Seq<char>) -> (n: int)
    ensures
        0 <= n <= text.len(),
        without_leading(text) == text.skip(n),
        all_white(text.take(n)),
        n < text.len() ==> !is_white(text[n]),
    decreases text.len(),
{
    if text.len() > 0 && is_white(text.first()) {
        let rest = text.skip(1);
        let m = lemma_leading(rest);
        assert(rest.skip(m) =~= text.skip(m + 1));
        assert forall|i: int| 0 <= i < m + 1 implies is_white(#[trigger] text.take(m + 1)[i]) by {
            if i > 0 {
                assert(rest.take(m)[i - 1] == text[i]);
            }
        }
        if m < rest.len() {
            assert(rest[m] == text[m + 1]);
        }
        m + 1
    } else {
        assert(text.skip(0) =~= text);
        0
    }
}

proof fn lemma_trailing(text: Seq<char>) -> (n: int)
    ensures
        0 <= n <= text.len(),
        without_trailing(text) == text.take(n),
        all_white(text.skip(n)),
        n > 0 ==> !is_white(text[n - 1]),
    decreases text.len(),
{
    if text.len() > 0 && is_white(text.last()) {
        let rest = text.drop_last();
        let m = lemma_trailing(rest);
        assert(rest.take(m) =~= text.take(m));
        assert forall|i: int| 0 <= i < text.len() - m implies is_white(#[trigger] text.skip(m)[i]) by {
            if m + i < rest.len() {
                assert(rest.skip(m)[i] == text[m + i]);
            }
        }
        if m > 0 {
            assert(rest[m - 1] == text[m - 1]);
        }
        m
    } else {
        assert(text.take(text.len() as int) =~= text);
        text.len() as int
    }
}

/// Trimming takes the whitespace off both ends of a text, all of it and nothing else: what
/// stays is one part of the text, with whitespace only before and behind it.
pub proof fn trimming_takes_whitespace(text: Seq<char>) -> (at: int)
    ensures
        ({
            let t = trimmed(text);
            &&& 0 <= at <= at + t.len() <= text.len()
            &&& t == text.subrange(at, at + t.len())
            &&& all_white(text.subrange(0, at))
            &&& all_white(text.subrange(at + t.len(), text.len() as int))
            &&& t.len() > 0 ==> !is_white(t[0]) && !is_white(t[t.len() - 1])
        }),
{
    let a = lemma_leading(text);
    let rest = text.skip(a);
    let n = lemma_trailing(rest);
    let t = trimmed(text);
    assert(t =~= text.subrange(a, a + n));
    assert(text.subrange(0, a) =~= text.take(a));
    assert(text.subrange(a + n, text.len() as int) =~= rest.skip(n));
    if n > 0 {
        assert(t[0] == text[a]);
        assert(t[n - 1] == rest[n - 1]);
    }
    a
}

/// Whitespace is blank, tab and line ends, and the wider blanks; letters, digits and signs
/// are not.
pub proof fn whitespace_is_blank(c: char)
    ensures
        c == ' ' || c == '\t' || c == '\n' || c == '\r' ==> is_white(c),
        'a' <= c <= 'z' || 'A' <= c <= 'Z' || '0' <= c <= '9' || c == '+' || c == '-' || c == '.'
            || c == ':' || c == ';' ==> !is_white(c),
{
}

// ---- floors ----

proof fn lemma_run(s: Seq<u8>, i: nat, n: nat)
    requires
        i <= n <= s.len(),
        forall|k: int| i <= k < n ==> is_digit(#[trigger] s[k]),
        n < s.len() ==> !is_digit(s[n as int]),
    ensures
        run_end(s, i) == n,
    decreases n - i,
{
    if i < n {
        assert(is_digit(s[i as int]));
        lemma_run(s, i + 1, n);
    }
}

/// A whole number of floors is that number, at least 1 and at most 255; a negative one, or
/// a text that starts like no number, is 1.
pub proof fn whole_floors(s: Seq<u8>)
    requires
        s.len() > 0,
    ensures
        (forall|k: int| 0 <= k < s.len() ==> is_digit(#[trigger] s[k])) ==> {
            &&& digits_value(s) < 1 ==> floors_in(s) == 1
            &&& 1 <= digits_value(s) <= 255 ==> floors_in(s) == digits_value(s)
            &&& digits_value(s) > 255 ==> floors_in(s) == 255
        },
        s[0] == 45 ==> floors_in(s) == 1,
        !is_digit(s[0]) && s[0] != 43 && s[0] != 46 && s[0] != 105 && s[0] != 73 ==> floors_in(s)
            == 1,
{
    if forall|k: int| 0 <= k < s.len() ==> is_digit(#[trigger] s[k]) {
        assert(is_digit(s[0]));
        lemma_run(s, 0, s.len());
        let n = number_at(s, 0)->0;
        assert(s.subrange(0, s.len() as int) =~= s);
        assert(n.digits == s);
        assert(n.point == s.len());
        assert(s.take(s.len() as int) =~= s);
        assert(whole_part(n) == digits_value(s));
        assert(tenths(n) == 0);
        let w = crate::decimal::inf();
        assert(crate::decimal::lower(s[0]) == s[0]);
        assert(w[0] == 105 && crate::decimal::infinity()[0] == 105);
        if crate::decimal::is_word(s, 0, w) {
            assert(crate::decimal::lower(s[0nat + 0int]) == w[0]);
        }
        if crate::decimal::is_word(s, 0, crate::decimal::infinity()) {
            assert(crate::decimal::lower(s[0nat + 0int]) == crate::decimal::infinity()[0]);
        }
    }
    if !is_digit(s[0]) && s[0] != 43 && s[0] != 46 && s[0] != 105 && s[0] != 73 && s[0] != 45 {
        lemma_run(s, 0, 0);
        let w = crate::decimal::inf();
        assert(w[0] == 105 && crate::decimal::infinity()[0] == 105);
        if crate::decimal::is_word(s, 0, w) {
            assert(crate::decimal::lower(s[0nat + 0int]) == w[0]);
        }
        if crate::decimal::is_word(s, 0, crate::decimal::infinity()) {
            assert(crate::decimal::lower(s[0nat + 0int]) == crate::decimal::infinity()[0]);
        }
        assert(s.subrange(0, 0).len() == 0);
    }
}

// ---- listed levels ----

/// A level in decimal.
pub open spec fn level_text(v: u8) -> Seq<u8> {
    if v < 10 {
        seq![(48 + v) as u8]
    } else if v < 100 {
        seq![(48 + v / 10) as u8, (48 + v % 10) as u8]
    } else {
        seq![(48 + v / 100) as u8, (48 + v / 10 % 10) as u8, (48 + v % 10) as u8]
    }
}

/// Levels with commas between them and a closing bracket behind the last.
pub open spec fn levels_text(vs: Seq<u8>) -> Seq<u8>
    decreases vs.len(),
{
    if vs.len() <= 1 {
        level_text(vs[0]) + seq![93u8]
    } else {
        level_text(vs[0]) + seq![44u8] + levels_text(vs.skip(1))
    }
}

proof fn lemma_level_text(v: u8)
    ensures
        1 <= level_text(v).len() <= 3,
        forall|k: int| 0 <= k < level_text(v).len() ==> is_digit(#[trigger] level_text(v)[k]),
        digits_value(level_text(v)) == v,
        parsed_u8(level_text(v)) == Some(v),
{
    let t = level_text(v);
    reveal_with_fuel(digits_value, 4);
    if v < 10 {
        assert(t.drop_last() =~= Seq::<u8>::empty());
    } else if v < 100 {
        assert(t.drop_last() =~= seq![t[0]]);
        assert(t.drop_last().drop_last() =~= Seq::<u8>::empty());
    } else {
        assert(t.drop_last() =~= seq![t[0], t[1]]);
        assert(t.drop_last().drop_last() =~= seq![t[0]]);
        assert(t.drop_last().drop_last().drop_last() =~= Seq::<u8>::empty());
    }
}

proof fn lemma_numbers(s: Seq<u8>, at: nat, vs: Seq<u8>, before: Seq<u8>)
    requires
        vs.len() > 0,
        at + levels_text(vs).len() <= s.len(),
        forall|k: int|
            0 <= k < levels_text(vs).len() ==> s[at + k] == #[trigger] levels_text(vs)[k],
    ensures
        numbers_at(s, at, before) == Some(before + vs),
    decreases vs.len(),
{
    let t = level_text(vs[0]);
    let all = levels_text(vs);
    let n = t.len();
    lemma_level_text(vs[0]);
    assert forall|k: int| 0 <= k < n implies s[at + k] == #[trigger] t[k] by {
        assert(all[k] == t[k]);
    }
    let end = at + n;
    assert(s[end as int] == all[n as int]);
    assert(all[n as int] == 93 || all[n as int] == 44);
    assert(is_digit(t[0]));
    assert(s[at + 0int] == t[0]);
    assert(skip_space(s, at) == at);
    assert forall|k: int| at <= k < end implies is_digit(#[trigger] s[k]) by {
        assert(s[at + (k - at)] == t[k - at]);
    }
    lemma_run(s, at, end);
    assert(skip_space(s, end) == end);
    assert(s.subrange(at as int, end as int) =~= t);
    if vs.len() > 1 {
        let more = vs.skip(1);
        let rest = levels_text(more);
        assert(all[n as int] == 44);
        assert forall|k: int| 0 <= k < rest.len() implies s[(end + 1) + k] == #[trigger] rest[k] by {
            assert(all[n + 1 + k] == rest[k]);
            assert(s[at + (n + 1 + k)] == all[n + 1 + k]);
        }
        lemma_numbers(s, end + 1, more, before.push(vs[0]));
        assert(before.push(vs[0]) + more =~= before + vs);
    } else {
        assert(all[n as int] == 93);
        assert(before.push(vs[0]) =~= before + vs);
    }
}

/// Metadata that begin `{"zoom_levels":[` and go on with levels and a closing bracket list
/// those levels, in their order.
pub proof fn listed_levels_are_read(vs: Seq<u8>, tail: Seq<u8>)
    requires
        vs.len() > 0,
    ensures
        listed_levels(
            seq![123u8] + seq![34u8, 122, 111, 111, 109, 95, 108, 101, 118, 101, 108, 115, 34] + seq![
                58u8,
                91,
            ] + levels_text(vs) + tail,
        ) == Some(vs),
{
    let name = seq![34u8, 122, 111, 111, 109, 95, 108, 101, 118, 101, 108, 115, 34];
    let list = levels_text(vs);
    let s = seq![123u8] + name + seq![58u8, 91] + list + tail;
    lemma_level_text(vs[0]);
    assert(list.len() >= 1);
    assert(field_name() =~= name);
    assert(s.subrange(0, 13)[0] == 123);
    assert(s.subrange(0, 13) != field_name());
    assert(s.subrange(1, 14) =~= field_name());
    assert(find(s, field_name(), 1) == Some(1nat));
    assert(find(s, field_name(), 0) == Some(1nat));
    assert(s[14] == 58 && s[15] == 91);
    assert(skip_space(s, 14) == 14);
    assert(skip_space(s, 15) == 15);
    assert(byte_at(s, 14, 58) && byte_at(s, 15, 91));
    assert forall|k: int| 0 <= k < list.len() implies s[16 + k] == #[trigger] list[k] by {}
    lemma_numbers(s, 16, vs, Seq::empty());
    assert(Seq::<u8>::empty() + vs =~= vs);
}

// ---- fractions of floors ----

/// Only digits, at least one.
pub open spec fn is_number(s: Seq<u8>) -> bool {
    s.len() > 0 && forall|k: int| 0 <= k < s.len() ==> is_digit(#[trigger] s[k])
}

/// A number with a fraction is rounded by the first digit behind the point, halves up, and
/// kept within 1 and 255; a plus sign in front does not matter.
pub proof fn fractions_of_floors(w: Seq<u8>, f: Seq<u8>)
    requires
        is_number(w),
        is_number(f),
    ensures
        ({
            let n = digits_value(w) + if f[0] >= 53 {
                1nat
            } else {
                0
            };
            floors_in(w + seq![46u8] + f) == if n < 1 {
                1
            } else if n > 255 {
                255
            } else {
                n as int
            }
        }),
        floors_in(seq![43u8] + w) == floors_in(w),
{
    let s = w + seq![46u8] + f;
    let a = w.len();
    assert(is_digit(w[0]) && s[0] == w[0]);
    assert forall|k: int| 0 <= k < a implies is_digit(#[trigger] s[k]) by {
        assert(s[k] == w[k]);
    }
    assert(s[a as int] == 46);
    lemma_run(s, 0, a);
    assert forall|k: int| a + 1 <= k < s.len() implies is_digit(#[trigger] s[k]) by {
        assert(s[k] == f[k - a - 1]);
    }
    lemma_run(s, a + 1, s.len());
    assert(s.subrange(0, a as int) =~= w);
    assert(s.subrange(a as int + 1, s.len() as int) =~= f);
    lemma_no_word(s, 0);
    let n = number_at(s, 0)->0;
    assert(n.digits == w + f && n.point == a);
    assert((w + f).take(a as int) =~= w);
    assert((w + f)[a as int] == f[0]);
    lemma_signed(w);
}

proof fn lemma_no_word(s: Seq<u8>, i: nat)
    requires
        i < s.len(),
        is_digit(s[i as int]),
    ensures
        !crate::decimal::is_word(s, i, crate::decimal::inf()),
        !crate::decimal::is_word(s, i, crate::decimal::infinity()),
{
    let (w, v) = (crate::decimal::inf(), crate::decimal::infinity());
    assert(w[0] == 105 && v[0] == 105);
    if crate::decimal::is_word(s, i, w) {
        assert(crate::decimal::lower(s[i + 0int]) == w[0]);
    }
    if crate::decimal::is_word(s, i, v) {
        assert(crate::decimal::lower(s[i + 0int]) == v[0]);
    }
}

proof fn lemma_signed(w: Seq<u8>)
    requires
        is_number(w),
    ensures
        floors_in(seq![43u8] + w) == floors_in(w),
{
    let s = seq![43u8] + w;
    assert(is_digit(w[0]) && s[1] == w[0] && s[0] == 43);
    assert forall|k: int| 1 <= k < s.len() implies is_digit(#[trigger] s[k]) by {
        assert(s[k] == w[k - 1]);
    }
    lemma_run(s, 1, s.len());
    lemma_run(w, 0, w.len());
    lemma_no_word(s, 1);
    lemma_no_word(w, 0);
    assert(s.subrange(1, s.len() as int) =~= w);
    assert(w.subrange(0, w.len() as int) =~= w);
    let (n, m) = (number_at(s, 1)->0, number_at(w, 0)->0);
    assert(n.digits == m.digits && n.point == m.point);
}

/// Blank, tab and line ends may stand between the parts of a list, and nothing else.
pub proof fn blanks_stand_between(s: Seq<u8>, i: nat, b: u8)
    ensures
        is_space(b) <==> b == 32 || b == 9 || b == 10 || b == 13,
        i < s.len() && (s[i as int] == 32 || s[i as int] == 9 || s[i as int] == 10 || s[i as int]
            == 13) ==> skip_space(s, i) == skip_space(s, i + 1),
        i < s.len() && s[i as int] != 32 && s[i as int] != 9 && s[i as int] != 10 && s[i as int]
            != 13 ==> skip_space(s, i) == i,
{
}

/// A text of a block's table is the text of its bytes; there is none past the table or
/// where they are no text.
pub proof fn table_texts(strings: Seq<Vec<u8>>, sid: u32)
    ensures
        sid >= strings.len() ==> text_of(strings, sid) is None,
        sid < strings.len() && !vstd::utf8::valid_utf8(strings[sid as int]@) ==> text_of(
            strings,
            sid,
        ) is None,
        sid < strings.len() && vstd::utf8::valid_utf8(strings[sid as int]@) ==> text_of(
            strings,
            sid,
        ) == Some(vstd::utf8::decode_utf8(strings[sid as int]@)),
{
}

// ---- floors of a building ----

/// Floors are what the first `building:levels` tag says, and 1 without one.
pub proof fn floors_by_levels_tag(tags: Seq<Tag>, strings: Seq<Vec<u8>>, i: int)
    ensures
        0 <= i < tags.len() && says_levels(tags[i], strings) && (forall|j: int|
            0 <= j < i ==> !says_levels(#[trigger] tags[j], strings)) ==> floors_from(tags, strings)
            == match text_of(strings, tags[i].value) {
            Some(t) => floors_in(vstd::utf8::encode_utf8(trimmed(t))),
            None => 1,
        },
        (forall|j: int| 0 <= j < tags.len() ==> !says_levels(#[trigger] tags[j], strings))
            ==> floors_from(tags, strings) == 1,
{
    lemma_levels(tags, strings, 0, i);
}

/// The key of the tag is `building:levels`.
pub open spec fn says_levels(tag: Tag, strings: Seq<Vec<u8>>) -> bool {
    tag.key < strings.len() && strings[tag.key as int]@ == vstd::utf8::encode_utf8(
        "building:levels"@,
    )
}

proof fn lemma_levels(tags: Seq<Tag>, strings: Seq<Vec<u8>>, from: nat, i: int)
    ensures
        from <= i < tags.len() && says_levels(tags[i], strings) && (forall|j: int|
            from <= j < i ==> !says_levels(#[trigger] tags[j], strings)) ==> levels_in(
            tags,
            strings,
            from,
        ) == text_of(strings, tags[i].value),
        (forall|j: int| from <= j < tags.len() ==> !says_levels(#[trigger] tags[j], strings))
            ==> levels_in(tags, strings, from) is None,
    decreases tags.len() - from,
{
    if from < tags.len() && !says_levels(tags[from as int], strings) {
        lemma_levels(tags, strings, from + 1, i);
    }
    if from < tags.len() && says_levels(tags[from as int], strings) && from < i {
        assert(says_levels(tags[from as int], strings));
    }
}

} // verus!
