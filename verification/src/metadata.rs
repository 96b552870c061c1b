//! The archive's metadata: the zoom levels that it lists.
//!
//! The metadata is JSON. An archive whose levels are not a whole range lists them in a
//! field `"zoom_levels"`, as an array of numbers.

use vstd::prelude::*;

use crate::decimal::{digits_end, run_end};
use crate::text::{parse_u8, parsed_u8, same_bytes};

verus! {

/// `"zoom_levels"`, with its quotes.
pub open spec fn field_name() -> Seq<u8> {
    seq![34, 122, 111, 111, 109, 95, 108, 101, 118, 101, 108, 115, 34]
}

/// The first place from `i` on where a text stands.
pub open spec fn find(s: Seq<u8>, text: Seq<u8>, i: nat) -> Option<nat>
    decreases s.len() + 1 - i,
{
    if i + text.len() > s.len() {
        None
    } else if s.subrange(i as int, (i + text.len()) as int) == text {
        Some(i)
    } else {
        find(s, text, i + 1)
    }
}

pub open spec fn is_space(b: u8) -> bool {
    b == 32 || b == 9 || b == 10 || b == 13
}

/// The first place from `i` on that holds no space.
pub open spec fn skip_space(s: Seq<u8>, i: nat) -> nat
    decreases s.len() - i,
{
    if i < s.len() && is_space(s[i as int]) {
        skip_space(s, i + 1)
    } else {
        i
    }
}

pub open spec fn byte_at(s: Seq<u8>, i: nat, b: u8) -> bool {
    i < s.len() && s[i as int] == b
}

/// The numbers of an array from `i` on, behind those before: numbers up to 255 with commas
/// between them and a closing bracket behind the last.
pub open spec fn numbers_at(s: Seq<u8>, i: nat, before: Seq<u8>) -> Option<Seq<u8>>
    decreases s.len() - i,
{
    let a = skip_space(s, i);
    let b = run_end(s, a);
    let c = skip_space(s, b);
    if b <= a || b > s.len() || a < i || c < b {
        None
    } else {
        match parsed_u8(s.subrange(a as int, b as int)) {
            None => None,
            Some(v) => if byte_at(s, c, 44) {
                numbers_at(s, c + 1, before.push(v))
            } else if byte_at(s, c, 93) {
                Some(before.push(v))
            } else {
                None
            },
        }
    }
}

/// The levels that metadata lists; none where it has no such field, or one that is not a
/// list of levels.
pub open spec fn listed_levels(s: Seq<u8>) -> Option<Seq<u8>> {
    match find(s, field_name(), 0) {
        None => None,
        Some(p) => {
            let a = skip_space(s, p + field_name().len());
            let b = skip_space(s, a + 1);
            if byte_at(s, a, 58) && byte_at(s, b, 91) {
                numbers_at(s, b + 1, Seq::empty())
            } else {
                None
            }
        },
    }
}

proof fn lemma_no_field(s: Seq<u8>, i: nat)
    requires
        forall|k: int| 0 <= k < s.len() - 1 && #[trigger] s[k] == 34 ==> s[k + 1] != 122,
    ensures
        find(s, field_name(), i) is None,
    decreases s.len() + 1 - i,
{
    if i + field_name().len() <= s.len() {
        let part = s.subrange(i as int, (i + field_name().len()) as int);
        if part == field_name() {
            assert(part[0] == s[i as int] && part[1] == s[i as int + 1]);
        }
        lemma_no_field(s, i + 1);
    }
}

/// Metadata in which no quote has a `z` behind it lists no levels.
pub proof fn other_fields_list_nothing(s: Seq<u8>)
    requires
        forall|k: int| 0 <= k < s.len() - 1 && #[trigger] s[k] == 34 ==> s[k + 1] != 122,
    ensures
        listed_levels(s) is None,
{
    lemma_no_field(s, 0);
}

fn find_text(s: &[u8], text: &[u8]) -> (r: Option<usize>)
    ensures
        match r {
            Some(i) => find(s@, text@, 0) == Some(i as nat) && i + text@.len() <= s@.len(),
            None => find(s@, text@, 0) is None,
        },
{
    let n: usize = s.len();
    let m: usize = text.len();
    if m > n {
        return None;
    }
    let mut i: usize = 0;
    while i <= n - m
        invariant
            n == s@.len(),
            m == text@.len(),
            m <= n,
            i <= n - m + 1,
            find(s@, text@, i as nat) == find(s@, text@, 0),
        decreases n - m + 1 - i,
    {
        if same_bytes(vstd::slice::slice_subrange(s, i, i + m), text) {
            return Some(i);
        }
        if i == n - m {
            assert(find(s@, text@, (i + 1) as nat) is None);
            return None;
        }
        i = i + 1;
    }
    None
}

fn space_end(s: &[u8], from: usize) -> (r: usize)
    requires
        from <= s@.len(),
    ensures
        r == skip_space(s@, from as nat),
        from <= r <= s@.len(),
{
    let mut i: usize = from;
    while i < s.len() && (s[i] == 32 || s[i] == 9 || s[i] == 10 || s[i] == 13)
        invariant
            from <= i <= s@.len(),
            skip_space(s@, i as nat) == skip_space(s@, from as nat),
        decreases s@.len() - i,
    {
        i = i + 1;
    }
    i
}

/// The zoom levels that an archive's metadata lists, if it lists any.
pub fn parse_zoom_levels(metadata: &[u8]) -> (r: Option<Vec<u8>>)
    ensures
        match r {
            Some(levels) => listed_levels(metadata@) == Some(levels@),
            None => listed_levels(metadata@) is None,
        },
{
    let ghost s = metadata@;
    let n: usize = metadata.len();
    let name: [u8; 13] = [34, 122, 111, 111, 109, 95, 108, 101, 118, 101, 108, 115, 34];
    assert(name@ =~= field_name());
    let at: usize = match find_text(metadata, &name) {
        Some(i) => i,
        None => return None,
    };
    let a: usize = space_end(metadata, at + 13);
    if a >= n || metadata[a] != 58 {
        return None;
    }
    let b: usize = space_end(metadata, a + 1);
    if b >= n || metadata[b] != 91 {
        return None;
    }
    let mut levels: Vec<u8> = Vec::new();
    let mut i: usize = b + 1;
    assert(levels@ =~= Seq::empty());
    loop
        invariant
            i <= n,
            n == s.len(),
            s == metadata@,
            numbers_at(s, i as nat, levels@) == listed_levels(s),
        decreases n - i,
    {
        let a: usize = space_end(metadata, i);
        let b: usize = digits_end(metadata, a);
        if b <= a {
            return None;
        }
        let c: usize = space_end(metadata, b);
        match parse_u8(vstd::slice::slice_subrange(metadata, a, b)) {
            None => return None,
            Some(v) => {
                if c >= n {
                    return None;
                }
                levels.push(v);
                if metadata[c] == 93 {
                    return Some(levels);
                }
                if metadata[c] != 44 {
                    return None;
                }
                i = c + 1;
            },
        }
    }
}

} // verus!
