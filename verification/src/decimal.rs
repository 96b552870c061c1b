//! Decimal numbers in text, with fraction and exponent, and floor counts made of them.

use vstd::prelude::*;

use crate::text::{digits_value, is_digit};

verus! {

/// A number: its digits, and how many of them stand before the decimal point. The point
/// may lie outside the digits, with zeros in between.
pub struct NumberView {
    pub digits: Seq<u8>,
    pub point: int,
}

/// Where the digits from `i` on end.
pub open spec fn run_end(s: Seq<u8>, i: nat) -> nat
    decreases s.len() - i,
{
    if i < s.len() && is_digit(s[i as int]) {
        run_end(s, i + 1)
    } else {
        i
    }
}

/// The place behind a sign, if one stands at `i`.
pub open spec fn after_sign(s: Seq<u8>, i: nat) -> nat {
    if i < s.len() && (s[i as int] == 43 || s[i as int] == 45) {
        i + 1
    } else {
        i
    }
}

pub open spec fn has_minus(s: Seq<u8>, i: nat) -> bool {
    i < s.len() && s[i as int] == 45
}

/// The exponent at `i`, where the text ends behind it: zero for none, else `e`, a sign or
/// none, and digits.
pub open spec fn exponent_at(s: Seq<u8>, i: nat) -> Option<int> {
    if i >= s.len() {
        Some(0)
    } else if s[i as int] == 101 || s[i as int] == 69 {
        let j = after_sign(s, i + 1);
        if j < s.len() && run_end(s, j) == s.len() {
            let n = digits_value(s.skip(j as int));
            Some(
                if has_minus(s, i + 1) {
                    -n
                } else {
                    n as int
                },
            )
        } else {
            None
        }
    } else {
        None
    }
}

/// The number from `i` on: digits, a point and further digits, and an exponent, where the
/// point and the exponent may be left out, and the digits on one side of the point.
pub open spec fn number_at(s: Seq<u8>, i: nat) -> Option<NumberView> {
    let a = run_end(s, i);
    let whole = s.subrange(i as int, a as int);
    let b = if a < s.len() && s[a as int] == 46 {
        run_end(s, a + 1)
    } else {
        a
    };
    let digits = if b > a {
        whole + s.subrange((a + 1) as int, b as int)
    } else {
        whole
    };
    match exponent_at(s, b) {
        Some(e) => if digits.len() > 0 {
            Some(NumberView { digits, point: whole.len() + e })
        } else {
            None
        },
        None => None,
    }
}

pub open spec fn lower(b: u8) -> u8 {
    if 65 <= b <= 90 {
        (b + 32) as u8
    } else {
        b
    }
}

/// The text from `i` on is the word, in upper or lower case.
pub open spec fn is_word(s: Seq<u8>, i: nat, word: Seq<u8>) -> bool {
    s.len() == i + word.len() && forall|k: int|
        0 <= k < word.len() ==> lower(s[i + k]) == #[trigger] word[k]
}

/// `inf`
pub open spec fn inf() -> Seq<u8> {
    seq![105, 110, 102]
}

/// `infinity`
pub open spec fn infinity() -> Seq<u8> {
    seq![105, 110, 102, 105, 110, 105, 116, 121]
}

pub open spec fn pow10(n: nat) -> nat
    decreases n,
{
    if n == 0 {
        1
    } else {
        10 * pow10((n - 1) as nat)
    }
}

/// The number before the decimal point.
pub open spec fn whole_part(n: NumberView) -> nat {
    if n.point <= 0 {
        0
    } else if n.point <= n.digits.len() {
        digits_value(n.digits.take(n.point))
    } else {
        digits_value(n.digits) * pow10((n.point - n.digits.len()) as nat)
    }
}

/// The first digit behind the decimal point.
pub open spec fn tenths(n: NumberView) -> int {
    if 0 <= n.point < n.digits.len() {
        n.digits[n.point] - 48
    } else {
        0
    }
}

/// The number rounded to the nearest whole one, halves up.
pub open spec fn rounded(n: NumberView) -> nat {
    whole_part(n) + if tenths(n) >= 5 {
        1nat
    } else {
        0
    }
}

/// Between 1 and 255.
pub open spec fn clamped(n: nat) -> u8 {
    if n < 1 {
        1
    } else if n > 255 {
        255
    } else {
        n as u8
    }
}

/// The floor count that a text spells: the number rounded to the nearest and clamped to
/// 1 to 255; 1 for a text that is no number.
pub open spec fn floors_in(s: Seq<u8>) -> u8 {
    let i = after_sign(s, 0);
    if has_minus(s, 0) {
        1
    } else if is_word(s, i, inf()) || is_word(s, i, infinity()) {
        255
    } else {
        match number_at(s, i) {
            Some(n) => clamped(rounded(n)),
            None => 1,
        }
    }
}

// ---- rounding ----

spec fn all_digits(s: Seq<u8>) -> bool {
    forall|i: int| 0 <= i < s.len() ==> is_digit(#[trigger] s[i])
}

proof fn lemma_pow10(n: nat)
    ensures
        pow10(n) >= 1,
        n >= 3 ==> pow10(n) >= 1000,
    decreases n,
{
    if n > 0 {
        lemma_pow10((n - 1) as nat);
        reveal_with_fuel(pow10, 4);
    }
}

proof fn lemma_digits_split(d: Seq<u8>, p: int)
    requires
        0 <= p <= d.len(),
        all_digits(d),
    ensures
        digits_value(d) == digits_value(d.take(p)) * pow10((d.len() - p) as nat) + digits_value(
            d.skip(p),
        ),
        digits_value(d.skip(p)) < pow10((d.len() - p) as nat),
    decreases d.len() - p,
{
    if p == d.len() {
        assert(d.take(p) =~= d);
        assert(d.skip(p).len() == 0);
        let v = digits_value(d) as int;
        let one = pow10(0) as int;
        assert(v * one == v) by (nonlinear_arith)
            requires
                one == 1,
        ;
    } else {
        let front = d.drop_last();
        lemma_digits_split(front, p);
        assert(front.take(p) =~= d.take(p));
        assert(front.skip(p) =~= d.skip(p).drop_last());
        assert(d.skip(p).last() == d.last());
        assert(is_digit(d[d.len() - 1]));
        let v = digits_value(d.take(p)) as int;
        let q = pow10((d.len() - 1 - p) as nat) as int;
        assert((v * q) * 10 == v * (10 * q)) by (nonlinear_arith);
    }
}

/// Rounding is to the nearest: scaled to the last digit, the rounded number is no further
/// than half a unit from the number, and a half is rounded up.
pub proof fn rounding_is_nearest(n: NumberView)
    requires
        0 <= n.point <= n.digits.len(),
        forall|i: int| 0 <= i < n.digits.len() ==> is_digit(#[trigger] n.digits[i]),
    ensures
        ({
            let unit = pow10((n.digits.len() - n.point) as nat) as int;
            let v = digits_value(n.digits) as int;
            2 * unit * rounded(n) - unit <= 2 * v && 2 * v < 2 * unit * rounded(n) + unit
        }),
{
    let d = n.digits;
    let p = n.point;
    let unit = pow10((d.len() - p) as nat) as int;
    let v = digits_value(d) as int;
    lemma_digits_split(d, p);
    lemma_pow10((d.len() - p) as nat);
    let w = digits_value(d.take(p)) as int;
    let rest = digits_value(d.skip(p)) as int;
    assert(d.take(0).len() == 0);
    assert(whole_part(n) == w);
    assert(w * unit == unit * w) by (nonlinear_arith);
    assert(2 * unit * w == 2 * (unit * w)) by (nonlinear_arith);
    assert(2 * unit * (w + 1) == 2 * (unit * w) + 2 * unit) by (nonlinear_arith);
    if p < d.len() {
        let tail = d.skip(p);
        lemma_digits_split(tail, 1);
        assert(tail.take(1) =~= seq![d[p]]);
        assert(tail.take(1).drop_last().len() == 0);
        assert(digits_value(tail.take(1)) == (d[p] - 48)) by {
            assert(is_digit(d[p]));
            assert(digits_value(tail.take(1).drop_last()) == 0);
        }
        let small = pow10((d.len() - p - 1) as nat) as int;
        assert(unit == 10 * small);
        let t = (d[p] - 48) as int;
        if t >= 5 {
            assert(t * small >= 5 * small) by (nonlinear_arith)
                requires
                    t >= 5,
                    small >= 0,
            ;
        } else {
            assert(t * small <= 4 * small) by (nonlinear_arith)
                requires
                    t <= 4,
                    small >= 0,
            ;
        }
    }
}

// ---- reading ----

pub(crate) fn digits_end(s: &[u8], from: usize) -> (r: usize)
    requires
        from <= s@.len(),
    ensures
        r == run_end(s@, from as nat),
        from <= r <= s@.len(),
        forall|k: int| from <= k < r ==> is_digit(#[trigger] s@[k]),
{
    let mut i: usize = from;
    while i < s.len() && s[i] >= 48 && s[i] <= 57
        invariant
            from <= i <= s@.len(),
            run_end(s@, i as nat) == run_end(s@, from as nat),
            forall|k: int| from <= k < i ==> is_digit(#[trigger] s@[k]),
        decreases s@.len() - i,
    {
        i = i + 1;
    }
    i
}

/// Exponents beyond this make no difference to a text that fits in memory.
const EXPONENT_LIMIT: i128 = 1_000_000_000_000_000_000_000;

spec fn at_most(n: nat, limit: nat) -> nat {
    if n < limit {
        n
    } else {
        limit
    }
}

/// The number that the digits from `from` to `to` spell, up to a limit.
fn bounded_value(s: &[u8], from: usize, to: usize, limit: i128) -> (r: i128)
    requires
        from <= to <= s@.len(),
        0 < limit <= EXPONENT_LIMIT,
        forall|k: int| from <= k < to ==> is_digit(#[trigger] s@[k]),
    ensures
        r == at_most(digits_value(s@.subrange(from as int, to as int)), limit as nat),
{
    let ghost d = s@.subrange(from as int, to as int);
    let mut acc: i128 = 0;
    let mut i: usize = from;
    assert(d.take(0).len() == 0);
    while i < to
        invariant
            from <= i <= to <= s@.len(),
            0 < limit <= EXPONENT_LIMIT,
            d == s@.subrange(from as int, to as int),
            forall|k: int| from <= k < to ==> is_digit(#[trigger] s@[k]),
            0 <= acc <= limit,
            acc == at_most(digits_value(d.take(i - from)), limit as nat),
        decreases to - i,
    {
        proof {
            let next = d.take(i - from + 1);
            assert(next.drop_last() =~= d.take(i - from));
            assert(next.last() == s@[i as int]);
            assert(is_digit(s@[i as int]));
        }
        let v: i128 = acc * 10 + (s[i] - 48) as i128;
        acc = if v < limit {
            v
        } else {
            limit
        };
        i = i + 1;
    }
    assert(d.take(to - from) =~= d);
    acc
}

/// The exponent, kept within the limit.
spec fn near(e: int) -> int {
    if e > EXPONENT_LIMIT {
        EXPONENT_LIMIT as int
    } else if e < -EXPONENT_LIMIT {
        -EXPONENT_LIMIT as int
    } else {
        e
    }
}

fn read_exponent(s: &[u8], i: usize) -> (r: Option<i128>)
    requires
        i <= s@.len(),
    ensures
        match r {
            Some(e) => exponent_at(s@, i as nat) matches Some(x) && e == near(x),
            None => exponent_at(s@, i as nat) is None,
        },
{
    if i >= s.len() {
        return Some(0);
    }
    if s[i] != 101 && s[i] != 69 {
        return None;
    }
    let n: usize = s.len();
    let minus: bool = i + 1 < n && s[i + 1] == 45;
    let j: usize = if i + 1 < n && (s[i + 1] == 43 || s[i + 1] == 45) {
        i + 2
    } else {
        i + 1
    };
    if j >= n || digits_end(s, j) != n {
        return None;
    }
    assert(s@.skip(j as int) =~= s@.subrange(j as int, n as int));
    let v: i128 = bounded_value(s, j, n, EXPONENT_LIMIT);
    Some(
        if minus {
            -v
        } else {
            v
        },
    )
}

proof fn lemma_near_point(digits: Seq<u8>, whole: nat, e: int)
    requires
        whole <= digits.len() <= usize::MAX,
    ensures
        clamped(rounded(NumberView { digits, point: whole + e })) == clamped(
            rounded(NumberView { digits, point: whole + near(e) }),
        ),
{
    let v = digits_value(digits);
    if e > EXPONENT_LIMIT {
        let a = (whole + e - digits.len()) as nat;
        let b = (whole + near(e) - digits.len()) as nat;
        lemma_pow10(a);
        lemma_pow10(b);
        if v > 0 {
            assert(v * pow10(a) >= 1000) by (nonlinear_arith)
                requires
                    v >= 1,
                    pow10(a) >= 1000,
            ;
            assert(v * pow10(b) >= 1000) by (nonlinear_arith)
                requires
                    v >= 1,
                    pow10(b) >= 1000,
            ;
        } else {
            assert(v * pow10(a) == 0) by (nonlinear_arith)
                requires
                    v == 0,
            ;
            assert(v * pow10(b) == 0) by (nonlinear_arith)
                requires
                    v == 0,
            ;
        }
    }
}

/// Round and clamp digits with a point.
fn round_digits(digits: &Vec<u8>, point: i128) -> (r: u8)
    requires
        forall|k: int| 0 <= k < digits@.len() ==> is_digit(#[trigger] digits@[k]),
    ensures
        r == clamped(rounded(NumberView { digits: digits@, point: point as int })),
{
    let ghost n = NumberView { digits: digits@, point: point as int };
    let len: usize = digits.len();
    if point < 0 {
        return 1;
    }
    let stop: usize = if point < len as i128 {
        point as usize
    } else {
        len
    };
    let mut whole: i128 = bounded_value(digits, 0, stop, 1000);
    assert(digits@.subrange(0, stop as int) =~= digits@.take(stop as int));
    if point > len as i128 {
        assert(digits@.take(len as int) =~= digits@);
        let ghost v = digits_value(digits@);
        let gap: i128 = point - len as i128;
        proof {
            lemma_pow10(gap as nat);
            reveal_with_fuel(pow10, 4);
            let p = pow10(gap as nat);
            if v > 0 && gap >= 3 {
                assert(v * p >= 1000) by (nonlinear_arith)
                    requires
                        v >= 1,
                        p >= 1000,
                ;
            }
            if v >= 1000 {
                assert(v * p >= 1000) by (nonlinear_arith)
                    requires
                        v >= 1000,
                        p >= 1,
                ;
            }
            assert(v == 0 ==> v * p == 0) by (nonlinear_arith);
            assert(gap == 1 ==> v * p == 10 * v) by (nonlinear_arith)
                requires
                    gap == 1 ==> p == 10,
            ;
            assert(gap == 2 ==> v * p == 100 * v) by (nonlinear_arith)
                requires
                    gap == 2 ==> p == 100,
            ;
        }
        if gap == 1 {
            whole = whole * 10;
        } else if gap == 2 {
            whole = whole * 100;
        } else if whole > 0 {
            whole = 1000;
        }
    }
    let up: bool = point < len as i128 && digits[point as usize] >= 53;
    if up {
        whole = whole + 1;
    }
    if whole < 1 {
        1
    } else if whole > 255 {
        255
    } else {
        whole as u8
    }
}

fn push_range(out: &mut Vec<u8>, s: &[u8], from: usize, to: usize)
    requires
        from <= to <= s@.len(),
    ensures
        final(out)@ == old(out)@ + s@.subrange(from as int, to as int),
{
    let ghost own = s@.subrange(from as int, to as int);
    let mut i: usize = from;
    assert(out@ =~= old(out)@ + own.take(0));
    while i < to
        invariant
            from <= i <= to <= s@.len(),
            own == s@.subrange(from as int, to as int),
            out@ == old(out)@ + own.take(i - from),
        decreases to - i,
    {
        out.push(s[i]);
        i = i + 1;
        assert(own.take(i - from) =~= own.take(i - from - 1).push(own[i - from - 1]));
        assert(out@ =~= old(out)@ + own.take(i - from));
    }
    assert(own.take(to - from) =~= own);
}

fn word_at(s: &[u8], i: usize, word: &[u8]) -> (r: bool)
    requires
        i <= s@.len(),
    ensures
        r == is_word(s@, i as nat, word@),
{
    let n: usize = word.len();
    let total: usize = s.len();
    if total - i != n {
        return false;
    }
    let mut k: usize = 0;
    while k < n
        invariant
            k <= n,
            n == word@.len(),
            total == s@.len(),
            total == i + n,
            forall|m: int| 0 <= m < k ==> lower(s@[i + m]) == #[trigger] word@[m],
        decreases n - k,
    {
        let b: u8 = s[i + k];
        let l: u8 = if b >= 65 && b <= 90 {
            b + 32
        } else {
            b
        };
        if l != word[k] {
            assert(lower(s@[i + k]) != word@[k as int]);
            return false;
        }
        k = k + 1;
    }
    true
}

/// The number at `i`, rounded and clamped; 1 where there is none.
fn round_number(s: &[u8], i: usize) -> (r: u8)
    requires
        i <= s@.len(),
    ensures
        r == match number_at(s@, i as nat) {
            Some(n) => clamped(rounded(n)),
            None => 1,
        },
{
    let n: usize = s.len();
    let a: usize = digits_end(s, i);
    let mut digits: Vec<u8> = Vec::new();
    push_range(&mut digits, s, i, a);
    let ghost whole = s@.subrange(i as int, a as int);
    assert(digits@ =~= whole);
    let mut b: usize = a;
    if a < n && s[a] == 46 {
        b = digits_end(s, a + 1);
        push_range(&mut digits, s, a + 1, b);
    }
    let e: i128 = match read_exponent(s, b) {
        Some(e) => e,
        None => return 1,
    };
    if digits.len() == 0 {
        return 1;
    }
    proof {
        let x = exponent_at(s@, b as nat)->0;
        lemma_near_point(digits@, whole.len(), x);
        assert forall|k: int| 0 <= k < digits@.len() implies is_digit(#[trigger] digits@[k]) by {
            if k < whole.len() {
                assert(digits@[k] == s@[i + k]);
            } else {
                assert(digits@[k] == s@[a + 1 + (k - whole.len())]);
            }
        }
    }
    round_digits(&digits, (a - i) as i128 + e)
}

/// The floor count that a text spells.
pub fn parse_floors(s: &[u8]) -> (r: u8)
    ensures
        r == floors_in(s@),
{
    let n: usize = s.len();
    if n > 0 && s[0] == 45 {
        return 1;
    }
    let i: usize = if n > 0 && s[0] == 43 {
        1
    } else {
        0
    };
    let short: [u8; 3] = [105, 110, 102];
    let long: [u8; 8] = [105, 110, 102, 105, 110, 105, 116, 121];
    assert(short@ =~= inf());
    assert(long@ =~= infinity());
    if word_at(s, i, &short) || word_at(s, i, &long) {
        return 255;
    }
    round_number(s, i)
}

} // verus!
