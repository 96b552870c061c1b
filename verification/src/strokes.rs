//! Joining road lines into strokes and dropping parallel ones.
//!
//! Lines are joined end to end into continuous strokes, threading through interchanges by
//! good continuation. How well one line continues another is the caller's to measure: it
//! lists, for each end of each line, the lines that may follow there, each with a score.

use vstd::prelude::*;

use crate::sort::{is_permutation, is_stable_order, sort_order};
use crate::weld_model::{lemma_unused_count_update, unused_count};

verus! {

/// A line that may follow at an end: entered at its start (and run forward) or at its end.
/// The higher the score, the straighter the continuation.
#[derive(Debug, Clone, Copy, PartialEq, Eq, Structural)]
pub struct Turn {
    pub line: usize,
    pub at_start: bool,
    pub score: u64,
}

/// A line of a stroke, run forward or backward.
#[derive(Debug, Clone, Copy, PartialEq, Eq, Structural)]
pub struct Step {
    pub line: usize,
    pub forward: bool,
}

/// The place of an end in the list of turns: the start of line `i` at `2 * i`, its end
/// behind it.
pub open spec fn port(line: int, at_start: bool) -> int {
    if at_start {
        2 * line
    } else {
        2 * line + 1
    }
}

/// The end that a step leads to.
pub open spec fn tail_port(s: Step) -> int {
    port(s.line as int, !s.forward)
}

/// The turns of every end, of `usable.len()` lines; turns lead to usable lines only.
pub open spec fn turns_ok(turns: Seq<Vec<Turn>>, usable: Seq<bool>) -> bool {
    &&& turns.len() == 2 * usable.len()
    &&& forall|p: int, k: int|
        0 <= p < turns.len() && 0 <= k < turns[p]@.len() ==> (#[trigger] turns[p]@[k]).line
            < usable.len() && usable[turns[p]@[k].line as int]
}

/// The best of the first `n` turns whose line is free: the highest score, the last of
/// equal ones.
pub open spec fn best_turn(cands: Seq<Turn>, used: Seq<bool>, n: nat) -> Option<Turn>
    decreases n,
{
    if n == 0 {
        None
    } else {
        let b = best_turn(cands, used, (n - 1) as nat);
        let c = cands[n - 1];
        if !used[c.line as int] && (b matches Some(t) ==> c.score >= t.score) {
            Some(c)
        } else {
            b
        }
    }
}

/// The best turn is a free candidate that no free candidate beats; there is none only if
/// no candidate is free.
pub proof fn best_turn_is_straightest(cands: Seq<Turn>, used: Seq<bool>, n: nat)
    requires
        n <= cands.len(),
    ensures
        match best_turn(cands, used, n) {
            Some(t) => (exists|k: int| 0 <= k < n && #[trigger] cands[k] == t) && !used[t.line as int]
                && forall|k: int|
                0 <= k < n && !used[(#[trigger] cands[k]).line as int] ==> cands[k].score <= t.score,
            None => forall|k: int| 0 <= k < n ==> used[(#[trigger] cands[k]).line as int],
        },
    decreases n,
{
    if n > 0 {
        best_turn_is_straightest(cands, used, (n - 1) as nat);
        assert(cands[n - 1] == cands[n - 1]);
    }
}

/// Extend a stroke at its tail by the best turns, until there is none: the stroke, and the
/// lines used.
pub open spec fn grown(turns: Seq<Vec<Turn>>, stroke: Seq<Step>, used: Seq<bool>) -> (
    Seq<Step>,
    Seq<bool>,
)
    decreases unused_count(used),
{
    let cands = turns[tail_port(stroke.last())]@;
    match best_turn(cands, used, cands.len()) {
        None => (stroke, used),
        Some(t) => if t.line < used.len() && !used[t.line as int] {
            proof {
                lemma_unused_count_update(used, t.line as int);
            }
            grown(
                turns,
                stroke.push(Step { line: t.line, forward: t.at_start }),
                used.update(t.line as int, true),
            )
        } else {
            (stroke, used)
        },
    }
}

/// A stroke run the other way.
pub open spec fn turned(stroke: Seq<Step>) -> Seq<Step> {
    Seq::new(
        stroke.len(),
        |i: int|
            Step {
                line: stroke[stroke.len() - 1 - i].line,
                forward: !stroke[stroke.len() - 1 - i].forward,
            },
    )
}

/// The stroke of a seed: grown at its tail, then at its head.
pub open spec fn stroke_from(turns: Seq<Vec<Turn>>, seed: usize, used: Seq<bool>) -> (
    Seq<Step>,
    Seq<bool>,
) {
    let (ahead, u1) = grown(
        turns,
        seq![Step { line: seed, forward: true }],
        used.update(seed as int, true),
    );
    let (both, u2) = grown(turns, turned(ahead), u1);
    (turned(both), u2)
}

/// The strokes of the free usable lines from `seed` on, in order.
pub open spec fn strokes_from(
    turns: Seq<Vec<Turn>>,
    usable: Seq<bool>,
    used: Seq<bool>,
    seed: nat,
) -> Seq<Seq<Step>>
    decreases usable.len() - seed,
{
    if seed >= usable.len() {
        Seq::empty()
    } else if used[seed as int] || !usable[seed as int] {
        strokes_from(turns, usable, used, seed + 1)
    } else {
        let (s, u) = stroke_from(turns, seed as usize, used);
        seq![s] + strokes_from(turns, usable, u, seed + 1)
    }
}

pub open spec fn all_strokes(turns: Seq<Vec<Turn>>, usable: Seq<bool>) -> Seq<Seq<Step>> {
    strokes_from(turns, usable, Seq::new(usable.len(), |i: int| false), 0)
}

pub open spec fn strokes_view(s: Seq<Vec<Step>>) -> Seq<Seq<Step>> {
    Seq::new(s.len(), |i: int| s[i]@)
}

// ---- the laws of strokes ----

/// The lines of a stroke.
pub open spec fn has_line(stroke: Seq<Step>, line: int) -> bool {
    exists|k: int| 0 <= k < stroke.len() && (#[trigger] stroke[k]).line == line
}

/// No line occurs twice in a stroke.
pub open spec fn lines_distinct(stroke: Seq<Step>) -> bool {
    forall|i: int, j: int|
        0 <= i < j < stroke.len() ==> (#[trigger] stroke[i]).line != (#[trigger] stroke[j]).line
}

/// The stroke is made of distinct usable lines that were free in `base`; with them `base`
/// becomes `used`.
spec fn built(stroke: Seq<Step>, used: Seq<bool>, base: Seq<bool>, usable: Seq<bool>) -> bool {
    &&& stroke.len() > 0
    &&& used.len() == usable.len() && base.len() == usable.len()
    &&& lines_distinct(stroke)
    &&& forall|k: int|
        0 <= k < stroke.len() ==> (#[trigger] stroke[k]).line < usable.len()
            && usable[stroke[k].line as int] && !base[stroke[k].line as int]
    &&& forall|l: int|
        0 <= l < usable.len() ==> #[trigger] used[l] == (base[l] || has_line(stroke, l))
}

proof fn lemma_push_line(stroke: Seq<Step>, s: Step, line: int)
    ensures
        has_line(stroke.push(s), line) == (has_line(stroke, line) || s.line == line),
{
    let p = stroke.push(s);
    if has_line(stroke, line) {
        let k = choose|k: int| 0 <= k < stroke.len() && (#[trigger] stroke[k]).line == line;
        assert(p[k].line == line);
    }
    if s.line == line {
        assert(p[stroke.len() as int].line == line);
    }
    if has_line(p, line) {
        let k = choose|k: int| 0 <= k < p.len() && (#[trigger] p[k]).line == line;
        if k < stroke.len() {
            assert(stroke[k].line == line);
        }
    }
}

proof fn lemma_turned_line(stroke: Seq<Step>, line: int)
    ensures
        has_line(turned(stroke), line) == has_line(stroke, line),
{
    let t = turned(stroke);
    let n = stroke.len() as int;
    if has_line(stroke, line) {
        let k = choose|k: int| 0 <= k < stroke.len() && (#[trigger] stroke[k]).line == line;
        assert(t[n - 1 - k].line == line);
    }
    if has_line(t, line) {
        let k = choose|k: int| 0 <= k < t.len() && (#[trigger] t[k]).line == line;
        assert(stroke[n - 1 - k].line == line);
    }
}

proof fn lemma_turned_built(stroke: Seq<Step>, used: Seq<bool>, base: Seq<bool>, usable: Seq<bool>)
    requires
        built(stroke, used, base, usable),
    ensures
        built(turned(stroke), used, base, usable),
{
    let t = turned(stroke);
    let n = stroke.len() as int;
    assert forall|i: int, j: int| 0 <= i < j < t.len() implies (#[trigger] t[i]).line != (
    #[trigger] t[j]).line by {
        assert(stroke[n - 1 - j].line != stroke[n - 1 - i].line);
    }
    assert forall|k: int| 0 <= k < t.len() implies (#[trigger] t[k]).line < usable.len()
        && usable[t[k].line as int] && !base[t[k].line as int] by {
        assert(t[k].line == stroke[n - 1 - k].line);
    }
    assert forall|l: int| 0 <= l < usable.len() implies #[trigger] used[l] == (base[l] || has_line(
        t,
        l,
    )) by {
        lemma_turned_line(stroke, l);
    }
}

proof fn lemma_grown_built(
    turns: Seq<Vec<Turn>>,
    stroke: Seq<Step>,
    used: Seq<bool>,
    base: Seq<bool>,
    usable: Seq<bool>,
)
    requires
        turns_ok(turns, usable),
        built(stroke, used, base, usable),
    ensures
        built(grown(turns, stroke, used).0, grown(turns, stroke, used).1, base, usable),
    decreases unused_count(used),
{
    let p = tail_port(stroke.last());
    assert(stroke[stroke.len() - 1].line < usable.len());
    let cands = turns[p]@;
    best_turn_is_straightest(cands, used, cands.len());
    if let Some(t) = best_turn(cands, used, cands.len()) {
        let k = choose|k: int| 0 <= k < cands.len() && #[trigger] cands[k] == t;
        assert(turns[p]@[k] == t);
        lemma_unused_count_update(used, t.line as int);
        let next = Step { line: t.line, forward: t.at_start };
        let s2 = stroke.push(next);
        let u2 = used.update(t.line as int, true);
        assert(!has_line(stroke, t.line as int));
        assert forall|i: int, j: int| 0 <= i < j < s2.len() implies (#[trigger] s2[i]).line != (
        #[trigger] s2[j]).line by {
            if j == stroke.len() {
                assert(stroke[i].line != t.line);
            }
        }
        assert forall|l: int| 0 <= l < usable.len() implies #[trigger] u2[l] == (base[l]
            || has_line(s2, l)) by {
            lemma_push_line(stroke, next, l);
            assert(used[l] == (base[l] || has_line(stroke, l)));
        }
        lemma_grown_built(turns, s2, u2, base, usable);
    }
}

proof fn lemma_stroke_built(
    turns: Seq<Vec<Turn>>,
    seed: usize,
    used: Seq<bool>,
    usable: Seq<bool>,
)
    requires
        turns_ok(turns, usable),
        seed < usable.len(),
        used.len() == usable.len(),
        !used[seed as int],
        usable[seed as int],
    ensures
        built(stroke_from(turns, seed, used).0, stroke_from(turns, seed, used).1, used, usable),
        has_line(stroke_from(turns, seed, used).0, seed as int),
{
    let s0 = seq![Step { line: seed, forward: true }];
    let u0 = used.update(seed as int, true);
    assert(s0[0].line == seed);
    assert forall|l: int| 0 <= l < usable.len() implies #[trigger] u0[l] == (used[l] || has_line(
        s0,
        l,
    )) by {
        if has_line(s0, l) {
            let k = choose|k: int| 0 <= k < s0.len() && (#[trigger] s0[k]).line == l;
            assert(k == 0);
        }
    }
    lemma_grown_built(turns, s0, u0, used, usable);
    let (s1, u1) = grown(turns, s0, u0);
    lemma_turned_built(s1, u1, used, usable);
    lemma_grown_built(turns, turned(s1), u1, used, usable);
    let (s2, u2) = grown(turns, turned(s1), u1);
    lemma_turned_built(s2, u2, used, usable);
    lemma_grown_keeps(turns, s0, u0, seed as int);
    lemma_turned_line(s1, seed as int);
    lemma_grown_keeps(turns, turned(s1), u1, seed as int);
    lemma_turned_line(s2, seed as int);
}

proof fn lemma_grown_keeps(turns: Seq<Vec<Turn>>, stroke: Seq<Step>, used: Seq<bool>, line: int)
    requires
        has_line(stroke, line),
    ensures
        has_line(grown(turns, stroke, used).0, line),
    decreases unused_count(used),
{
    let cands = turns[tail_port(stroke.last())]@;
    if let Some(t) = best_turn(cands, used, cands.len()) {
        if t.line < used.len() && !used[t.line as int] {
            lemma_unused_count_update(used, t.line as int);
            let next = Step { line: t.line, forward: t.at_start };
            lemma_push_line(stroke, next, line);
            lemma_grown_keeps(
                turns,
                stroke.push(next),
                used.update(t.line as int, true),
                line,
            );
        }
    }
}

/// Some stroke has the line.
pub open spec fn some_has(strokes: Seq<Seq<Step>>, line: int) -> bool {
    exists|i: int| 0 <= i < strokes.len() && has_line(#[trigger] strokes[i], line)
}

/// No line is in two strokes, or twice in one.
pub open spec fn strokes_disjoint(strokes: Seq<Seq<Step>>) -> bool {
    &&& forall|i: int| 0 <= i < strokes.len() ==> lines_distinct(#[trigger] strokes[i])
    &&& forall|i: int, j: int, line: int|
        0 <= i < j < strokes.len() && #[trigger] has_line(strokes[i], line) ==> !#[trigger]
            has_line(strokes[j], line)
}

proof fn lemma_strokes_partition(
    turns: Seq<Vec<Turn>>,
    usable: Seq<bool>,
    used: Seq<bool>,
    seed: nat,
)
    requires
        turns_ok(turns, usable),
        used.len() == usable.len(),
        usable.len() <= usize::MAX,
        forall|l: int| 0 <= l < seed && l < usable.len() && usable[l] ==> #[trigger] used[l],
    ensures
        ({
            let out = strokes_from(turns, usable, used, seed);
            &&& strokes_disjoint(out)
            &&& forall|l: int|
                #[trigger] some_has(out, l) <==> 0 <= l < usable.len() && usable[l] && !used[l]
        }),
    decreases usable.len() - seed,
{
    let out = strokes_from(turns, usable, used, seed);
    if seed >= usable.len() {
        assert forall|l: int| #[trigger] some_has(out, l) <==> 0 <= l < usable.len() && usable[l]
            && !used[l] by {
            if 0 <= l < usable.len() && usable[l] {
                assert(used[l]);
            }
        }
    } else if used[seed as int] || !usable[seed as int] {
        lemma_strokes_partition(turns, usable, used, seed + 1);
    } else {
        lemma_stroke_built(turns, seed as usize, used, usable);
        let (s, u) = stroke_from(turns, seed as usize, used);
        assert forall|l: int| 0 <= l < seed + 1 && l < usable.len() && usable[l] implies #[trigger] u[l] by {
            if l < seed {
                assert(used[l]);
            }
        }
        lemma_strokes_partition(turns, usable, u, seed + 1);
        let rest = strokes_from(turns, usable, u, seed + 1);
        assert(out =~= seq![s] + rest);
        assert forall|i: int| 0 <= i < out.len() implies lines_distinct(#[trigger] out[i]) by {
            if i > 0 {
                assert(out[i] == rest[i - 1]);
            }
        }
        assert forall|i: int, j: int, line: int|
            0 <= i < j < out.len() && #[trigger] has_line(out[i], line) implies !#[trigger] has_line(
            out[j],
            line,
        ) by {
            assert(out[j] == rest[j - 1]);
            if i == 0 {
                let k = choose|k: int| 0 <= k < s.len() && (#[trigger] s[k]).line == line;
                assert(s[k].line < usable.len());
                assert(u[line]);
                if has_line(rest[j - 1], line) {
                    assert(some_has(rest, line));
                }
            } else {
                assert(out[i] == rest[i - 1]);
            }
        }
        assert forall|l: int| #[trigger] some_has(out, l) <==> 0 <= l < usable.len() && usable[l]
            && !used[l] by {
            if some_has(out, l) {
                let i = choose|i: int| 0 <= i < out.len() && has_line(#[trigger] out[i], l);
                if i == 0 {
                    let k = choose|k: int| 0 <= k < s.len() && (#[trigger] s[k]).line == l;
                    assert(s[k].line < usable.len());
                } else {
                    assert(has_line(rest[i - 1], l));
                    assert(some_has(rest, l));
                    assert(!u[l]);
                }
            }
            if 0 <= l < usable.len() && usable[l] && !used[l] {
                if has_line(s, l) {
                    assert(has_line(out[0], l));
                } else {
                    assert(!u[l]);
                    assert(some_has(rest, l));
                    let i = choose|i: int| 0 <= i < rest.len() && has_line(#[trigger] rest[i], l);
                    assert(has_line(out[i + 1], l));
                }
            }
        }
    }
}

/// Every usable line is in one stroke, once; no other line is in any.
pub proof fn strokes_partition_lines(turns: Seq<Vec<Turn>>, usable: Seq<bool>)
    requires
        turns_ok(turns, usable),
        usable.len() <= usize::MAX,
    ensures
        strokes_disjoint(all_strokes(turns, usable)),
        forall|l: int|
            #[trigger] some_has(all_strokes(turns, usable), l) <==> 0 <= l < usable.len()
                && usable[l],
{
    lemma_strokes_partition(turns, usable, Seq::new(usable.len(), |i: int| false), 0);
}

/// The turn leads from the tail of one step to the other step.
pub open spec fn is_turn(turns: Seq<Vec<Turn>>, a: Step, b: Step) -> bool {
    exists|k: int|
        0 <= k < turns[tail_port(a)]@.len() && (#[trigger] turns[tail_port(a)]@[k]).line == b.line
            && turns[tail_port(a)]@[k].at_start == b.forward
}

pub open spec fn flipped(s: Step) -> Step {
    Step { line: s.line, forward: !s.forward }
}

/// Steps that follow each other are joined by a turn, in one direction or the other.
pub open spec fn joined(turns: Seq<Vec<Turn>>, stroke: Seq<Step>) -> bool {
    forall|i: int|
        0 < i < stroke.len() ==> is_turn(turns, #[trigger] stroke[i - 1], stroke[i]) || is_turn(
            turns,
            flipped(stroke[i]),
            flipped(stroke[i - 1]),
        )
}

proof fn lemma_grown_joined(turns: Seq<Vec<Turn>>, stroke: Seq<Step>, used: Seq<bool>)
    requires
        stroke.len() > 0,
        joined(turns, stroke),
    ensures
        joined(turns, grown(turns, stroke, used).0),
        grown(turns, stroke, used).0.len() > 0,
    decreases unused_count(used),
{
    let cands = turns[tail_port(stroke.last())]@;
    best_turn_is_straightest(cands, used, cands.len());
    if let Some(t) = best_turn(cands, used, cands.len()) {
        if t.line < used.len() && !used[t.line as int] {
            lemma_unused_count_update(used, t.line as int);
            let next = Step { line: t.line, forward: t.at_start };
            let s2 = stroke.push(next);
            let k = choose|k: int| 0 <= k < cands.len() && #[trigger] cands[k] == t;
            assert(turns[tail_port(stroke.last())]@[k].line == next.line);
            assert(is_turn(turns, stroke.last(), next));
            assert forall|i: int| 0 < i < s2.len() implies is_turn(
                turns,
                #[trigger] s2[i - 1],
                s2[i],
            ) || is_turn(turns, flipped(s2[i]), flipped(s2[i - 1])) by {
                if i < stroke.len() {
                    assert(s2[i - 1] == stroke[i - 1]);
                }
            }
            lemma_grown_joined(turns, s2, used.update(t.line as int, true));
        }
    }
}

proof fn lemma_turned_joined(turns: Seq<Vec<Turn>>, stroke: Seq<Step>)
    requires
        joined(turns, stroke),
    ensures
        joined(turns, turned(stroke)),
{
    let t = turned(stroke);
    let n = stroke.len() as int;
    assert forall|i: int| 0 < i < t.len() implies is_turn(turns, #[trigger] t[i - 1], t[i])
        || is_turn(turns, flipped(t[i]), flipped(t[i - 1])) by {
        let j = n - i;
        assert(is_turn(turns, stroke[j - 1], stroke[j]) || is_turn(
            turns,
            flipped(stroke[j]),
            flipped(stroke[j - 1]),
        ));
        assert(t[i - 1] == flipped(stroke[j]));
        assert(t[i] == flipped(stroke[j - 1]));
        assert(flipped(t[i]) == stroke[j - 1]);
        assert(flipped(t[i - 1]) == stroke[j]);
    }
}

/// Lines are only ever joined by a listed turn.
pub proof fn strokes_follow_turns(turns: Seq<Vec<Turn>>, usable: Seq<bool>)
    requires
        usable.len() <= usize::MAX,
    ensures
        forall|i: int|
            0 <= i < all_strokes(turns, usable).len() ==> joined(
                turns,
                #[trigger] all_strokes(turns, usable)[i],
            ),
{
    lemma_strokes_joined(turns, usable, Seq::new(usable.len(), |i: int| false), 0);
}

proof fn lemma_strokes_joined(
    turns: Seq<Vec<Turn>>,
    usable: Seq<bool>,
    used: Seq<bool>,
    seed: nat,
)
    requires
        usable.len() <= usize::MAX,
    ensures
        forall|i: int|
            0 <= i < strokes_from(turns, usable, used, seed).len() ==> joined(
                turns,
                #[trigger] strokes_from(turns, usable, used, seed)[i],
            ),
    decreases usable.len() - seed,
{
    if seed < usable.len() {
        if used[seed as int] || !usable[seed as int] {
            lemma_strokes_joined(turns, usable, used, seed + 1);
            assert(strokes_from(turns, usable, used, seed) == strokes_from(
                turns,
                usable,
                used,
                seed + 1,
            ));
        } else {
            let s0 = seq![Step { line: seed as usize, forward: true }];
            let u0 = used.update(seed as int, true);
            lemma_grown_joined(turns, s0, u0);
            let (s1, u1) = grown(turns, s0, u0);
            lemma_turned_joined(turns, s1);
            lemma_grown_joined(turns, turned(s1), u1);
            let (s2, u2) = grown(turns, turned(s1), u1);
            lemma_turned_joined(turns, s2);
            let (s, u) = stroke_from(turns, seed as usize, used);
            let rest = strokes_from(turns, usable, u, seed + 1);
            lemma_strokes_joined(turns, usable, u, seed + 1);
            let out = strokes_from(turns, usable, used, seed);
            assert forall|i: int| 0 <= i < out.len() implies joined(turns, #[trigger] out[i]) by {
                if i > 0 {
                    assert(out[i] == rest[i - 1]);
                }
            }
        }
    } else {
        assert(strokes_from(turns, usable, used, seed).len() == 0);
    }
}

// ---- building strokes ----

fn pick_turn(cands: &Vec<Turn>, used: &Vec<bool>) -> (r: Option<Turn>)
    requires
        forall|k: int| 0 <= k < cands@.len() ==> (#[trigger] cands@[k]).line < used@.len(),
    ensures
        r == best_turn(cands@, used@, cands@.len()),
{
    let mut best: Option<Turn> = None;
    let mut i: usize = 0;
    while i < cands.len()
        invariant
            i <= cands@.len(),
            forall|k: int| 0 <= k < cands@.len() ==> (#[trigger] cands@[k]).line < used@.len(),
            best == best_turn(cands@, used@, i as nat),
        decreases cands@.len() - i,
    {
        let c: Turn = cands[i];
        if !used[c.line] {
            let better: bool = match best {
                Some(t) => c.score >= t.score,
                None => true,
            };
            if better {
                best = Some(c);
            }
        }
        i = i + 1;
    }
    best
}

fn turn_round(stroke: &Vec<Step>) -> (r: Vec<Step>)
    ensures
        r@ == turned(stroke@),
{
    let n: usize = stroke.len();
    let mut r: Vec<Step> = Vec::new();
    let mut i: usize = 0;
    while i < n
        invariant
            i <= n,
            n == stroke@.len(),
            r@ == turned(stroke@).take(i as int),
        decreases n - i,
    {
        let s: Step = stroke[n - 1 - i];
        r.push(Step { line: s.line, forward: !s.forward });
        i = i + 1;
        assert(r@ =~= turned(stroke@).take(i as int));
    }
    assert(r@ =~= turned(stroke@));
    r
}

/// Extend a stroke at its tail.
fn grow(turns: &Vec<Vec<Turn>>, stroke: Vec<Step>, used: &mut Vec<bool>, Ghost(usable): Ghost<Seq<bool>>) -> (r:
    Vec<Step>)
    requires
        turns_ok(turns@, usable),
        old(used)@.len() == usable.len(),
        stroke@.len() > 0,
        forall|k: int| 0 <= k < stroke@.len() ==> (#[trigger] stroke@[k]).line < usable.len(),
    ensures
        (r@, final(used)@) == grown(turns@, stroke@, old(used)@),
        final(used)@.len() == usable.len(),
        r@.len() > 0,
        forall|k: int| 0 <= k < r@.len() ==> (#[trigger] r@[k]).line < usable.len(),
{
    let ghost want = grown(turns@, stroke@, used@);
    let mut r: Vec<Step> = stroke;
    let n: usize = turns.len();
    loop
        invariant
            turns_ok(turns@, usable),
            n == turns@.len(),
            used@.len() == usable.len(),
            r@.len() > 0,
            forall|k: int| 0 <= k < r@.len() ==> (#[trigger] r@[k]).line < usable.len(),
            grown(turns@, r@, used@) == want,
        ensures
            (r@, used@) == want,
        decreases unused_count(used@),
    {
        let last: Step = r[r.len() - 1];
        assert(r@[r@.len() - 1].line < usable.len());
        let p: usize = if last.forward {
            2 * last.line + 1
        } else {
            2 * last.line
        };
        assert(p == tail_port(r@.last()));
        let ghost cands = turns@[p as int]@;
        proof {
            best_turn_is_straightest(cands, used@, cands.len());
            assert forall|k: int| 0 <= k < cands.len() implies (#[trigger] cands[k]).line
                < used@.len() by {
                assert(turns@[p as int]@[k].line < usable.len());
            }
        }
        match pick_turn(&turns[p], used) {
            None => {
                break;
            },
            Some(t) => {
                let ghost before = used@;
                proof {
                    let k = choose|k: int| 0 <= k < cands.len() && #[trigger] cands[k] == t;
                    assert(turns@[p as int]@[k].line < usable.len());
                    lemma_unused_count_update(used@, t.line as int);
                }
                used.set(t.line, true);
                r.push(Step { line: t.line, forward: t.at_start });
            },
        }
    }
    r
}

/// Chain lines into continuous strokes by good continuation: at each end pick the free
/// line that best continues the stroke. `turns` lists, for each end of each line, the
/// lines that may follow; `usable` tells the lines that count (those of two or more
/// vertices).
pub fn chain_group(turns: &Vec<Vec<Turn>>, usable: &Vec<bool>) -> (r: Vec<Vec<Step>>)
    requires
        turns_ok(turns@, usable@),
    ensures
        strokes_view(r@) == all_strokes(turns@, usable@),
{
    let n: usize = usable.len();
    let mut used: Vec<bool> = Vec::new();
    while used.len() < n
        invariant
            used@.len() <= n,
            forall|k: int| 0 <= k < used@.len() ==> !(#[trigger] used@[k]),
        decreases n - used@.len(),
    {
        used.push(false);
    }
    assert(used@ =~= Seq::new(usable@.len(), |i: int| false));
    let ghost all = all_strokes(turns@, usable@);
    let mut r: Vec<Vec<Step>> = Vec::new();
    let mut seed: usize = 0;
    assert(strokes_view(r@) + strokes_from(turns@, usable@, used@, 0) =~= all);
    while seed < n
        invariant
            seed <= n,
            n == usable@.len(),
            used@.len() == n,
            turns_ok(turns@, usable@),
            strokes_view(r@) + strokes_from(turns@, usable@, used@, seed as nat) == all,
        decreases n - seed,
    {
        if !used[seed] && usable[seed] {
            let ghost before = used@;
            let ghost done = strokes_view(r@);
            let mut stroke: Vec<Step> = Vec::new();
            stroke.push(Step { line: seed, forward: true });
            assert(stroke@ =~= seq![Step { line: seed, forward: true }]);
            used.set(seed, true);
            let ahead: Vec<Step> = grow(turns, stroke, &mut used, Ghost(usable@));
            let back: Vec<Step> = turn_round(&ahead);
            assert forall|k: int| 0 <= k < back@.len() implies (#[trigger] back@[k]).line
                < usable@.len() by {
                assert(ahead@[ahead@.len() - 1 - k].line < usable@.len());
            }
            let both: Vec<Step> = grow(turns, back, &mut used, Ghost(usable@));
            let whole: Vec<Step> = turn_round(&both);
            let ghost s = whole@;
            assert((s, used@) == stroke_from(turns@, seed, before));
            r.push(whole);
            proof {
                assert(strokes_view(r@) =~= done.push(s));
                let rest = strokes_from(turns@, usable@, used@, (seed + 1) as nat);
                assert(strokes_from(turns@, usable@, before, seed as nat) == seq![s] + rest);
                assert(done.push(s) + rest =~= done + (seq![s] + rest));
            }
        }
        seed = seed + 1;
    }
    assert(strokes_view(r@) + Seq::<Seq<Step>>::empty() =~= strokes_view(r@));
    r
}

// ---- parallel strokes ----

pub open spec fn length_keys(lengths: Seq<u64>) -> Seq<i128> {
    Seq::new(lengths.len(), |i: int| -(lengths[i] as i128) as i128)
}

/// For each stroke, the strokes that run alongside it.
pub open spec fn alongside_ok(alongside: Seq<Vec<usize>>, n: nat) -> bool {
    &&& alongside.len() == n
    &&& forall|i: int, k: int|
        0 <= i < n && 0 <= k < alongside[i]@.len() ==> (#[trigger] alongside[i]@[k]) < n
}

/// The stroke comes at place `r` or later.
pub open spec fn comes_from(order: Seq<usize>, r: int, j: int) -> bool {
    exists|q: int| r <= q < order.len() && #[trigger] order[q] == j
}

/// The strokes removed after the first `r` of the order: each that is still there removes
/// the later ones that run alongside it.
pub open spec fn removed_after(order: Seq<usize>, alongside: Seq<Vec<usize>>, r: nat) -> Seq<bool>
    decreases r,
{
    if r == 0 {
        Seq::new(order.len(), |j: int| false)
    } else {
        let m = removed_after(order, alongside, (r - 1) as nat);
        let i = order[r - 1] as int;
        if m[i] {
            m
        } else {
            Seq::new(
                order.len(),
                |j: int| m[j] || (alongside[i]@.contains(j as usize) && comes_from(order, r as int, j)),
            )
        }
    }
}

/// The strokes that stay, longest first in the order (equal ones as they stand).
pub open spec fn is_deduped(kept: Seq<bool>, lengths: Seq<u64>, alongside: Seq<Vec<usize>>) -> bool {
    exists|order: Seq<usize>|
        #![trigger is_stable_order(order, length_keys(lengths))]
        is_stable_order(order, length_keys(lengths)) && kept == Seq::new(
            lengths.len(),
            |j: int| !removed_after(order, alongside, order.len())[j],
        )
}

proof fn lemma_removed(order: Seq<usize>, alongside: Seq<Vec<usize>>, r: nat, j: int)
    requires
        is_permutation(order, order.len()),
        r <= order.len(),
        0 <= j < order.len(),
    ensures
        removed_after(order, alongside, r).len() == order.len(),
        removed_after(order, alongside, r)[j] ==> exists|p: int|
            0 <= p < r && !removed_after(order, alongside, r)[(#[trigger] order[p]) as int]
                && alongside[order[p] as int]@.contains(j as usize) && comes_from(order, p + 1, j),
        forall|p: int|
            0 <= p < r && !removed_after(order, alongside, r)[(#[trigger] order[p]) as int]
                && alongside[order[p] as int]@.contains(j as usize) && comes_from(order, p + 1, j)
                ==> removed_after(order, alongside, r)[j],
    decreases r,
{
    if r > 0 {
        let m = removed_after(order, alongside, (r - 1) as nat);
        let out = removed_after(order, alongside, r);
        lemma_removed(order, alongside, (r - 1) as nat, j);
        let i = order[r - 1] as int;
        assert(order[r - 1] < order.len());
        // Those that came before stay as they were.
        assert forall|p: int| 0 <= p < r implies out[(#[trigger] order[p]) as int]
            == m[order[p] as int] by {
            assert(order[p] < order.len());
            if comes_from(order, r as int, order[p] as int) {
                let q = choose|q: int| r <= q < order.len() && #[trigger] order[q] == order[p];
                assert(order[q] == order[p] && q != p);
            }
        }
        assert(out.len() == order.len());
        if out[j] {
            if m[j] {
                let p = choose|p: int|
                    0 <= p < r - 1 && !m[(#[trigger] order[p]) as int]
                        && alongside[order[p] as int]@.contains(j as usize) && comes_from(
                        order,
                        p + 1,
                        j,
                    );
                assert(!out[order[p] as int]);
            } else {
                assert(!m[i]);
                assert(!out[order[r - 1] as int]);
            }
        }
        assert forall|p: int|
            0 <= p < r && !out[(#[trigger] order[p]) as int]
                && alongside[order[p] as int]@.contains(j as usize) && comes_from(order, p + 1, j) implies out[j] by {
            assert(!m[order[p] as int]);
        }
    }
}

/// A removed stroke runs alongside one that stays and is at least as long; of two strokes
/// that stay, the later in the order does not run alongside the earlier.
pub proof fn dedup_keeps_apart(
    kept: Seq<bool>,
    lengths: Seq<u64>,
    alongside: Seq<Vec<usize>>,
    j: int,
)
    requires
        is_deduped(kept, lengths, alongside),
        alongside_ok(alongside, lengths.len()),
        lengths.len() <= usize::MAX,
        0 <= j < lengths.len(),
    ensures
        kept.len() == lengths.len(),
        !kept[j] ==> exists|i: int|
            0 <= i < lengths.len() && #[trigger] kept[i] && lengths[i] >= lengths[j]
                && alongside[i]@.contains(j as usize),
        kept[j] ==> forall|i: int|
            0 <= i < lengths.len() && #[trigger] kept[i] && (lengths[i] > lengths[j] || (lengths[i]
                == lengths[j] && i < j)) ==> !alongside[i]@.contains(j as usize),
{
    let order = choose|order: Seq<usize>|
        #![trigger is_stable_order(order, length_keys(lengths))]
        is_stable_order(order, length_keys(lengths)) && kept == Seq::new(
            lengths.len(),
            |j: int| !removed_after(order, alongside, order.len())[j],
        );
    let keys = length_keys(lengths);
    let out = removed_after(order, alongside, order.len());
    lemma_removed(order, alongside, order.len(), j);
    if !kept[j] {
        let p = choose|p: int|
            0 <= p < order.len() && !out[(#[trigger] order[p]) as int]
                && alongside[order[p] as int]@.contains(j as usize) && comes_from(order, p + 1, j);
        let q = choose|q: int| p + 1 <= q < order.len() && #[trigger] order[q] == j;
        let i = order[p] as int;
        assert(order[p] < order.len());
        assert(keys[order[p] as int] <= keys[order[q] as int]);
        assert(kept[i]);
    } else {
        assert forall|i: int|
            0 <= i < lengths.len() && #[trigger] kept[i] && (lengths[i] > lengths[j] || (lengths[i]
                == lengths[j] && i < j)) implies !alongside[i]@.contains(j as usize) by {
            assert(order.contains(i as usize));
            assert(order.contains(j as usize));
            let p = choose|p: int| 0 <= p < order.len() && order[p] == i as usize;
            let q = choose|q: int| 0 <= q < order.len() && order[q] == j as usize;
            if q < p {
                assert(keys[order[q] as int] < keys[order[p] as int] || (keys[order[q] as int]
                    == keys[order[p] as int] && order[q] < order[p]));
            }
            assert(p < q);
            assert(order[q] == j);
            assert(comes_from(order, p + 1, j));
            assert(!out[order[p] as int]);
        }
    }
}

/// Drop one stroke of every parallel pair: keeping longer strokes, remove any shorter one
/// that runs alongside a kept one. `alongside[i]` lists the strokes that run alongside
/// stroke `i`. Returns which strokes stay.
pub fn dedup_parallel(lengths: &Vec<u64>, alongside: &Vec<Vec<usize>>) -> (kept: Vec<bool>)
    requires
        alongside_ok(alongside@, lengths@.len()),
    ensures
        is_deduped(kept@, lengths@, alongside@),
        kept@.len() == lengths@.len(),
{
    let n: usize = lengths.len();
    let ghost want = length_keys(lengths@);
    let mut keys: Vec<i128> = Vec::new();
    let mut i: usize = 0;
    while i < n
        invariant
            i <= n,
            n == lengths@.len(),
            want == length_keys(lengths@),
            keys@ == want.take(i as int),
        decreases n - i,
    {
        keys.push(-(lengths[i] as i128));
        i = i + 1;
        assert(keys@ =~= want.take(i as int));
    }
    assert(keys@ =~= want);
    // Longest first, so the survivor of each pair is the longer stroke.
    let order: Vec<usize> = sort_order(&keys);
    let mut rank: Vec<usize> = Vec::new();
    let mut removed: Vec<bool> = Vec::new();
    while removed.len() < n
        invariant
            removed@.len() <= n,
            rank@.len() == removed@.len(),
            forall|k: int| 0 <= k < removed@.len() ==> !(#[trigger] removed@[k]),
        decreases n - removed@.len(),
    {
        removed.push(false);
        rank.push(0);
    }
    let mut r: usize = 0;
    while r < n
        invariant
            r <= n,
            rank@.len() == n,
            order@.len() == n,
            is_permutation(order@, n as nat),
            forall|q: int| 0 <= q < r ==> rank@[(#[trigger] order@[q]) as int] == q,
        decreases n - r,
    {
        let ghost before = rank@;
        assert(order@[r as int] < n);
        rank.set(order[r], r);
        r = r + 1;
        assert forall|q: int| 0 <= q < r implies rank@[(#[trigger] order@[q]) as int] == q by {
            if q < r - 1 {
                assert(order@[q] != order@[r - 1]);
                assert(before[order@[q] as int] == q);
            }
        }
    }
    assert(removed@ =~= removed_after(order@, alongside@, 0));
    let mut r: usize = 0;
    while r < n
        invariant
            r <= n,
            rank@.len() == n,
            order@.len() == n,
            removed@.len() == n,
            is_permutation(order@, n as nat),
            alongside_ok(alongside@, n as nat),
            forall|q: int| 0 <= q < n ==> rank@[(#[trigger] order@[q]) as int] == q,
            removed@ == removed_after(order@, alongside@, r as nat),
        decreases n - r,
    {
        assert(order@[r as int] < n);
        let i: usize = order[r];
        let ghost m = removed@;
        if !removed[i] {
            let mut k: usize = 0;
            while k < alongside[i].len()
                invariant
                    k <= alongside@[i as int]@.len(),
                    i < n,
                    r < n,
                    i == order@[r as int],
                    rank@.len() == n,
                    order@.len() == n,
                    removed@.len() == n,
                    m.len() == n,
                    alongside_ok(alongside@, n as nat),
                    forall|j: int|
                        0 <= j < n ==> #[trigger] removed@[j] == (m[j] || (exists|q: int|
                            0 <= q < k && #[trigger] alongside@[i as int]@[q] == j) && rank@[j] > r),
                decreases alongside@[i as int]@.len() - k,
            {
                let j: usize = alongside[i][k];
                assert(alongside@[i as int]@[k as int] < n);
                let ghost before = removed@;
                if rank[j] > r {
                    removed.set(j, true);
                }
                k = k + 1;
                assert forall|x: int| 0 <= x < n implies #[trigger] removed@[x] == (m[x] || (exists|
                    q: int,
                | 0 <= q < k && #[trigger] alongside@[i as int]@[q] == x) && rank@[x] > r) by {
                    assert(before[x] == (m[x] || (exists|q: int|
                        0 <= q < k - 1 && #[trigger] alongside@[i as int]@[q] == x) && rank@[x]
                        > r));
                    if exists|q: int| 0 <= q < k - 1 && #[trigger] alongside@[i as int]@[q] == x {
                        let q = choose|q: int|
                            0 <= q < k - 1 && #[trigger] alongside@[i as int]@[q] == x;
                        assert(alongside@[i as int]@[q] == x);
                    }
                    if x == j {
                        assert(alongside@[i as int]@[k - 1] == x);
                    } else if exists|q: int| 0 <= q < k && #[trigger] alongside@[i as int]@[q] == x {
                        let q = choose|q: int|
                            0 <= q < k && #[trigger] alongside@[i as int]@[q] == x;
                        assert(q < k - 1);
                    }
                }
            }
            let ghost next = removed_after(order@, alongside@, (r + 1) as nat);
            assert forall|j: int| 0 <= j < n implies removed@[j] == next[j] by {
                let near = alongside@[i as int]@;
                assert(order@.contains(j as usize));
                let p = choose|p: int| 0 <= p < n && order@[p] == j as usize;
                assert(rank@[order@[p] as int] == p);
                if rank@[j] > r {
                    assert(order@[p] == j);
                    assert(comes_from(order@, r + 1, j));
                }
                if comes_from(order@, r + 1, j) {
                    let q = choose|q: int| r + 1 <= q < n && #[trigger] order@[q] == j;
                    assert(rank@[order@[q] as int] == q);
                }
                if near.contains(j as usize) {
                    let q = choose|q: int| 0 <= q < near.len() && near[q] == j as usize;
                    assert(alongside@[i as int]@[q] == j);
                }
                if exists|q: int| 0 <= q < near.len() && #[trigger] alongside@[i as int]@[q] == j {
                    let q = choose|q: int|
                        0 <= q < near.len() && #[trigger] alongside@[i as int]@[q] == j;
                    assert(near[q] == j as usize);
                }
            }
            assert(removed@ =~= next);
        }
        r = r + 1;
    }
    let mut kept: Vec<bool> = Vec::new();
    let mut j: usize = 0;
    while j < n
        invariant
            j <= n,
            removed@.len() == n,
            kept@.len() == j,
            forall|x: int| 0 <= x < j ==> #[trigger] kept@[x] == !removed@[x],
        decreases n - j,
    {
        kept.push(!removed[j]);
        j = j + 1;
    }
    assert(kept@ =~= Seq::new(
        lengths@.len(),
        |j: int| !removed_after(order@, alongside@, order@.len())[j],
    ));
    kept
}

} // verus!
