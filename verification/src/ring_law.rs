//! Fragments that close up come out as rings.

use vstd::prelude::*;

use crate::rings::{
    chained_rings, closed_chain, closed_ones, ends_at, extended, lemma_next_fragment, next_fragment,
    open_ones, ring_refs, rings_of, starting_at,
};
use crate::weld_model::{lemma_unused_count_update, none_used, unused_count};

verus! {

/// The fragment starts or ends at the node.
pub open spec fn touches(f: Seq<i64>, node: i64) -> bool {
    f[0] == node || f[f.len() - 1] == node
}

/// Fragments `x` and `y` are the two that end at the node.
pub open spec fn mates(fs: Seq<Seq<i64>>, x: int, y: int, node: i64) -> bool {
    &&& 0 <= x < fs.len()
    &&& 0 <= y < fs.len()
    &&& x != y
    &&& touches(fs[x], node)
    &&& touches(fs[y], node)
    &&& forall|k: int|
        0 <= k < fs.len() && k != x && k != y ==> !touches(#[trigger] fs[k], node)
}

/// Another fragment ends where this one does, and no third.
pub open spec fn has_mate(fs: Seq<Seq<i64>>, x: int, node: i64) -> bool {
    exists|y: int| #[trigger] mates(fs, x, y, node)
}

/// Every node at which a fragment ends is the end of exactly two.
pub open spec fn closes_up(fs: Seq<Seq<i64>>) -> bool {
    forall|x: int, node: i64|
        0 <= x < fs.len() && #[trigger] touches(fs[x], node) ==> has_mate(fs, x, node)
}

/// Every node of `f` is in `ring`.
pub open spec fn nodes_in(f: Seq<i64>, ring: Seq<i64>) -> bool {
    forall|i: int| 0 <= i < f.len() ==> ring.contains(#[trigger] f[i])
}

/// Some ring has every node of the fragment.
pub open spec fn ringed(rings: Seq<Seq<i64>>, f: Seq<i64>) -> bool {
    exists|k: int| 0 <= k < rings.len() && nodes_in(f, #[trigger] rings[k])
}

/// Of two mates both are used or none, but at the two ends of a chain.
spec fn balanced(fs: Seq<Seq<i64>>, used: Seq<bool>, head: i64, tail: i64) -> bool {
    forall|x: int, y: int, node: i64| #[trigger]
        mates(fs, x, y, node) ==> if head != tail && (node == head || node == tail) {
            used[x] != used[y]
        } else {
            used[x] == used[y]
        }
}

spec fn fragments_ok(fs: Seq<Seq<i64>>) -> bool {
    &&& closes_up(fs)
    &&& forall|i: int|
        0 <= i < fs.len() ==> (#[trigger] fs[i]).len() >= 3 && fs[i][0] != fs[i][fs[i].len() - 1]
}

proof fn lemma_extended(ring: Seq<i64>, f: Seq<i64>)
    requires
        ring.len() >= 1,
        f.len() >= 3,
        touches(f, ring.last()),
        f[0] != f[f.len() - 1],
    ensures
        ({
            let out = extended(ring, f);
            &&& nodes_in(ring, out)
            &&& nodes_in(f, out)
            &&& out.len() >= ring.len() + 2
            &&& out.first() == ring.first()
            &&& out.last() == if f[0] == ring.last() {
                f[f.len() - 1]
            } else {
                f[0]
            }
        }),
{
    let t = starting_at(f, ring.last());
    let out = extended(ring, f);
    let n = ring.len() as int;
    let rest = t.skip(1);
    assert(out == ring + rest);
    assert(t.len() == f.len());
    assert forall|i: int| 0 <= i < ring.len() implies out.contains(#[trigger] ring[i]) by {
        assert(out[i] == ring[i]);
    }
    assert forall|i: int| 0 <= i < t.len() implies out.contains(#[trigger] t[i]) by {
        if i == 0 {
            assert(t[0] == ring.last());
            assert(out[n - 1] == t[0]);
        } else {
            assert(rest[i - 1] == t[i]);
            assert(out[n + i - 1] == t[i]);
        }
    }
    assert forall|i: int| 0 <= i < f.len() implies out.contains(#[trigger] f[i]) by {
        if f.last() == ring.last() {
            assert(t[f.len() - 1 - i] == f[i]);
        } else {
            assert(t[i] == f[i]);
        }
    }
    assert(out.last() == t[t.len() - 1]);
}

proof fn lemma_nodes_trans(f: Seq<i64>, a: Seq<i64>, b: Seq<i64>)
    requires
        nodes_in(f, a),
        nodes_in(a, b),
    ensures
        nodes_in(f, b),
{
    assert forall|i: int| 0 <= i < f.len() implies b.contains(#[trigger] f[i]) by {
        let k = choose|k: int| 0 <= k < a.len() && a[k] == f[i];
        assert(b.contains(a[k]));
    }
}

/// At the tail of a chain the free mate follows.
proof fn lemma_mate_follows(fs: Seq<Seq<i64>>, used: Seq<bool>, head: i64, tail: i64, x: int) -> (y:
    int)
    requires
        fragments_ok(fs),
        used.len() == fs.len(),
        balanced(fs, used, head, tail),
        head != tail,
        0 <= x < fs.len(),
        used[x],
        touches(fs[x], tail),
    ensures
        mates(fs, x, y, tail),
        !used[y],
        next_fragment(fs, used, tail, 0) == Some(y),
{
    assert(has_mate(fs, x, tail));
    let y = choose|y: int| #[trigger] mates(fs, x, y, tail);
    assert(!used[y]);
    lemma_next_fragment(fs, used, tail, 0);
    assert(fs[y].len() >= 3);
    assert(ends_at(fs[y], tail));
    match next_fragment(fs, used, tail, 0) {
        Some(i) => {
            assert(fs[i].len() >= 3);
            assert(touches(fs[i], tail));
            if i != x && i != y {
                assert(!touches(fs[i], tail));
            }
        },
        None => {
            assert(used[y] || !ends_at(fs[y], tail));
        },
    }
    y
}

proof fn lemma_step_balanced(
    fs: Seq<Seq<i64>>,
    used: Seq<bool>,
    head: i64,
    tail: i64,
    y: int,
    next: i64,
)
    requires
        fragments_ok(fs),
        used.len() == fs.len(),
        balanced(fs, used, head, tail),
        head != tail,
        0 <= y < fs.len(),
        !used[y],
        touches(fs[y], tail),
        next == if fs[y][0] == tail {
            fs[y][fs[y].len() - 1]
        } else {
            fs[y][0]
        },
    ensures
        balanced(fs, used.update(y, true), head, next),
        next != tail,
{
    let now = used.update(y, true);
    assert(fs[y].len() >= 3 && fs[y][0] != fs[y][fs[y].len() - 1]);
    assert forall|a: int, b: int, node: i64| #[trigger] mates(fs, a, b, node) implies if head
        != next && (node == head || node == next) {
        now[a] != now[b]
    } else {
        now[a] == now[b]
    } by {
        let was = if node == head || node == tail {
            used[a] != used[b]
        } else {
            used[a] == used[b]
        };
        assert(was);
        if a == y || b == y {
            assert(touches(fs[y], node));
            assert(node == tail || node == next);
        } else if node == tail || node == next {
            assert(touches(fs[y], node));
            assert(!touches(fs[y], node));
        }
    }
}

proof fn lemma_chain_closes(
    fs: Seq<Seq<i64>>,
    used: Seq<bool>,
    ring: Seq<i64>,
    last: int,
    first: int,
)
    requires
        fragments_ok(fs),
        used.len() == fs.len(),
        ring.len() >= 3,
        0 <= last < fs.len(),
        used[last],
        touches(fs[last], ring.last()),
        0 <= first < fs.len(),
        used[first],
        touches(fs[first], ring.first()),
        balanced(fs, used, ring.first(), ring.last()),
        ring.first() == ring.last() ==> ring.len() >= 4,
    ensures
        ({
            let (used2, out) = closed_chain(fs, used, ring);
            &&& out matches Some(r) && nodes_in(ring, r) && forall|j: int|
                0 <= j < fs.len() && #[trigger] used2[j] && !used[j] ==> nodes_in(fs[j], r)
            &&& used2.len() == fs.len()
            &&& forall|j: int| 0 <= j < fs.len() && used[j] ==> #[trigger] used2[j]
            &&& balanced(fs, used2, 0, 0)
        }),
    decreases unused_count(used),
{
    if ring_refs(ring) {
        assert forall|i: int| 0 <= i < ring.len() implies ring.contains(#[trigger] ring[i]) by {}
        assert(balanced(fs, used, 0, 0)) by {
            assert forall|x: int, y: int, node: i64| #[trigger] mates(fs, x, y, node) implies used[x]
                == used[y] by {}
        }
    } else {
        let (head, tail) = (ring.first(), ring.last());
        assert(head != tail);
        let y = lemma_mate_follows(fs, used, head, tail, last);
        let f = fs[y];
        assert(f.len() >= 3 && f[0] != f[f.len() - 1]);
        let next = if f[0] == tail {
            f[f.len() - 1]
        } else {
            f[0]
        };
        lemma_extended(ring, f);
        lemma_step_balanced(fs, used, head, tail, y, next);
        lemma_unused_count_update(used, y);
        let now = used.update(y, true);
        let more = extended(ring, f);
        lemma_chain_closes(fs, now, more, y, first);
        let (used2, out) = closed_chain(fs, used, ring);
        assert((used2, out) == closed_chain(fs, now, more));
        let r = out->0;
        lemma_nodes_trans(ring, more, r);
        lemma_nodes_trans(f, more, r);
        assert forall|j: int| 0 <= j < fs.len() && #[trigger] used2[j] && !used[j] implies nodes_in(
            fs[j],
            r,
        ) by {
            if j != y {
                assert(!now[j]);
            }
        }
        assert forall|j: int| 0 <= j < fs.len() && used[j] implies #[trigger] used2[j] by {
            assert(now[j]);
        }
    }
}

proof fn lemma_chains_close(fs: Seq<Seq<i64>>, used: Seq<bool>, start: nat)
    requires
        fragments_ok(fs),
        used.len() == fs.len(),
        start <= fs.len(),
        balanced(fs, used, 0, 0),
        forall|j: int| 0 <= j < start ==> #[trigger] used[j],
    ensures
        forall|j: int|
            0 <= j < fs.len() && !used[j] ==> ringed(
                chained_rings(fs, used, start),
                #[trigger] fs[j],
            ),
    decreases fs.len() - start,
{
    if start < fs.len() {
        let all = chained_rings(fs, used, start);
        if used[start as int] {
            lemma_chains_close(fs, used, start + 1);
        } else {
            let f = fs[start as int];
            let now = used.update(start as int, true);
            assert(f.len() >= 3 && f[0] != f[f.len() - 1]);
            assert(balanced(fs, now, f.first(), f.last())) by {
                assert forall|a: int, b: int, node: i64| #[trigger] mates(fs, a, b, node) implies if node
                    == f.first() || node == f.last() {
                    now[a] != now[b]
                } else {
                    now[a] == now[b]
                } by {
                    assert(used[a] == used[b]);
                    if a != start && b != start && (node == f.first() || node == f.last()) {
                        assert(touches(fs[start as int], node));
                        assert(!touches(fs[start as int], node));
                    }
                    if a == start || b == start {
                        assert(touches(fs[start as int], node));
                    }
                }
            }
            lemma_chain_closes(fs, now, f, start as int, start as int);
            let (used2, ring) = closed_chain(fs, now, f);
            assert(now[start as int]);
            assert(used2[start as int]);
            assert forall|j: int| 0 <= j < start + 1 implies #[trigger] used2[j] by {
                if j < start {
                    assert(used[j]);
                    assert(now[j]);
                }
            }
            lemma_chains_close(fs, used2, start + 1);
            let rest = chained_rings(fs, used2, start + 1);
            let r = ring->0;
            assert(all == seq![r] + rest);
            assert forall|j: int| 0 <= j < fs.len() && !used[j] implies ringed(all, #[trigger] fs[j]) by {
                if used2[j] {
                    if j != start {
                        assert(!now[j]);
                    }
                    assert(nodes_in(fs[j], all[0]));
                } else {
                    assert(ringed(rest, fs[j]));
                    let k = choose|k: int| 0 <= k < rest.len() && nodes_in(fs[j], #[trigger] rest[k]);
                    assert(all[k + 1] == rest[k]);
                }
            }
        }
    }
}

proof fn lemma_all_open(fs: Seq<Seq<i64>>)
    requires
        forall|i: int|
            0 <= i < fs.len() ==> (#[trigger] fs[i]).len() >= 3 && fs[i][0] != fs[i][fs[i].len()
                - 1],
    ensures
        open_ones(fs) == fs,
        closed_ones(fs).len() == 0,
    decreases fs.len(),
{
    if fs.len() > 0 {
        let rest = fs.drop_last();
        assert forall|i: int| 0 <= i < rest.len() implies (#[trigger] rest[i]).len() >= 3
            && rest[i][0] != rest[i][rest[i].len() - 1] by {
            assert(rest[i] == fs[i]);
        }
        lemma_all_open(rest);
        assert(fs[fs.len() - 1] == fs.last());
        assert(rest.push(fs.last()) =~= fs);
    } else {
        assert(open_ones(fs) =~= fs);
    }
}

/// Where open fragments close up, every one of them is in a ring with all its nodes,
/// however many fragments make a ring and whichever way each runs.
pub proof fn closing_fragments_make_rings(fs: Seq<Seq<i64>>, i: int)
    requires
        closes_up(fs),
        forall|k: int|
            0 <= k < fs.len() ==> (#[trigger] fs[k]).len() >= 3 && fs[k][0] != fs[k][fs[k].len()
                - 1],
        0 <= i < fs.len(),
    ensures
        ringed(rings_of(fs), fs[i]),
{
    lemma_all_open(fs);
    let used = none_used(fs.len());
    assert(balanced(fs, used, 0, 0));
    lemma_chains_close(fs, used, 0);
    let rings = chained_rings(fs, used, 0);
    assert(!used[i]);
    assert(ringed(rings, fs[i]));
    assert(rings_of(fs) =~= rings);
}

} // verus!
