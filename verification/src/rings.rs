//! Assembling way fragments into closed rings.

use vstd::prelude::*;

use crate::ids::IdLists;
use crate::weld_model::{lemma_unused_count_update, none_used, unused_count};

verus! {

/// Is this way a closed ring (first ref == last ref, enough points for an area)?
pub open spec fn ring_refs(refs: Seq<i64>) -> bool {
    refs.len() >= 4 && refs.first() == refs.last()
}

pub fn is_ring(refs: &[i64]) -> (r: bool)
    ensures
        r == ring_refs(refs@),
{
    refs.len() >= 4 && refs[0] == refs[refs.len() - 1]
}

/// The fragments that are closed already.
pub open spec fn closed_ones(fs: Seq<Seq<i64>>) -> Seq<Seq<i64>>
    decreases fs.len(),
{
    if fs.len() == 0 {
        Seq::empty()
    } else {
        let front = closed_ones(fs.drop_last());
        let f = fs.last();
        if f.len() >= 2 && f.first() == f.last() {
            front.push(f)
        } else {
            front
        }
    }
}

/// The fragments with two distinct ends.
pub open spec fn open_ones(fs: Seq<Seq<i64>>) -> Seq<Seq<i64>>
    decreases fs.len(),
{
    if fs.len() == 0 {
        Seq::empty()
    } else {
        let front = open_ones(fs.drop_last());
        let f = fs.last();
        if f.len() >= 2 && f.first() != f.last() {
            front.push(f)
        } else {
            front
        }
    }
}

/// The fragment ends at a node.
pub open spec fn ends_at(f: Seq<i64>, node: i64) -> bool {
    f.first() == node || f.last() == node
}

/// The first free fragment from `from` on that ends at a node.
pub open spec fn next_fragment(
    open: Seq<Seq<i64>>,
    used: Seq<bool>,
    node: i64,
    from: nat,
) -> Option<int>
    decreases open.len() - from,
{
    if from >= open.len() {
        None
    } else if !used[from as int] && ends_at(open[from as int], node) {
        Some(from as int)
    } else {
        next_fragment(open, used, node, from + 1)
    }
}

/// The fragment turned so that it starts at `node`.
pub open spec fn starting_at(f: Seq<i64>, node: i64) -> Seq<i64> {
    if f.last() == node {
        f.reverse()
    } else {
        f
    }
}

/// The chain with a fragment appended, the join node kept once.
pub open spec fn extended(ring: Seq<i64>, f: Seq<i64>) -> Seq<i64> {
    ring + starting_at(f, ring.last()).skip(1)
}

/// Extend a chain until it closes: the fragments used and, where it closes, the ring.
pub open spec fn closed_chain(open: Seq<Seq<i64>>, used: Seq<bool>, ring: Seq<i64>) -> (
    Seq<bool>,
    Option<Seq<i64>>,
)
    decreases unused_count(used),
{
    if ring_refs(ring) {
        (used, Some(ring))
    } else {
        match next_fragment(open, used, ring.last(), 0) {
            None => (used, None),
            Some(i) => if 0 <= i < used.len() && !used[i] {
                proof {
                    lemma_unused_count_update(used, i);
                }
                closed_chain(open, used.update(i, true), extended(ring, open[i]))
            } else {
                (used, None)
            },
        }
    }
}

/// The rings of the chains that start at the free fragments from `start` on.
pub open spec fn chained_rings(open: Seq<Seq<i64>>, used: Seq<bool>, start: nat) -> Seq<Seq<i64>>
    decreases open.len() - start,
{
    if start >= open.len() {
        Seq::empty()
    } else if used[start as int] {
        chained_rings(open, used, start + 1)
    } else {
        let (used2, ring) = closed_chain(
            open,
            used.update(start as int, true),
            open[start as int],
        );
        match ring {
            Some(r) => seq![r] + chained_rings(open, used2, start + 1),
            None => chained_rings(open, used2, start + 1),
        }
    }
}

/// The rings that fragments make: those closed already, then the chains that close.
pub open spec fn rings_of(fs: Seq<Seq<i64>>) -> Seq<Seq<i64>> {
    closed_ones(fs) + chained_rings(open_ones(fs), none_used(open_ones(fs).len()), 0)
}

// ---- laws ----

/// Nodes `a` and `b` stand next to each other in `f`.
pub open spec fn has_edge(f: Seq<i64>, a: i64, b: i64) -> bool {
    exists|k: int|
        0 < k < f.len() && ((#[trigger] f[k - 1] == a && f[k] == b) || (f[k - 1] == b && f[k] == a))
}

/// Some fragment has the edge.
pub open spec fn fragments_have(fs: Seq<Seq<i64>>, a: i64, b: i64) -> bool {
    exists|i: int| 0 <= i < fs.len() && has_edge(#[trigger] fs[i], a, b)
}

/// Every edge of the ring is an edge of some fragment.
pub open spec fn edges_from(ring: Seq<i64>, fs: Seq<Seq<i64>>) -> bool {
    forall|k: int| 0 < k < ring.len() ==> fragments_have(fs, #[trigger] ring[k - 1], ring[k])
}

proof fn lemma_edges_self(fs: Seq<Seq<i64>>, i: int)
    requires
        0 <= i < fs.len(),
    ensures
        edges_from(fs[i], fs),
{
    let f = fs[i];
    assert forall|k: int| 0 < k < f.len() implies fragments_have(fs, #[trigger] f[k - 1], f[k]) by {
        assert(has_edge(fs[i], f[k - 1], f[k]));
    }
}

proof fn lemma_edges_extended(ring: Seq<i64>, fs: Seq<Seq<i64>>, i: int)
    requires
        ring.len() >= 1,
        edges_from(ring, fs),
        0 <= i < fs.len(),
        fs[i].len() >= 2,
        ends_at(fs[i], ring.last()),
    ensures
        edges_from(extended(ring, fs[i]), fs),
        extended(ring, fs[i]).len() >= ring.len() + 1,
        extended(ring, fs[i]).first() == ring.first(),
{
    let f = fs[i];
    let t = starting_at(f, ring.last());
    let out = extended(ring, f);
    assert(t.first() == ring.last());
    assert forall|k: int| 0 < k < out.len() implies fragments_have(fs, #[trigger] out[k - 1], out[k]) by {
        if k < ring.len() {
            assert(out[k - 1] == ring[k - 1] && out[k] == ring[k]);
            assert(fragments_have(fs, ring[k - 1], ring[k]));
        } else {
            let m = k - ring.len() + 1;
            assert(out[k] == t[m]);
            assert(out[k - 1] == t[m - 1]);
            if f.last() == ring.last() {
                let q = f.len() - 1 - m;
                assert(t[m] == f[q] && t[m - 1] == f[q + 1]);
                assert(f[q + 1 - 1] == t[m]);
            } else {
                assert(f[m - 1] == t[m - 1]);
            }
            assert(has_edge(fs[i], t[m - 1], t[m]));
        }
    }
}

pub proof fn lemma_next_fragment(open: Seq<Seq<i64>>, used: Seq<bool>, node: i64, from: nat)
    ensures
        next_fragment(open, used, node, from) matches Some(i) ==> from <= i < open.len() && !used[i]
            && ends_at(open[i], node) && forall|k: int|
            from <= k < i ==> used[k] || !ends_at(#[trigger] open[k], node),
        next_fragment(open, used, node, from) is None ==> forall|k: int|
            from <= k < open.len() ==> used[k] || !ends_at(#[trigger] open[k], node),
    decreases open.len() - from,
{
    if from < open.len() && (used[from as int] || !ends_at(open[from as int], node)) {
        lemma_next_fragment(open, used, node, from + 1);
    }
}

proof fn lemma_closed_chain(open: Seq<Seq<i64>>, used: Seq<bool>, ring: Seq<i64>)
    requires
        used.len() == open.len(),
        ring.len() >= 1,
        edges_from(ring, open),
        forall|i: int| 0 <= i < open.len() ==> (#[trigger] open[i]).len() >= 2,
    ensures
        closed_chain(open, used, ring).0.len() == used.len(),
        closed_chain(open, used, ring).1 matches Some(r) ==> ring_refs(r) && edges_from(r, open),
    decreases unused_count(used),
{
    if !ring_refs(ring) {
        lemma_next_fragment(open, used, ring.last(), 0);
        if let Some(i) = next_fragment(open, used, ring.last(), 0) {
            lemma_unused_count_update(used, i);
            assert(open[i].len() >= 2);
            lemma_edges_extended(ring, open, i);
            lemma_closed_chain(open, used.update(i, true), extended(ring, open[i]));
        }
    }
}

proof fn lemma_chained_rings(open: Seq<Seq<i64>>, used: Seq<bool>, start: nat)
    requires
        used.len() == open.len(),
        forall|i: int| 0 <= i < open.len() ==> (#[trigger] open[i]).len() >= 2,
    ensures
        forall|k: int|
            0 <= k < chained_rings(open, used, start).len() ==> ring_refs(
                #[trigger] chained_rings(open, used, start)[k],
            ) && edges_from(chained_rings(open, used, start)[k], open),
    decreases open.len() - start,
{
    if start < open.len() {
        if used[start as int] {
            lemma_chained_rings(open, used, start + 1);
            assert(chained_rings(open, used, start) == chained_rings(open, used, start + 1));
        } else {
            let first = open[start as int];
            assert(first.len() >= 2);
            lemma_edges_self(open, start as int);
            let used1 = used.update(start as int, true);
            lemma_closed_chain(open, used1, first);
            let (used2, ring) = closed_chain(open, used1, first);
            lemma_chained_rings(open, used2, start + 1);
            let rest = chained_rings(open, used2, start + 1);
            let all = chained_rings(open, used, start);
            assert forall|k: int| 0 <= k < all.len() implies ring_refs(#[trigger] all[k])
                && edges_from(all[k], open) by {
                if ring is Some {
                    if k > 0 {
                        assert(all[k] == rest[k - 1]);
                    }
                } else {
                    assert(all[k] == rest[k]);
                }
            }
        }
    }
}

proof fn lemma_open_ones(fs: Seq<Seq<i64>>)
    ensures
        forall|i: int|
            0 <= i < open_ones(fs).len() ==> (#[trigger] open_ones(fs)[i]).len() >= 2
                && open_ones(fs)[i].first() != open_ones(fs)[i].last() && fs.contains(
                open_ones(fs)[i],
            ),
        forall|i: int|
            0 <= i < closed_ones(fs).len() ==> (#[trigger] closed_ones(fs)[i]).len() >= 2
                && closed_ones(fs)[i].first() == closed_ones(fs)[i].last() && fs.contains(
                closed_ones(fs)[i],
            ),
    decreases fs.len(),
{
    if fs.len() > 0 {
        let front = fs.drop_last();
        lemma_open_ones(front);
        let (o, c) = (open_ones(fs), closed_ones(fs));
        let (o0, c0) = (open_ones(front), closed_ones(front));
        assert forall|i: int| 0 <= i < o.len() implies (#[trigger] o[i]).len() >= 2 && o[i].first()
            != o[i].last() && fs.contains(o[i]) by {
            if i < o0.len() {
                assert(o[i] == o0[i]);
                let k = choose|k: int| 0 <= k < front.len() && front[k] == o0[i];
                assert(fs[k] == o[i]);
            } else {
                assert(fs[fs.len() - 1] == o[i]);
            }
        }
        assert forall|i: int| 0 <= i < c.len() implies (#[trigger] c[i]).len() >= 2 && c[i].first()
            == c[i].last() && fs.contains(c[i]) by {
            if i < c0.len() {
                assert(c[i] == c0[i]);
                let k = choose|k: int| 0 <= k < front.len() && front[k] == c0[i];
                assert(fs[k] == c[i]);
            } else {
                assert(fs[fs.len() - 1] == c[i]);
            }
        }
    }
}

/// Every assembled ring is closed, and every one of its edges is an edge of some
/// fragment: nothing is bridged that the fragments do not connect.
pub proof fn rings_are_closed(fs: Seq<Seq<i64>>)
    ensures
        forall|k: int|
            0 <= k < rings_of(fs).len() ==> {
                let r = #[trigger] rings_of(fs)[k];
                r.len() >= 2 && r.first() == r.last() && edges_from(r, fs)
            },
{
    let open = open_ones(fs);
    let closed = closed_ones(fs);
    lemma_open_ones(fs);
    lemma_chained_rings(open, none_used(open.len()), 0);
    let chained = chained_rings(open, none_used(open.len()), 0);
    let all = rings_of(fs);
    assert forall|k: int| 0 <= k < all.len() implies {
        let r = #[trigger] all[k];
        r.len() >= 2 && r.first() == r.last() && edges_from(r, fs)
    } by {
        let r = all[k];
        if k < closed.len() {
            assert(r == closed[k]);
            let i = choose|i: int| 0 <= i < fs.len() && fs[i] == r;
            lemma_edges_self(fs, i);
        } else {
            assert(r == chained[k - closed.len()]);
            assert forall|m: int| 0 < m < r.len() implies fragments_have(
                fs,
                #[trigger] r[m - 1],
                r[m],
            ) by {
                assert(fragments_have(open, r[m - 1], r[m]));
                let i = choose|i: int|
                    0 <= i < open.len() && has_edge(#[trigger] open[i], r[m - 1], r[m]);
                assert(fs.contains(open[i]));
                let j = choose|j: int| 0 <= j < fs.len() && fs[j] == open[i];
                assert(has_edge(fs[j], r[m - 1], r[m]));
            }
        }
    }
}

// ---- assembling ----

pub open spec fn lists_view(s: Seq<Vec<i64>>) -> Seq<Seq<i64>> {
    Seq::new(s.len(), |i: int| s[i]@)
}

/// The fragments among the first `n` that end at a node, in order.
spec fn ending_at(open: Seq<Seq<i64>>, node: i64, n: nat) -> Seq<i64>
    decreases n,
{
    if n == 0 {
        Seq::empty()
    } else {
        let front = ending_at(open, node, (n - 1) as nat);
        if ends_at(open[n - 1], node) {
            front.push((n - 1) as i64)
        } else {
            front
        }
    }
}

proof fn lemma_ending_at(open: Seq<Seq<i64>>, node: i64, n: nat)
    requires
        n <= open.len() <= i64::MAX,
    ensures
        forall|k: int|
            0 <= k < ending_at(open, node, n).len() ==> {
                let i = #[trigger] ending_at(open, node, n)[k];
                0 <= i < n && ends_at(open[i as int], node)
            },
        forall|a: int, b: int|
            0 <= a < b < ending_at(open, node, n).len() ==> #[trigger] ending_at(open, node, n)[a]
                < #[trigger] ending_at(open, node, n)[b],
        forall|i: int|
            0 <= i < n && ends_at(#[trigger] open[i], node) ==> ending_at(open, node, n).contains(
                i as i64,
            ),
    decreases n,
{
    if n > 0 {
        lemma_ending_at(open, node, (n - 1) as nat);
        let front = ending_at(open, node, (n - 1) as nat);
        let all = ending_at(open, node, n);
        assert forall|i: int| 0 <= i < n && ends_at(#[trigger] open[i], node) implies all.contains(
            i as i64,
        ) by {
            if i < n - 1 {
                let k = choose|k: int| 0 <= k < front.len() && front[k] == i as i64;
                assert(all[k] == i as i64);
            } else {
                assert(all[front.len() as int] == i as i64);
            }
        }
    }
}

/// The lists by node, for the first `n` fragments.
spec fn index_holds(m: Map<i64, Seq<i64>>, open: Seq<Seq<i64>>, n: nat) -> bool {
    forall|node: i64|
        #![trigger m.contains_key(node)]
        if m.contains_key(node) {
            m[node] == ending_at(open, node, n)
        } else {
            ending_at(open, node, n).len() == 0
        }
}

fn index_ends(open: &Vec<Vec<i64>>) -> (r: IdLists)
    requires
        open@.len() <= i64::MAX,
        forall|i: int|
            0 <= i < open@.len() ==> (#[trigger] open@[i])@.len() >= 2 && open@[i]@.first()
                != open@[i]@.last(),
    ensures
        index_holds(r@, lists_view(open@), open@.len()),
{
    let ghost views = lists_view(open@);
    let mut m = IdLists::new();
    let mut i: usize = 0;
    while i < open.len()
        invariant
            i <= open@.len() <= i64::MAX,
            views == lists_view(open@),
            forall|i: int|
                0 <= i < open@.len() ==> (#[trigger] open@[i])@.len() >= 2 && open@[i]@.first()
                    != open@[i]@.last(),
            index_holds(m@, views, i as nat),
        decreases open@.len() - i,
    {
        let ghost before = m@;
        let n: usize = open[i].len();
        let first: i64 = open[i][0];
        let last: i64 = open[i][n - 1];
        assert(views[i as int].first() == first && views[i as int].last() == last);
        let own: Vec<i64> = vec![i as i64];
        assert(own@ =~= seq![i as i64]);
        m.append(first, &own);
        let ghost middle = m@;
        m.append(last, &own);
        proof {
            assert forall|node: i64|
                #![trigger m@.contains_key(node)]
                if m@.contains_key(node) {
                    m@[node] == ending_at(views, node, (i + 1) as nat)
                } else {
                    ending_at(views, node, (i + 1) as nat).len() == 0
                } by {
                let old_list = ending_at(views, node, i as nat);
                assert(before.contains_key(node) ==> before[node] == old_list);
                assert(!before.contains_key(node) ==> old_list.len() == 0);
                if node == first {
                    assert(middle[node] =~= old_list.push(i as i64));
                    assert(m@[node] =~= ending_at(views, node, (i + 1) as nat));
                } else if node == last {
                    assert(middle.contains_key(node) == before.contains_key(node));
                    assert(m@[node] =~= old_list.push(i as i64));
                } else {
                    assert(m@.contains_key(node) == before.contains_key(node));
                }
            }
        }
        i = i + 1;
    }
    m
}

fn find_next(open: &Vec<Vec<i64>>, ends: &IdLists, used: &Vec<bool>, node: i64) -> (r: Option<usize>)
    requires
        open@.len() <= i64::MAX,
        used@.len() == open@.len(),
        index_holds(ends@, lists_view(open@), open@.len()),
    ensures
        match r {
            Some(i) => next_fragment(lists_view(open@), used@, node, 0) == Some(i as int) && i
                < open@.len(),
            None => next_fragment(lists_view(open@), used@, node, 0) is None,
        },
{
    let ghost views = lists_view(open@);
    let ghost list = ending_at(views, node, views.len());
    proof {
        lemma_ending_at(views, node, views.len());
        lemma_next_fragment(views, used@, node, 0);
        assert(ends@.contains_key(node) ==> ends@[node] == list);
        assert(!ends@.contains_key(node) ==> list.len() == 0);
    }
    match ends.get(node) {
        None => {
            proof {
                if let Some(i) = next_fragment(views, used@, node, 0) {
                    assert(list.contains(i as i64));
                }
            }
            None
        },
        Some(cands) => {
            let n: usize = open.len();
            let mut k: usize = 0;
            while k < cands.len()
                invariant
                    k <= cands@.len(),
                    cands@ == list,
                    n == open@.len(),
                    views == lists_view(open@),
                    open@.len() <= i64::MAX,
                    used@.len() == open@.len(),
                    forall|j: int|
                        0 <= j < list.len() ==> {
                            let i = #[trigger] list[j];
                            0 <= i < views.len() && ends_at(views[i as int], node)
                        },
                    forall|a: int, b: int|
                        0 <= a < b < list.len() ==> #[trigger] list[a] < #[trigger] list[b],
                    forall|i: int|
                        0 <= i < views.len() && ends_at(#[trigger] views[i], node)
                            ==> list.contains(i as i64),
                    forall|j: int| 0 <= j < k ==> used@[(#[trigger] list[j]) as int],
                    next_fragment(views, used@, node, 0) matches Some(i) ==> 0 <= i < views.len()
                        && !used@[i] && ends_at(views[i], node) && forall|m: int|
                        0 <= m < i ==> used@[m] || !ends_at(#[trigger] views[m], node),
                    next_fragment(views, used@, node, 0) is None ==> forall|m: int|
                        0 <= m < views.len() ==> used@[m] || !ends_at(#[trigger] views[m], node),
                decreases cands@.len() - k,
            {
                assert(list[k as int] == cands@[k as int]);
                let i: usize = cands[k] as usize;
                if !used[i] {
                    proof {
                        assert(ends_at(views[i as int], node));
                        let found = next_fragment(views, used@, node, 0)->0;
                        if found != i {
                            assert(list.contains(found as i64));
                            let j = choose|j: int| 0 <= j < list.len() && list[j] == found as i64;
                            if j < k {
                                assert(used@[list[j] as int]);
                            } else if j > k {
                                assert(list[k as int] < list[j]);
                            }
                        }
                    }
                    return Some(i);
                }
                k = k + 1;
            }
            proof {
                if let Some(i) = next_fragment(views, used@, node, 0) {
                    assert(list.contains(i as i64));
                    let j = choose|j: int| 0 <= j < list.len() && list[j] == i as i64;
                    assert(used@[list[j] as int]);
                }
            }
            None
        },
    }
}

fn copy_ids(v: &Vec<i64>) -> (r: Vec<i64>)
    ensures
        r@ == v@,
{
    let mut r: Vec<i64> = Vec::new();
    let mut i: usize = 0;
    while i < v.len()
        invariant
            i <= v@.len(),
            r@ == v@.take(i as int),
        decreases v@.len() - i,
    {
        r.push(v[i]);
        i = i + 1;
        assert(v@.take(i as int) =~= v@.take(i - 1).push(v@[i - 1]));
    }
    assert(v@.take(i as int) =~= v@);
    r
}

fn extend_ring(ring: &mut Vec<i64>, f: &Vec<i64>)
    requires
        old(ring)@.len() >= 1,
        f@.len() >= 2,
    ensures
        final(ring)@ == extended(old(ring)@, f@),
{
    let ghost before = ring@;
    let end: i64 = ring[ring.len() - 1];
    let n: usize = f.len();
    if f[n - 1] == end {
        let ghost t = f@.reverse();
        let mut i: usize = n - 1;
        assert(ring@ =~= before + t.skip(1).take(0));
        while i > 0
            invariant
                i <= n - 1,
                n == f@.len(),
                n >= 2,
                t == f@.reverse(),
                ring@ == before + t.skip(1).take(n - 1 - i),
            decreases i,
        {
            i = i - 1;
            ring.push(f[i]);
            assert(ring@ =~= before + t.skip(1).take(n - 1 - i));
        }
        assert(t.skip(1).take(n - 1) =~= t.skip(1));
    } else {
        let mut i: usize = 1;
        assert(ring@ =~= before + f@.skip(1).take(0));
        while i < n
            invariant
                1 <= i <= n,
                n == f@.len(),
                ring@ == before + f@.skip(1).take(i - 1),
            decreases n - i,
        {
            ring.push(f[i]);
            i = i + 1;
            assert(ring@ =~= before + f@.skip(1).take(i - 1));
        }
        assert(f@.skip(1).take(n - 1) =~= f@.skip(1));
    }
}

/// Whether the fragments can be listed by position in the index.
spec fn indexable(n: nat) -> bool {
    n <= i64::MAX
}

/// Find the next fragment by looking at each.
fn scan_next(open: &Vec<Vec<i64>>, used: &Vec<bool>, node: i64) -> (r: Option<usize>)
    requires
        used@.len() == open@.len(),
        forall|i: int| 0 <= i < open@.len() ==> (#[trigger] open@[i])@.len() >= 2,
    ensures
        match r {
            Some(i) => next_fragment(lists_view(open@), used@, node, 0) == Some(i as int) && i
                < open@.len(),
            None => next_fragment(lists_view(open@), used@, node, 0) is None,
        },
{
    let ghost views = lists_view(open@);
    let mut i: usize = 0;
    while i < open.len()
        invariant
            i <= open@.len(),
            views == lists_view(open@),
            used@.len() == open@.len(),
            forall|i: int| 0 <= i < open@.len() ==> (#[trigger] open@[i])@.len() >= 2,
            next_fragment(views, used@, node, 0) == next_fragment(views, used@, node, i as nat),
        decreases open@.len() - i,
    {
        let n: usize = open[i].len();
        assert(views[i as int] == open@[i as int]@);
        if !used[i] && (open[i][0] == node || open[i][n - 1] == node) {
            return Some(i);
        }
        i = i + 1;
    }
    None
}

/// Assemble unordered way fragments (each a list of node ids) into closed rings.
///
/// Fragments already closed (first == last) pass through; open fragments are
/// chained end-to-end via shared endpoint node ids, reversing as needed, until
/// they close. Chains that cannot be closed (malformed relations) are dropped.
pub fn assemble_rings(fragments: Vec<Vec<i64>>) -> (r: Vec<Vec<i64>>)
    ensures
        lists_view(r@) == rings_of(lists_view(fragments@)),
{
    let ghost fs = lists_view(fragments@);
    let mut rings: Vec<Vec<i64>> = Vec::new();
    let mut open: Vec<Vec<i64>> = Vec::new();
    let mut i: usize = 0;
    assert(lists_view(rings@) =~= closed_ones(fs.take(0)));
    assert(lists_view(open@) =~= open_ones(fs.take(0)));
    while i < fragments.len()
        invariant
            i <= fragments@.len(),
            fs == lists_view(fragments@),
            open@.len() <= i,
            lists_view(rings@) == closed_ones(fs.take(i as int)),
            lists_view(open@) == open_ones(fs.take(i as int)),
        decreases fragments@.len() - i,
    {
        let f: &Vec<i64> = &fragments[i];
        let ghost (rings0, open0) = (lists_view(rings@), lists_view(open@));
        proof {
            let next = fs.take(i + 1);
            assert(next.drop_last() =~= fs.take(i as int));
            assert(next.last() == f@);
        }
        if f.len() >= 2 {
            if f[0] == f[f.len() - 1] {
                rings.push(copy_ids(f));
                assert(lists_view(rings@) =~= rings0.push(f@));
            } else {
                open.push(copy_ids(f));
                assert(lists_view(open@) =~= open0.push(f@));
            }
        }
        i = i + 1;
    }
    assert(fs.take(i as int) =~= fs);
    let ghost frags = lists_view(open@);
    proof {
        lemma_open_ones(fs);
        assert forall|k: int| 0 <= k < open@.len() implies (#[trigger] open@[k])@.len() >= 2
            && open@[k]@.first() != open@[k]@.last() by {
            assert(frags[k] == open@[k]@);
            assert(open_ones(fs)[k].len() >= 2);
        }
    }
    let n: usize = open.len();
    let indexed: bool = n as u64 <= 0x7fff_ffff_ffff_ffff;
    let ends: IdLists = if indexed {
        index_ends(&open)
    } else {
        IdLists::new()
    };
    let mut used: Vec<bool> = Vec::new();
    let mut k: usize = 0;
    while k < n
        invariant
            k <= n,
            used@ == none_used(k as nat),
        decreases n - k,
    {
        used.push(false);
        k = k + 1;
        assert(used@ =~= none_used(k as nat));
    }
    let ghost want = lists_view(rings@) + chained_rings(frags, used@, 0);
    let mut start: usize = 0;
    while start < n
        invariant
            start <= n,
            n == open@.len(),
            indexed == indexable(n as nat),
            frags == lists_view(open@),
            used@.len() == n,
            forall|k: int| 0 <= k < n ==> (#[trigger] open@[k])@.len() >= 2,
            indexed ==> index_holds(ends@, frags, n as nat),
            want == lists_view(rings@) + chained_rings(frags, used@, start as nat),
        decreases n - start,
    {
        if !used[start] {
            let ghost before = used@;
            let ghost done = lists_view(rings@);
            used[start] = true;
            let mut ring: Vec<i64> = copy_ids(&open[start]);
            assert(open@[start as int]@.len() >= 2);
            let ghost goal = closed_chain(frags, used@, ring@);
            let mut closed: bool = false;
            let mut stuck: bool = false;
            while !closed && !stuck
                invariant
                    n == open@.len(),
                    indexed == indexable(n as nat),
                    frags == lists_view(open@),
                    used@.len() == n,
                    forall|k: int| 0 <= k < n ==> (#[trigger] open@[k])@.len() >= 2,
                    indexed ==> index_holds(ends@, frags, n as nat),
                    ring@.len() >= 1,
                    !closed && !stuck ==> closed_chain(frags, used@, ring@) == goal,
                    closed ==> goal == (used@, Some(ring@)),
                    stuck ==> goal == (used@, None::<Seq<i64>>),
                decreases unused_count(used@) + (if closed || stuck { 0int } else { 1int }),
            {
                if is_ring(&ring) {
                    closed = true;
                } else {
                    let end: i64 = ring[ring.len() - 1];
                    proof {
                        lemma_next_fragment(frags, used@, end, 0);
                    }
                    let next: Option<usize> = if indexed {
                        find_next(&open, &ends, &used, end)
                    } else {
                        scan_next(&open, &used, end)
                    };
                    match next {
                        None => {
                            stuck = true;
                        },
                        Some(j) => {
                            proof {
                                lemma_unused_count_update(used@, j as int);
                            }
                            used[j] = true;
                            assert(open@[j as int]@.len() >= 2);
                            extend_ring(&mut ring, &open[j]);
                        },
                    }
                }
            }
            if closed {
                rings.push(ring);
                proof {
                    assert(lists_view(rings@) =~= done.push(ring@));
                    let rest = chained_rings(frags, used@, (start + 1) as nat);
                    assert(done + (seq![ring@] + rest) =~= done.push(ring@) + rest);
                }
            }
        }
        start = start + 1;
    }
    assert(lists_view(rings@) + chained_rings(frags, used@, n as nat) =~= lists_view(rings@));
    rings
}

} // verus!
