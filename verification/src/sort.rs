//! A stable order of keys, by merge sort.

use vstd::prelude::*;

verus! {

broadcast use vstd::seq_lib::group_to_multiset_ensures;

/// A key and where it stood.
type Slot = (i128, usize);

/// By key, then by position.
pub open spec fn slot_le(a: Slot, b: Slot) -> bool {
    a.0 < b.0 || (a.0 == b.0 && a.1 <= b.1)
}

spec fn slots_sorted(s: Seq<Slot>) -> bool {
    forall|i: int, j: int| 0 <= i < j < s.len() ==> slot_le(#[trigger] s[i], #[trigger] s[j])
}

fn merge(a: &Vec<Slot>, b: &Vec<Slot>) -> (r: Vec<Slot>)
    requires
        slots_sorted(a@),
        slots_sorted(b@),
    ensures
        slots_sorted(r@),
        r@.to_multiset() == a@.to_multiset().add(b@.to_multiset()),
{
    let mut r: Vec<Slot> = Vec::new();
    let mut i: usize = 0;
    let mut j: usize = 0;
    assert(a@.take(0) =~= Seq::empty());
    assert(b@.take(0) =~= Seq::empty());
    assert(r@.to_multiset() =~= a@.take(0).to_multiset().add(b@.take(0).to_multiset()));
    while i < a.len() || j < b.len()
        invariant
            slots_sorted(a@),
            slots_sorted(b@),
            slots_sorted(r@),
            i <= a@.len(),
            j <= b@.len(),
            forall|k: int, m: int|
                0 <= k < r@.len() && i <= m < a@.len() ==> slot_le(#[trigger] r@[k], #[trigger] a@[m]),
            forall|k: int, m: int|
                0 <= k < r@.len() && j <= m < b@.len() ==> slot_le(#[trigger] r@[k], #[trigger] b@[m]),
            r@.to_multiset() == a@.take(i as int).to_multiset().add(
                b@.take(j as int).to_multiset(),
            ),
        decreases a@.len() - i + b@.len() - j,
    {
        let from_a: bool = if i >= a.len() {
            false
        } else if j >= b.len() {
            true
        } else {
            a[i].0 < b[j].0 || (a[i].0 == b[j].0 && a[i].1 <= b[j].1)
        };
        if from_a {
            r.push(a[i]);
            i = i + 1;
            proof {
                assert(a@.take(i as int) =~= a@.take(i - 1).push(a@[i - 1]));
                assert(r@.to_multiset() =~= a@.take(i as int).to_multiset().add(
                    b@.take(j as int).to_multiset(),
                ));
            }
        } else {
            r.push(b[j]);
            j = j + 1;
            proof {
                assert(b@.take(j as int) =~= b@.take(j - 1).push(b@[j - 1]));
                assert(r@.to_multiset() =~= a@.take(i as int).to_multiset().add(
                    b@.take(j as int).to_multiset(),
                ));
            }
        }
    }
    assert(a@.take(i as int) =~= a@);
    assert(b@.take(j as int) =~= b@);
    r
}

fn merge_sort(items: &Vec<Slot>, lo: usize, hi: usize) -> (r: Vec<Slot>)
    requires
        lo <= hi <= items@.len(),
    ensures
        slots_sorted(r@),
        r@.to_multiset() == items@.subrange(lo as int, hi as int).to_multiset(),
    decreases hi - lo,
{
    if hi - lo <= 1 {
        let mut r: Vec<Slot> = Vec::new();
        if lo < hi {
            r.push(items[lo]);
        }
        assert(r@ =~= items@.subrange(lo as int, hi as int));
        return r;
    }
    let mid: usize = lo + (hi - lo) / 2;
    let a = merge_sort(items, lo, mid);
    let b = merge_sort(items, mid, hi);
    proof {
        let left = items@.subrange(lo as int, mid as int);
        let right = items@.subrange(mid as int, hi as int);
        assert(items@.subrange(lo as int, hi as int) =~= left + right);
        vstd::seq_lib::lemma_multiset_commutative(left, right);
    }
    merge(&a, &b)
}

/// `order` lists every position below `n` once.
pub open spec fn is_permutation(order: Seq<usize>, n: nat) -> bool {
    &&& order.len() == n
    &&& order.no_duplicates()
    &&& forall|i: int| 0 <= i < order.len() ==> (#[trigger] order[i]) < n
    &&& forall|k: usize| k < n ==> #[trigger] order.contains(k)
}

/// `order` lists the positions of `keys` by key, equal keys in the order they stand
/// in. There is one such order.
pub open spec fn is_stable_order(order: Seq<usize>, keys: Seq<i128>) -> bool {
    &&& is_permutation(order, keys.len())
    &&& forall|i: int, j: int|
        0 <= i < j < order.len() ==> keys[(#[trigger] order[i]) as int] < keys[(#[trigger] order[j]) as int] || (
        keys[order[i] as int] == keys[order[j] as int] && order[i] < order[j])
}

/// The position of the last index in a permutation, which without it is a permutation of
/// the rest.
pub proof fn lemma_permutation_drop(order: Seq<usize>, n: nat) -> (p: int)
    requires
        is_permutation(order, n),
        0 < n <= usize::MAX,
    ensures
        0 <= p < n,
        order[p] == n - 1,
        is_permutation(order.remove(p), (n - 1) as nat),
{
    let last = (n - 1) as usize;
    assert(order.contains(last));
    let p = choose|p: int| 0 <= p < order.len() && order[p] == last;
    let rest = order.remove(p);
    assert forall|i: int| 0 <= i < rest.len() implies (#[trigger] rest[i]) < n - 1 by {
        let j = if i < p {
            i
        } else {
            i + 1
        };
        assert(rest[i] == order[j]);
        assert(order[j] < n);
    }
    assert(rest.no_duplicates()) by {
        assert forall|a: int, b: int|
            0 <= a < rest.len() && 0 <= b < rest.len() && a != b implies rest[a] != rest[b] by {
            let x = if a < p {
                a
            } else {
                a + 1
            };
            let y = if b < p {
                b
            } else {
                b + 1
            };
            assert(rest[a] == order[x] && rest[b] == order[y]);
        }
    }
    assert forall|k: usize| k < n - 1 implies #[trigger] rest.contains(k) by {
        assert(order.contains(k));
        let j = choose|j: int| 0 <= j < order.len() && order[j] == k;
        let i = if j < p {
            j
        } else {
            j - 1
        };
        assert(rest[i] == k);
    }
    p
}

/// The stable order of `keys`.
pub fn sort_order(keys: &Vec<i128>) -> (r: Vec<usize>)
    ensures
        is_stable_order(r@, keys@),
{
    let n: usize = keys.len();
    let mut items: Vec<Slot> = Vec::new();
    let mut i: usize = 0;
    while i < n
        invariant
            n == keys@.len(),
            i <= n,
            items@.len() == i,
            forall|k: int| 0 <= k < i ==> #[trigger] items@[k] == (keys@[k], k as usize),
        decreases n - i,
    {
        items.push((keys[i], i));
        i = i + 1;
    }
    let sorted = merge_sort(&items, 0, n);
    assert(items@.subrange(0, n as int) =~= items@);
    let mut r: Vec<usize> = Vec::new();
    let mut i: usize = 0;
    let ghost s = sorted@;
    proof {
        items@.lemma_multiset_has_no_duplicates();
        s.lemma_multiset_has_no_duplicates_conv();
        assert(s.no_duplicates());
        assert(s.len() == s.to_multiset().len());
        assert(s.len() == n);
        assert forall|k: int| 0 <= k < s.len() implies (#[trigger] s[k]).1 < n && s[k].0
            == keys@[s[k].1 as int] by {
            assert(s.contains(s[k]));
            assert(s.to_multiset().count(s[k]) > 0);
            assert(items@.contains(s[k]));
        }
        assert forall|k: int| 0 <= k < n implies s.contains(#[trigger] items@[k]) by {
            assert(items@.contains(items@[k]));
            assert(s.to_multiset().count(items@[k]) > 0);
        }
    }
    while i < sorted.len()
        invariant
            s == sorted@,
            i <= s.len(),
            r@.len() == i,
            forall|k: int| 0 <= k < i ==> #[trigger] r@[k] == s[k].1,
        decreases s.len() - i,
    {
        r.push(sorted[i].1);
        i = i + 1;
    }
    proof {
        assert forall|a: int, b: int| 0 <= a < b < r@.len() implies keys@[(#[trigger] r@[a]) as int]
            < keys@[(#[trigger] r@[b]) as int] || (keys@[r@[a] as int] == keys@[r@[b] as int]
            && r@[a] < r@[b]) by {
            assert(slot_le(s[a], s[b]));
            assert(s[a] != s[b]);
        }
        assert(r@.no_duplicates()) by {
            assert forall|a: int, b: int| 0 <= a < r@.len() && 0 <= b < r@.len() && a != b implies r@[a]
                != r@[b] by {
                if a < b {
                    assert(s[a] != s[b] && slot_le(s[a], s[b]));
                } else {
                    assert(s[b] != s[a] && slot_le(s[b], s[a]));
                }
            }
        }
        assert forall|k: usize| k < n implies #[trigger] r@.contains(k) by {
            assert(s.contains(items@[k as int]));
            let m = choose|m: int| 0 <= m < s.len() && #[trigger] s[m] == items@[k as int];
            assert(r@[m] == k);
        }
    }
    r
}

} // verus!
