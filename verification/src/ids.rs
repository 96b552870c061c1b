//! Sets of ids and lists of ids by id.

use vstd::prelude::*;

use crate::sort::{is_stable_order, sort_order};

verus! {

/// A set of ids, held in a `hashbrown` set.
#[verifier::external_body]
pub struct IdSet {
    set: hashbrown::HashSet<i64>,
}

/// The members of the set.
pub uninterp spec fn id_set_members(s: IdSet) -> Set<i64>;

impl View for IdSet {
    type V = Set<i64>;

    open spec fn view(&self) -> Set<i64> {
        id_set_members(*self)
    }
}

impl IdSet {
    /// `hashbrown::HashSet::new`: a set without members.
    #[verifier::external_body]
    pub(crate) fn empty() -> (r: Self)
        ensures
            id_set_members(r) == Set::<i64>::empty(),
    {
        IdSet { set: hashbrown::HashSet::new() }
    }

    /// `hashbrown::HashSet::insert`: adds a member; returns whether it was not there.
    #[verifier::external_body]
    pub(crate) fn add_member(&mut self, id: i64) -> (r: bool)
        ensures
            id_set_members(*final(self)) == id_set_members(*old(self)).insert(id),
            r == !id_set_members(*old(self)).contains(id),
    {
        self.set.insert(id)
    }

    /// `hashbrown::HashSet::contains`: whether an id is a member.
    #[verifier::external_body]
    pub(crate) fn has_member(&self, id: i64) -> (r: bool)
        ensures
            r == id_set_members(*self).contains(id),
    {
        self.set.contains(&id)
    }

    /// `hashbrown::HashSet::extend`, given the other set: adds every member of it.
    #[verifier::external_body]
    pub(crate) fn add_members(&mut self, other: IdSet)
        ensures
            id_set_members(*final(self)) == id_set_members(*old(self)).union(
                id_set_members(other),
            ),
    {
        self.set.extend(other.set)
    }

    /// `hashbrown::HashSet::len`: the number of members.
    #[verifier::external_body]
    pub(crate) fn member_count(&self) -> (n: usize)
        ensures
            n == id_set_members(*self).len(),
    {
        self.set.len()
    }

    pub fn new() -> (r: Self)
        ensures
            r@ == Set::<i64>::empty(),
    {
        IdSet::empty()
    }

    /// Add an id; returns whether it was not in the set.
    pub fn insert(&mut self, id: i64) -> (r: bool)
        ensures
            final(self)@ == old(self)@.insert(id),
            r == !old(self)@.contains(id),
    {
        self.add_member(id)
    }

    pub fn contains(&self, id: i64) -> (r: bool)
        ensures
            r == self@.contains(id),
    {
        self.has_member(id)
    }

    /// Add every id of another set.
    pub fn extend(&mut self, other: IdSet)
        ensures
            final(self)@ == old(self)@.union(other@),
    {
        self.add_members(other)
    }

    /// Add every id of a list.
    pub fn extend_from(&mut self, ids: &Vec<i64>)
        ensures
            final(self)@ == old(self)@.union(ids@.to_set()),
    {
        let mut i: usize = 0;
        assert(self@ =~= old(self)@.union(ids@.take(0).to_set()));
        while i < ids.len()
            invariant
                i <= ids@.len(),
                self@ == old(self)@.union(ids@.take(i as int).to_set()),
            decreases ids@.len() - i,
        {
            self.add_member(ids[i]);
            i = i + 1;
            proof {
                let a = ids@.take(i - 1);
                let b = ids@.take(i as int);
                assert(b =~= a.push(ids@[i - 1]));
                assert forall|x: i64| b.to_set().contains(x) == (a.to_set().contains(x) || x
                    == ids@[i - 1]) by {
                    if a.contains(x) {
                        let k = choose|k: int| 0 <= k < a.len() && a[k] == x;
                        assert(b[k] == x);
                    }
                    if x == ids@[i - 1] {
                        assert(b[i - 1] == x);
                    }
                    if b.contains(x) {
                        let k = choose|k: int| 0 <= k < b.len() && b[k] == x;
                        if k < a.len() {
                            assert(a[k] == x);
                        }
                    }
                }
                assert(self@ =~= old(self)@.union(b.to_set()));
            }
        }
        assert(ids@.take(i as int) =~= ids@);
    }

    pub fn len(&self) -> (n: usize)
        ensures
            n == self@.len(),
    {
        self.member_count()
    }
}

/// Lists of ids by id, held in a `hashbrown` map.
#[verifier::external_body]
pub struct IdLists {
    map: hashbrown::HashMap<i64, Vec<i64>>,
}

/// The entries of the map.
pub uninterp spec fn id_lists_entries(m: IdLists) -> Map<i64, Seq<i64>>;

impl View for IdLists {
    type V = Map<i64, Seq<i64>>;

    open spec fn view(&self) -> Map<i64, Seq<i64>> {
        id_lists_entries(*self)
    }
}

impl IdLists {
    /// `hashbrown::HashMap::new`: a map without entries.
    #[verifier::external_body]
    pub(crate) fn empty() -> (r: Self)
        ensures
            id_lists_entries(r).dom() == Set::<i64>::empty(),
    {
        IdLists { map: hashbrown::HashMap::new() }
    }

    /// `hashbrown::HashMap::get`: the list under an id, if there is one.
    #[verifier::external_body]
    pub(crate) fn list_under(&self, id: i64) -> (r: Option<&Vec<i64>>)
        ensures
            match r {
                Some(v) => id_lists_entries(*self).contains_key(id) && id_lists_entries(*self)[id]
                    == v@,
                None => !id_lists_entries(*self).contains_key(id),
            },
    {
        self.map.get(&id)
    }

    /// `hashbrown::HashMap::insert`: puts the list under the id, in place of any list
    /// that was there.
    #[verifier::external_body]
    pub(crate) fn put_list(&mut self, id: i64, list: Vec<i64>)
        ensures
            id_lists_entries(*final(self)) == id_lists_entries(*old(self)).insert(id, list@),
    {
        self.map.insert(id, list);
    }

    /// `hashbrown::HashMap::remove`: takes the list under an id out, if there is one.
    #[verifier::external_body]
    pub(crate) fn take_list(&mut self, id: i64) -> (r: Option<Vec<i64>>)
        ensures
            id_lists_entries(*final(self)) == id_lists_entries(*old(self)).remove(id),
            match r {
                Some(v) => id_lists_entries(*old(self)).contains_key(id) && id_lists_entries(
                    *old(self),
                )[id] == v@,
                None => !id_lists_entries(*old(self)).contains_key(id),
            },
    {
        self.map.remove(&id)
    }

    /// `hashbrown::HashMap::extend`, given the other map: takes over every entry of it,
    /// in place of entries under the same ids.
    #[verifier::external_body]
    pub(crate) fn take_over(&mut self, other: IdLists)
        ensures
            id_lists_entries(*final(self)) == id_lists_entries(*old(self)).union_prefer_right(
                id_lists_entries(other),
            ),
    {
        self.map.extend(other.map)
    }

    pub fn new() -> (r: Self)
        ensures
            r@ == Map::<i64, Seq<i64>>::empty(),
    {
        let r = IdLists::empty();
        assert(r@ =~= Map::<i64, Seq<i64>>::empty());
        r
    }

    pub fn get(&self, id: i64) -> (r: Option<&Vec<i64>>)
        ensures
            match r {
                Some(v) => self@.contains_key(id) && self@[id] == v@,
                None => !self@.contains_key(id),
            },
    {
        self.list_under(id)
    }

    pub fn insert(&mut self, id: i64, list: Vec<i64>)
        ensures
            final(self)@ == old(self)@.insert(id, list@),
    {
        self.put_list(id, list)
    }

    /// Take over every entry of another map.
    pub fn extend(&mut self, other: IdLists)
        ensures
            final(self)@ == old(self)@.union_prefer_right(other@),
    {
        self.take_over(other)
    }

    /// Append to the list under an id.
    pub fn append(&mut self, id: i64, more: &Vec<i64>)
        ensures
            final(self)@ == old(self)@.insert(
                id,
                (if old(self)@.contains_key(id) {
                    old(self)@[id]
                } else {
                    Seq::empty()
                }) + more@,
            ),
    {
        let ghost before = self@;
        let mut list: Vec<i64> = match self.take_list(id) {
            Some(v) => v,
            None => Vec::new(),
        };
        let ghost base = list@;
        assert(base =~= if before.contains_key(id) {
            before[id]
        } else {
            Seq::empty()
        });
        let mut i: usize = 0;
        assert(list@ =~= base + more@.take(0));
        while i < more.len()
            invariant
                i <= more@.len(),
                list@ == base + more@.take(i as int),
            decreases more@.len() - i,
        {
            list.push(more[i]);
            i = i + 1;
            assert(more@.take(i as int) =~= more@.take(i - 1).push(more@[i - 1]));
        }
        assert(more@.take(i as int) =~= more@);
        self.put_list(id, list);
        assert(self@ =~= before.insert(id, base + more@));
    }
}

// ---- sorted ids ----

/// `r` lists the ids of `s` in ascending order, each once.
pub open spec fn sorted_distinct(r: Seq<i64>, s: Seq<i64>) -> bool {
    &&& forall|i: int, j: int| 0 <= i < j < r.len() ==> #[trigger] r[i] < #[trigger] r[j]
    &&& forall|x: i64| #[trigger] r.contains(x) <==> s.contains(x)
}

/// There is one such list.
pub proof fn sorted_distinct_unique(a: Seq<i64>, b: Seq<i64>, s: Seq<i64>)
    requires
        sorted_distinct(a, s),
        sorted_distinct(b, s),
    ensures
        a == b,
    decreases a.len(),
{
    if a.len() == 0 {
        if b.len() > 0 {
            assert(b.contains(b[0]));
            assert(a.contains(b[0]));
        }
        assert(a =~= b);
    } else {
        assert(a.contains(a[a.len() - 1]));
        assert(b.contains(a[a.len() - 1]));
        assert(b.contains(b[b.len() - 1]));
        assert(a.contains(b[b.len() - 1]));
        let la = a.last();
        let lb = b.last();
        let i = choose|i: int| 0 <= i < b.len() && b[i] == la;
        let j = choose|j: int| 0 <= j < a.len() && a[j] == lb;
        assert(la == lb) by {
            if i < b.len() - 1 {
                assert(b[i] < b[b.len() - 1]);
            }
            if j < a.len() - 1 {
                assert(a[j] < a[a.len() - 1]);
            }
        }
        let rest = a.drop_last();
        assert(sorted_distinct(rest, rest)) by {
            assert forall|p: int, q: int| 0 <= p < q < rest.len() implies #[trigger] rest[p]
                < #[trigger] rest[q] by {
                assert(a[p] < a[q]);
            }
        }
        assert(sorted_distinct(b.drop_last(), rest)) by {
            let br = b.drop_last();
            assert forall|p: int, q: int| 0 <= p < q < br.len() implies #[trigger] br[p]
                < #[trigger] br[q] by {
                assert(b[p] < b[q]);
            }
            assert forall|x: i64| #[trigger] br.contains(x) <==> rest.contains(x) by {
                if br.contains(x) {
                    let k = choose|k: int| 0 <= k < br.len() && br[k] == x;
                    assert(b[k] == x && b[k] < b[b.len() - 1]);
                    assert(b.contains(x));
                    assert(a.contains(x));
                    let m = choose|m: int| 0 <= m < a.len() && a[m] == x;
                    assert(rest[m] == x);
                }
                if rest.contains(x) {
                    let k = choose|k: int| 0 <= k < rest.len() && rest[k] == x;
                    assert(a[k] == x && a[k] < a[a.len() - 1]);
                    assert(a.contains(x));
                    assert(b.contains(x));
                    let m = choose|m: int| 0 <= m < b.len() && b[m] == x;
                    assert(br[m] == x);
                }
            }
        }
        sorted_distinct_unique(rest, b.drop_last(), rest);
        assert(a =~= rest.push(la));
        assert(b =~= b.drop_last().push(lb));
    }
}

spec fn id_keys(s: Seq<i64>) -> Seq<i128> {
    Seq::new(s.len(), |i: int| s[i] as i128)
}

/// The ids in ascending order, each once.
pub fn sorted_unique(ids: &Vec<i64>) -> (r: Vec<i64>)
    ensures
        sorted_distinct(r@, ids@),
{
    let ghost s = ids@;
    let mut keys: Vec<i128> = Vec::new();
    let mut i: usize = 0;
    while i < ids.len()
        invariant
            i <= ids@.len(),
            s == ids@,
            keys@ == id_keys(s).take(i as int),
        decreases ids@.len() - i,
    {
        keys.push(ids[i] as i128);
        i = i + 1;
        assert(keys@ =~= id_keys(s).take(i as int));
    }
    assert(id_keys(s).take(i as int) =~= id_keys(s));
    let order: Vec<usize> = sort_order(&keys);
    let mut r: Vec<i64> = Vec::new();
    let mut k: usize = 0;
    while k < order.len()
        invariant
            k <= order@.len(),
            s == ids@,
            is_stable_order(order@, id_keys(s)),
            k > 0 ==> r@.len() > 0 && r@.last() == s[order@[k - 1] as int],
            k == 0 ==> r@.len() == 0,
            forall|i: int, j: int| 0 <= i < j < r@.len() ==> #[trigger] r@[i] < #[trigger] r@[j],
            forall|m: int| 0 <= m < k ==> r@.contains(s[(#[trigger] order@[m]) as int]),
            forall|m: int| 0 <= m < r@.len() ==> s.contains(#[trigger] r@[m]),
        decreases order@.len() - k,
    {
        let x: i64 = ids[order[k]];
        let ghost before = r@;
        let ghost a = order@[k as int] as int;
        assert(s[a] == x);
        let n: usize = r.len();
        let same: bool = n > 0 && r[n - 1] == x;
        if !same {
            r.push(x);
        }
        proof {
            if k > 0 {
                let b = order@[k - 1] as int;
                assert(id_keys(s)[b] <= id_keys(s)[a]);
            }
            assert forall|i: int, j: int| 0 <= i < j < r@.len() implies #[trigger] r@[i]
                < #[trigger] r@[j] by {
                if j == before.len() {
                    if i < before.len() - 1 {
                        assert(before[i] < before[before.len() - 1]);
                    }
                }
            }
            assert forall|m: int| 0 <= m < k + 1 implies r@.contains(
                s[(#[trigger] order@[m]) as int],
            ) by {
                if m < k {
                    let y = s[order@[m] as int];
                    assert(before.contains(y));
                    let q = choose|q: int| 0 <= q < before.len() && before[q] == y;
                    assert(r@[q] == y);
                } else if same {
                    assert(r@[n - 1] == x);
                } else {
                    assert(r@[before.len() as int] == x);
                }
            }
            assert forall|m: int| 0 <= m < r@.len() implies s.contains(#[trigger] r@[m]) by {
                if m < before.len() {
                    assert(before[m] == r@[m]);
                }
            }
        }
        k = k + 1;
    }
    proof {
        assert forall|x: i64| #[trigger] r@.contains(x) <==> s.contains(x) by {
            if r@.contains(x) {
                let m = choose|m: int| 0 <= m < r@.len() && r@[m] == x;
                assert(s.contains(r@[m]));
            }
            if s.contains(x) {
                let q = choose|q: int| 0 <= q < s.len() && s[q] == x;
                assert(order@.contains(q as usize));
                let m = choose|m: int| 0 <= m < order@.len() && order@[m] == q as usize;
                assert(r@.contains(s[order@[m] as int]));
            }
        }
    }
    r
}

} // verus!
