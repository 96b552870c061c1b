//! Tags with string ids into a block's string table, and filters on them.

use vstd::prelude::*;

use crate::bytes::{bits_of_i32, i32_bits};

verus! {

/// A tag with string ids into the local block's string table.
#[derive(Debug, Clone, Copy, PartialEq, Eq, Structural)]
pub struct Tag {
    pub key: u32,
    pub value: u32,
}

impl Tag {
    pub fn new(key_val: (u32, u32)) -> (r: Self)
        ensures
            r == (Tag { key: key_val.0, value: key_val.1 }),
    {
        Tag { key: key_val.0, value: key_val.1 }
    }
}

pub type Tags = Vec<Tag>;

// ---- the string table ----

/// String ids by the bytes of the string, held in a `hashbrown` map.
#[verifier::external_body]
pub struct StringMap<'a> {
    map: hashbrown::HashMap<&'a [u8], u32>,
}

/// The entries of the map.
pub uninterp spec fn string_map_entries(m: StringMap) -> Map<Seq<u8>, u32>;

impl<'a> StringMap<'a> {
    /// `hashbrown::HashMap::new`: a map without entries.
    #[verifier::external_body]
    fn empty() -> (r: Self)
        ensures
            string_map_entries(r).dom() == Set::<Seq<u8>>::empty(),
    {
        StringMap { map: hashbrown::HashMap::new() }
    }

    /// `hashbrown::HashMap::insert`: puts the value under the key, in place of any value
    /// that was there.
    #[verifier::external_body]
    fn insert(&mut self, text: &'a [u8], id: u32)
        ensures
            string_map_entries(*final(self)) == string_map_entries(*old(self)).insert(text@, id),
    {
        self.map.insert(text, id);
    }

    /// `hashbrown::HashMap::get`: the value under a key with the same bytes, if there is
    /// one.
    #[verifier::external_body]
    fn lookup(&self, text: &[u8]) -> (r: Option<u32>)
        ensures
            r == (if string_map_entries(*self).contains_key(text@) {
                Some(string_map_entries(*self)[text@])
            } else {
                None
            }),
    {
        self.map.get(text).copied()
    }

    /// The ids by string.
    pub open spec fn ids(&self) -> Map<Seq<u8>, u32> {
        string_map_entries(*self)
    }

    /// The ids of a string table. The first string of a table stands for no string; of
    /// equal strings the last counts.
    pub fn of_table(strings: &'a Vec<Vec<u8>>) -> (r: Self)
        ensures
            r.ids() == table_ids(strings@, strings@.len()),
    {
        let mut m: StringMap<'a> = StringMap::empty();
        let n: usize = strings.len();
        let mut i: usize = 1;
        assert(string_map_entries(m) =~= table_ids(strings@, 0));
        assert(table_ids(strings@, 1) =~= table_ids(strings@, 0));
        if n == 0 {
            return m;
        }
        while i < n
            invariant
                1 <= i <= n,
                n == strings@.len(),
                string_map_entries(m) == table_ids(strings@, i as nat),
            decreases n - i,
        {
            m.insert(strings[i].as_slice(), (i as u64 % 0x1_0000_0000) as u32);
            i = i + 1;
        }
        m
    }

    /// The id of a string, if the table has it.
    pub fn get(&self, text: &[u8]) -> (r: Option<u32>)
        ensures
            r == id_in(self.ids(), text@),
    {
        self.lookup(text)
    }

    /// The id of a string, if the table has it.
    pub fn get_str(&self, text: &str) -> (r: Option<u32>)
        ensures
            r == id_in(self.ids(), vstd::utf8::encode_utf8(text@)),
    {
        self.lookup(text.as_bytes())
    }
}

/// The id of a string.
pub open spec fn id_in(ids: Map<Seq<u8>, u32>, text: Seq<u8>) -> Option<u32> {
    if ids.contains_key(text) {
        Some(ids[text])
    } else {
        None
    }
}

/// The ids that the first `n` strings of a table give.
pub open spec fn table_ids(strings: Seq<Vec<u8>>, n: nat) -> Map<Seq<u8>, u32>
    decreases n,
{
    if n <= 1 {
        Map::empty()
    } else {
        table_ids(strings, (n - 1) as nat).insert(
            strings[n - 1]@,
            ((n - 1) % 0x1_0000_0000) as u32,
        )
    }
}

/// A string has an id exactly where the table holds it past its first place, and the id
/// is a place of the string.
pub proof fn table_ids_sound(strings: Seq<Vec<u8>>, text: Seq<u8>)
    requires
        strings.len() <= 0x1_0000_0000,
    ensures
        table_ids(strings, strings.len()).contains_key(text) <==> exists|i: int|
            1 <= i < strings.len() && (#[trigger] strings[i])@ == text,
        table_ids(strings, strings.len()).contains_key(text) ==> {
            let id = table_ids(strings, strings.len())[text];
            1 <= id < strings.len() && strings[id as int]@ == text
        },
{
    lemma_table_ids(strings, text, strings.len());
}

proof fn lemma_table_ids(strings: Seq<Vec<u8>>, text: Seq<u8>, n: nat)
    requires
        n <= strings.len() <= 0x1_0000_0000,
    ensures
        table_ids(strings, n).contains_key(text) <==> exists|i: int|
            1 <= i < n && (#[trigger] strings[i])@ == text,
        table_ids(strings, n).contains_key(text) ==> {
            let id = table_ids(strings, n)[text];
            1 <= id < n && strings[id as int]@ == text
        },
    decreases n,
{
    if n > 1 {
        lemma_table_ids(strings, text, (n - 1) as nat);
        if strings[n - 1]@ == text {
            assert(1 <= n - 1 < n && strings[n - 1]@ == text);
        }
    }
}

// ---- packed tags ----

/// The packed tags of one node from position `i` on, with `acc` already read: the tags
/// and the position behind them. Tags end at a key 0 or, where there are any, at the end
/// of the data; a key without a value ends the data early.
pub open spec fn packed_group(kv: Seq<i32>, i: nat, acc: Seq<Tag>) -> Option<(Seq<Tag>, nat)>
    decreases kv.len() - i,
{
    if i >= kv.len() {
        if acc.len() == 0 {
            None
        } else {
            Some((acc, i))
        }
    } else if kv[i as int] == 0 {
        Some((acc, i + 1))
    } else if i + 1 >= kv.len() {
        None
    } else {
        packed_group(
            kv,
            i + 2,
            acc.push(
                Tag { key: i32_bits(kv[i as int]) as u32, value: i32_bits(kv[(i + 1) as int]) as u32 },
            ),
        )
    }
}

/// The packed tags of all nodes from position `i` on.
pub open spec fn packed_groups(kv: Seq<i32>, i: nat) -> Seq<Seq<Tag>>
    decreases kv.len() - i,
{
    if i >= kv.len() {
        Seq::empty()
    } else {
        match packed_group(kv, i, Seq::empty()) {
            None => Seq::empty(),
            Some((tags, next)) => if i < next <= kv.len() {
                seq![tags] + packed_groups(kv, next)
            } else {
                Seq::empty()
            },
        }
    }
}

proof fn lemma_group_moves(kv: Seq<i32>, i: nat, acc: Seq<Tag>)
    requires
        i < kv.len(),
    ensures
        packed_group(kv, i, acc) matches Some((_, next)) ==> i < next <= kv.len(),
    decreases kv.len() - i,
{
    if kv[i as int] != 0 && i + 1 < kv.len() {
        if i + 2 < kv.len() {
            lemma_group_moves(
                kv,
                i + 2,
                acc.push(
                    Tag { key: i32_bits(kv[i as int]) as u32, value: i32_bits(kv[(i + 1) as int]) as u32 },
                ),
            );
        }
    }
}

pub open spec fn tags_view(s: Seq<Tags>) -> Seq<Seq<Tag>> {
    Seq::new(s.len(), |i: int| s[i]@)
}

/// Unpack the tags of a dense node group: one list per node.
pub fn unpack_tags(kv: &Vec<i32>) -> (r: Vec<Tags>)
    ensures
        tags_view(r@) == packed_groups(kv@, 0),
{
    let mut out: Vec<Tags> = Vec::new();
    let n: usize = kv.len();
    let mut at: usize = 0;
    let ghost all = packed_groups(kv@, 0);
    assert(tags_view(out@) + packed_groups(kv@, 0) =~= all);
    while at < n
        invariant
            at <= n,
            n == kv@.len(),
            all == packed_groups(kv@, 0),
            tags_view(out@) + packed_groups(kv@, at as nat) == all,
        decreases n - at,
    {
        let ghost start = at as nat;
        proof {
            lemma_group_moves(kv@, start, Seq::empty());
        }
        let mut tags: Tags = Vec::new();
        let mut i: usize = at;
        let mut done: bool = false;
        assert(tags@ =~= Seq::empty());
        while !done && i < n && kv[i] != 0
            invariant
                at <= i <= n,
                n == kv@.len(),
                start == at,
                start < n,
                done ==> packed_group(kv@, start, Seq::empty()) is None,
                !done ==> packed_group(kv@, start, Seq::empty()) == packed_group(
                    kv@,
                    i as nat,
                    tags@,
                ),
                i > at ==> tags@.len() > 0,
            decreases n - i + (if done { 0int } else { 1int }),
        {
            if i + 1 >= n {
                done = true;
            } else {
                tags.push(Tag { key: bits_of_i32(kv[i]), value: bits_of_i32(kv[i + 1]) });
                i = i + 2;
            }
        }
        if done {
            assert(packed_groups(kv@, start) =~= Seq::empty());
            assert(tags_view(out@) =~= all);
            return out;
        }
        let ghost before = tags_view(out@);
        let ghost own = tags@;
        let next: usize = if i < n {
            i + 1
        } else {
            i
        };
        assert(packed_group(kv@, start, Seq::empty()) == Some((own, next as nat)));
        out.push(tags);
        proof {
            assert(tags_view(out@) =~= before.push(own));
            let rest = packed_groups(kv@, next as nat);
            assert(before + (seq![own] + rest) =~= before.push(own) + rest);
        }
        at = next;
    }
    assert(packed_groups(kv@, at as nat) =~= Seq::empty());
    assert(tags_view(out@) =~= all);
    out
}

// ---- filters ----

/// A filter on tags: groups of clauses, each a key with the values it accepts; no values
/// accept any.
pub struct TagFilter(pub Vec<Vec<(String, Vec<String>)>>);

/// Whether a clause accepts a tag: its key is the clause's key, and its value is one of
/// the clause's values or the clause has none.
pub open spec fn clause_accepts(clause: (String, Vec<String>), ids: Map<Seq<u8>, u32>, tag: Tag) -> bool {
    &&& id_in(ids, vstd::utf8::encode_utf8(clause.0@)) == Some(tag.key)
    &&& clause.1@.len() == 0 || exists|v: int|
        0 <= v < clause.1@.len() && id_in(
            ids,
            vstd::utf8::encode_utf8((#[trigger] clause.1@[v])@),
        ) == Some(tag.value)
}

/// Whether any clause of any group accepts any tag.
pub open spec fn filter_accepts(
    groups: Seq<Vec<(String, Vec<String>)>>,
    ids: Map<Seq<u8>, u32>,
    tags: Seq<Tag>,
) -> bool {
    exists|t: int, g: int, c: int|
        0 <= t < tags.len() && 0 <= g < groups.len() && 0 <= c < groups[g]@.len()
            && #[trigger] clause_accepts(groups[g]@[c], ids, tags[t])
}

/// Whether a clause with its strings resolved to ids accepts a tag.
pub open spec fn sid_clause_accepts(clause: (u32, Vec<u32>), tag: Tag) -> bool {
    clause.0 == tag.key && (clause.1@.len() == 0 || clause.1@.contains(tag.value))
}

/// A filter with its strings resolved to the ids of one block.
pub struct SidTagFilter(Vec<Vec<(u32, Vec<u32>)>>);

impl SidTagFilter {
    /// Whether any clause accepts any tag.
    pub closed spec fn accepts(&self, tags: Seq<Tag>) -> bool {
        exists|t: int, g: int, c: int|
            0 <= t < tags.len() && 0 <= g < self.0@.len() && 0 <= c < self.0@[g]@.len()
                && #[trigger] sid_clause_accepts(self.0@[g]@[c], tags[t])
    }

    pub fn matches(&self, tags: &Tags) -> (r: bool)
        ensures
            r == self.accepts(tags@),
    {
        let mut t: usize = 0;
        while t < tags.len()
            invariant
                t <= tags@.len(),
                forall|u: int, g: int, c: int|
                    0 <= u < t && 0 <= g < self.0@.len() && 0 <= c < self.0@[g]@.len()
                        ==> !#[trigger] sid_clause_accepts(self.0@[g]@[c], tags@[u]),
            decreases tags@.len() - t,
        {
            let tag: Tag = tags[t];
            let mut g: usize = 0;
            while g < self.0.len()
                invariant
                    t < tags@.len(),
                    tag == tags@[t as int],
                    g <= self.0@.len(),
                    forall|h: int, c: int|
                        0 <= h < g && 0 <= c < self.0@[h]@.len() ==> !#[trigger] sid_clause_accepts(
                            self.0@[h]@[c],
                            tag,
                        ),
                decreases self.0@.len() - g,
            {
                let mut c: usize = 0;
                while c < self.0[g].len()
                    invariant
                        t < tags@.len(),
                        tag == tags@[t as int],
                        g < self.0@.len(),
                        c <= self.0@[g as int]@.len(),
                        forall|d: int|
                            0 <= d < c ==> !#[trigger] sid_clause_accepts(
                                self.0@[g as int]@[d],
                                tag,
                            ),
                    decreases self.0@[g as int]@.len() - c,
                {
                    let clause: &(u32, Vec<u32>) = &self.0[g][c];
                    if clause.0 == tag.key && (clause.1.len() == 0 || contains_u32(
                        &clause.1,
                        tag.value,
                    )) {
                        assert(sid_clause_accepts(self.0@[g as int]@[c as int], tags@[t as int]));
                        return true;
                    }
                    c = c + 1;
                }
                g = g + 1;
            }
            t = t + 1;
        }
        false
    }
}

fn contains_u32(values: &Vec<u32>, x: u32) -> (r: bool)
    ensures
        r == values@.contains(x),
{
    let mut i: usize = 0;
    while i < values.len()
        invariant
            i <= values@.len(),
            forall|k: int| 0 <= k < i ==> #[trigger] values@[k] != x,
        decreases values@.len() - i,
    {
        if values[i] == x {
            assert(values@[i as int] == x);
            return true;
        }
        i = i + 1;
    }
    false
}

/// The clause of a filter resolved to ids: none where its key, or every one of its
/// values, is not in the table.
fn resolve_clause(clause: &(String, Vec<String>), table: &StringMap) -> (r: Option<(u32, Vec<u32>)>)
    ensures
        match r {
            Some(s) => forall|tag: Tag| #[trigger]
                sid_clause_accepts(s, tag) == clause_accepts(*clause, table.ids(), tag),
            None => forall|tag: Tag| !#[trigger] clause_accepts(*clause, table.ids(), tag),
        },
{
    let key: u32 = match table.get_str(clause.0.as_str()) {
        Some(k) => k,
        None => return None,
    };
    let mut vals: Vec<u32> = Vec::new();
    let mut i: usize = 0;
    while i < clause.1.len()
        invariant
            i <= clause.1@.len(),
            forall|x: u32| #[trigger]
                vals@.contains(x) <==> exists|v: int|
                    0 <= v < i && id_in(table.ids(), 
                        vstd::utf8::encode_utf8((#[trigger] clause.1@[v])@),
                    ) == Some(x),
        decreases clause.1@.len() - i,
    {
        let ghost before = vals@;
        let ghost text = vstd::utf8::encode_utf8(clause.1@[i as int]@);
        match table.get_str(clause.1[i].as_str()) {
            Some(id) => {
                vals.push(id);
                proof {
                    assert forall|x: u32| #[trigger] vals@.contains(x) <==> exists|v: int|
                        0 <= v < i + 1 && id_in(table.ids(), 
                            vstd::utf8::encode_utf8((#[trigger] clause.1@[v])@),
                        ) == Some(x) by {
                        if vals@.contains(x) {
                            let k = choose|k: int| 0 <= k < vals@.len() && vals@[k] == x;
                            if k < before.len() {
                                assert(before[k] == x);
                                assert(before.contains(x));
                            } else {
                                assert(clause.1@[i as int] == clause.1@[i as int]);
                            }
                        }
                        if exists|v: int|
                            0 <= v < i + 1 && id_in(table.ids(), 
                                vstd::utf8::encode_utf8((#[trigger] clause.1@[v])@),
                            ) == Some(x) {
                            let v = choose|v: int|
                                0 <= v < i + 1 && id_in(table.ids(), 
                                    vstd::utf8::encode_utf8((#[trigger] clause.1@[v])@),
                                ) == Some(x);
                            if v < i {
                                assert(before.contains(x));
                                let k = choose|k: int| 0 <= k < before.len() && before[k] == x;
                                assert(vals@[k] == x);
                            } else {
                                assert(vals@[before.len() as int] == x);
                            }
                        }
                    }
                }
            },
            None => {},
        }
        i = i + 1;
    }
    if vals.len() > 0 || clause.1.len() == 0 {
        assert(clause.1@.len() > 0 ==> vals@.len() > 0);
        assert(clause.1@.len() == 0 ==> vals@.len() == 0) by {
            if clause.1@.len() == 0 && vals@.len() > 0 {
                assert(vals@.contains(vals@[0]));
            }
        }
        let r: (u32, Vec<u32>) = (key, vals);
        Some(r)
    } else {
        proof {
            assert forall|tag: Tag| !#[trigger] clause_accepts(*clause, table.ids(), tag) by {
                if clause_accepts(*clause, table.ids(), tag) {
                    assert(vals@.contains(tag.value));
                }
            }
        }
        None
    }
}

impl TagFilter {
    /// Resolve the filter's strings to the ids of a block. The resolved filter accepts
    /// the same tags.
    pub fn get_sid_filter(&self, string_table: &StringMap) -> (r: SidTagFilter)
        ensures
            forall|tags: Seq<Tag>| #[trigger]
                r.accepts(tags) == filter_accepts(self.0@, string_table.ids(), tags),
    {
        let mut out: Vec<Vec<(u32, Vec<u32>)>> = Vec::new();
        let mut g: usize = 0;
        while g < self.0.len()
            invariant
                g <= self.0@.len(),
                forall|tag: Tag| #[trigger]
                    groups_accept(out@, tag) == clauses_accept(self.0@, string_table.ids(), tag, g as nat),
            decreases self.0@.len() - g,
        {
            let mut filter: Vec<(u32, Vec<u32>)> = Vec::new();
            let mut c: usize = 0;
            while c < self.0[g].len()
                invariant
                    g < self.0@.len(),
                    c <= self.0@[g as int]@.len(),
                    forall|tag: Tag| #[trigger]
                        group_accepts(filter@, tag) == some_clause_accepts(
                            self.0@[g as int]@,
                            string_table.ids(),
                            tag,
                            c as nat,
                        ),
                decreases self.0@[g as int]@.len() - c,
            {
                let ghost before = filter@;
                let clause: &(String, Vec<String>) = &self.0[g][c];
                match resolve_clause(clause, string_table) {
                    Some(s) => {
                        filter.push(s);
                        proof {
                            assert forall|tag: Tag| #[trigger] group_accepts(filter@, tag)
                                == some_clause_accepts(
                                self.0@[g as int]@,
                                string_table.ids(),
                                tag,
                                (c + 1) as nat,
                            ) by {
                                lemma_group_push(before, s, tag);
                                assert(sid_clause_accepts(s, tag) == clause_accepts(
                                    *clause,
                                    string_table.ids(),
                                    tag,
                                ));
                                assert(group_accepts(before, tag) == some_clause_accepts(
                                    self.0@[g as int]@,
                                    string_table.ids(),
                                    tag,
                                    c as nat,
                                ));
                            }
                        }
                    },
                    None => {
                        proof {
                            assert forall|tag: Tag| #[trigger] group_accepts(filter@, tag)
                                == some_clause_accepts(
                                self.0@[g as int]@,
                                string_table.ids(),
                                tag,
                                (c + 1) as nat,
                            ) by {
                                assert(!clause_accepts(*clause, string_table.ids(), tag));
                                assert(group_accepts(before, tag) == some_clause_accepts(
                                    self.0@[g as int]@,
                                    string_table.ids(),
                                    tag,
                                    c as nat,
                                ));
                            }
                        }
                    },
                }
                c = c + 1;
            }
            let ghost before = out@;
            let ghost own = filter@;
            let ghost clauses = self.0@[g as int]@;
            if filter.len() > 0 {
                out.push(filter);
                proof {
                    assert forall|tag: Tag| #[trigger] groups_accept(out@, tag) == (groups_accept(
                        before,
                        tag,
                    ) || group_accepts(own, tag)) by {
                        lemma_groups_push(before, filter, tag);
                    }
                }
            } else {
                assert forall|tag: Tag| !group_accepts(own, tag) by {}
            }
            proof {
                assert forall|tag: Tag| #[trigger] groups_accept(out@, tag) == clauses_accept(
                    self.0@,
                    string_table.ids(),
                    tag,
                    (g + 1) as nat,
                ) by {
                    assert(groups_accept(before, tag) == clauses_accept(
                        self.0@,
                        string_table.ids(),
                        tag,
                        g as nat,
                    ));
                    assert(group_accepts(own, tag) == some_clause_accepts(
                        clauses,
                        string_table.ids(),
                        tag,
                        clauses.len(),
                    ));
                }
            }
            g = g + 1;
        }
        let r = SidTagFilter(out);
        proof {
            assert forall|tags: Seq<Tag>| #[trigger] r.accepts(tags) == filter_accepts(
                self.0@,
                string_table.ids(),
                tags,
            ) by {
                if r.accepts(tags) {
                    let (t, g, c) = choose|t: int, g: int, c: int|
                        0 <= t < tags.len() && 0 <= g < r.0@.len() && 0 <= c < r.0@[g]@.len()
                            && #[trigger] sid_clause_accepts(r.0@[g]@[c], tags[t]);
                    assert(group_accepts(r.0@[g]@, tags[t]));
                    assert(groups_accept(out@, tags[t]));
                    lemma_clauses_accept(self.0@, string_table.ids(), tags[t], self.0@.len());
                    let (a, b) = choose|a: int, b: int|
                        0 <= a < self.0@.len() && 0 <= b < self.0@[a]@.len()
                            && #[trigger] clause_accepts(self.0@[a]@[b], string_table.ids(), tags[t]);
                    assert(clause_accepts(self.0@[a]@[b], string_table.ids(), tags[t]));
                }
                if filter_accepts(self.0@, string_table.ids(), tags) {
                    let (t, a, b) = choose|t: int, a: int, b: int|
                        0 <= t < tags.len() && 0 <= a < self.0@.len() && 0 <= b < self.0@[a]@.len()
                            && #[trigger] clause_accepts(self.0@[a]@[b], string_table.ids(), tags[t]);
                    lemma_clauses_accept(self.0@, string_table.ids(), tags[t], self.0@.len());
                    assert(clause_accepts(self.0@[a]@[b], string_table.ids(), tags[t]));
                    assert(groups_accept(out@, tags[t]));
                    let g = choose|g: int|
                        0 <= g < out@.len() && group_accepts((#[trigger] out@[g])@, tags[t]);
                    let c = choose|c: int|
                        0 <= c < out@[g]@.len() && sid_clause_accepts(
                            #[trigger] out@[g]@[c],
                            tags[t],
                        );
                    assert(sid_clause_accepts(r.0@[g]@[c], tags[t]));
                }
            }
        }
        r
    }
}

spec fn group_accepts(group: Seq<(u32, Vec<u32>)>, tag: Tag) -> bool {
    exists|c: int| 0 <= c < group.len() && sid_clause_accepts(#[trigger] group[c], tag)
}

spec fn groups_accept(groups: Seq<Vec<(u32, Vec<u32>)>>, tag: Tag) -> bool {
    exists|g: int| 0 <= g < groups.len() && group_accepts((#[trigger] groups[g])@, tag)
}

/// One of the first `n` clauses accepts the tag.
spec fn some_clause_accepts(
    clauses: Seq<(String, Vec<String>)>,
    ids: Map<Seq<u8>, u32>,
    tag: Tag,
    n: nat,
) -> bool
    decreases n,
{
    if n == 0 {
        false
    } else {
        some_clause_accepts(clauses, ids, tag, (n - 1) as nat) || clause_accepts(
            clauses[n - 1],
            ids,
            tag,
        )
    }
}

/// A clause of one of the first `n` groups accepts the tag.
spec fn clauses_accept(
    groups: Seq<Vec<(String, Vec<String>)>>,
    ids: Map<Seq<u8>, u32>,
    tag: Tag,
    n: nat,
) -> bool
    decreases n,
{
    if n == 0 {
        false
    } else {
        clauses_accept(groups, ids, tag, (n - 1) as nat) || some_clause_accepts(
            groups[n - 1]@,
            ids,
            tag,
            groups[n - 1]@.len(),
        )
    }
}

proof fn lemma_some_clause(
    clauses: Seq<(String, Vec<String>)>,
    ids: Map<Seq<u8>, u32>,
    tag: Tag,
    n: nat,
)
    requires
        n <= clauses.len(),
    ensures
        some_clause_accepts(clauses, ids, tag, n) <==> exists|c: int|
            0 <= c < n && #[trigger] clause_accepts(clauses[c], ids, tag),
    decreases n,
{
    if n > 0 {
        lemma_some_clause(clauses, ids, tag, (n - 1) as nat);
    }
}

proof fn lemma_clauses_accept(
    groups: Seq<Vec<(String, Vec<String>)>>,
    ids: Map<Seq<u8>, u32>,
    tag: Tag,
    n: nat,
)
    requires
        n <= groups.len(),
    ensures
        clauses_accept(groups, ids, tag, n) <==> exists|g: int, c: int|
            0 <= g < n && 0 <= c < groups[g]@.len() && #[trigger] clause_accepts(
                groups[g]@[c],
                ids,
                tag,
            ),
    decreases n,
{
    if n > 0 {
        lemma_clauses_accept(groups, ids, tag, (n - 1) as nat);
        lemma_some_clause(groups[n - 1]@, ids, tag, groups[n - 1]@.len());
        if some_clause_accepts(groups[n - 1]@, ids, tag, groups[n - 1]@.len()) {
            let c = choose|c: int|
                0 <= c < groups[n - 1]@.len() && #[trigger] clause_accepts(
                    groups[n - 1]@[c],
                    ids,
                    tag,
                );
            assert(clause_accepts(groups[n - 1]@[c], ids, tag));
        }
    }
}

proof fn lemma_group_push(group: Seq<(u32, Vec<u32>)>, s: (u32, Vec<u32>), tag: Tag)
    ensures
        group_accepts(group.push(s), tag) == (group_accepts(group, tag) || sid_clause_accepts(
            s,
            tag,
        )),
{
    let all = group.push(s);
    if group_accepts(group, tag) {
        let c = choose|c: int| 0 <= c < group.len() && sid_clause_accepts(#[trigger] group[c], tag);
        assert(all[c] == group[c]);
    }
    if sid_clause_accepts(s, tag) {
        assert(all[group.len() as int] == s);
    }
    if group_accepts(all, tag) {
        let c = choose|c: int| 0 <= c < all.len() && sid_clause_accepts(#[trigger] all[c], tag);
        if c < group.len() {
            assert(group[c] == all[c]);
        }
    }
}

proof fn lemma_groups_push(groups: Seq<Vec<(u32, Vec<u32>)>>, s: Vec<(u32, Vec<u32>)>, tag: Tag)
    ensures
        groups_accept(groups.push(s), tag) == (groups_accept(groups, tag) || group_accepts(
            s@,
            tag,
        )),
{
    let all = groups.push(s);
    if groups_accept(groups, tag) {
        let g = choose|g: int|
            0 <= g < groups.len() && group_accepts((#[trigger] groups[g])@, tag);
        assert(all[g] == groups[g]);
    }
    if group_accepts(s@, tag) {
        assert(all[groups.len() as int] == s);
    }
    if groups_accept(all, tag) {
        let g = choose|g: int| 0 <= g < all.len() && group_accepts((#[trigger] all[g])@, tag);
        if g < groups.len() {
            assert(groups[g] == all[g]);
        }
    }
}

} // verus!
