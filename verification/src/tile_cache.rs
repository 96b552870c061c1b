//! The tile cache of a map view: an LRU cache and the archive's zoom levels. The tiles are
//! fetched by the caller.

use std::sync::Arc;
use vstd::prelude::*;

use crate::scene::VisibleTile;
use crate::sort::{is_permutation, is_stable_order, sort_order};
use crate::tile::Tile;
use crate::view::{
    composed, distinct, fetched_view, inserted, inserted_is_found, inserting_keeps_protected,
    is_absorbed, is_entry_for, lemma_distinct_insert, payload, uncached, used, Entry, Lru,
    TilePayload,
};

verus! {

/// `out` lists the levels of `levels` in ascending order.
pub open spec fn ascending(out: Seq<u8>, levels: Seq<u8>) -> bool {
    &&& forall|i: int, j: int| 0 <= i <= j < out.len() ==> #[trigger] out[i] <= #[trigger] out[j]
    &&& exists|order: Seq<usize>|
        #![trigger is_permutation(order, levels.len())]
        is_permutation(order, levels.len()) && out == Seq::new(
            levels.len(),
            |i: int| levels[order[i] as int],
        )
}

fn sort_levels(levels: &Vec<u8>) -> (r: Vec<u8>)
    ensures
        ascending(r@, levels@),
{
    let ghost want = Seq::new(levels@.len(), |i: int| levels@[i] as i128);
    let mut keys: Vec<i128> = Vec::new();
    let mut i: usize = 0;
    while i < levels.len()
        invariant
            i <= levels@.len(),
            want == Seq::new(levels@.len(), |i: int| levels@[i] as i128),
            keys@ == want.take(i as int),
        decreases levels@.len() - i,
    {
        keys.push(levels[i] as i128);
        i = i + 1;
        assert(keys@ =~= want.take(i as int));
    }
    assert(keys@ =~= want);
    let order: Vec<usize> = sort_order(&keys);
    let mut r: Vec<u8> = Vec::new();
    let mut k: usize = 0;
    while k < order.len()
        invariant
            k <= order@.len(),
            is_stable_order(order@, want),
            want.len() == levels@.len(),
            r@.len() == k,
            forall|j: int| 0 <= j < k ==> #[trigger] r@[j] == levels@[order@[j] as int],
        decreases order@.len() - k,
    {
        assert(order@[k as int] < levels@.len());
        r.push(levels[order[k]]);
        k = k + 1;
    }
    proof {
        assert(is_permutation(order@, levels@.len()));
        assert(r@ =~= Seq::new(levels@.len(), |i: int| levels@[order@[i] as int]));
        assert forall|i: int, j: int| 0 <= i <= j < r@.len() implies #[trigger] r@[i]
            <= #[trigger] r@[j] by {
            if i < j {
                assert(want[order@[i] as int] <= want[order@[j] as int]);
            }
        }
    }
    r
}

/// Pairs of a tile and what was fetched for it.
pub open spec fn pairs_of(tiles: Seq<Tile>, loaded: Seq<Option<Vec<u8>>>) -> Seq<
    (Tile, Option<Seq<u8>>),
> {
    Seq::new(
        if tiles.len() <= loaded.len() {
            tiles.len()
        } else {
            loaded.len()
        },
        |i: int| (tiles[i], fetched_view(loaded[i])),
    )
}

/// `s` is the list after the first `n` pairs are cached one after the other. With
/// `present`, pairs without a payload are passed over.
pub open spec fn reached<T: TilePayload>(
    start: Seq<Entry<T>>,
    pairs: Seq<(Tile, Option<Seq<u8>>)>,
    present: bool,
    budget: nat,
    protected: Seq<Tile>,
    n: nat,
    s: Seq<Entry<T>>,
) -> bool
    decreases n,
{
    if n == 0 {
        s == start
    } else {
        exists|before: Seq<Entry<T>>|
            #![trigger moved(before, pairs[n - 1], present, budget, protected, s)]
            reached(start, pairs, present, budget, protected, (n - 1) as nat, before) && moved(
                before,
                pairs[n - 1],
                present,
                budget,
                protected,
                s,
            )
    }
}

/// One pair's step.
pub open spec fn moved<T: TilePayload>(
    before: Seq<Entry<T>>,
    pair: (Tile, Option<Seq<u8>>),
    present: bool,
    budget: nat,
    protected: Seq<Tile>,
    after: Seq<Entry<T>>,
) -> bool {
    if present && pair.1 is None {
        after == before
    } else {
        is_absorbed(before, pair.0, pair.1, budget, protected, after)
    }
}

/// After a batch is cached, every protected tile that was loaded has the payload that its
/// bytes make, and so is drawn from its own data.
pub proof fn loaded_tiles_are_found<T: TilePayload>(
    start: Seq<Entry<T>>,
    pairs: Seq<(Tile, Option<Seq<u8>>)>,
    budget: nat,
    protected: Seq<Tile>,
    n: nat,
    s: Seq<Entry<T>>,
    k: int,
)
    requires
        distinct(start),
        reached(start, pairs, false, budget, protected, n, s),
        0 <= k < n <= pairs.len(),
        protected.contains(pairs[k].0),
        forall|i: int| k < i < n ==> (#[trigger] pairs[i]).0 != pairs[k].0,
    ensures
        distinct(s),
        match pairs[k].1 {
            Some(bytes) => payload(s, pairs[k].0) matches Some(p) && (*p).is_made_of(bytes),
            None => payload(s, pairs[k].0) is None,
        },
    decreases n,
{
    let pair = pairs[n - 1];
    let before = choose|before: Seq<Entry<T>>|
        #![trigger moved(before, pair, false, budget, protected, s)]
        reached(start, pairs, false, budget, protected, (n - 1) as nat, before) && moved(
            before,
            pair,
            false,
            budget,
            protected,
            s,
        );
    lemma_reached_distinct(start, pairs, budget, protected, (n - 1) as nat, before);
    let e = choose|e: Entry<T>| #[trigger]
        is_entry_for(e, pair.0, pair.1) && s == inserted(before, e, budget, protected);
    lemma_distinct_insert(before, e, budget, protected);
    if k == n - 1 {
        inserted_is_found(before, e, budget, protected);
    } else {
        loaded_tiles_are_found(start, pairs, budget, protected, (n - 1) as nat, before, k);
        inserting_keeps_protected(before, e, budget, protected, pairs[k].0);
    }
}

proof fn lemma_reached_distinct<T: TilePayload>(
    start: Seq<Entry<T>>,
    pairs: Seq<(Tile, Option<Seq<u8>>)>,
    budget: nat,
    protected: Seq<Tile>,
    n: nat,
    s: Seq<Entry<T>>,
)
    requires
        distinct(start),
        reached(start, pairs, false, budget, protected, n, s),
    ensures
        distinct(s),
    decreases n,
{
    if n > 0 {
        let pair = pairs[n - 1];
        let before = choose|before: Seq<Entry<T>>|
            #![trigger moved(before, pair, false, budget, protected, s)]
            reached(start, pairs, false, budget, protected, (n - 1) as nat, before) && moved(
                before,
                pair,
                false,
                budget,
                protected,
                s,
            );
        lemma_reached_distinct(start, pairs, budget, protected, (n - 1) as nat, before);
        let e = choose|e: Entry<T>| #[trigger]
            is_entry_for(e, pair.0, pair.1) && s == inserted(before, e, budget, protected);
        lemma_distinct_insert(before, e, budget, protected);
    }
}

/// A tile cache over an archive.
pub struct TileCache<T> {
    cache: Lru<T>,
    /// Materialized zoom levels in the archive, ascending (e.g. `[3,4,6,8,10,12,14]`).
    zoom_levels: Vec<u8>,
    /// The archive's finest zoom.
    max_zoom: u8,
}

impl<T> TileCache<T> {
    /// The cached entries, least recent first.
    pub closed spec fn entries(&self) -> Seq<Entry<T>> {
        self.cache.entries()
    }

    pub closed spec fn budget(&self) -> nat {
        self.cache.budget()
    }

    pub closed spec fn levels(&self) -> Seq<u8> {
        self.zoom_levels@
    }

    pub closed spec fn finest(&self) -> u8 {
        self.max_zoom
    }

    pub closed spec fn wf(&self) -> bool {
        self.cache.wf()
    }

    /// The same archive and budget.
    pub open spec fn same_setup(&self, other: &Self) -> bool {
        self.budget() == other.budget() && self.levels() == other.levels() && self.finest()
            == other.finest()
    }

    /// Create a cache. `zoom_levels` are the archive's materialized levels; `budget_bytes`
    /// caps cached payload size; `max_zoom` is the archive's finest zoom.
    pub fn new(zoom_levels: Vec<u8>, budget_bytes: usize, max_zoom: u8) -> (r: Self)
        ensures
            r.wf(),
            r.entries().len() == 0,
            r.budget() == budget_bytes,
            r.finest() == max_zoom,
            ascending(r.levels(), zoom_levels@),
    {
        TileCache { cache: Lru::new(budget_bytes), zoom_levels: sort_levels(&zoom_levels), max_zoom }
    }

    pub fn zoom_levels(&self) -> (r: &Vec<u8>)
        ensures
            r@ == self.levels(),
    {
        &self.zoom_levels
    }

    /// Those of `tiles` to fetch: the ones not already cached.
    pub fn missing(&self, tiles: &Vec<Tile>) -> (r: Vec<Tile>)
        ensures
            r@ == uncached(self.entries(), tiles@),
    {
        self.cache.missing(tiles)
    }

    /// What to draw for `tiles` at `level`. A coarser ancestor stands in for a tile that
    /// is not loaded, and past the archive's finest zoom for one that is absent; a tile
    /// that is absent at a materialized level is blank.
    pub fn update(&mut self, level: u8, tiles: &Vec<Tile>) -> (r: Vec<VisibleTile<T>>)
        requires
            old(self).wf(),
        ensures
            final(self).wf(),
            final(self).same_setup(old(self)),
            (final(self).entries(), r@) == composed(
                old(self).entries(),
                tiles@,
                level > old(self).finest(),
            ),
    {
        self.cache.compose(tiles, level > self.max_zoom)
    }

    /// Non-blocking peek at a cached tile.
    pub fn get(&mut self, tile: Tile) -> (r: Option<Arc<T>>)
        requires
            old(self).wf(),
        ensures
            final(self).wf(),
            final(self).same_setup(old(self)),
            r == payload(old(self).entries(), tile),
            final(self).entries() == used(old(self).entries(), tile),
    {
        self.cache.get(tile)
    }
}

impl<T: TilePayload> TileCache<T> {
    fn absorb_all(
        &mut self,
        tiles: &Vec<Tile>,
        loaded: Vec<Option<Vec<u8>>>,
        present: bool,
        protected: &Vec<Tile>,
    )
        requires
            old(self).wf(),
        ensures
            final(self).wf(),
            final(self).same_setup(old(self)),
            reached(
                old(self).entries(),
                pairs_of(tiles@, loaded@),
                present,
                old(self).budget(),
                protected@,
                pairs_of(tiles@, loaded@).len(),
                final(self).entries(),
            ),
    {
        let ghost pairs = pairs_of(tiles@, loaded@);
        let ghost start = self.entries();
        let ghost budget = self.budget();
        let ghost all = loaded@;
        let mut loaded: Vec<Option<Vec<u8>>> = loaded;
        let mut i: usize = 0;
        while i < tiles.len() && i < loaded.len()
            invariant
                i <= tiles@.len(),
                i <= loaded@.len(),
                all.len() == loaded@.len(),
                pairs == pairs_of(tiles@, all),
                forall|k: int| i <= k < all.len() ==> #[trigger] loaded@[k] == all[k],
                self.wf(),
                self.same_setup(old(self)),
                budget == self.budget(),
                reached(start, pairs, present, budget, protected@, i as nat, self.entries()),
            decreases tiles@.len() - i,
        {
            let ghost before = self.entries();
            let mut item: Option<Vec<u8>> = None;
            assert(loaded@[i as int] == all[i as int]);
            std::mem::swap(&mut loaded[i], &mut item);
            assert(pairs[i as int] == (tiles@[i as int], fetched_view(item)));
            if !present || item.is_some() {
                self.cache.absorb(tiles[i], item, protected);
            }
            i = i + 1;
            assert(moved(before, pairs[i - 1], present, budget, protected@, self.entries()));
        }
    }

    /// Cache what was fetched for missing tiles: payloads, and tombstones for tiles that
    /// the archive does not have, so that they aren't requested again. `protected` tiles
    /// are never evicted to make room.
    pub fn load(&mut self, missing: &Vec<Tile>, loaded: Vec<Option<Vec<u8>>>, protected: &Vec<Tile>)
        requires
            old(self).wf(),
        ensures
            final(self).wf(),
            final(self).same_setup(old(self)),
            reached(
                old(self).entries(),
                pairs_of(missing@, loaded@),
                false,
                old(self).budget(),
                protected@,
                pairs_of(missing@, loaded@).len(),
                final(self).entries(),
            ),
    {
        self.absorb_all(missing, loaded, false, protected);
    }

    /// Cache what was prefetched around the view: payloads only, and no tile is pinned.
    pub fn prefetched(&mut self, missing: &Vec<Tile>, loaded: Vec<Option<Vec<u8>>>)
        requires
            old(self).wf(),
        ensures
            final(self).wf(),
            final(self).same_setup(old(self)),
            reached(
                old(self).entries(),
                pairs_of(missing@, loaded@),
                true,
                old(self).budget(),
                Seq::empty(),
                pairs_of(missing@, loaded@).len(),
                final(self).entries(),
            ),
    {
        let protected: Vec<Tile> = Vec::new();
        assert(protected@ =~= Seq::empty());
        self.absorb_all(missing, loaded, true, &protected);
    }
}

} // verus!
