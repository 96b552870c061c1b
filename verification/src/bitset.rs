//! Flat id-space bitset with O(1) rank.
//!
//! Sized to `capacity` bits (`max_id + 1` for the file being processed), so it scales
//! down for extracts and up for the planet. Once the set phase is done it is frozen into
//! a `RankedBitSet` whose `rank(id)` gives the dense ordinal of a set bit: the address
//! into the sparse store.

use vstd::prelude::*;

verus! {

/// Words per rank block. `rank` sums at most this many `popcount`s on top of the
/// precomputed per-block prefix, so it trades index size against query cost.
pub const BLOCK_WORDS: usize = 16;

/// Bits per rank block.
pub const BLOCK_BITS: u64 = 1024;

/// Bit `b` of a word.
pub open spec fn word_bit(w: u64, b: nat) -> bool {
    b < 64 && (w >> (b as u64)) & 1 == 1
}

/// How many of the first `n` bits of a word are set.
pub open spec fn ones_below(w: u64, n: nat) -> nat
    decreases n,
{
    if n == 0 {
        0
    } else {
        ones_below(w, (n - 1) as nat) + if word_bit(w, (n - 1) as nat) {
            1nat
        } else {
            0nat
        }
    }
}

/// Whether the bit for `id` is set.
pub open spec fn bit_at(words: Seq<u64>, id: nat) -> bool {
    word_bit(words[id as int / 64], (id % 64) as nat)
}

/// How many ids below `id` have their bit set.
pub open spec fn count_below(words: Seq<u64>, id: nat) -> nat
    decreases id,
{
    if id == 0 {
        0
    } else {
        count_below(words, (id - 1) as nat) + if bit_at(words, (id - 1) as nat) {
            1nat
        } else {
            0nat
        }
    }
}

/// `u64::count_ones`: the number of ones in the binary representation.
#[verifier::external_body]
fn count_word(w: u64) -> (n: u32)
    ensures
        n == ones_below(w, 64),
{
    w.count_ones()
}

proof fn lemma_set_bit(w: u64, b: u64, c: u64)
    requires
        b < 64,
        c < 64,
    ensures
        word_bit(w | (1u64 << b), c as nat) == (b == c || word_bit(w, c as nat)),
{
    assert(b < 64 && c < 64 ==> ((((w | (1u64 << b)) >> c) & 1 == 1) == (b == c || (w >> c) & 1 == 1)))
        by (bit_vector);
}

proof fn lemma_test_bit(w: u64, b: u64)
    requires
        b < 64,
    ensures
        (w & (1u64 << b) != 0) == word_bit(w, b as nat),
{
    assert(b < 64 ==> ((w & (1u64 << b) != 0) == ((w >> b) & 1 == 1))) by (bit_vector);
}

proof fn lemma_mask_bit(w: u64, b: u64, c: u64)
    requires
        b < 64,
        c < 64,
    ensures
        (1u64 << b) >= 1,
        word_bit(w & (((1u64 << b) - 1) as u64), c as nat) == (c < b && word_bit(w, c as nat)),
{
    assert(b < 64 ==> (1u64 << b) >= 1) by (bit_vector);
    assert(b < 64 && c < 64 ==> (((w & (((1u64 << b) - 1) as u64)) >> c) & 1 == 1) == (c < b && (w
        >> c) & 1 == 1)) by (bit_vector);
}

proof fn lemma_zero_word(b: nat)
    ensures
        !word_bit(0, b),
{
    if b < 64 {
        let c = b as u64;
        assert((0u64 >> c) & 1 == 0) by (bit_vector);
    }
}

proof fn lemma_mask_ones(w: u64, b: u64, n: nat)
    requires
        b < 64,
        n <= 64,
    ensures
        ones_below(w & (((1u64 << b) - 1) as u64), n) == ones_below(
            w,
            if n <= b {
                n
            } else {
                b as nat
            },
        ),
    decreases n,
{
    if n > 0 {
        lemma_mask_ones(w, b, (n - 1) as nat);
        lemma_mask_bit(w, b, (n - 1) as u64);
    }
}

proof fn lemma_ones_bound(w: u64, n: nat)
    ensures
        ones_below(w, n) <= n,
    decreases n,
{
    if n > 0 {
        lemma_ones_bound(w, (n - 1) as nat);
    }
}

proof fn lemma_count_word(words: Seq<u64>, w: nat, n: nat)
    requires
        n <= 64,
    ensures
        count_below(words, 64 * w + n) == count_below(words, 64 * w) + ones_below(
            words[w as int],
            n,
        ),
    decreases n,
{
    if n > 0 {
        lemma_count_word(words, w, (n - 1) as nat);
        let id = (64 * w + n - 1) as nat;
        assert(id as int / 64 == w && id % 64 == n - 1);
    }
}

pub proof fn lemma_count_bound(words: Seq<u64>, id: nat)
    ensures
        count_below(words, id) <= id,
    decreases id,
{
    if id > 0 {
        lemma_count_bound(words, (id - 1) as nat);
    }
}

pub proof fn lemma_count_monotone(words: Seq<u64>, a: nat, b: nat)
    requires
        a <= b,
    ensures
        count_below(words, a) <= count_below(words, b),
    decreases b,
{
    if a < b {
        lemma_count_monotone(words, a, (b - 1) as nat);
    }
}

/// A set id's rank is its dense ordinal: set ids in order have ranks in order, all below
/// the rank of any later id.
pub proof fn rank_strictly_increases(words: Seq<u64>, a: nat, b: nat)
    requires
        a < b,
        bit_at(words, a),
    ensures
        count_below(words, a) < count_below(words, b),
{
    lemma_count_monotone(words, a + 1, b);
}

/// Every ordinal below the number of set ids is the rank of some set id.
pub proof fn rank_is_dense(words: Seq<u64>, limit: nat, slot: nat) -> (id: nat)
    requires
        slot < count_below(words, limit),
    ensures
        id < limit,
        bit_at(words, id),
        count_below(words, id) == slot,
    decreases limit,
{
    let last = (limit - 1) as nat;
    if slot < count_below(words, last) {
        rank_is_dense(words, last, slot)
    } else {
        last
    }
}

proof fn lemma_count_same(a: Seq<u64>, b: Seq<u64>, n: nat)
    requires
        forall|i: nat| i < n ==> bit_at(a, i) == #[trigger] bit_at(b, i),
    ensures
        count_below(a, n) == count_below(b, n),
    decreases n,
{
    if n > 0 {
        lemma_count_same(a, b, (n - 1) as nat);
        assert(bit_at(a, (n - 1) as nat) == bit_at(b, (n - 1) as nat));
    }
}

/// Words for `capacity` bits, those past the capacity clear.
pub open spec fn words_ok(words: Seq<u64>, capacity: u64) -> bool {
    &&& words.len() == (capacity + 63) / 64
    &&& forall|id: nat| capacity <= id < 64 * words.len() ==> !#[trigger] bit_at(words, id)
}

proof fn lemma_count_past(words: Seq<u64>, capacity: u64, id: nat)
    requires
        words_ok(words, capacity),
        capacity <= id <= 64 * words.len(),
    ensures
        count_below(words, id) == count_below(words, capacity as nat),
    decreases id,
{
    if id > capacity {
        lemma_count_past(words, capacity, (id - 1) as nat);
        assert(!bit_at(words, (id - 1) as nat));
    }
}

/// A fixed-capacity bitset over `0..capacity`.
pub struct BitSet {
    words: Vec<u64>,
    capacity: u64,
}

impl BitSet {
    pub closed spec fn words(&self) -> Seq<u64> {
        self.words@
    }

    pub closed spec fn spec_capacity(&self) -> u64 {
        self.capacity
    }

    pub open spec fn wf(&self) -> bool {
        words_ok(self.words(), self.spec_capacity())
    }

    /// Whether `id` is in the set.
    pub open spec fn has(&self, id: u64) -> bool {
        id < self.spec_capacity() && bit_at(self.words(), id as nat)
    }

    /// Allocate a bitset able to hold ids in `0..capacity` (all clear).
    pub fn with_capacity(capacity: u64) -> (r: Self)
        requires
            (capacity + 63) / 64 <= usize::MAX,
        ensures
            r.wf(),
            r.spec_capacity() == capacity,
            forall|id: u64| !#[trigger] r.has(id),
    {
        let full: u64 = capacity / 64;
        let n: usize = (full + (if capacity % 64 == 0 {
            0u64
        } else {
            1u64
        })) as usize;
        let mut words: Vec<u64> = Vec::new();
        let mut i: usize = 0;
        while i < n
            invariant
                i <= n,
                words@.len() == i,
                forall|k: int| 0 <= k < i ==> #[trigger] words@[k] == 0,
            decreases n - i,
        {
            words.push(0);
            i = i + 1;
        }
        proof {
            assert forall|id: nat| id < 64 * words@.len() implies !#[trigger] bit_at(words@, id) by {
                assert(words@[id as int / 64] == 0);
                lemma_zero_word((id % 64) as nat);
            }
        }
        BitSet { words, capacity }
    }

    /// Set the bit for `id`.
    pub fn set(&mut self, id: u64)
        requires
            old(self).wf(),
            id < old(self).spec_capacity(),
        ensures
            final(self).wf(),
            final(self).spec_capacity() == old(self).spec_capacity(),
            forall|k: u64| #[trigger] final(self).has(k) == (k == id || old(self).has(k)),
    {
        self.test_and_set(id);
    }

    /// Set the bit for `id`, returning whether it was already set: "have I seen this id
    /// before?".
    pub fn test_and_set(&mut self, id: u64) -> (r: bool)
        requires
            old(self).wf(),
            id < old(self).spec_capacity(),
        ensures
            final(self).wf(),
            final(self).spec_capacity() == old(self).spec_capacity(),
            r == old(self).has(id),
            forall|k: u64| #[trigger] final(self).has(k) == (k == id || old(self).has(k)),
    {
        let ghost before = self.words@;
        let n: usize = self.words.len();
        assert(id / 64 < n);
        let word: usize = (id / 64) as usize;
        let bit: u64 = id % 64;
        let was: u64 = self.words[word];
        let mask: u64 = 1u64 << bit;
        self.words[word] = was | mask;
        proof {
            lemma_test_bit(was, bit);
            assert forall|k: nat| k < 64 * before.len() implies #[trigger] bit_at(self.words@, k) == (
            k == id || bit_at(before, k)) by {
                if k as int / 64 == word {
                    lemma_set_bit(was, bit, (k % 64) as u64);
                }
            }
        }
        was & mask != 0
    }

    /// Test whether `id`'s bit is set.
    pub fn contains(&self, id: u64) -> (r: bool)
        requires
            self.wf(),
        ensures
            r == self.has(id),
    {
        if id >= self.capacity {
            return false;
        }
        let n: usize = self.words.len();
        assert(id / 64 < n);
        let word: usize = (id / 64) as usize;
        let bit: u64 = id % 64;
        (self.words[word] >> bit) & 1 == 1
    }

    /// Number of bits currently set (linear scan: call once, not in a loop).
    pub fn count_ones(&self) -> (r: u64)
        requires
            self.wf(),
        ensures
            r == count_below(self.words(), self.spec_capacity() as nat),
    {
        let r: u64 = count_words(&self.words, self.words.len(), self.capacity);
        proof {
            lemma_count_past(self.words@, self.capacity, 64 * self.words@.len());
        }
        r
    }

    /// Highest addressable id + 1.
    pub fn capacity(&self) -> (r: u64)
        ensures
            r == self.spec_capacity(),
    {
        self.capacity
    }

    /// Freeze the set of bits and build the rank index.
    pub fn into_ranked(self) -> (r: RankedBitSet)
        requires
            self.wf(),
        ensures
            r.wf(),
            r.spec_capacity() == self.spec_capacity(),
            r.words() == self.words(),
    {
        RankedBitSet::build(self)
    }
}

/// The set bits of the first `n` words.
fn count_words(words: &Vec<u64>, n: usize, capacity: u64) -> (r: u64)
    requires
        words_ok(words@, capacity),
        n <= words@.len(),
    ensures
        r == count_below(words@, 64 * n as nat),
        r <= capacity,
{
    let mut acc: u64 = 0;
    let mut i: usize = 0;
    assert(count_below(words@, 0) == 0);
    while i < n
        invariant
            i <= n <= words@.len(),
            words_ok(words@, capacity),
            acc == count_below(words@, 64 * i as nat),
            acc <= capacity,
        decreases n - i,
    {
        proof {
            lemma_count_word(words@, i as nat, 64);
            lemma_ones_bound(words@[i as int], 64);
            lemma_capped_count(words@, capacity, 64 * (i + 1) as nat);
        }
        acc = acc + count_word(words[i]) as u64;
        i = i + 1;
    }
    acc
}

proof fn lemma_capped_count(words: Seq<u64>, capacity: u64, id: nat)
    requires
        words_ok(words, capacity),
        id <= 64 * words.len(),
    ensures
        count_below(words, id) <= capacity,
        count_below(words, id) <= count_below(words, capacity as nat),
{
    if id <= capacity {
        lemma_count_bound(words, id);
        lemma_count_monotone(words, id, capacity as nat);
    } else {
        lemma_count_past(words, capacity, id);
        lemma_count_bound(words, capacity as nat);
    }
}

/// A frozen `BitSet` with a precomputed rank index.
///
/// `rank(id)` = number of set bits strictly below `id`. For an id whose bit is set, that
/// value is its dense 0-based ordinal: exactly the slot it occupies in a sparse store.
pub struct RankedBitSet {
    words: Vec<u64>,
    /// Cumulative count of set bits before each `BLOCK_WORDS`-word block, plus a
    /// trailing sentinel equal to the total.
    block_rank: Vec<u64>,
    capacity: u64,
    total: u64,
}

impl RankedBitSet {
    pub closed spec fn words(&self) -> Seq<u64> {
        self.words@
    }

    pub closed spec fn spec_capacity(&self) -> u64 {
        self.capacity
    }

    pub closed spec fn wf(&self) -> bool {
        &&& words_ok(self.words@, self.capacity)
        &&& self.block_rank@.len() == (self.words@.len() + 15) / 16 + 1
        &&& forall|k: int|
            0 <= k < self.block_rank@.len() - 1 ==> #[trigger] self.block_rank@[k] == count_below(
                self.words@,
                (1024 * k) as nat,
            )
        &&& self.block_rank@.last() == self.total
        &&& self.total == count_below(self.words@, self.capacity as nat)
    }

    /// Whether `id` is in the set.
    pub open spec fn has(&self, id: u64) -> bool {
        id < self.spec_capacity() && bit_at(self.words(), id as nat)
    }

    /// How many set ids lie below `id`.
    pub open spec fn rank_of(&self, id: u64) -> nat {
        count_below(
            self.words(),
            if id < self.spec_capacity() {
                id as nat
            } else {
                self.spec_capacity() as nat
            },
        )
    }

    /// How many ids are set.
    pub open spec fn size(&self) -> nat {
        count_below(self.words(), self.spec_capacity() as nat)
    }

    fn build(bits: BitSet) -> (r: Self)
        requires
            bits.wf(),
        ensures
            r.wf(),
            r.spec_capacity() == bits.spec_capacity(),
            r.words() == bits.words(),
    {
        let BitSet { words, capacity } = bits;
        let mut block_rank: Vec<u64> = Vec::new();
        let mut acc: u64 = 0;
        let n: usize = words.len();
        let mut i: usize = 0;
        assert(count_below(words@, 0) == 0);
        while i < n
            invariant
                i <= n,
                n == words@.len(),
                words_ok(words@, capacity),
                acc == count_below(words@, 64 * i as nat),
                acc <= capacity,
                block_rank@.len() == (i + 15) / 16,
                forall|k: int|
                    0 <= k < block_rank@.len() ==> #[trigger] block_rank@[k] == count_below(
                        words@,
                        (1024 * k) as nat,
                    ),
            decreases n - i,
        {
            if i % BLOCK_WORDS == 0 {
                block_rank.push(acc);
            }
            proof {
                lemma_count_word(words@, i as nat, 64);
                lemma_capped_count(words@, capacity, 64 * (i + 1) as nat);
            }
            acc = acc + count_word(words[i]) as u64;
            i = i + 1;
        }
        block_rank.push(acc);
        proof {
            lemma_count_past(words@, capacity, 64 * words@.len());
        }
        RankedBitSet { words, block_rank, capacity, total: acc }
    }

    /// Test whether `id`'s bit is set.
    pub fn contains(&self, id: u64) -> (r: bool)
        requires
            self.wf(),
        ensures
            r == self.has(id),
    {
        if id >= self.capacity {
            return false;
        }
        let n: usize = self.words.len();
        assert(id / 64 < n);
        let bit: u64 = id % 64;
        (self.words[(id / 64) as usize] >> bit) & 1 == 1
    }

    /// Number of set bits strictly below `id` (in `0..id`).
    pub fn rank(&self, id: u64) -> (r: u64)
        requires
            self.wf(),
        ensures
            r == self.rank_of(id),
            r <= self.size(),
    {
        let id: u64 = if id < self.capacity {
            id
        } else {
            self.capacity
        };
        let n: usize = self.words.len();
        assert(id / 64 <= n);
        let word: usize = (id / 64) as usize;
        let block: usize = (id / BLOCK_BITS) as usize;
        let ghost ws = self.words@;
        proof {
            lemma_count_monotone(ws, id as nat, self.capacity as nat);
            lemma_count_bound(ws, self.capacity as nat);
            if block == self.block_rank@.len() - 1 {
                assert(1024 * block == self.capacity);
            }
        }
        let mut acc: u64 = self.block_rank[block];
        let mut i: usize = block * BLOCK_WORDS;
        assert(64 * i == 1024 * block);
        while i < word
            invariant
                block * 16 <= i <= word,
                word == id / 64,
                ws == self.words@,
                words_ok(ws, self.capacity),
                id <= self.capacity,
                word <= ws.len(),
                acc == count_below(ws, 64 * i as nat),
                count_below(ws, id as nat) <= self.capacity,
            decreases word - i,
        {
            proof {
                lemma_count_word(ws, i as nat, 64);
                lemma_count_monotone(ws, 64 * (i + 1) as nat, id as nat);
            }
            acc = acc + count_word(self.words[i]) as u64;
            i = i + 1;
        }
        let bit: u64 = id % 64;
        proof {
            assert(id == 64 * word + bit);
            if bit != 0 {
                lemma_count_word(ws, word as nat, bit as nat);
                lemma_mask_ones(ws[word as int], bit, 64);
                lemma_mask_bit(ws[word as int], bit, 0);
            }
        }
        if bit != 0 {
            let mask: u64 = (1u64 << bit) - 1;
            acc = acc + count_word(self.words[word] & mask) as u64;
        }
        acc
    }

    /// The dense ordinal of `id` if its bit is set, else `None`. This is the store slot
    /// for `id`.
    pub fn rank_if_set(&self, id: u64) -> (r: Option<u64>)
        requires
            self.wf(),
        ensures
            match r {
                Some(slot) => self.has(id) && slot == self.rank_of(id) && slot < self.size(),
                None => !self.has(id),
            },
    {
        if self.contains(id) {
            proof {
                rank_strictly_increases(self.words@, id as nat, self.capacity as nat);
            }
            Some(self.rank(id))
        } else {
            None
        }
    }

    /// Total number of set bits (= number of slots in a store addressed by this).
    pub fn len(&self) -> (r: u64)
        requires
            self.wf(),
        ensures
            r == self.size(),
    {
        self.total
    }

    pub fn is_empty(&self) -> (r: bool)
        requires
            self.wf(),
        ensures
            r == (self.size() == 0),
    {
        self.total == 0
    }

    /// Highest addressable id + 1.
    pub fn capacity(&self) -> (r: u64)
        ensures
            r == self.spec_capacity(),
    {
        self.capacity
    }
}

} // verus!
