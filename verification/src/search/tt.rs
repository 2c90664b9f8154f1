use vstd::prelude::*;
use crate::types::Move;

verus! {

/// Which side of the true score a stored value represents, from an
/// alpha-beta search that didn't finish exploring every branch.
#[derive(Clone, Copy, Debug, PartialEq, Eq, Structural)]
pub enum Bound {
    /// The stored score is the exact value of the node.
    Exact,
    /// The stored score is a lower bound (search failed high / beta cutoff).
    Lower,
    /// The stored score is an upper bound (search failed low).
    Upper,
}

#[derive(Clone, Copy, Debug)]
pub struct TTEntry {
    /// Full 64-bit zobrist key, stored alongside the entry so a same-slot,
    /// different-key collision is detected as a miss instead of returned as
    /// a stale hit.
    pub key: u64,
    pub depth: u8,
    pub score: i32,
    pub bound: Bound,
    pub best_move: Option<Move>,
}

/// Fixed-size transposition table indexed by `key & (capacity - 1)`, so
/// `capacity` is rounded up to a power of two. Bounded, predictable memory
/// footprint instead of an unbounded map.
pub struct TranspositionTable {
    slots: Vec<Option<TTEntry>>,
    mask: u64,
}

/// Whether `n` is a power of two.
pub open spec fn is_pow2(n: nat) -> bool
    decreases n,
{
    if n == 1 {
        true
    } else if n == 0 || n % 2 == 1 {
        false
    } else {
        is_pow2(n / 2)
    }
}

/// What `probe` answers for `key` given these slots.
pub open spec fn lookup(slots: Seq<Option<TTEntry>>, mask: u64, key: u64) -> Option<TTEntry> {
    match slots[(key & mask) as int] {
        Some(e) => if e.key == key { Some(e) } else { None },
        None => None,
    }
}

/// Whether `store` overwrites what the slot holds with an entry of this depth.
pub open spec fn replaces(existing: Option<TTEntry>, depth: u8) -> bool {
    match existing {
        Some(old_entry) => depth >= old_entry.depth,
        None => true,
    }
}

/// The slots after `store(key, entry)`.
pub open spec fn stored(slots: Seq<Option<TTEntry>>, mask: u64, key: u64, entry: TTEntry) -> Seq<Option<TTEntry>> {
    let i = (key & mask) as int;
    if replaces(slots[i], entry.depth) {
        slots.update(i, Some(entry))
    } else {
        slots
    }
}

impl TranspositionTable {
    /// The slots of the table.
    pub closed spec fn entries(&self) -> Seq<Option<TTEntry>> {
        self.slots@
    }

    /// `capacity - 1`; a key's slot is `key & mask`.
    pub closed spec fn index_mask(&self) -> u64 {
        self.mask
    }

    /// The slot count is a power of two and the mask is one less.
    pub closed spec fn wf(&self) -> bool {
        &&& self.slots@.len() == self.mask + 1
        &&& is_pow2(self.slots@.len())
    }

    /// Every stored score lies within `-b..=b`.
    pub open spec fn scores_within(&self, b: int) -> bool {
        forall|i: int| 0 <= i < self.entries().len() && #[trigger] self.entries()[i] is Some
            ==> -b <= self.entries()[i]->0.score <= b
    }

    /// The slot `key` maps to.
    pub open spec fn slot_of(&self, key: u64) -> int {
        (key & self.index_mask()) as int
    }

    /// The mask is one less than the slot count.
    pub proof fn lemma_mask_is_len(&self)
        requires
            self.wf(),
        ensures
            self.index_mask() == self.entries().len() - 1,
    {
    }

    /// A power of two is two raised to some exponent.
    proof fn lemma_pow2_exponent(n: nat)
        requires
            is_pow2(n),
        ensures
            exists|e: nat| vstd::arithmetic::power2::pow2(e) == n,
        decreases n,
    {
        vstd::arithmetic::power2::lemma2_to64();
        if n != 1 {
            Self::lemma_pow2_exponent(n / 2);
            let e = choose|e: nat| vstd::arithmetic::power2::pow2(e) == n / 2;
            vstd::arithmetic::power2::lemma_pow2_unfold(e + 1);
            assert(vstd::arithmetic::power2::pow2(e + 1) == n);
        }
    }

    /// A key's slot is the key modulo the slot count.
    pub proof fn lemma_slot_is_remainder(&self, key: u64)
        requires
            self.wf(),
        ensures
            self.slot_of(key) == (key as int) % (self.entries().len() as int),
    {
        let len = self.slots@.len();
        let m = self.mask;
        Self::lemma_pow2_exponent(len);
        let e = choose|e: nat| vstd::arithmetic::power2::pow2(e) == len;
        vstd::arithmetic::power2::lemma2_to64();
        if e >= 64 {
            if e > 64 {
                vstd::arithmetic::power2::lemma_pow2_strictly_increases(64, e);
            }
            assert(m == 0xffff_ffff_ffff_ffffu64);
            assert(key & m == key) by (bit_vector)
                requires
                    m == 0xffff_ffff_ffff_ffffu64,
            ;
            assert(len == 0x1_0000_0000_0000_0000);
            assert((key as int) % (len as int) == key as int);
        } else {
            vstd::bits::lemma_u64_low_bits_mask_is_mod(key, e);
            vstd::bits::lemma_u64_pow2_no_overflow(e);
            assert(vstd::bits::low_bits_mask(e) == m);
            assert((vstd::bits::low_bits_mask(e) as u64) == m);
            assert((vstd::arithmetic::power2::pow2(e) as u64) as int == len);
            assert(key & m == key % (vstd::arithmetic::power2::pow2(e) as u64));
        }
    }

    pub proof fn lemma_slot_in_range(&self, key: u64)
        requires
            self.wf(),
        ensures
            0 <= self.slot_of(key) < self.entries().len(),
    {
        let m = self.mask;
        assert(key & m <= m) by (bit_vector);
    }

    /// Between two powers of two lies a factor of at least two.
    pub proof fn lemma_pow2_gap(a: nat, b: nat)
        requires
            is_pow2(a),
            is_pow2(b),
            a < b,
        ensures
            2 * a <= b,
        decreases a,
    {
        if a != 1 {
            Self::lemma_pow2_gap(a / 2, b / 2);
        }
    }

    /// A table with at least `capacity` slots (the next power of two, and
    /// at least one), all empty.
    pub fn new(capacity: usize) -> (r: Self)
        requires
            capacity <= usize::MAX / 2 + 1,
        ensures
            r.wf(),
            r.index_mask() == r.entries().len() - 1,
            r.entries().len() >= capacity,
            r.entries().len() < 2 * capacity || r.entries().len() == 1,
            is_pow2(r.entries().len()),
            is_pow2(capacity as nat) ==> r.entries().len() == capacity,
            forall|i: int| 0 <= i < r.entries().len() ==> #[trigger] r.entries()[i] is None,
    {
        let mut size: usize = 1;
        proof {
            assert(is_pow2(1));
        }
        while size < capacity
            invariant
                1 <= size,
                is_pow2(size as nat),
                size == 1 || size < 2 * capacity,
                capacity <= usize::MAX / 2 + 1,
                is_pow2(capacity as nat) ==> size <= capacity,
            decreases usize::MAX - size,
        {
            proof {
                if is_pow2(capacity as nat) {
                    Self::lemma_pow2_gap(size as nat, capacity as nat);
                }
            }
            proof {
                assert((2 * size) as nat / 2 == size as nat);
                assert((2 * size) as nat % 2 == 0);
            }
            size = size * 2;
        }
        let slots: Vec<Option<TTEntry>> = vec![None; size];
        Self { slots, mask: (size - 1) as u64 }
    }

    fn index(&self, key: u64) -> (r: usize)
        requires
            self.wf(),
        ensures
            r == self.slot_of(key),
            r < self.entries().len(),
    {
        let n = self.slots.len();
        let k = key & self.mask;
        proof {
            self.lemma_slot_in_range(key);
            assert(k < n);
        }
        k as usize
    }

    /// The entry stored for `key`, if its slot holds one with that very key.
    pub fn probe(&self, key: u64) -> (r: Option<&TTEntry>)
        requires
            self.wf(),
        ensures
            match lookup(self.entries(), self.index_mask(), key) {
                Some(e) => r matches Some(x) && *x == e,
                None => r is None,
            },
    {
        let i = self.index(key);
        match &self.slots[i] {
            Some(entry) => {
                if entry.key == key {
                    Some(entry)
                } else {
                    None
                }
            },
            None => None,
        }
    }

    /// Depth-preferred replacement: only overwrites an existing entry if the
    /// new one was searched at least as deep, so a shallow early
    /// iterative-deepening pass can't evict a deeper result.
    pub fn store(&mut self, key: u64, entry: TTEntry)
        requires
            old(self).wf(),
        ensures
            final(self).wf(),
            final(self).index_mask() == old(self).index_mask(),
            final(self).entries() == stored(old(self).entries(), old(self).index_mask(), key, entry),
    {
        let idx = self.index(key);
        let replace = match &self.slots[idx] {
            Some(existing) => entry.depth >= existing.depth,
            None => true,
        };
        if replace {
            self.slots.set(idx, Some(entry));
        }
    }
}

// ---- laws of the table ----


/// Storing an entry under its own key, where it wins the slot, makes the
/// next probe of that key return it.
pub proof fn lemma_store_then_probe(slots: Seq<Option<TTEntry>>, mask: u64, key: u64, entry: TTEntry)
    requires
        0 <= (key & mask) < slots.len(),
        entry.key == key,
        replaces(slots[(key & mask) as int], entry.depth),
    ensures
        lookup(stored(slots, mask, key, entry), mask, key) == Some(entry),
{
}

/// A key whose slot holds an entry for a different key is a miss, not a
/// stale hit: after storing `entry`, a probe of any other key in the same
/// slot misses.
pub proof fn lemma_same_slot_other_key_misses(
    slots: Seq<Option<TTEntry>>,
    mask: u64,
    key: u64,
    entry: TTEntry,
    other: u64,
)
    requires
        0 <= (key & mask) < slots.len(),
        entry.key == key,
        replaces(slots[(key & mask) as int], entry.depth),
        other & mask == key & mask,
        other != key,
    ensures
        lookup(stored(slots, mask, key, entry), mask, other) is None,
{
}

/// A shallower entry never evicts a deeper one.
pub proof fn lemma_shallower_store_keeps_deeper(slots: Seq<Option<TTEntry>>, mask: u64, key: u64, entry: TTEntry)
    requires
        0 <= (key & mask) < slots.len(),
        slots[(key & mask) as int] matches Some(e) && e.depth > entry.depth,
    ensures
        stored(slots, mask, key, entry) == slots,
{
}

/// Storing only touches the key's own slot.
pub proof fn lemma_store_other_slot(slots: Seq<Option<TTEntry>>, mask: u64, key: u64, entry: TTEntry, other: u64)
    requires
        0 <= (key & mask) < slots.len(),
        0 <= (other & mask) < slots.len(),
        other & mask != key & mask,
    ensures
        lookup(stored(slots, mask, key, entry), mask, other) == lookup(slots, mask, other),
{
}

} // verus!
