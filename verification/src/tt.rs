//! The transposition table: a direct-mapped, power-of-two vector of
//! entries keyed by the low bits of the position hash, with a
//! replacement policy combining principal-variation override, ageing and
//! depth preference.

use vstd::prelude::*;

use crate::evaluation::Score;
use crate::hasher::IncrementalHash;
use crate::state::InternalMove;
use crate::state::Ply;

verus! {

/// Search depth, in units of a thousandth of a ply.
pub type Depth = i32;

/// What a stored score means: exact, or a bound from a cutoff.
#[derive(Clone, Copy, PartialEq, Eq, Structural, Debug)]
pub enum ScoreType {
    Exact(Score),
    LowerBound(Score),
    UpperBound(Score),
}

/// One stored position: the score with its bound type, the best move
/// found, the search depth it was searched to, and the game ply at which
/// it was stored.
#[derive(Clone, Copy, PartialEq, Eq, Structural, Debug)]
pub struct Transposition {
    pub evaluation: ScoreType,
    pub best_move: InternalMove,
    pub depth: Depth,
    pub ply: Ply,
}

impl Transposition {
    /// The replacement policy: a principal-variation entry always
    /// replaces, an entry at least 6 plies older than the new one is
    /// replaced, and otherwise equal or greater depth wins.
    pub fn should_be_replaced_by(&self, other: &Self, pv: bool) -> (r: bool)
        ensures
            r == (pv || self.ply + 6 <= other.ply || self.depth <= other.depth),
    {
        if pv {
            return true;
        }
        if other.ply >= 6 && self.ply <= other.ply - 6 {
            return true;
        }
        if self.depth <= other.depth {
            return true;
        }
        false
    }
}

proof fn lemma_u64_and_mask_le(x: u64, m: u64)
    by (bit_vector)
    ensures
        (x & m) <= m,
{
}

/// A direct-mapped table of `1 << (bits - 1)` slots.
pub struct TranspositionTable {
    table: Vec<Option<Transposition>>,
    bitmask: usize,
}

impl TranspositionTable {
    /// The stored entries, slot by slot.
    pub closed spec fn spec_table(self) -> Seq<Option<Transposition>> {
        self.table@
    }

    /// The index mask: the table length minus one.
    pub closed spec fn spec_mask(self) -> int {
        self.bitmask as int
    }

    /// Structural invariant: the mask matches the table length.
    pub open spec fn wf(self) -> bool {
        &&& self.spec_table().len() == self.spec_mask() + 1
        &&& self.spec_mask() < 0x1_0000_0000
    }

    /// The slot index of a hash: its low bits.
    pub open spec fn spec_index(self, hash: IncrementalHash) -> int {
        (hash & (self.spec_mask() as u64)) as int
    }

    /// The entry a lookup of `hash` returns.
    pub open spec fn spec_at(self, hash: IncrementalHash) -> Option<Transposition> {
        self.spec_table()[self.spec_index(hash)]
    }

    /// A hash's slot index lies inside the table.
    pub proof fn lemma_index_in_range(self, hash: IncrementalHash)
        requires
            self.wf(),
        ensures
            0 <= self.spec_index(hash) < self.spec_table().len(),
    {
        lemma_u64_and_mask_le(hash, self.spec_mask() as u64);
    }

    /// An empty table of `1 << (bits - 1)` slots.
    pub fn new(bits: usize) -> (r: Self)
        requires
            1 <= bits <= 30,
        ensures
            r.wf(),
            r.spec_table().len() == (1usize << (bits - 1) as usize) as int,
            forall|k: int| 0 <= k < r.spec_table().len() ==> #[trigger] r.spec_table()[k] is None,
            forall|h: IncrementalHash| #[trigger] r.spec_at(h) is None,
    {
        let size: usize = 1usize << (bits - 1);
        proof {
            let b = (bits - 1) as usize;
            assert(1usize << b >= 1 && 1usize << b <= 0x2000_0000) by (bit_vector)
                requires
                    b < 30,
            ;
        }
        let mut table: Vec<Option<Transposition>> = Vec::with_capacity(size);
        let mut i: usize = 0;
        while i < size
            invariant
                i <= size,
                table@.len() == i,
                forall|k: int| 0 <= k < i ==> #[trigger] table@[k] is None,
            decreases size - i,
        {
            table.push(None);
            i += 1;
        }
        let r = TranspositionTable { table, bitmask: size - 1 };
        proof {
            assert forall|h: IncrementalHash| #[trigger] r.spec_at(h) is None by {
                lemma_u64_and_mask_le(h, r.spec_mask() as u64);
            }
        }
        r
    }

    /// The entry stored in the slot of `hash`, if any.
    pub fn get(&self, hash: IncrementalHash) -> (r: Option<Transposition>)
        requires
            self.wf(),
        ensures
            r == self.spec_at(hash),
    {
        proof {
            lemma_u64_and_mask_le(hash, self.spec_mask() as u64);
        }
        self.table[(hash & (self.bitmask as u64)) as usize]
    }

    /// Stores `transposition` in the slot of `hash`, displacing whatever
    /// was there.
    pub fn insert(&mut self, hash: IncrementalHash, transposition: Transposition)
        requires
            old(self).wf(),
        ensures
            final (self).wf(),
            final (self).spec_table() == old(self).spec_table().update(
                old(self).spec_index(hash),
                Some(transposition),
            ),
            final (self).spec_at(hash) == Some(transposition),
            forall|h: IncrementalHash|
                old(self).spec_index(h) != old(self).spec_index(hash) ==> #[trigger] final (self).spec_at(h) == old(self).spec_at(h),
    {
        proof {
            lemma_u64_and_mask_le(hash, self.spec_mask() as u64);
            assert forall|h: IncrementalHash|
                true implies (#[trigger] (h & (self.bitmask as u64))) <= self.bitmask as u64 by {
                lemma_u64_and_mask_le(h, self.bitmask as u64);
            }
        }
        let i = (hash & (self.bitmask as u64)) as usize;
        self.table[i] = Some(transposition);
    }
}

} // verus!
