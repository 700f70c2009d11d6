//! Incremental Zobrist hashing: one random 64-bit word per cell and
//! colour plus a side-to-move word.  A move's hash delta is the XOR of
//! the two cell words and the side word; because XOR is involutive the
//! same delta undoes itself on unmake.

use vstd::prelude::*;

use crate::bitboard::Bitboard;
use crate::state::InternalGameState;
use crate::state::InternalMove;

verus! {

/// A position hash.
pub type IncrementalHash = u64;

/// The random tables: per-cell words for each colour and one
/// side-to-move word, fixed at construction.
pub struct IncrementalHasher {
    tile_hashes0: Vec<u64>,
    tile_hashes1: Vec<u64>,
    to_move_hash: u64,
}

/// Relies on rand::random: a fresh pseudo-random 64-bit word; nothing is
/// promised of its value.
#[verifier::external_body]
fn random_u64() -> u64 {
    rand::random::<u64>()
}

pub proof fn lemma_xor_shuffle(x: u64, a: u64, b: u64)
    by (bit_vector)
    ensures
        (x ^ a) ^ b == (x ^ b) ^ a,
{
}

pub proof fn lemma_xor_cancel(x: u64, a: u64)
    by (bit_vector)
    ensures
        (x ^ a) ^ a == x,
        x ^ 0u64 == x,
        0u64 ^ x == x,
        x ^ x == 0u64,
{
}

proof fn lemma_hash_combine(f0: u64, f1: u64, os: u64, tf: u64, tt: u64, sw: u64)
    by (bit_vector)
    ensures
        (((f0 ^ tf) ^ tt) ^ f1) ^ (os ^ sw) == ((f0 ^ f1) ^ os) ^ (((tf ^ tt) ^ sw)),
{
}

/// XOR of `t[i]` over the set bits `i < n` of `b`.
pub open spec fn xor_fold(b: Bitboard, t: Seq<u64>, n: int) -> u64
    decreases n,
{
    if n <= 0 {
        0u64
    } else {
        xor_fold(b, t, n - 1) ^ (if b.spec_bit(n - 1) {
            t[n - 1]
        } else {
            0u64
        })
    }
}

/// Flipping one bit of the board XORs that cell's word into the fold.
proof fn lemma_xor_fold_flip(b1: Bitboard, b2: Bitboard, t: Seq<u64>, n: int, j: int)
    requires
        n >= 0,
        forall|i: int| 0 <= i < n && i != j ==> b1.spec_bit(i) == b2.spec_bit(i),
    ensures
        xor_fold(b2, t, n) == if 0 <= j < n && b1.spec_bit(j) != b2.spec_bit(j) {
            xor_fold(b1, t, n) ^ t[j]
        } else {
            xor_fold(b1, t, n)
        },
    decreases n,
{
    if n > 0 {
        lemma_xor_fold_flip(b1, b2, t, n - 1, j);
        let w1 = if b1.spec_bit(n - 1) {
            t[n - 1]
        } else {
            0u64
        };
        let w2 = if b2.spec_bit(n - 1) {
            t[n - 1]
        } else {
            0u64
        };
        if j == n - 1 && b1.spec_bit(j) != b2.spec_bit(j) {
            assert(xor_fold(b1, t, n - 1) == xor_fold(b2, t, n - 1));
            lemma_xor_cancel(xor_fold(b1, t, n - 1), t[n - 1]);
            lemma_xor_shuffle(xor_fold(b1, t, n - 1), w1, t[j]);
            lemma_xor_cancel(xor_fold(b1, t, n - 1) ^ w1, 0u64);
        } else {
            if 0 <= j < n - 1 && b1.spec_bit(j) != b2.spec_bit(j) {
                lemma_xor_shuffle(xor_fold(b1, t, n - 1), t[j], w1);
            }
        }
    }
}

impl IncrementalHasher {
    /// The cell words of player 0.
    pub closed spec fn spec_t0(self) -> Seq<u64> {
        self.tile_hashes0@
    }

    /// The cell words of player 1.
    pub closed spec fn spec_t1(self) -> Seq<u64> {
        self.tile_hashes1@
    }

    /// The side-to-move word.
    pub closed spec fn spec_side(self) -> u64 {
        self.to_move_hash
    }

    /// Structural invariant: one word per cell and colour.
    pub open spec fn wf(self) -> bool {
        self.spec_t0().len() == 256 && self.spec_t1().len() == 256
    }

    /// The hash delta of `mov` played by `current_player`.
    pub open spec fn spec_update(self, current_player: int, m: InternalMove) -> u64 {
        ((if current_player == 0 {
            self.spec_t0()[m.from as int]
        } else {
            self.spec_t1()[m.from as int]
        }) ^ (if current_player == 0 {
            self.spec_t0()[m.to as int]
        } else {
            self.spec_t1()[m.to as int]
        })) ^ self.spec_side()
    }

    /// The hash of a whole position, recomputed from scratch: the XOR of
    /// the cell words of all pieces, plus the side word when player 1 is
    /// to move.
    pub open spec fn spec_hash_of(self, s: InternalGameState) -> u64 {
        (xor_fold(s.pieces[0], self.spec_t0(), 256) ^ xor_fold(s.pieces[1], self.spec_t1(), 256))
            ^ (if s.current_player == 1 {
            self.spec_side()
        } else {
            0u64
        })
    }

    /// The hash delta of `mov`, read from the tables.
    pub fn update(&self, current_player: u8, mov: InternalMove) -> (r: IncrementalHash)
        requires
            self.wf(),
            current_player < 2,
        ensures
            r == self.spec_update(current_player as int, mov),
    {
        let from: u64;
        let to: u64;
        if current_player == 0 {
            from = self.tile_hashes0[mov.from as usize];
            to = self.tile_hashes0[mov.to as usize];
        } else {
            from = self.tile_hashes1[mov.from as usize];
            to = self.tile_hashes1[mov.to as usize];
        }
        (from ^ to) ^ self.to_move_hash
    }

    /// The full hash of `s`, computed from scratch.
    pub fn full_hash(&self, s: &InternalGameState) -> (r: IncrementalHash)
        requires
            self.wf(),
        ensures
            r == self.spec_hash_of(*s),
    {
        let mut h0: u64 = 0;
        let mut h1: u64 = 0;
        let mut i: usize = 0;
        while i < 256
            invariant
                self.wf(),
                i <= 256,
                h0 == xor_fold(s.pieces[0], self.spec_t0(), i as int),
                h1 == xor_fold(s.pieces[1], self.spec_t1(), i as int),
            decreases 256 - i,
        {
            proof {
                assert(i as u8 as int == i as int);
                lemma_xor_cancel(h0, 0u64);
                lemma_xor_cancel(h1, 0u64);
            }
            if s.pieces[0].get_bit(i as u8) {
                h0 = h0 ^ self.tile_hashes0[i];
            }
            if s.pieces[1].get_bit(i as u8) {
                h1 = h1 ^ self.tile_hashes1[i];
            }
            i += 1;
        }
        if s.current_player == 1 {
            (h0 ^ h1) ^ self.to_move_hash
        } else {
            proof {
                lemma_xor_cancel(h0 ^ h1, 0u64);
            }
            (h0 ^ h1) ^ 0
        }
    }
}

impl Default for IncrementalHasher {
    /// Samples fresh random tables.
    fn default() -> (r: Self)
        ensures
            r.wf(),
    {
        let mut tile_hashes0: Vec<u64> = Vec::with_capacity(256);
        let mut tile_hashes1: Vec<u64> = Vec::with_capacity(256);
        let mut i: usize = 0;
        while i < 256
            invariant
                tile_hashes0@.len() == i,
                tile_hashes1@.len() == i,
                i <= 256,
            decreases 256 - i,
        {
            tile_hashes0.push(random_u64());
            tile_hashes1.push(random_u64());
            i += 1;
        }
        IncrementalHasher { tile_hashes0, tile_hashes1, to_move_hash: random_u64() }
    }
}

/// The incremental update recomputes the hash: XOR-ing a move's delta
/// into the hash of a position gives the from-scratch hash of the
/// position after the move.
pub proof fn lemma_hash_update(h: IncrementalHasher, s: InternalGameState, m: InternalMove)
    requires
        h.wf(),
        s.wf(),
        InternalGameState::spec_move_ok(s, m),
    ensures
        h.spec_hash_of(InternalGameState::spec_make(s, m)) == h.spec_hash_of(s) ^ h.spec_update(
            s.current_player as int,
            m,
        ),
{
    let p = s.current_player as int;
    let s2 = InternalGameState::spec_make(s, m);
    let fi = m.from as int;
    let ti = m.to as int;
    let b = s.pieces[p];
    let bi = b.spec_set(ti);
    let b2 = bi.spec_unset(fi);
    b.lemma_spec_set(ti);
    bi.lemma_spec_unset(fi);
    assert(s2.pieces[p] == b2);
    assert(s2.pieces[1 - p] == s.pieces[1 - p]);
    let t = if p == 0 {
        h.spec_t0()
    } else {
        h.spec_t1()
    };
    lemma_xor_fold_flip(b, bi, t, 256, ti);
    lemma_xor_fold_flip(bi, b2, t, 256, fi);
    assert(xor_fold(b2, t, 256) == (xor_fold(b, t, 256) ^ t[ti]) ^ t[fi]);
    lemma_xor_shuffle(xor_fold(b, t, 256), t[ti], t[fi]);
    let f_other = if p == 0 {
        xor_fold(s.pieces[1], h.spec_t1(), 256)
    } else {
        xor_fold(s.pieces[0], h.spec_t0(), 256)
    };
    let os = if s.current_player == 1 {
        h.spec_side()
    } else {
        0u64
    };
    let ns = if s2.current_player == 1 {
        h.spec_side()
    } else {
        0u64
    };
    assert(ns == os ^ h.spec_side()) by {
        lemma_xor_cancel(h.spec_side(), h.spec_side());
        lemma_xor_cancel(h.spec_side(), 0u64);
        assert(0u64 ^ h.spec_side() == h.spec_side());
        assert(h.spec_side() ^ h.spec_side() == 0u64);
    }
    lemma_hash_combine(xor_fold(b, t, 256), f_other, os, t[fi], t[ti], h.spec_side());
    if p == 0 {
        assert(h.spec_hash_of(s2) == (xor_fold(b2, h.spec_t0(), 256) ^ xor_fold(
            s.pieces[1],
            h.spec_t1(),
            256,
        )) ^ ns);
        assert(h.spec_hash_of(s) == (xor_fold(b, h.spec_t0(), 256) ^ f_other) ^ os) by {
            lemma_xor_shuffle(xor_fold(b, h.spec_t0(), 256), f_other, os);
        }
    } else {
        assert(h.spec_hash_of(s2) == (xor_fold(s.pieces[0], h.spec_t0(), 256) ^ xor_fold(
            b2,
            h.spec_t1(),
            256,
        )) ^ ns);
        assert(xor_fold(s2.pieces[0], h.spec_t0(), 256) ^ xor_fold(s2.pieces[1], h.spec_t1(), 256)
            == xor_fold(b2, t, 256) ^ f_other) by {
            lemma_xor_swap_args(xor_fold(b2, t, 256), f_other);
        }
        assert(xor_fold(s.pieces[0], h.spec_t0(), 256) ^ xor_fold(s.pieces[1], h.spec_t1(), 256)
            == xor_fold(b, t, 256) ^ f_other) by {
            lemma_xor_swap_args(xor_fold(b, t, 256), f_other);
        }
    }
}

pub proof fn lemma_xor_swap_args(a: u64, b: u64)
    by (bit_vector)
    ensures
        a ^ b == b ^ a,
{
}

} // verus!
