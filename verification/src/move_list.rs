//! A lazily, partially sorted move list: the first `n` draws pick the
//! best remaining move by a caller-supplied score, the rest come out in
//! whatever order is left.

use vstd::prelude::*;

use vstd::multiset::Multiset;

use crate::evaluation::Score;
use crate::state::InternalMove;

verus! {

/// Move containers that can be drained best-first.
pub trait MoveList {
    /// Wraps the list in an iterator that selection-sorts its first `n`
    /// draws by `score_fn`.
    fn order<F: Fn(InternalMove) -> Score>(self, n: usize, score_fn: F) -> (r: MoveListIterator<F>)
        requires
            forall|m: InternalMove| #[trigger] score_fn.requires((m,)),
    ;
}

impl MoveList for Vec<InternalMove> {
    fn order<F: Fn(InternalMove) -> Score>(self, n: usize, score_fn: F) -> (r: MoveListIterator<
        F,
    >) {
        MoveListIterator { moves: self, index: 0, n, score_fn }
    }
}

/// Drains a move list, selection-sorting the first `n` draws.
pub struct MoveListIterator<F> {
    moves: Vec<InternalMove>,
    n: usize,
    index: usize,
    score_fn: F,
}

impl<F: Fn(InternalMove) -> Score> MoveListIterator<F> {
    /// The moves not yet drawn.
    pub closed spec fn spec_moves(self) -> Seq<InternalMove> {
        self.moves@
    }

    /// How many moves have been drawn.
    pub closed spec fn spec_index(self) -> int {
        self.index as int
    }

    /// The score function can be asked about any move, and the draw
    /// cursor is inside the list.
    pub open spec fn wf(self) -> bool {
        &&& self.spec_index() <= self.spec_moves().len()
        &&& forall|m: InternalMove| #[trigger] self.spec_score_fn().requires((m,))
    }

    /// The score function.
    pub closed spec fn spec_score_fn(self) -> F {
        self.score_fn
    }

    /// Draws the next move: one of the remaining list entries, best
    /// first for the first `n` draws.
    pub fn next(&mut self) -> (r: Option<InternalMove>)
        requires
            old(self).wf(),
        ensures
            final (self).wf(),
            match r {
                None => final (self).spec_moves() == old(self).spec_moves() && old(
                    self,
                ).spec_index() == old(self).spec_moves().len(),
                Some(m) => {
                    &&& old(self).spec_moves().contains(m)
                    &&& final (self).spec_moves().to_multiset() == old(
                        self,
                    ).spec_moves().to_multiset()
                    &&& final (self).spec_index() == old(self).spec_index() + 1
                },
            },
    {
        if self.index == self.moves.len() {
            return None;
        }
        proof {
            old(self).spec_moves().to_multiset_ensures();
            assert forall|m: InternalMove| #[trigger] self.score_fn.requires((m,)) by {
                assert(self.spec_score_fn().requires((m,)));
            }
        }
        if self.index < self.n {
            let ghost pre = *self;
            let num_moves = self.moves.len();
            let mut max_i = self.index;
            let mut max_move_score = (self.score_fn)(self.moves[max_i]);

            let mut j = self.index + 1;
            while j < num_moves
                invariant
                    pre.wf(),
                    *self == pre,
                    forall|m: InternalMove| #[trigger] self.score_fn.requires((m,)),
                    num_moves == self.spec_moves().len(),
                    pre.spec_index() <= max_i as int,
                    max_i < num_moves,
                    pre.spec_index() < j as int,
                    j <= num_moves,
                decreases num_moves - j,
            {
                let score = (self.score_fn)(self.moves[j]);
                if score > max_move_score {
                    max_i = j;
                    max_move_score = score;
                }
                j += 1;
            }

            if max_i != self.index {
                let a = self.moves[self.index];
                let b = self.moves[max_i];
                let i0 = self.index;
                self.moves[i0] = b;
                self.moves[max_i] = a;
                proof {
                    let s1 = old(self).spec_moves();
                    let s2 = self.spec_moves();
                    assert(s2 =~= s1.update(i0 as int, s1[max_i as int]).update(
                        max_i as int,
                        s1[i0 as int],
                    ));
                    lemma_swap_multiset(s1, i0 as int, max_i as int);
                }
            }
        }

        let mov = self.moves[self.index];
        self.index = self.index + 1;
        proof {
            assert forall|m: InternalMove| #[trigger] self.spec_score_fn().requires((m,)) by {
                assert(self.spec_score_fn() == old(self).spec_score_fn());
            }
            self.spec_moves().to_multiset_ensures();
            assert(self.spec_moves().to_multiset().contains(mov));
            if self.spec_moves().to_multiset() == old(self).spec_moves().to_multiset() {
                assert(old(self).spec_moves().to_multiset().contains(mov));
            }
        }
        Some(mov)
    }
}

/// Swapping two entries keeps a sequence's multiset of elements.
proof fn lemma_swap_multiset(s: Seq<InternalMove>, i: int, j: int)
    requires
        0 <= i < s.len(),
        0 <= j < s.len(),
    ensures
        s.update(i, s[j]).update(j, s[i]).to_multiset() == s.to_multiset(),
{
    broadcast use vstd::multiset::group_multiset_axioms;

    let s2 = s.update(i, s[j]).update(j, s[i]);
    s.to_multiset_ensures();
    s2.to_multiset_ensures();
    vstd::seq_lib::lemma_multiset_commutative(s, s2);
    assert(s2.to_multiset() =~= s.to_multiset()) by {
        lemma_seq_update_multiset(s, i, s[j]);
        lemma_seq_update_multiset(s.update(i, s[j]), j, s[i]);
    }
}

/// Updating one entry removes its old value from and adds its new value
/// to the multiset.
proof fn lemma_seq_update_multiset(s: Seq<InternalMove>, i: int, v: InternalMove)
    requires
        0 <= i < s.len(),
    ensures
        s.update(i, v).to_multiset() == s.to_multiset().remove(s[i]).insert(v),
    decreases s.len(),
{
    broadcast use vstd::multiset::group_multiset_axioms;

    s.to_multiset_ensures();
    s.update(i, v).to_multiset_ensures();
    if s.len() > 0 {
        if i == 0 {
            assert(s.update(0, v) =~= s.subrange(1, s.len() as int).insert(0, v));
            assert(s =~= s.subrange(1, s.len() as int).insert(0, s[0]));
            lemma_insert_first_multiset(s.subrange(1, s.len() as int), v);
            lemma_insert_first_multiset(s.subrange(1, s.len() as int), s[0]);
            assert(s.to_multiset().remove(s[0]).insert(v) =~= s.subrange(
                1,
                s.len() as int,
            ).to_multiset().insert(v));
        } else {
            let tail = s.subrange(1, s.len() as int);
            tail.to_multiset_ensures();
            tail.update(i - 1, v).to_multiset_ensures();
            assert(tail.contains(tail[i - 1]));
            assert(tail.to_multiset().count(tail[i - 1]) > 0);
            lemma_seq_update_multiset(tail, i - 1, v);
            assert(s.update(i, v) =~= tail.update(i - 1, v).insert(0, s[0]));
            assert(s =~= tail.insert(0, s[0]));
            lemma_insert_first_multiset(tail, s[0]);
            lemma_insert_first_multiset(tail.update(i - 1, v), s[0]);
            assert(tail[i - 1] == s[i]);
            assert(s.update(i, v).to_multiset() =~= s.to_multiset().remove(s[i]).insert(v));
        }
    }
}

/// Prepending an element inserts it into the multiset.
proof fn lemma_insert_first_multiset(s: Seq<InternalMove>, v: InternalMove)
    ensures
        s.insert(0, v).to_multiset() == s.to_multiset().insert(v),
{
    broadcast use vstd::multiset::group_multiset_axioms;

    s.to_multiset_ensures();
    s.insert(0, v).to_multiset_ensures();
    assert(s.insert(0, v) =~= seq![v] + s);
    vstd::seq_lib::lemma_multiset_commutative(seq![v], s);
    assert(seq![v].to_multiset() =~= Multiset::empty().insert(v)) by {
        seq![v].to_multiset_ensures();
        assert(seq![v] =~= Seq::empty().push(v));
        Seq::<InternalMove>::empty().to_multiset_ensures();
    }
    assert(Multiset::empty().insert(v).add(s.to_multiset()) =~= s.to_multiset().insert(v));
}

} // verus!
