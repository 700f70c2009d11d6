//! The engine's internal game state: one bitboard per player, the side to
//! move and a ply counter, with `make`/`unmake`, move generation by
//! bitboard fixed-point iteration, and win detection.

use vstd::prelude::*;

use crate::bitboard::BitIndex;
use crate::bitboard::Bitboard;
use crate::bitboard::index_to_pos;
use crate::bitboard::lemma_pos_index_round_trip;
use crate::bitboard::pos_to_index;
use crate::bitboard::spec_index_to_pos;
use crate::bitboard::spec_pos_to_index;
use crate::bitboard::spec_valid_loc;
use crate::game::GameState;
use crate::game::Move;
use crate::game::Tile;
use crate::bitboard::invalid_cells;
use crate::bitboard::lemma_bits_card_strict;
use crate::bitboard::lemma_bits_finite;
use crate::bitboard::spec_target_cells;
use crate::bitboard::spec_valid_cell;
use crate::bitboard::target_cells;

verus! {

/// A half-move counter.
pub type Ply = u32;

/// Internal state: `pieces[p]` holds the cells occupied by player `p`.
#[derive(Clone, Copy, Debug)]
pub struct InternalGameState {
    pub pieces: [Bitboard; 2],
    pub ply: Ply,
    pub current_player: u8,
}

/// A move between two cell indices.
#[derive(Clone, Copy, PartialEq, Eq, Structural, Debug)]
pub struct InternalMove {
    pub from: BitIndex,
    pub to: BitIndex,
}

impl InternalMove {
    /// The move played backwards.
    pub fn inverse(&self) -> (r: Self)
        ensures
            r.from == self.to,
            r.to == self.from,
    {
        InternalMove { from: self.to, to: self.from }
    }

    /// The reverse move, at the specification level.
    pub open spec fn spec_inverse(self) -> InternalMove {
        InternalMove { from: self.to, to: self.from }
    }
}

impl InternalGameState {
    /// True when cell `i` is occupied by either player.
    pub open spec fn occ(self, i: int) -> bool {
        self.pieces[0].spec_bit(i) || self.pieces[1].spec_bit(i)
    }

    /// Structural invariant: a known side to move, disjoint piece sets,
    /// and no piece outside the 121 playing cells.
    pub open spec fn wf(self) -> bool {
        &&& self.current_player < 2
        &&& forall|i: int|
            0 <= i < 256 ==> !(#[trigger] self.pieces[0].spec_bit(i)
                && self.pieces[1].spec_bit(i))
        &&& forall|i: int| 0 <= i < 256 && #[trigger] self.occ(i) ==> spec_valid_cell(i)
    }

    /// True when `player` has won: every cell of the player's goal
    /// triangle is occupied, and at least one of those cells is occupied
    /// by the player's own piece.  The second clause keeps an opponent
    /// who parks a piece in the triangle from blocking the win for ever.
    pub open spec fn spec_won(self, player: int) -> bool {
        &&& forall|i: int|
            0 <= i < 256 && #[trigger] spec_target_cells(player).spec_bit(i) ==> self.occ(i)
        &&& exists|i: int|
            0 <= i < 256 && #[trigger] spec_target_cells(player).spec_bit(i)
                && self.pieces[player].spec_bit(i)
    }

    /// Decides the winning condition for `player`.
    pub fn won(&self, player: u8) -> (r: bool)
        requires
            player < 2,
        ensures
            r == self.spec_won(player as int),
    {
        let target = target_cells(player);
        let occupied = self.pieces[0].or(self.pieces[1]);
        let masked = occupied.and(target);
        let covered = masked == target;
        let own = !self.pieces[player as usize].and(target).is_empty();
        proof {
            let t = spec_target_cells(player as int);
            if covered {
                assert forall|i: int| 0 <= i < 256 && #[trigger] t.spec_bit(i) implies self.occ(
                    i,
                ) by {
                    assert(masked.spec_bit(i) == t.spec_bit(i));
                }
            } else {
                if forall|i: int| 0 <= i < 256 && #[trigger] t.spec_bit(i) ==> self.occ(i) {
                    assert forall|i: int| 0 <= i < 256 implies masked.spec_bit(i) == t.spec_bit(
                        i,
                    ) by {
                        if t.spec_bit(i) {
                            assert(self.occ(i));
                        }
                    }
                    Bitboard::lemma_bit_ext(masked, target);
                    assert(false);
                }
            }
        }
        covered && own
    }

    /// All empty playing cells.
    fn empty_bb(&self) -> (r: Bitboard)
        ensures
            forall|i: int|
                0 <= i < 256 ==> r.spec_bit(i) == (spec_valid_cell(i) && !self.occ(i)),
    {
        invalid_cells().complement().and(self.occupied_bb().complement())
    }

    /// All occupied cells.
    fn occupied_bb(&self) -> (r: Bitboard)
        ensures
            forall|i: int| 0 <= i < 256 ==> r.spec_bit(i) == self.occ(i),
    {
        self.pieces[0].or(self.pieces[1])
    }

    /// True when cell `i` is the landing of a jump out of `frontier`: in
    /// one of the six directions, the cell one step towards `frontier`
    /// is occupied and the cell behind it is in `frontier`.
    pub open spec fn spec_jump_landing(frontier: Bitboard, occupied: Bitboard, i: int) -> bool {
        ||| (i - 1 >= 0 && occupied.spec_bit(i - 1) && i - 2 >= 0 && frontier.spec_bit(i - 2))
        ||| (i - 13 >= 0 && occupied.spec_bit(i - 13) && i - 26 >= 0 && frontier.spec_bit(i - 26))
        ||| (i - 14 >= 0 && occupied.spec_bit(i - 14) && i - 28 >= 0 && frontier.spec_bit(i - 28))
        ||| (i + 1 < 256 && occupied.spec_bit(i + 1) && i + 2 < 256 && frontier.spec_bit(i + 2))
        ||| (i + 13 < 256 && occupied.spec_bit(i + 13) && i + 26 < 256 && frontier.spec_bit(
            i + 26,
        ))
        ||| (i + 14 < 256 && occupied.spec_bit(i + 14) && i + 28 < 256 && frontier.spec_bit(
            i + 28,
        ))
    }

    /// One round of jump moves: cells reached from `frontier` by hopping
    /// over an occupied neighbour, in each of the six directions.
    fn jump_step(frontier: Bitboard, occupied: Bitboard) -> (r: Bitboard)
        ensures
            forall|i: int|
                0 <= i < 256 ==> #[trigger] r.spec_bit(i) == Self::spec_jump_landing(
                    frontier,
                    occupied,
                    i,
                ),
    {
        let mut next = Bitboard::empty();
        // shifts towards higher indices: east, south-west, south-east
        next = next.or(occupied.shl(1).and(frontier.shl(2)));
        next = next.or(occupied.shl(13).and(frontier.shl(26)));
        next = next.or(occupied.shl(14).and(frontier.shl(28)));
        // shifts towards lower indices: west, north-east, north-west
        next = next.or(occupied.shr(1).and(frontier.shr(2)));
        next = next.or(occupied.shr(13).and(frontier.shr(26)));
        next = next.or(occupied.shr(14).and(frontier.shr(28)));
        next
    }

    /// The legal destinations of the piece on `from`: exactly the six
    /// single-cell slides into empty neighbours plus every cell at the
    /// end of a jump chain out of `from` whose every landing is an
    /// empty playing cell.  The result holds only empty playing cells
    /// and never `from` itself.
    pub fn reachable_from(&self, from: BitIndex) -> (r: Bitboard)
        requires
            self.wf(),
        ensures
            forall|j: int|
                0 <= j < 256 ==> #[trigger] r.spec_bit(j) == Self::spec_reachable(
                    *self,
                    from as int,
                    j,
                ),
            forall|j: int|
                0 <= j < 256 ==> (#[trigger] r.spec_bit(j) ==> spec_valid_cell(j) && !self.occ(
                    j,
                )),
            self.occ(from as int) ==> !r.spec_bit(from as int),
    {
        let ghost me = *self;
        let occupied = self.occupied_bb();
        let empty = self.empty_bb();

        let mut jumping_targets = Bitboard::empty();
        let seed = Bitboard::bit(from);
        let mut next_jumping_targets = seed.or(Self::jump_step(seed, occupied)).and(empty);
        let ghost first = next_jumping_targets;

        proof {
            lemma_bits_finite(jumping_targets);
            lemma_bits_finite(next_jumping_targets);
            assert forall|j: int|
                0 <= j < 256 && #[trigger] Self::spec_jump_edge(me, from as int, j)
                    && empty.spec_bit(j) implies first.spec_bit(j) by {
                Self::lemma_landing_is_edge(me, seed, occupied, j);
            }
            assert forall|j: int| 0 <= j < 256 && #[trigger] first.spec_bit(j) implies (exists|
                path: Seq<int>,
            |
                #[trigger] Self::spec_jump_path(me, path) && path[0] == from as int && path.last()
                    == j) by {
                if j == from as int {
                    let path = seq![from as int];
                    assert(Self::spec_jump_path(me, path) && path[0] == from as int
                        && path.last() == j);
                } else {
                    Self::lemma_landing_is_edge(me, seed, occupied, j);
                    let path = seq![from as int, j];
                    assert(Self::spec_jump_path(me, path) && path[0] == from as int
                        && path.last() == j);
                }
            }
        }
        while jumping_targets != next_jumping_targets
            invariant
                me == *self,
                me.wf(),
                forall|i: int| 0 <= i < 256 ==> #[trigger] occupied.spec_bit(i) == me.occ(i),
                forall|i: int|
                    0 <= i < 256 ==> #[trigger] empty.spec_bit(i) == (spec_valid_cell(i)
                        && !me.occ(i)),
                forall|j: int|
                    0 <= j < 256 ==> (#[trigger] jumping_targets.spec_bit(j)
                        ==> next_jumping_targets.spec_bit(j)),
                forall|j: int|
                    0 <= j < 256 ==> (#[trigger] next_jumping_targets.spec_bit(j)
                        ==> empty.spec_bit(j)),
                forall|j: int|
                    0 <= j < 256 ==> (#[trigger] first.spec_bit(j)
                        ==> next_jumping_targets.spec_bit(j)),
                forall|j: int|
                    0 <= j < 256 && #[trigger] Self::spec_jump_edge(me, from as int, j)
                        && empty.spec_bit(j) ==> first.spec_bit(j),
                empty.spec_bit(from as int) ==> first.spec_bit(from as int),
                forall|i: int, j: int|
                    0 <= i < 256 && 0 <= j < 256 && jumping_targets.spec_bit(i)
                        && #[trigger] Self::spec_jump_edge(me, i, j) && empty.spec_bit(j)
                        ==> next_jumping_targets.spec_bit(j),
                forall|j: int|
                    0 <= j < 256 && #[trigger] next_jumping_targets.spec_bit(j) ==> (exists|
                        path: Seq<int>,
                    |
                        #[trigger] Self::spec_jump_path(me, path) && path[0] == from as int
                            && path.last() == j),
            decreases 256 - jumping_targets.bits().len(),
        {
            proof {
                lemma_bits_card_strict(jumping_targets, next_jumping_targets);
                lemma_bits_finite(next_jumping_targets);
            }
            jumping_targets = next_jumping_targets;
            next_jumping_targets = jumping_targets.or(
                Self::jump_step(jumping_targets, occupied),
            ).and(empty);
            proof {
                assert forall|i: int, j: int|
                    0 <= i < 256 && 0 <= j < 256 && jumping_targets.spec_bit(i)
                        && #[trigger] Self::spec_jump_edge(me, i, j) && empty.spec_bit(
                    j,
                ) implies next_jumping_targets.spec_bit(j) by {
                    Self::lemma_landing_is_edge(me, jumping_targets, occupied, j);
                }
                assert forall|j: int|
                    0 <= j < 256 && #[trigger] next_jumping_targets.spec_bit(j) implies (exists|
                        path: Seq<int>,
                    |
                        #[trigger] Self::spec_jump_path(me, path) && path[0] == from as int
                            && path.last() == j) by {
                    if jumping_targets.spec_bit(j) {
                    } else {
                        Self::lemma_landing_is_edge(me, jumping_targets, occupied, j);
                        let i = choose|i: int|
                            0 <= i < 256 && #[trigger] jumping_targets.spec_bit(i)
                                && Self::spec_jump_edge(me, i, j);
                        let path = choose|path: Seq<int>|
                            #[trigger] Self::spec_jump_path(me, path) && path[0] == from as int
                                && path.last() == i;
                        let longer = path.push(j);
                        assert(Self::spec_jump_path(me, longer) && longer[0] == from as int
                            && longer.last() == j) by {
                            assert(longer[longer.len() - 1] == j);
                            assert(longer[longer.len() - 2] == path.last());
                            assert forall|k: int|
                                0 <= k < longer.len() implies 0 <= #[trigger] longer[k]
                                < 256 by {
                                if k < path.len() {
                                    assert(longer[k] == path[k]);
                                }
                            }
                            assert forall|k: int|
                                1 <= k < longer.len() implies Self::spec_jump_edge(
                                me,
                                longer[k - 1],
                                #[trigger] longer[k],
                            ) by {
                                if k < path.len() {
                                    assert(longer[k] == path[k] && longer[k - 1] == path[k - 1]);
                                } else {
                                    assert(longer[k] == j && longer[k - 1] == path.last());
                                }
                            }
                            assert forall|k: int|
                                1 <= k < longer.len() implies spec_valid_cell(#[trigger] longer[k])
                                && !me.occ(longer[k]) by {
                                if k < path.len() {
                                    assert(longer[k] == path[k]);
                                }
                            }
                        }
                    }
                }
            }
        }

        let with_slides = jumping_targets.or(slide_neighbours(from));
        let r = with_slides.and(empty);
        proof {
            assert forall|j: int|
                0 <= j < 256 implies (#[trigger] r.spec_bit(j) == (spec_valid_cell(j)
                && !me.occ(j) && (Self::spec_slide_pair(from as int, j) || (exists|
                path: Seq<int>,
            |
                #[trigger] Self::spec_jump_path(me, path) && path[0] == from as int
                    && path.last() == j)))) by {
                if r.spec_bit(j) {
                    if jumping_targets.spec_bit(j) {
                        assert(next_jumping_targets.spec_bit(j));
                    }
                } else {
                    if spec_valid_cell(j) && !me.occ(j) {
                        if Self::spec_slide_pair(from as int, j) {
                            assert(r.spec_bit(j));
                        } else if exists|path: Seq<int>|
                            #[trigger] Self::spec_jump_path(me, path) && path[0] == from as int
                                && path.last() == j {
                            let path = choose|path: Seq<int>|
                                #[trigger] Self::spec_jump_path(me, path) && path[0]
                                    == from as int && path.last() == j;
                            if path.len() == 1 {
                                assert(j == from as int);
                                assert(first.spec_bit(j));
                            } else {
                                Self::lemma_path_in_fixpoint(
                                    me,
                                    jumping_targets,
                                    first,
                                    from as int,
                                    path,
                                );
                            }
                            assert(r.spec_bit(j));
                        }
                    }
                }
            }
        }
        r
    }

    /// True when a piece may jump from cell `i` to cell `j` of `s`:
    /// `j` lies two steps away in one of the six directions and the cell
    /// between them is occupied.
    pub open spec fn spec_jump_edge(s: InternalGameState, i: int, j: int) -> bool {
        ||| (j == i + 2 && 0 <= i + 1 < 256 && s.occ(i + 1))
        ||| (j == i - 2 && 0 <= i - 1 < 256 && s.occ(i - 1))
        ||| (j == i + 26 && 0 <= i + 13 < 256 && s.occ(i + 13))
        ||| (j == i - 26 && 0 <= i - 13 < 256 && s.occ(i - 13))
        ||| (j == i + 28 && 0 <= i + 14 < 256 && s.occ(i + 14))
        ||| (j == i - 28 && 0 <= i - 14 < 256 && s.occ(i - 14))
    }

    /// True when `path` is a jump chain in `s`: consecutive cells are
    /// joined by jump edges and every landing after the start is an
    /// empty playing cell.
    pub open spec fn spec_jump_path(s: InternalGameState, path: Seq<int>) -> bool {
        &&& path.len() >= 1
        &&& forall|k: int| 0 <= k < path.len() ==> 0 <= #[trigger] path[k] < 256
        &&& forall|k: int|
            1 <= k < path.len() ==> Self::spec_jump_edge(s, path[k - 1], #[trigger] path[k])
        &&& forall|k: int|
            1 <= k < path.len() ==> spec_valid_cell(#[trigger] path[k]) && !s.occ(path[k])
    }

    /// A fixed point of the jump step that holds the first frontier
    /// swallows the end of every jump chain out of `from`.
    proof fn lemma_path_in_fixpoint(
        s: InternalGameState,
        jt: Bitboard,
        first: Bitboard,
        from: int,
        path: Seq<int>,
    )
        requires
            0 <= from < 256,
            Self::spec_jump_path(s, path),
            path[0] == from,
            path.len() >= 2,
            forall|j: int|
                0 <= j < 256 && #[trigger] Self::spec_jump_edge(s, from, j) && spec_valid_cell(j)
                    && !s.occ(j) ==> first.spec_bit(j),
            forall|j: int| 0 <= j < 256 && #[trigger] first.spec_bit(j) ==> jt.spec_bit(j),
            forall|i: int, j: int|
                0 <= i < 256 && 0 <= j < 256 && jt.spec_bit(i) && #[trigger] Self::spec_jump_edge(
                    s,
                    i,
                    j,
                ) && spec_valid_cell(j) && !s.occ(j) ==> jt.spec_bit(j),
        ensures
            jt.spec_bit(path.last()),
        decreases path.len(),
    {
        let n = path.len() as int;
        if n == 2 {
            assert(Self::spec_jump_edge(s, from, path[1]));
            assert(first.spec_bit(path[1]));
        } else {
            let shorter = path.drop_last();
            assert(Self::spec_jump_path(s, shorter)) by {
                assert forall|k: int| 0 <= k < shorter.len() implies 0 <= #[trigger] shorter[k]
                    < 256 by {
                    assert(shorter[k] == path[k]);
                }
                assert forall|k: int| 1 <= k < shorter.len() implies Self::spec_jump_edge(
                    s,
                    shorter[k - 1],
                    #[trigger] shorter[k],
                ) by {
                    assert(shorter[k] == path[k] && shorter[k - 1] == path[k - 1]);
                }
                assert forall|k: int| 1 <= k < shorter.len() implies spec_valid_cell(
                    #[trigger] shorter[k],
                ) && !s.occ(shorter[k]) by {
                    assert(shorter[k] == path[k]);
                }
            }
            Self::lemma_path_in_fixpoint(s, jt, first, from, shorter);
            assert(jt.spec_bit(path[n - 2]));
            assert(Self::spec_jump_edge(s, path[n - 2], path[n - 1]));
        }
    }

    /// A landing of the frontier is a jump edge out of some frontier
    /// cell, and the other way round.
    proof fn lemma_landing_is_edge(
        s: InternalGameState,
        frontier: Bitboard,
        occb: Bitboard,
        j: int,
    )
        requires
            forall|i: int| 0 <= i < 256 ==> #[trigger] occb.spec_bit(i) == s.occ(i),
            0 <= j < 256,
        ensures
            Self::spec_jump_landing(frontier, occb, j) == (exists|i: int|
                0 <= i < 256 && #[trigger] frontier.spec_bit(i) && Self::spec_jump_edge(s, i, j)),
    {
        if Self::spec_jump_landing(frontier, occb, j) {
            if j - 1 >= 0 && occb.spec_bit(j - 1) && j - 2 >= 0 && frontier.spec_bit(j - 2) {
                assert(frontier.spec_bit(j - 2) && Self::spec_jump_edge(s, j - 2, j));
            } else if j - 13 >= 0 && occb.spec_bit(j - 13) && j - 26 >= 0 && frontier.spec_bit(
                j - 26,
            ) {
                assert(frontier.spec_bit(j - 26) && Self::spec_jump_edge(s, j - 26, j));
            } else if j - 14 >= 0 && occb.spec_bit(j - 14) && j - 28 >= 0 && frontier.spec_bit(
                j - 28,
            ) {
                assert(frontier.spec_bit(j - 28) && Self::spec_jump_edge(s, j - 28, j));
            } else if j + 1 < 256 && occb.spec_bit(j + 1) && j + 2 < 256 && frontier.spec_bit(
                j + 2,
            ) {
                assert(frontier.spec_bit(j + 2) && Self::spec_jump_edge(s, j + 2, j));
            } else if j + 13 < 256 && occb.spec_bit(j + 13) && j + 26 < 256 && frontier.spec_bit(
                j + 26,
            ) {
                assert(frontier.spec_bit(j + 26) && Self::spec_jump_edge(s, j + 26, j));
            } else {
                assert(frontier.spec_bit(j + 28) && Self::spec_jump_edge(s, j + 28, j));
            }
        }
        if exists|i: int|
            0 <= i < 256 && #[trigger] frontier.spec_bit(i) && Self::spec_jump_edge(s, i, j) {
            let i = choose|i: int|
                0 <= i < 256 && #[trigger] frontier.spec_bit(i) && Self::spec_jump_edge(s, i, j);
            assert(Self::spec_jump_landing(frontier, occb, j));
        }
    }

    /// True when the piece on `from` may move to `t` in `s`: `t` is an
    /// empty playing cell that is a slide neighbour of `from` or the end
    /// of a jump chain out of `from`.
    pub open spec fn spec_reachable(s: InternalGameState, from: int, t: int) -> bool {
        &&& spec_valid_cell(t)
        &&& !s.occ(t)
        &&& (Self::spec_slide_pair(from, t) || (exists|path: Seq<int>|
            #[trigger] Self::spec_jump_path(s, path) && path[0] == from && path.last() == t))
    }

    /// True when some move in `s` goes from cell `f` to cell `t`.
    pub open spec fn spec_has_move(s: Seq<InternalMove>, f: int, t: int) -> bool {
        exists|k: int| 0 <= k < s.len() && (#[trigger] s[k]).from == f && s[k].to == t
    }

    /// True when `t` is one of the six slide neighbours of `f` in the
    /// index layout, wrap-around included.
    pub open spec fn spec_slide_pair(f: int, t: int) -> bool {
        ||| t == (f + 1) % 256
        ||| t == (f + 255) % 256
        ||| t == (f + 13) % 256
        ||| t == (f + 243) % 256
        ||| t == (f + 14) % 256
        ||| t == (f + 242) % 256
    }

    /// True when `m` may be played in `s`: both endpoints are playing
    /// cells, `m.from` holds a piece of the side to move, `m.to` is empty,
    /// and the piece actually moves.
    pub open spec fn spec_move_ok(s: InternalGameState, m: InternalMove) -> bool {
        &&& spec_valid_cell(m.from as int)
        &&& spec_valid_cell(m.to as int)
        &&& s.pieces[s.current_player as int].spec_bit(m.from as int)
        &&& !s.occ(m.to as int)
        &&& m.from != m.to
    }

    /// Every move of the side to move: exactly one move for each own
    /// piece and each of its reachable destinations.
    pub fn possible_moves(&self) -> (r: Vec<InternalMove>)
        requires
            self.wf(),
        ensures
            forall|k: int|
                0 <= k < r@.len() ==> Self::spec_move_ok(*self, #[trigger] r@[k])
                    && Self::spec_reachable(*self, r@[k].from as int, r@[k].to as int),
            forall|f: int, t: int|
                0 <= f < 256 && 0 <= t < 256 && self.pieces[self.current_player as int].spec_bit(
                    f,
                ) && #[trigger] Self::spec_reachable(*self, f, t) ==> Self::spec_has_move(
                    r@,
                    f,
                    t,
                ),
            forall|k1: int, k2: int|
                0 <= k1 < k2 < r@.len() ==> #[trigger] r@[k1] != #[trigger] r@[k2],
    {
        let board = self.pieces[self.current_player as usize];
        let mut result: Vec<InternalMove> = Vec::with_capacity(256);

        let mut it = board.ones();
        proof {
            lemma_bits_finite(it.spec_remaining());
        }
        loop
            invariant
                self.wf(),
                board == self.pieces[self.current_player as int],
                it.spec_remaining().bits().finite(),
                forall|j: int|
                    0 <= j < 256 ==> (#[trigger] it.spec_remaining().spec_bit(j)
                        ==> board.spec_bit(j)),
                forall|k: int|
                    0 <= k < result@.len() ==> Self::spec_move_ok(*self, #[trigger] result@[k])
                        && Self::spec_reachable(
                        *self,
                        result@[k].from as int,
                        result@[k].to as int,
                    ),
                forall|k: int|
                    0 <= k < result@.len() ==> !it.spec_remaining().spec_bit(
                        (#[trigger] result@[k]).from as int,
                    ),
                forall|k1: int, k2: int|
                    0 <= k1 < k2 < result@.len() ==> #[trigger] result@[k1]
                        != #[trigger] result@[k2],
                forall|f: int, t: int|
                    0 <= f < 256 && 0 <= t < 256 && board.spec_bit(f)
                        && !it.spec_remaining().spec_bit(f) && #[trigger] Self::spec_reachable(
                        *self,
                        f,
                        t,
                    ) ==> Self::spec_has_move(result@, f, t),
            ensures
                forall|k: int|
                    0 <= k < result@.len() ==> Self::spec_move_ok(*self, #[trigger] result@[k])
                        && Self::spec_reachable(
                        *self,
                        result@[k].from as int,
                        result@[k].to as int,
                    ),
                forall|f: int, t: int|
                    0 <= f < 256 && 0 <= t < 256 && board.spec_bit(f)
                        && #[trigger] Self::spec_reachable(*self, f, t)
                        ==> Self::spec_has_move(result@, f, t),
                forall|k1: int, k2: int|
                    0 <= k1 < k2 < result@.len() ==> #[trigger] result@[k1]
                        != #[trigger] result@[k2],
            decreases it.spec_remaining().bits().len(),
        {
            let ghost prev = it.spec_remaining();
            let from = match it.next() {
                None => { break ; },
                Some(from) => from,
            };
            proof {
                assert(it.spec_remaining().bits() =~= prev.bits().remove(from as int));
                lemma_bits_finite(it.spec_remaining());
            }
            let ghost before = result@;
            self.append_moves_from(from, &mut result);
            proof {
                assert forall|k: int|
                    0 <= k < result@.len() implies Self::spec_move_ok(
                    *self,
                    #[trigger] result@[k],
                ) && Self::spec_reachable(
                    *self,
                    result@[k].from as int,
                    result@[k].to as int,
                ) by {
                    if k < before.len() {
                        assert(result@[k] == before[k]);
                    }
                }
                assert forall|k: int|
                    0 <= k < result@.len() implies !it.spec_remaining().spec_bit(
                    (#[trigger] result@[k]).from as int,
                ) by {
                    if k < before.len() {
                        assert(result@[k] == before[k]);
                        assert(!prev.spec_bit(before[k].from as int));
                    } else {
                        assert(result@[k].from == from);
                    }
                }
                assert forall|k1: int, k2: int|
                    0 <= k1 < k2 < result@.len() implies #[trigger] result@[k1]
                    != #[trigger] result@[k2] by {
                    if k2 < before.len() {
                        assert(result@[k1] == before[k1] && result@[k2] == before[k2]);
                    } else if k1 < before.len() {
                        assert(result@[k1] == before[k1]);
                        assert(!prev.spec_bit(before[k1].from as int));
                        assert(prev.spec_bit(from as int));
                        assert(result@[k2].from == from);
                    } else {
                        assert(result@[k1].to != result@[k2].to);
                    }
                }
                assert forall|f: int, t: int|
                    0 <= f < 256 && 0 <= t < 256 && board.spec_bit(f)
                        && !it.spec_remaining().spec_bit(f) && #[trigger] Self::spec_reachable(
                    *self,
                    f,
                    t,
                ) implies Self::spec_has_move(result@, f, t) by {
                    if f != from as int {
                        if Self::spec_has_move(before, f, t) {
                            let k = choose|k: int|
                                0 <= k < before.len() && (#[trigger] before[k]).from == f
                                    && before[k].to == t;
                            assert(result@[k] == before[k]);
                        }
                    }
                }
            }
        }
        result
    }

    /// Appends one move per destination reachable from `from`, which must
    /// hold a piece of the side to move.
    fn append_moves_from(&self, from: BitIndex, result: &mut Vec<InternalMove>)
        requires
            self.wf(),
            self.pieces[self.current_player as int].spec_bit(from as int),
            forall|k: int|
                0 <= k < old(result)@.len() ==> Self::spec_move_ok(*self, #[trigger] old(
                    result,
                )@[k]),
        ensures
            final (result)@.len() >= old(result)@.len(),
            forall|k: int| 0 <= k < old(result)@.len() ==> final (result)@[k] == #[trigger] old(
                result,
            )@[k],
            forall|k: int|
                0 <= k < final (result)@.len() ==> Self::spec_move_ok(
                    *self,
                    #[trigger] final (result)@[k],
                ),
            forall|k: int|
                old(result)@.len() <= k < final (result)@.len() ==> (#[trigger] final (result)@[k]).from == from && Self::spec_reachable(
                    *self,
                    from as int,
                    final (result)@[k].to as int,
                ),
            forall|k1: int, k2: int|
                old(result)@.len() <= k1 < k2 < final (result)@.len() ==> (#[trigger] final (result)@[k1]).to != (#[trigger] final (result)@[k2]).to,
            forall|t: int|
                0 <= t < 256 && #[trigger] Self::spec_reachable(*self, from as int, t)
                    ==> Self::spec_has_move(final (result)@, from as int, t),
    {
        let reachable = self.reachable_from(from);
        let mut it = reachable.ones();
        proof {
            lemma_bits_finite(it.spec_remaining());
        }
        loop
            invariant
                self.wf(),
                self.pieces[self.current_player as int].spec_bit(from as int),
                it.spec_remaining().bits().finite(),
                forall|j: int|
                    0 <= j < 256 ==> (#[trigger] it.spec_remaining().spec_bit(j)
                        ==> reachable.spec_bit(j)),
                forall|j: int|
                    0 <= j < 256 ==> (#[trigger] reachable.spec_bit(j) ==> spec_valid_cell(j)
                        && !self.occ(j)),
                forall|k: int|
                    0 <= k < result@.len() ==> Self::spec_move_ok(*self, #[trigger] result@[k]),
                forall|j: int|
                    0 <= j < 256 && #[trigger] reachable.spec_bit(j)
                        && !it.spec_remaining().spec_bit(j) ==> Self::spec_has_move(
                        result@,
                        from as int,
                        j,
                    ),
                result@.len() >= old(result)@.len(),
                forall|k: int|
                    0 <= k < old(result)@.len() ==> result@[k] == #[trigger] old(result)@[k],
                forall|k: int|
                    old(result)@.len() <= k < result@.len() ==> (#[trigger] result@[k]).from
                        == from && reachable.spec_bit(result@[k].to as int)
                        && !it.spec_remaining().spec_bit(result@[k].to as int),
                forall|k1: int, k2: int|
                    old(result)@.len() <= k1 < k2 < result@.len() ==> (#[trigger] result@[k1]).to
                        != (#[trigger] result@[k2]).to,
            ensures
                forall|k: int|
                    0 <= k < result@.len() ==> Self::spec_move_ok(*self, #[trigger] result@[k]),
                forall|j: int|
                    0 <= j < 256 && #[trigger] reachable.spec_bit(j) ==> Self::spec_has_move(
                        result@,
                        from as int,
                        j,
                    ),
                result@.len() >= old(result)@.len(),
                forall|k: int|
                    0 <= k < old(result)@.len() ==> result@[k] == #[trigger] old(result)@[k],
                forall|k: int|
                    old(result)@.len() <= k < result@.len() ==> (#[trigger] result@[k]).from
                        == from && reachable.spec_bit(result@[k].to as int),
                forall|k1: int, k2: int|
                    old(result)@.len() <= k1 < k2 < result@.len() ==> (#[trigger] result@[k1]).to
                        != (#[trigger] result@[k2]).to,
            decreases it.spec_remaining().bits().len(),
        {
            let ghost prev = it.spec_remaining();
            let to = match it.next() {
                None => { break ; },
                Some(to) => to,
            };
            proof {
                assert(it.spec_remaining().bits() =~= prev.bits().remove(to as int));
                lemma_bits_finite(it.spec_remaining());
                assert(self.occ(from as int));
            }
            let ghost before = result@;
            result.push(InternalMove { from, to });
            proof {
                assert(result@[before.len() as int] == (InternalMove { from, to }));
                assert forall|j: int|
                    0 <= j < 256 && #[trigger] reachable.spec_bit(j)
                        && !it.spec_remaining().spec_bit(j) implies Self::spec_has_move(
                    result@,
                    from as int,
                    j,
                ) by {
                    if j == to as int {
                        assert(result@[before.len() as int].from == from as int);
                    } else {
                        assert(prev.spec_bit(j) == it.spec_remaining().spec_bit(j));
                        let k = choose|k: int|
                            0 <= k < before.len() && (#[trigger] before[k]).from == from as int
                                && before[k].to == j;
                        assert(result@[k] == before[k]);
                    }
                }
            }
        }
        proof {
            assert forall|t: int|
                0 <= t < 256 && #[trigger] Self::spec_reachable(*self, from as int, t) implies Self::spec_has_move(
                result@,
                from as int,
                t,
            ) by {
                assert(reachable.spec_bit(t));
            }
        }
    }

    /// The state after playing `m`: the mover's piece leaves `m.from`,
    /// lands on `m.to`, the turn passes to the other player and the ply
    /// counter advances (wrapping at the counter's width).
    pub open spec fn spec_make(s: InternalGameState, m: InternalMove) -> InternalGameState {
        let moved = s.pieces[s.current_player as int].spec_set(m.to as int).spec_unset(
            m.from as int,
        );
        InternalGameState {
            pieces: if s.current_player == 0 {
                [moved, s.pieces[1]]
            } else {
                [s.pieces[0], moved]
            },
            ply: (if s.ply == u32::MAX {
                0
            } else {
                (s.ply + 1) as u32
            }),
            current_player: if s.current_player == 0 {
                1
            } else {
                0
            },
        }
    }

    /// The state before `m` was played: the exact inverse of `spec_make`.
    pub open spec fn spec_unmake(s: InternalGameState, m: InternalMove) -> InternalGameState {
        let mover: int = if s.current_player == 0 {
            1
        } else {
            0
        };
        let moved = s.pieces[mover].spec_set(m.from as int).spec_unset(m.to as int);
        InternalGameState {
            pieces: if mover == 0 {
                [moved, s.pieces[1]]
            } else {
                [s.pieces[0], moved]
            },
            ply: (if s.ply == 0 {
                u32::MAX
            } else {
                (s.ply - 1) as u32
            }),
            current_player: mover as u8,
        }
    }

    /// Plays `m` for the side to move.
    pub fn make_move(&mut self, mov: InternalMove)
        requires
            old(self).wf(),
            Self::spec_move_ok(*old(self), mov),
        ensures
            *final (self) == Self::spec_make(*old(self), mov),
            final (self).wf(),
    {
        let p = self.current_player as usize;
        let mut board = self.pieces[p];
        board.set_bit(mov.to);
        board.unset_bit(mov.from);
        self.pieces[p] = board;
        self.current_player = 1 - self.current_player;
        self.ply = if self.ply == u32::MAX {
            0
        } else {
            self.ply + 1
        };
        proof {
            broadcast use vstd::array::group_array_axioms;

            let s = *old(self);
            assert(self.pieces =~= Self::spec_make(s, mov).pieces);
            s.pieces[s.current_player as int].lemma_spec_set(mov.to as int);
            s.pieces[s.current_player as int].spec_set(mov.to as int).lemma_spec_unset(
                mov.from as int,
            );
            assert forall|i: int| 0 <= i < 256 && #[trigger] self.occ(i) implies spec_valid_cell(
                i,
            ) by {
                assert(self.occ(i) ==> (s.occ(i) || i == mov.to as int));
            }
        }
    }

    /// Takes back `m`, restoring the state before `make_move(m)`.
    pub fn unmake_move(&mut self, mov: InternalMove)
        requires
            old(self).wf(),
            old(self).current_player < 2,
        ensures
            *final (self) == Self::spec_unmake(*old(self), mov),
    {
        self.current_player = 1 - self.current_player;
        let p = self.current_player as usize;
        let mut board = self.pieces[p];
        board.set_bit(mov.from);
        board.unset_bit(mov.to);
        self.pieces[p] = board;
        self.ply = if self.ply == 0 {
            u32::MAX
        } else {
            self.ply - 1
        };
        proof {
            broadcast use vstd::array::group_array_axioms;

            assert(self.pieces =~= Self::spec_unmake(*old(self), mov).pieces);
        }
    }
}

/// The six slide neighbours of a cell, at the fixed index offsets with
/// wrap-around; the invalid mask keeps a wrapped index from ever
/// becoming a destination.
fn slide_neighbours(from: BitIndex) -> (r: Bitboard)
    ensures
        forall|j: int|
            0 <= j < 256 ==> #[trigger] r.spec_bit(j) == (j == (from as int + 1) % 256 || j == (
            from as int + 255) % 256 || j == (from as int + 13) % 256 || j == (from as int + 243)
                % 256 || j == (from as int + 14) % 256 || j == (from as int + 242) % 256),
{
    let mut r = Bitboard::empty();
    r.set_bit(from.wrapping_add(1));
    r.set_bit(from.wrapping_add(255));
    r.set_bit(from.wrapping_add(13));
    r.set_bit(from.wrapping_add(243));
    r.set_bit(from.wrapping_add(14));
    r.set_bit(from.wrapping_add(242));
    r
}

/// Distinct grid coordinates give distinct cell indices.
proof fn lemma_pos_to_index_injective(a: int, b: int, x: int, y: int)
    requires
        0 <= a < 13,
        0 <= b < 17,
        0 <= x < 13,
        0 <= y < 17,
        a != x || b != y,
    ensures
        spec_pos_to_index(a, b) != spec_pos_to_index(x, y),
{
    lemma_pos_index_round_trip(a, b);
    lemma_pos_index_round_trip(x, y);
}

impl InternalMove {
    /// The move in grid coordinates.
    pub fn to_move(&self) -> (r: Move)
        ensures
            r.from.0 as int == spec_index_to_pos(self.from as int).0,
            r.from.1 as int == spec_index_to_pos(self.from as int).1,
            r.to.0 as int == spec_index_to_pos(self.to as int).0,
            r.to.1 as int == spec_index_to_pos(self.to as int).1,
    {
        Move { from: index_to_pos(self.from), to: index_to_pos(self.to) }
    }

    /// The move with its endpoints converted from grid coordinates to
    /// cell indices.
    pub fn from_move(mov: Move) -> (r: InternalMove)
        requires
            0 <= mov.from.0 < 13,
            0 <= mov.from.1 < 17,
            0 <= mov.to.0 < 13,
            0 <= mov.to.1 < 17,
        ensures
            r.from as int == spec_pos_to_index(mov.from.0 as int, mov.from.1 as int),
            r.to as int == spec_pos_to_index(mov.to.0 as int, mov.to.1 as int),
    {
        let from = pos_to_index(mov.from.0 as u8, mov.from.1 as u8);
        let to = pos_to_index(mov.to.0 as u8, mov.to.1 as u8);
        InternalMove { from, to }
    }
}

impl InternalGameState {
    /// Fills the two bitboards from the external grid.
    #[verifier::rlimit(50)]
    #[verifier::spinoff_prover]
    pub fn from_game_state(state: &GameState) -> (r: InternalGameState)
        requires
            state.wf(),
            state.spec_ply() <= u32::MAX,
        ensures
            r.wf(),
            r.current_player == state.spec_player(),
            r.ply as int == state.spec_ply(),
            forall|x: int, y: int|
                #![trigger spec_pos_to_index(x, y)]
                0 <= x < 13 && 0 <= y < 17 ==> (r.pieces[0].spec_bit(spec_pos_to_index(x, y)) == (
                state.spec_tile(x, y) == Tile::Player(0)) && r.pieces[1].spec_bit(
                    spec_pos_to_index(x, y),
                ) == (state.spec_tile(x, y) == Tile::Player(1))),
    {
        let mut p0 = Bitboard::empty();
        let mut p1 = Bitboard::empty();

        let mut x: i8 = 0;
        while x < 13
            invariant
                state.wf(),
                0 <= x <= 13,
                forall|a: int, b: int|
                    #![trigger spec_pos_to_index(a, b)]
                    0 <= a < 13 && 0 <= b < 17 && (a < x) ==> (p0.spec_bit(spec_pos_to_index(a, b))
                        == (state.spec_tile(a, b) == Tile::Player(0)) && p1.spec_bit(
                        spec_pos_to_index(a, b),
                    ) == (state.spec_tile(a, b) == Tile::Player(1))),
                forall|i: int|
                    0 <= i < 256 && #[trigger] p0.spec_bit(i) ==> spec_valid_cell(i) && (
                    exists|a: int, b: int|
                        0 <= a < x && 0 <= b < 17 && i == spec_pos_to_index(a, b)
                            && state.spec_tile(a, b) == Tile::Player(0)),
                forall|i: int|
                    0 <= i < 256 && #[trigger] p1.spec_bit(i) ==> spec_valid_cell(i) && (
                    exists|a: int, b: int|
                        0 <= a < x && 0 <= b < 17 && i == spec_pos_to_index(a, b)
                            && state.spec_tile(a, b) == Tile::Player(1)),
            decreases 13 - x,
        {
            let mut y: i8 = 0;
            while y < 17
                invariant
                    state.wf(),
                    0 <= x < 13,
                    0 <= y <= 17,
                    forall|a: int, b: int|
                        #![trigger spec_pos_to_index(a, b)]
                        0 <= a < 13 && 0 <= b < 17 && (a < x || (a == x && b < y)) ==> (
                        p0.spec_bit(spec_pos_to_index(a, b)) == (state.spec_tile(a, b)
                            == Tile::Player(0)) && p1.spec_bit(spec_pos_to_index(a, b)) == (
                        state.spec_tile(a, b) == Tile::Player(1))),
                    forall|i: int|
                        0 <= i < 256 && #[trigger] p0.spec_bit(i) ==> spec_valid_cell(i) && (
                        exists|a: int, b: int|
                            0 <= a < 13 && 0 <= b < 17 && (a < x || (a == x && b < y)) && i
                                == spec_pos_to_index(a, b) && state.spec_tile(a, b) == Tile::Player(
                                0,
                            )),
                    forall|i: int|
                        0 <= i < 256 && #[trigger] p1.spec_bit(i) ==> spec_valid_cell(i) && (
                        exists|a: int, b: int|
                            0 <= a < 13 && 0 <= b < 17 && (a < x || (a == x && b < y)) && i
                                == spec_pos_to_index(a, b) && state.spec_tile(a, b) == Tile::Player(
                                1,
                            )),
                decreases 17 - y,
            {
                let tile = state.get(x, y);
                let is_p0 = tile == Tile::Player(0);
                let is_p1 = tile == Tile::Player(1);
                let ghost prev_p0 = p0;
                let ghost prev_p1 = p1;
                proof {
                    lemma_pos_index_round_trip(x as int, y as int);
                    if is_p0 || is_p1 {
                        if !spec_valid_loc(x as int, y as int) {
                            assert(state.spec_tile(x as int, y as int) == Tile::Invalid);
                        }
                        crate::bitboard::lemma_valid_cell_at(x as int, y as int);
                    }
                }
                let idx = pos_to_index(x as u8, y as u8);
                if is_p0 {
                    p0.set_bit(idx);
                } else if is_p1 {
                    p1.set_bit(idx);
                }
                y += 1;
                proof {
                    lemma_fill_step(
                        state,
                        prev_p0,
                        prev_p1,
                        p0,
                        p1,
                        x as int,
                        y as int - 1,
                        is_p0,
                        is_p1,
                    );
                }
            }
            x += 1;
        }

        let r = InternalGameState {
            pieces: [p0, p1],
            ply: state.ply() as u32,
            current_player: state.current_player(),
        };
        proof {
            assert forall|i: int|
                0 <= i < 256 implies !(#[trigger] r.pieces[0].spec_bit(i) && r.pieces[1].spec_bit(
                i,
            )) by {
                if r.pieces[0].spec_bit(i) && r.pieces[1].spec_bit(i) {
                    let (a0, b0) = choose|a: int, b: int|
                        0 <= a < 13 && 0 <= b < 17 && i == spec_pos_to_index(a, b)
                            && state.spec_tile(a, b) == Tile::Player(0);
                    let (a1, b1) = choose|a: int, b: int|
                        0 <= a < 13 && 0 <= b < 17 && i == spec_pos_to_index(a, b)
                            && state.spec_tile(a, b) == Tile::Player(1);
                    if a0 != a1 || b0 != b1 {
                        lemma_pos_to_index_injective(a0, b0, a1, b1);
                    }
                }
            }
        }
        r
    }
}


/// One step of the grid scan: marking the cell `(x, y)` in the proper
/// bitboard extends the processed region by that cell.
#[verifier::rlimit(100)]
#[verifier::spinoff_prover]
proof fn lemma_fill_step(
    state: &GameState,
    prev_p0: Bitboard,
    prev_p1: Bitboard,
    p0: Bitboard,
    p1: Bitboard,
    xi: int,
    yi: int,
    is_p0: bool,
    is_p1: bool,
)
    requires
        state.wf(),
        0 <= xi < 13,
        0 <= yi < 17,
        is_p0 == (state.spec_tile(xi, yi) == Tile::Player(0)),
        is_p1 == (state.spec_tile(xi, yi) == Tile::Player(1)),
        !(is_p0 && is_p1),
        p0 == (if is_p0 {
            prev_p0.spec_set(spec_pos_to_index(xi, yi))
        } else {
            prev_p0
        }),
        p1 == (if is_p1 {
            prev_p1.spec_set(spec_pos_to_index(xi, yi))
        } else {
            prev_p1
        }),
        forall|a: int, b: int|
            #![trigger spec_pos_to_index(a, b)]
            0 <= a < 13 && 0 <= b < 17 && (a < xi || (a == xi && b < yi)) ==> (
            prev_p0.spec_bit(spec_pos_to_index(a, b)) == (state.spec_tile(a, b)
                == Tile::Player(0)) && prev_p1.spec_bit(spec_pos_to_index(a, b)) == (
            state.spec_tile(a, b) == Tile::Player(1))),
        forall|i: int|
            0 <= i < 256 && #[trigger] prev_p0.spec_bit(i) ==> spec_valid_cell(i) && (exists|
                a: int,
                b: int,
            |
                0 <= a < 13 && 0 <= b < 17 && (a < xi || (a == xi && b < yi)) && i
                    == spec_pos_to_index(a, b) && state.spec_tile(a, b) == Tile::Player(0)),
        forall|i: int|
            0 <= i < 256 && #[trigger] prev_p1.spec_bit(i) ==> spec_valid_cell(i) && (exists|
                a: int,
                b: int,
            |
                0 <= a < 13 && 0 <= b < 17 && (a < xi || (a == xi && b < yi)) && i
                    == spec_pos_to_index(a, b) && state.spec_tile(a, b) == Tile::Player(1)),
    ensures
        forall|a: int, b: int|
            #![trigger spec_pos_to_index(a, b)]
            0 <= a < 13 && 0 <= b < 17 && (a < xi || (a == xi && b < yi + 1)) ==> (
            p0.spec_bit(spec_pos_to_index(a, b)) == (state.spec_tile(a, b) == Tile::Player(0))
                && p1.spec_bit(spec_pos_to_index(a, b)) == (state.spec_tile(a, b) == Tile::Player(
                1,
            ))),
        forall|i: int|
            0 <= i < 256 && #[trigger] p0.spec_bit(i) ==> spec_valid_cell(i) && (exists|
                a: int,
                b: int,
            |
                0 <= a < 13 && 0 <= b < 17 && (a < xi || (a == xi && b < yi + 1)) && i
                    == spec_pos_to_index(a, b) && state.spec_tile(a, b) == Tile::Player(0)),
        forall|i: int|
            0 <= i < 256 && #[trigger] p1.spec_bit(i) ==> spec_valid_cell(i) && (exists|
                a: int,
                b: int,
            |
                0 <= a < 13 && 0 <= b < 17 && (a < xi || (a == xi && b < yi + 1)) && i
                    == spec_pos_to_index(a, b) && state.spec_tile(a, b) == Tile::Player(1)),
{
    lemma_pos_index_round_trip(xi, yi);
    let idx_i = spec_pos_to_index(xi, yi);
    if is_p0 || is_p1 {
        if !spec_valid_loc(xi, yi) {
            assert(state.spec_tile(xi, yi) == Tile::Invalid);
        }
        crate::bitboard::lemma_valid_cell_at(xi, yi);
    }
    if is_p0 {
        prev_p0.lemma_spec_set(idx_i);
    }
    if is_p1 {
        prev_p1.lemma_spec_set(idx_i);
    }
    assert forall|a: int, b: int|
        #![trigger spec_pos_to_index(a, b)]
        0 <= a < 13 && 0 <= b < 17 && (a < xi || (a == xi && b < yi + 1)) implies (
    p0.spec_bit(spec_pos_to_index(a, b)) == (state.spec_tile(a, b) == Tile::Player(0))
        && p1.spec_bit(spec_pos_to_index(a, b)) == (state.spec_tile(a, b) == Tile::Player(
        1,
    ))) by {
        lemma_pos_index_round_trip(a, b);
        assert(0 <= spec_pos_to_index(a, b) < 256);
        if a == xi && b == yi {
            assert(spec_pos_to_index(a, b) == idx_i);
            if is_p0 {
                assert(p0.spec_bit(idx_i));
                assert(state.spec_tile(a, b) == Tile::Player(0));
                assert(!is_p1);
                assert(p1 == prev_p1);
            }
            if !is_p0 && prev_p0.spec_bit(idx_i) {
                let (c, d) = choose|c: int, d: int|
                    0 <= c < 13 && 0 <= d < 17 && (c < xi || (c == xi && d < yi)) && idx_i
                        == spec_pos_to_index(c, d) && state.spec_tile(c, d) == Tile::Player(0);
                if c != xi || d != yi {
                    lemma_pos_to_index_injective(c, d, xi, yi);
                }
            }
            if !is_p1 && prev_p1.spec_bit(idx_i) {
                let (c, d) = choose|c: int, d: int|
                    0 <= c < 13 && 0 <= d < 17 && (c < xi || (c == xi && d < yi)) && idx_i
                        == spec_pos_to_index(c, d) && state.spec_tile(c, d) == Tile::Player(1);
                if c != xi || d != yi {
                    lemma_pos_to_index_injective(c, d, xi, yi);
                }
            }
        } else {
            lemma_pos_to_index_injective(a, b, xi, yi);
            assert(prev_p0.spec_bit(spec_pos_to_index(a, b)) == (state.spec_tile(a, b)
                == Tile::Player(0)));
            assert(prev_p1.spec_bit(spec_pos_to_index(a, b)) == (state.spec_tile(a, b)
                == Tile::Player(1)));
        }
    }
    assert forall|i: int| 0 <= i < 256 && #[trigger] p0.spec_bit(i) implies spec_valid_cell(i) && (
    exists|a: int, b: int|
        0 <= a < 13 && 0 <= b < 17 && (a < xi || (a == xi && b < yi + 1)) && i
            == spec_pos_to_index(a, b) && state.spec_tile(a, b) == Tile::Player(0)) by {
        if is_p0 && i == idx_i {
            assert(0 <= xi < 13 && 0 <= yi < 17 && (xi < xi || (xi == xi && yi < yi + 1)) && i
                == spec_pos_to_index(xi, yi) && state.spec_tile(xi, yi) == Tile::Player(0));
        } else {
            assert(prev_p0.spec_bit(i));
        }
    }
    assert forall|i: int| 0 <= i < 256 && #[trigger] p1.spec_bit(i) implies spec_valid_cell(i) && (
    exists|a: int, b: int|
        0 <= a < 13 && 0 <= b < 17 && (a < xi || (a == xi && b < yi + 1)) && i
            == spec_pos_to_index(a, b) && state.spec_tile(a, b) == Tile::Player(1)) by {
        if is_p1 && i == idx_i {
            assert(0 <= xi < 13 && 0 <= yi < 17 && (xi < xi || (xi == xi && yi < yi + 1)) && i
                == spec_pos_to_index(xi, yi) && state.spec_tile(xi, yi) == Tile::Player(1));
        } else {
            assert(prev_p1.spec_bit(i));
        }
    }
}

/// Taking a move back restores the position it was played from, exactly:
/// both piece sets, the side to move and the ply counter.
pub proof fn lemma_unmake_reverses_make(s: InternalGameState, m: InternalMove)
    requires
        s.wf(),
        InternalGameState::spec_move_ok(s, m),
    ensures
        InternalGameState::spec_unmake(InternalGameState::spec_make(s, m), m) == s,
{
    broadcast use vstd::array::group_array_axioms;

    let p = s.current_player as int;
    let b = s.pieces[p];
    let made = InternalGameState::spec_make(s, m);
    let back = InternalGameState::spec_unmake(made, m);
    let b1 = b.spec_set(m.to as int).spec_unset(m.from as int);
    let b2 = b1.spec_set(m.from as int).spec_unset(m.to as int);
    b.lemma_spec_set(m.to as int);
    b.spec_set(m.to as int).lemma_spec_unset(m.from as int);
    b1.lemma_spec_set(m.from as int);
    b1.spec_set(m.from as int).lemma_spec_unset(m.to as int);
    assert forall|j: int| 0 <= j < 256 implies b2.spec_bit(j) == b.spec_bit(j) by {}
    Bitboard::lemma_bit_ext(b2, b);
    assert(back.pieces =~= s.pieces);
    assert(back.ply == s.ply);
}

} // verus!
