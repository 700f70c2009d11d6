//! The staged move picker: first the transposition table's best move,
//! validated against the current position, then the generated moves with
//! the table move left out, the first eight draws best-first.  Over a
//! full run every legal move of the position is yielded exactly once.

use vstd::prelude::*;

use crate::bitboard::BitIndex;
use crate::bitboard::Bitboard;
use crate::evaluation::Score;
use crate::hasher::IncrementalHash;
use crate::state::InternalGameState;
use crate::state::InternalMove;
use crate::tt::TranspositionTable;

verus! {

/// The cheap move-ordering score: how far the move advances towards the
/// mover's goal side.
pub open spec fn spec_move_score(player: int, m: InternalMove) -> int {
    if player == 0 {
        m.to as int - m.from as int
    } else {
        m.from as int - m.to as int
    }
}

/// A cheap move-ordering score: how far the move advances towards the
/// mover's goal side.
pub fn move_score(player: u8, mov: InternalMove) -> (r: Score)
    ensures
        r == spec_move_score(player as int, mov),
{
    if player == 0 {
        mov.to as i64 - mov.from as i64
    } else {
        mov.from as i64 - mov.to as i64
    }
}

enum MovePickerStage {
    TTMove,
    Generate,
    All,
}

/// Yields the moves of a position one by one: the table move first, then
/// the generated list.
pub struct MovePicker {
    state: InternalGameState,
    hash: IncrementalHash,
    stage: MovePickerStage,
    already_generated: Option<BitIndex>,
    reachable: Bitboard,
    tt_yielded: Option<InternalMove>,
    index: usize,
    moves: Vec<InternalMove>,
    yielded: Ghost<Seq<InternalMove>>,
}

impl MovePicker {
    /// The position whose moves are picked.
    pub closed spec fn spec_state(self) -> InternalGameState {
        self.state
    }

    /// The hash under which the table is probed.
    pub closed spec fn spec_hash(self) -> IncrementalHash {
        self.hash
    }

    /// The moves yielded so far, in order.
    pub closed spec fn spec_yielded(self) -> Seq<InternalMove> {
        self.yielded@
    }

    /// The generated list of the final stage.
    pub closed spec fn spec_moves_vec(self) -> Seq<InternalMove> {
        self.moves@
    }

    /// How many entries of the generated list have been yielded.
    pub closed spec fn spec_index(self) -> int {
        self.index as int
    }

    /// The table move yielded ahead of generation, if any, as a
    /// one-entry sequence.
    pub closed spec fn spec_tt_seq(self) -> Seq<InternalMove> {
        match self.tt_yielded {
            None => Seq::empty(),
            Some(m) => seq![m],
        }
    }

    /// Structural invariant: a well-formed position, and stage data that
    /// only ever holds legal content and accounts for every legal move.
    pub open spec fn wf(self) -> bool {
        &&& self.spec_state().wf()
        &&& self.spec_stage_ok()
    }

    /// True when every legal move of `s` occurs in `full`.
    pub open spec fn spec_covers(s: InternalGameState, full: Seq<InternalMove>) -> bool {
        forall|f: int, t: int|
            0 <= f < 256 && 0 <= t < 256 && s.pieces[s.current_player as int].spec_bit(f)
                && #[trigger] InternalGameState::spec_reachable(s, f, t)
                ==> InternalGameState::spec_has_move(full, f, t)
    }

    /// The stage-specific part of the invariant.
    pub closed spec fn spec_stage_ok(self) -> bool {
        match self.stage {
            MovePickerStage::TTMove => self.yielded@.len() == 0 && self.tt_yielded is None,
            MovePickerStage::Generate => {
                &&& self.yielded@ == self.spec_tt_seq()
                &&& match self.already_generated {
                    None => self.tt_yielded is None,
                    Some(from) => {
                        &&& self.state.pieces[self.state.current_player as int].spec_bit(
                            from as int,
                        )
                        &&& forall|j: int|
                            0 <= j < 256 ==> #[trigger] self.reachable.spec_bit(j)
                                == InternalGameState::spec_reachable(self.state, from as int, j)
                        &&& match self.tt_yielded {
                            None => true,
                            Some(m) => m.from == from && self.reachable.spec_bit(m.to as int)
                                && InternalGameState::spec_move_ok(self.state, m),
                        }
                    },
                }
            },
            MovePickerStage::All => {
                &&& self.index <= self.moves@.len()
                &&& self.yielded@ == self.spec_tt_seq() + self.moves@.subrange(
                    0,
                    self.index as int,
                )
                &&& forall|k: int|
                    0 <= k < self.moves@.len() ==> InternalGameState::spec_move_ok(
                        self.state,
                        #[trigger] self.moves@[k],
                    ) && InternalGameState::spec_reachable(
                        self.state,
                        self.moves@[k].from as int,
                        self.moves@[k].to as int,
                    )
                &&& forall|k1: int, k2: int|
                    0 <= k1 < k2 < self.moves@.len() ==> #[trigger] self.moves@[k1]
                        != #[trigger] self.moves@[k2]
                &&& match self.tt_yielded {
                    None => true,
                    Some(m) => (forall|k: int|
                        0 <= k < self.moves@.len() ==> #[trigger] self.moves@[k] != m)
                        && InternalGameState::spec_move_ok(self.state, m)
                        && InternalGameState::spec_reachable(
                        self.state,
                        m.from as int,
                        m.to as int,
                    ),
                }
                &&& Self::spec_covers(self.state, self.spec_tt_seq() + self.moves@)
            },
        }
    }

    /// A picker for the position `state`, probing the table under
    /// `hash`.
    pub fn new(state: InternalGameState, hash: IncrementalHash) -> (r: Self)
        requires
            state.wf(),
        ensures
            r.wf(),
            r.spec_state() == state,
            r.spec_hash() == hash,
            r.spec_stage_rank() == 2,
            r.spec_moves_left() == 0,
            r.spec_yielded() == Seq::<InternalMove>::empty(),
    {
        MovePicker {
            state,
            hash,
            stage: MovePickerStage::TTMove,
            already_generated: None,
            reachable: Bitboard::empty(),
            tt_yielded: None,
            index: 0,
            moves: Vec::new(),
            yielded: Ghost(Seq::empty()),
        }
    }

    /// The next move to try: the table's best move first whenever it is
    /// legal here, then each generated move exactly once with the table
    /// move left out, the first eight generated draws best-first.  Every
    /// yielded move is legal (its origin holds a piece of the side to
    /// move, its destination is reachable) and is never repeated; `None`
    /// comes only once every legal move has been yielded.
    #[allow(unreachable_code)]
    #[verifier::rlimit(100)]
    #[verifier::spinoff_prover]
    pub fn next(&mut self, tt: &TranspositionTable) -> (r: Option<InternalMove>)
        requires
            old(self).wf(),
            tt.wf(),
        ensures
            final (self).wf(),
            final (self).spec_state() == old(self).spec_state(),
            final (self).spec_hash() == old(self).spec_hash(),
            match r {
                None => final (self).spec_yielded() == old(self).spec_yielded()
                    && Self::spec_covers(old(self).spec_state(), final (self).spec_yielded()),
                Some(m) => {
                    &&& InternalGameState::spec_move_ok(old(self).spec_state(), m)
                    &&& InternalGameState::spec_reachable(
                        old(self).spec_state(),
                        m.from as int,
                        m.to as int,
                    )
                    &&& final (self).spec_yielded() == old(self).spec_yielded().push(m)
                    &&& !old(self).spec_yielded().contains(m)
                },
            },
            r is Some ==> final (self).spec_stage_rank() < old(self).spec_stage_rank() || (
            final (self).spec_stage_rank() == old(self).spec_stage_rank()
                && final (self).spec_moves_left() < old(self).spec_moves_left()),
            final (self).spec_stage_rank() >= 0,
            final (self).spec_moves_left() >= 0,
            old(self).spec_stage_rank() == 2 && (match tt.spec_at(old(self).spec_hash()) {
                Some(t) => old(self).spec_state().pieces[old(self).spec_state().current_player as int].spec_bit(
                    t.best_move.from as int,
                ) && InternalGameState::spec_reachable(
                    old(self).spec_state(),
                    t.best_move.from as int,
                    t.best_move.to as int,
                ),
                None => false,
            }) ==> r == Some(tt.spec_at(old(self).spec_hash()).unwrap().best_move),
            (r is Some && old(self).spec_stage_rank() == 0 && old(self).spec_index() < 8)
                ==> forall|k: int|
                final (self).spec_index() <= k < final (self).spec_moves_vec().len()
                    ==> spec_move_score(old(self).spec_state().current_player as int, r.unwrap())
                    >= spec_move_score(
                    old(self).spec_state().current_player as int,
                    #[trigger] final (self).spec_moves_vec()[k],
                ),
    {
        let ghost entry = *self;
        loop
            invariant
                self.wf(),
                tt.wf(),
                entry == *old(self),
                self.spec_state() == old(self).spec_state(),
                self.spec_hash() == old(self).spec_hash(),
                self.spec_yielded() == old(self).spec_yielded(),
                self.spec_stage_rank() < entry.spec_stage_rank() || *self == entry,
                self.spec_stage_rank() < 2 ==> !(entry.spec_stage_rank() == 2 && (match
                tt.spec_at(entry.spec_hash()) {
                    Some(t) => entry.spec_state().pieces[entry.spec_state().current_player as int].spec_bit(
                        t.best_move.from as int,
                    ) && InternalGameState::spec_reachable(
                        entry.spec_state(),
                        t.best_move.from as int,
                        t.best_move.to as int,
                    ),
                    None => false,
                })),
            ensures
                self.wf(),
                self.spec_state() == old(self).spec_state(),
                self.spec_hash() == old(self).spec_hash(),
            decreases self.spec_stage_rank(),
        {
            match &self.stage {
                MovePickerStage::TTMove => {
                    let tt_entry = tt.get(self.hash);
                    if let Some(transposition) = tt_entry {
                        // The entry may belong to another position that
                        // hashes to the same slot, so the move must be
                        // checked for legality before it is yielded.
                        let mov = transposition.best_move;
                        let cp = self.state.current_player as usize;
                        if self.state.pieces[cp].get_bit(mov.from) {
                            let reachable = self.state.reachable_from(mov.from);
                            // The reachability map of this piece is dear
                            // to compute, so it is kept for the
                            // generation stage.
                            self.stage = MovePickerStage::Generate;
                            self.already_generated = Some(mov.from);
                            self.reachable = reachable;
                            if !reachable.get_bit(mov.to) {
                                proof {
                                    assert(!InternalGameState::spec_reachable(
                                        self.spec_state(),
                                        mov.from as int,
                                        mov.to as int,
                                    ));
                                    assert(self.yielded@ =~= self.spec_tt_seq());
                                }
                                continue ;
                            }
                            {
                                self.tt_yielded = Some(mov);
                                proof {
                                    let s = self.spec_state();
                                    assert(s.occ(mov.from as int));
                                    assert(InternalGameState::spec_reachable(
                                        s,
                                        mov.from as int,
                                        mov.to as int,
                                    ));
                                    assert(InternalGameState::spec_move_ok(s, mov));
                                    self.yielded = Ghost(self.yielded@.push(mov));
                                    assert(self.yielded@ =~= self.spec_tt_seq());
                                }
                                return Some(mov);
                            }
                        }
                    }
                    self.stage = MovePickerStage::Generate;
                    self.already_generated = None;
                    self.reachable = Bitboard::empty();
                    proof {
                        assert(self.yielded@ =~= self.spec_tt_seq());
                    }
                },
                MovePickerStage::Generate => {
                    let already_generated = self.already_generated;
                    let reachable = self.reachable;
                    let tt_move = self.tt_yielded;
                    let mut remaining_pieces =
                        self.state.pieces[self.state.current_player as usize];
                    let mut moves: Vec<InternalMove> = Vec::with_capacity(256);
                    if let Some(from) = already_generated {
                        remaining_pieces.unset_bit(from);
                        // The table move was already yielded, so it is
                        // left out of the generated list.
                        let exclude = match tt_move {
                            None => None,
                            Some(m) => Some(m.to),
                        };
                        self.append_reachable(from, reachable, exclude, &mut moves);
                        proof {
                            if tt_move is Some {
                                assert(InternalGameState::spec_reachable(
                                    self.spec_state(),
                                    from as int,
                                    tt_move.unwrap().to as int,
                                ));
                            }
                        }
                    }

                    let ghost board = self.state.pieces[self.state.current_player as int];
                    let mut it = remaining_pieces.ones();
                    proof {
                        crate::bitboard::lemma_bits_finite(it.spec_remaining());
                    }
                    loop
                        invariant
                            self.wf(),
                            self.spec_stage_rank() == 1,
                            tt_move == self.tt_yielded,
                            already_generated == self.already_generated,
                            board == self.spec_state().pieces[self.spec_state().current_player as int],
                            it.spec_remaining().bits().finite(),
                            forall|j: int|
                                0 <= j < 256 ==> (#[trigger] it.spec_remaining().spec_bit(j)
                                    ==> board.spec_bit(j) && (already_generated matches Some(f)
                                    ==> j != f as int)),
                            forall|k: int|
                                0 <= k < moves@.len() ==> InternalGameState::spec_move_ok(
                                    self.spec_state(),
                                    #[trigger] moves@[k],
                                ) && InternalGameState::spec_reachable(
                                    self.spec_state(),
                                    moves@[k].from as int,
                                    moves@[k].to as int,
                                ),
                            forall|k: int|
                                0 <= k < moves@.len() ==> !it.spec_remaining().spec_bit(
                                    (#[trigger] moves@[k]).from as int,
                                ),
                            forall|k1: int, k2: int|
                                0 <= k1 < k2 < moves@.len() ==> #[trigger] moves@[k1]
                                    != #[trigger] moves@[k2],
                            tt_move matches Some(m) ==> forall|k: int|
                                0 <= k < moves@.len() ==> #[trigger] moves@[k] != m,
                            forall|f: int, t: int|
                                0 <= f < 256 && 0 <= t < 256 && board.spec_bit(f)
                                    && !it.spec_remaining().spec_bit(f) && (
                                already_generated matches Some(g) ==> f != g as int)
                                    && #[trigger] InternalGameState::spec_reachable(
                                    self.spec_state(),
                                    f,
                                    t,
                                ) ==> InternalGameState::spec_has_move(moves@, f, t),
                            already_generated matches Some(g) ==> (forall|t: int|
                                0 <= t < 256 && #[trigger] InternalGameState::spec_reachable(
                                    self.spec_state(),
                                    g as int,
                                    t,
                                ) ==> InternalGameState::spec_has_move(moves@, g as int, t) || (
                                tt_move matches Some(m) && m.from == g && m.to as int == t)),
                        ensures
                            forall|k: int|
                                0 <= k < moves@.len() ==> InternalGameState::spec_move_ok(
                                    self.spec_state(),
                                    #[trigger] moves@[k],
                                ) && InternalGameState::spec_reachable(
                                    self.spec_state(),
                                    moves@[k].from as int,
                                    moves@[k].to as int,
                                ),
                            forall|k1: int, k2: int|
                                0 <= k1 < k2 < moves@.len() ==> #[trigger] moves@[k1]
                                    != #[trigger] moves@[k2],
                            tt_move matches Some(m) ==> forall|k: int|
                                0 <= k < moves@.len() ==> #[trigger] moves@[k] != m,
                            forall|f: int, t: int|
                                0 <= f < 256 && 0 <= t < 256 && board.spec_bit(f)
                                    && #[trigger] InternalGameState::spec_reachable(
                                    self.spec_state(),
                                    f,
                                    t,
                                ) ==> InternalGameState::spec_has_move(moves@, f, t) || (
                                tt_move matches Some(m) && m.from as int == f && m.to as int
                                    == t),
                        decreases it.spec_remaining().bits().len(),
                    {
                        let ghost prev = it.spec_remaining();
                        let from = match it.next() {
                            None => { break ; },
                            Some(from) => from,
                        };
                        proof {
                            assert(it.spec_remaining().bits() =~= prev.bits().remove(
                                from as int,
                            ));
                            crate::bitboard::lemma_bits_finite(it.spec_remaining());
                        }
                        let reachable = self.state.reachable_from(from);
                        let ghost before = moves@;
                        self.append_reachable(from, reachable, None, &mut moves);
                        proof {
                            assert forall|k: int|
                                0 <= k < moves@.len() implies !it.spec_remaining().spec_bit(
                                (#[trigger] moves@[k]).from as int,
                            ) by {
                                if k < before.len() {
                                    assert(moves@[k] == before[k]);
                                    assert(!prev.spec_bit(before[k].from as int));
                                } else {
                                    assert(moves@[k].from == from);
                                }
                            }
                            assert forall|k1: int, k2: int|
                                0 <= k1 < k2 < moves@.len() implies #[trigger] moves@[k1]
                                != #[trigger] moves@[k2] by {
                                if k2 < before.len() {
                                    assert(moves@[k1] == before[k1] && moves@[k2] == before[k2]);
                                } else if k1 < before.len() {
                                    assert(moves@[k1] == before[k1]);
                                    assert(!prev.spec_bit(before[k1].from as int));
                                    assert(prev.spec_bit(from as int));
                                    assert(moves@[k2].from == from);
                                }
                            }
                            if tt_move is Some {
                                assert forall|k: int| 0 <= k < moves@.len() implies #[trigger] moves@[k]
                                    != tt_move.unwrap() by {
                                    if k < before.len() {
                                        assert(moves@[k] == before[k]);
                                    } else {
                                        assert(moves@[k].from == from);
                                        assert(already_generated is Some);
                                        let g = already_generated.unwrap();
                                        assert(tt_move.unwrap().from == g);
                                        assert(prev.spec_bit(from as int));
                                        assert(from != g);
                                    }
                                }
                            }
                            assert forall|f: int, t: int|
                                0 <= f < 256 && 0 <= t < 256 && board.spec_bit(f)
                                    && !it.spec_remaining().spec_bit(f) && (
                                already_generated matches Some(g) ==> f != g as int)
                                    && #[trigger] InternalGameState::spec_reachable(
                                self.spec_state(),
                                f,
                                t,
                            ) implies InternalGameState::spec_has_move(moves@, f, t) by {
                                if f != from as int {
                                    if InternalGameState::spec_has_move(before, f, t) {
                                        let k = choose|k: int|
                                            0 <= k < before.len() && (#[trigger] before[k]).from
                                                == f && before[k].to == t;
                                        assert(moves@[k] == before[k]);
                                    }
                                }
                            }
                            assert forall|t: int|
                                (already_generated matches Some(g)) && 0 <= t < 256
                                    && #[trigger] InternalGameState::spec_reachable(
                                self.spec_state(),
                                already_generated.unwrap() as int,
                                t,
                            ) implies InternalGameState::spec_has_move(
                                moves@,
                                already_generated.unwrap() as int,
                                t,
                            ) || (tt_move matches Some(m) && m.from
                                == already_generated.unwrap() && m.to as int == t) by {
                                let g = already_generated.unwrap();
                                if InternalGameState::spec_has_move(before, g as int, t) {
                                    let k = choose|k: int|
                                        0 <= k < before.len() && (#[trigger] before[k]).from
                                            == g as int && before[k].to == t;
                                    assert(moves@[k] == before[k]);
                                }
                            }
                        }
                    }

                    self.stage = MovePickerStage::All;
                    self.index = 0;
                    self.moves = moves;
                    proof {
                        assert(self.yielded@ =~= self.spec_tt_seq() + self.moves@.subrange(
                            0,
                            0,
                        ));
                        assert forall|f: int, t: int|
                            0 <= f < 256 && 0 <= t < 256
                                && self.state.pieces[self.state.current_player as int].spec_bit(f)
                                && #[trigger] InternalGameState::spec_reachable(
                            self.state,
                            f,
                            t,
                        ) implies InternalGameState::spec_has_move(
                            self.spec_tt_seq() + self.moves@,
                            f,
                            t,
                        ) by {
                            if InternalGameState::spec_has_move(self.moves@, f, t) {
                                let k = choose|k: int|
                                    0 <= k < self.moves@.len() && (
                                    #[trigger] self.moves@[k]).from == f && self.moves@[k].to
                                        == t;
                                assert((self.spec_tt_seq() + self.moves@)[self.spec_tt_seq().len()
                                    + k] == self.moves@[k]);
                            } else {
                                assert(self.tt_yielded matches Some(m) && m.from as int == f
                                    && m.to as int == t);
                                assert((self.spec_tt_seq() + self.moves@)[0]
                                    == self.tt_yielded.unwrap());
                            }
                        }
                    }
                },
                MovePickerStage::All => {
                    let index = self.index;
                    let num_moves = self.moves.len();
                    if index >= num_moves {
                        proof {
                            assert(self.moves@.subrange(0, self.index as int) =~= self.moves@);
                        }
                        return None;
                    }
                    let ghost pre = *self;

                    if index < 8 {
                        let mut max_i = index;
                        let mut max_move_score = move_score(
                            self.state.current_player,
                            self.moves[max_i],
                        );

                        let mut j = index + 1;
                        while j < num_moves
                            invariant
                                *self == pre,
                                num_moves == self.moves@.len(),
                                index <= max_i,
                                max_i < num_moves,
                                index < j,
                                j <= num_moves,
                                max_move_score == spec_move_score(
                                    self.spec_state().current_player as int,
                                    self.moves@[max_i as int],
                                ),
                                forall|jj: int|
                                    index <= jj < j ==> max_move_score >= spec_move_score(
                                        self.spec_state().current_player as int,
                                        #[trigger] self.moves@[jj],
                                    ),
                            decreases num_moves - j,
                        {
                            let score = move_score(self.state.current_player, self.moves[j]);
                            if score > max_move_score {
                                max_i = j;
                                max_move_score = score;
                            }
                            j += 1;
                        }

                        if max_i != index {
                            let a = self.moves[index];
                            let b = self.moves[max_i];
                            self.moves[index] = b;
                            self.moves[max_i] = a;
                            proof {
                                let s1 = pre.moves@;
                                let s2 = self.moves@;
                                assert(s2 =~= s1.update(index as int, s1[max_i as int]).update(
                                    max_i as int,
                                    s1[index as int],
                                ));
                                assert(s2.subrange(0, index as int) =~= s1.subrange(
                                    0,
                                    index as int,
                                ));
                                assert forall|k1: int, k2: int|
                                    0 <= k1 < k2 < s2.len() implies #[trigger] s2[k1]
                                    != #[trigger] s2[k2] by {
                                    let m1 = if k1 == index as int {
                                        max_i as int
                                    } else if k1 == max_i as int {
                                        index as int
                                    } else {
                                        k1
                                    };
                                    let m2 = if k2 == index as int {
                                        max_i as int
                                    } else if k2 == max_i as int {
                                        index as int
                                    } else {
                                        k2
                                    };
                                    assert(s2[k1] == s1[m1] && s2[k2] == s1[m2]);
                                }
                                assert forall|f: int, t: int|
                                    0 <= f < 256 && 0 <= t < 256
                                        && self.state.pieces[self.state.current_player as int].spec_bit(
                                        f,
                                    ) && #[trigger] InternalGameState::spec_reachable(
                                    self.state,
                                    f,
                                    t,
                                ) implies InternalGameState::spec_has_move(
                                    self.spec_tt_seq() + s2,
                                    f,
                                    t,
                                ) by {
                                    let full1 = pre.spec_tt_seq() + s1;
                                    let k = choose|k: int|
                                        0 <= k < full1.len() && (#[trigger] full1[k]).from == f
                                            && full1[k].to == t;
                                    let off = self.spec_tt_seq().len() as int;
                                    let full2 = self.spec_tt_seq() + s2;
                                    if k < off {
                                        assert(full2[k] == full1[k]);
                                    } else if k - off == index as int {
                                        assert(full2[off + max_i as int] == full1[k]);
                                    } else if k - off == max_i as int {
                                        assert(full2[off + index as int] == full1[k]);
                                    } else {
                                        assert(full2[k] == full1[k]);
                                    }
                                }
                            }
                        }
                    }

                    let mov = self.moves[index];
                    proof {
                        assert(InternalGameState::spec_move_ok(self.spec_state(), mov));
                        self.yielded = Ghost(self.yielded@.push(mov));
                    }
                    self.index = index + 1;
                    proof {
                        assert(self.yielded@ =~= self.spec_tt_seq() + self.moves@.subrange(
                            0,
                            self.index as int,
                        ));
                        assert(!pre.spec_yielded().contains(mov)) by {
                            if pre.spec_yielded().contains(mov) {
                                let k = choose|k: int|
                                    0 <= k < pre.spec_yielded().len() && pre.spec_yielded()[k]
                                        == mov;
                                let off = pre.spec_tt_seq().len() as int;
                                if k < off {
                                    assert(pre.spec_yielded()[k] == pre.spec_tt_seq()[k]);
                                } else {
                                    assert(pre.spec_yielded()[k] == pre.moves@[k - off]);
                                }
                            }
                        }
                    }
                    return Some(mov);
                },
            }
        }
        None
    }

    /// How many moves the final stage still holds.
    pub closed spec fn spec_moves_left(self) -> int {
        match self.stage {
            MovePickerStage::All => self.moves@.len() - self.index,
            _ => 0,
        }
    }

    /// How far the picker still is from its final stage.
    pub closed spec fn spec_stage_rank(self) -> int {
        match self.stage {
            MovePickerStage::TTMove => 2,
            MovePickerStage::Generate => 1,
            MovePickerStage::All => 0,
        }
    }

    /// Appends one move per set bit of `reachable` except the excluded
    /// destination, which the caller has already yielded.
    fn append_reachable(
        &self,
        from: BitIndex,
        reachable: Bitboard,
        exclude: Option<BitIndex>,
        moves: &mut Vec<InternalMove>,
    )
        requires
            self.wf(),
            self.spec_state().pieces[self.spec_state().current_player as int].spec_bit(
                from as int,
            ),
            forall|j: int|
                0 <= j < 256 ==> #[trigger] reachable.spec_bit(j)
                    == InternalGameState::spec_reachable(self.spec_state(), from as int, j),
            forall|k: int|
                0 <= k < old(moves)@.len() ==> InternalGameState::spec_move_ok(
                    self.spec_state(),
                    #[trigger] old(moves)@[k],
                ) && InternalGameState::spec_reachable(
                    self.spec_state(),
                    old(moves)@[k].from as int,
                    old(moves)@[k].to as int,
                ),
        ensures
            final (moves)@.len() >= old(moves)@.len(),
            forall|k: int| 0 <= k < old(moves)@.len() ==> final (moves)@[k] == #[trigger] old(
                moves,
            )@[k],
            forall|k: int|
                0 <= k < final (moves)@.len() ==> InternalGameState::spec_move_ok(
                    self.spec_state(),
                    #[trigger] final (moves)@[k],
                ) && InternalGameState::spec_reachable(
                    self.spec_state(),
                    final (moves)@[k].from as int,
                    final (moves)@[k].to as int,
                ),
            forall|k: int|
                old(moves)@.len() <= k < final (moves)@.len() ==> (#[trigger] final (moves)@[k]).from == from && (match exclude {
                    None => true,
                    Some(e) => final (moves)@[k].to != e,
                }),
            forall|k1: int, k2: int|
                old(moves)@.len() <= k1 < k2 < final (moves)@.len() ==> #[trigger] final (moves)@[k1] != #[trigger] final (moves)@[k2],
            forall|t: int|
                0 <= t < 256 && #[trigger] InternalGameState::spec_reachable(
                    self.spec_state(),
                    from as int,
                    t,
                ) && (match exclude {
                    None => true,
                    Some(e) => t != e as int,
                }) ==> InternalGameState::spec_has_move(final (moves)@, from as int, t),
    {
        let mut it = reachable.ones();
        proof {
            crate::bitboard::lemma_bits_finite(it.spec_remaining());
        }
        loop
            invariant
                self.wf(),
                self.spec_state().pieces[self.spec_state().current_player as int].spec_bit(
                    from as int,
                ),
                it.spec_remaining().bits().finite(),
                forall|j: int|
                    0 <= j < 256 ==> (#[trigger] it.spec_remaining().spec_bit(j)
                        ==> reachable.spec_bit(j)),
                forall|j: int|
                    0 <= j < 256 ==> #[trigger] reachable.spec_bit(j)
                        == InternalGameState::spec_reachable(
                        self.spec_state(),
                        from as int,
                        j,
                    ),
                moves@.len() >= old(moves)@.len(),
                forall|k: int|
                    0 <= k < old(moves)@.len() ==> moves@[k] == #[trigger] old(moves)@[k],
                forall|k: int|
                    0 <= k < moves@.len() ==> InternalGameState::spec_move_ok(
                        self.spec_state(),
                        #[trigger] moves@[k],
                    ) && InternalGameState::spec_reachable(
                        self.spec_state(),
                        moves@[k].from as int,
                        moves@[k].to as int,
                    ),
                forall|k: int|
                    old(moves)@.len() <= k < moves@.len() ==> (#[trigger] moves@[k]).from == from
                        && (match exclude {
                        None => true,
                        Some(e) => moves@[k].to != e,
                    }) && !it.spec_remaining().spec_bit(moves@[k].to as int),
                forall|k1: int, k2: int|
                    old(moves)@.len() <= k1 < k2 < moves@.len() ==> #[trigger] moves@[k1]
                        != #[trigger] moves@[k2],
                forall|t: int|
                    0 <= t < 256 && #[trigger] reachable.spec_bit(t)
                        && !it.spec_remaining().spec_bit(t) && (match exclude {
                        None => true,
                        Some(e) => t != e as int,
                    }) ==> InternalGameState::spec_has_move(moves@, from as int, t),
            ensures
                moves@.len() >= old(moves)@.len(),
                forall|k: int|
                    0 <= k < old(moves)@.len() ==> moves@[k] == #[trigger] old(moves)@[k],
                forall|k: int|
                    0 <= k < moves@.len() ==> InternalGameState::spec_move_ok(
                        self.spec_state(),
                        #[trigger] moves@[k],
                    ) && InternalGameState::spec_reachable(
                        self.spec_state(),
                        moves@[k].from as int,
                        moves@[k].to as int,
                    ),
                forall|k: int|
                    old(moves)@.len() <= k < moves@.len() ==> (#[trigger] moves@[k]).from == from
                        && (match exclude {
                        None => true,
                        Some(e) => moves@[k].to != e,
                    }),
                forall|k1: int, k2: int|
                    old(moves)@.len() <= k1 < k2 < moves@.len() ==> #[trigger] moves@[k1]
                        != #[trigger] moves@[k2],
                forall|t: int|
                    0 <= t < 256 && #[trigger] reachable.spec_bit(t) && (match exclude {
                        None => true,
                        Some(e) => t != e as int,
                    }) ==> InternalGameState::spec_has_move(moves@, from as int, t),
            decreases it.spec_remaining().bits().len(),
        {
            let ghost prev = it.spec_remaining();
            let to = match it.next() {
                None => { break ; },
                Some(to) => to,
            };
            proof {
                assert(it.spec_remaining().bits() =~= prev.bits().remove(to as int));
                crate::bitboard::lemma_bits_finite(it.spec_remaining());
                assert(self.spec_state().occ(from as int));
            }
            let skip = match exclude {
                None => false,
                Some(e) => to == e,
            };

            if !skip {
                let ghost before = moves@;
                moves.push(InternalMove { from, to });
                proof {
                    assert(moves@[before.len() as int] == (InternalMove { from, to }));
                    assert forall|t: int|
                        0 <= t < 256 && #[trigger] reachable.spec_bit(t)
                            && !it.spec_remaining().spec_bit(t) && (match exclude {
                            None => true,
                            Some(e) => t != e as int,
                        }) implies InternalGameState::spec_has_move(moves@, from as int, t) by {
                        if t == to as int {
                            assert(moves@[before.len() as int].from == from as int);
                        } else {
                            assert(prev.spec_bit(t) == it.spec_remaining().spec_bit(t));
                            if InternalGameState::spec_has_move(before, from as int, t) {
                                let k = choose|k: int|
                                    0 <= k < before.len() && (#[trigger] before[k]).from
                                        == from as int && before[k].to == t;
                                assert(moves@[k] == before[k]);
                            }
                        }
                    }
                }
            }
        }
        proof {
            assert forall|t: int|
                0 <= t < 256 && #[trigger] InternalGameState::spec_reachable(
                    self.spec_state(),
                    from as int,
                    t,
                ) && (match exclude {
                    None => true,
                    Some(e) => t != e as int,
                }) implies InternalGameState::spec_has_move(moves@, from as int, t) by {
                assert(reachable.spec_bit(t));
            }
        }
    }
}

} // verus!
