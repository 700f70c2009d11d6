//! The search driver: iterative-deepening negamax with a
//! principal-variation / zero-window split, transposition-table reads
//! and writes, and a polled time budget.  Every search call leaves the
//! engine's position, hash and evaluation aggregates exactly as it found
//! them, and every move it hands out is legal in the current position.

use vstd::prelude::*;

use crate::evaluation::Evaluation;
use crate::evaluation::Score;
use crate::evaluation::lemma_consistent_bounded;
use crate::evaluation::lemma_rows_nonzero;
use crate::evaluation::lemma_update_matches_recount;
use crate::game::GameState;
use crate::game::Move;
use crate::game::Tile;
use crate::hasher::IncrementalHash;
use crate::hasher::IncrementalHasher;
use crate::hasher::lemma_hash_update;
use crate::hasher::lemma_xor_cancel;
use crate::move_picker::MovePicker;
use crate::state::InternalGameState;
use crate::state::InternalMove;
use crate::state::Ply;
use crate::state::lemma_unmake_reverses_make;
use crate::tt::Depth;
use crate::tt::ScoreType;
use crate::tt::Transposition;
use crate::tt::TranspositionTable;

verus! {

/// A score no reachable evaluation can attain: winning positions score
/// this, minus the plies it takes to reach them.
pub const WINNING_SCORE: Score = 1_000_000_000;

/// One full ply of search depth, in depth units.
pub const ONE_PLY: Depth = 1000;

/// When the search stops: after completing a fixed number of
/// iterative-deepening rounds, or when a time budget in milliseconds
/// runs low.
#[derive(Clone, Copy, PartialEq, Eq, Structural, Debug)]
pub enum StopCondition {
    Depth(Depth),
    Time(u64),
}

#[verifier::external_type_specification]
#[verifier::external_body]
pub struct ExInstant(std::time::Instant);

/// Relies on std::time::Instant::now: a reading of the monotonic clock.
#[verifier::external_body]
fn instant_now() -> std::time::Instant {
    std::time::Instant::now()
}

/// Relies on std::time::Instant::elapsed: the time since `start`.
#[verifier::external_body]
fn instant_elapsed(start: &std::time::Instant) -> std::time::Duration {
    start.elapsed()
}

/// Relies on std::time::Duration::as_millis: the duration in whole
/// milliseconds, truncated into 64 bits.
#[verifier::external_body]
fn duration_millis(d: &std::time::Duration) -> u64 {
    d.as_millis() as u64
}

/// Two states over the same boards and side to move are both
/// well-formed or both not.
pub proof fn lemma_wf_same_boards(a: AI, b: AI)
    requires
        a.wf(),
        b.state.pieces == a.state.pieces,
        b.state.current_player == a.state.current_player,
        b.spec_hasher() == a.spec_hasher(),
        b.spec_hash() == a.spec_hash(),
        b.spec_evaluation() == a.spec_evaluation(),
        b.spec_tt().wf(),
        forall|k: int|
            0 <= k < b.spec_tt().spec_table().len() ==> (match #[trigger] b.spec_tt().spec_table()[k] {
                Some(t) => spec_entry_bounded(t),
                None => true,
            }),
    ensures
        b.wf(),
{
    assert forall|i: int|
        0 <= i < 256 implies !(#[trigger] b.state.pieces[0].spec_bit(i)
        && b.state.pieces[1].spec_bit(i)) by {
        assert(!(a.state.pieces[0].spec_bit(i) && a.state.pieces[1].spec_bit(i)));
    }
    assert forall|i: int| 0 <= i < 256 && #[trigger] b.state.occ(i) implies crate::bitboard::spec_valid_cell(i) by {
        assert(a.state.occ(i));
    }
    assert(b.spec_hasher().spec_hash_of(b.state) == a.spec_hasher().spec_hash_of(a.state));
    assert(b.spec_evaluation().consistent_with(b.state)) by {
        assert(a.spec_evaluation().consistent_with(a.state));
        assert(b.state.pieces[0] == a.state.pieces[0] && b.state.pieces[1] == a.state.pieces[1]);
    }
    let w0 = choose|i: int| 0 <= i < 256 && #[trigger] a.state.pieces[0].spec_bit(i);
    let w1 = choose|i: int| 0 <= i < 256 && #[trigger] a.state.pieces[1].spec_bit(i);
    assert(b.state.pieces[0].spec_bit(w0));
    assert(b.state.pieces[1].spec_bit(w1));
}

/// Taking a move back undoes everything the move changed, bit-exactly:
/// the position returns to what it was, the reverse bump cancels the
/// move's bump on the evaluation aggregates, and XOR-ing the move's
/// hash delta a second time lands back on the original hash.
pub proof fn lemma_make_unmake_round_trip(
    h: IncrementalHasher,
    e1: Evaluation,
    e2: Evaluation,
    e3: Evaluation,
    s: InternalGameState,
    m: InternalMove,
)
    requires
        h.wf(),
        s.wf(),
        InternalGameState::spec_move_ok(s, m),
        e1.bounded(),
        Evaluation::spec_bumped(e1, e2, s.current_player as int, m),
        Evaluation::spec_bumped(e2, e3, s.current_player as int, m.spec_inverse()),
    ensures
        InternalGameState::spec_unmake(InternalGameState::spec_make(s, m), m) == s,
        e3 == e1,
        h.spec_hash_of(InternalGameState::spec_make(s, m)) ^ h.spec_update(
            s.current_player as int,
            m,
        ) == h.spec_hash_of(s),
{
    lemma_unmake_reverses_make(s, m);
    crate::evaluation::lemma_bump_reverses(e1, e2, e3, s.current_player as int, m);
    lemma_hash_update(h, s, m);
    lemma_xor_cancel(h.spec_hash_of(s), h.spec_update(s.current_player as int, m));
}

/// True when every score a transposition entry holds lies within the
/// winning bounds.
pub open spec fn spec_entry_bounded(t: Transposition) -> bool {
    match t.evaluation {
        ScoreType::Exact(s) => -WINNING_SCORE <= s <= WINNING_SCORE,
        ScoreType::LowerBound(s) => -WINNING_SCORE <= s <= WINNING_SCORE,
        ScoreType::UpperBound(s) => -WINNING_SCORE <= s <= WINNING_SCORE,
    }
}

/// The engine: the internal position with its incrementally maintained
/// hash and evaluation, the transposition table, and the stop condition.
pub struct AI {
    pub state: InternalGameState,
    pub stop_condition: StopCondition,
    pub stop_condition_triggered: bool,
    pub start: std::time::Instant,
    pub main_tt: TranspositionTable,
    pub evaluation: Evaluation,
    pub visited_nodes: u64,
    pub hasher: IncrementalHasher,
    pub hash: IncrementalHash,
}

impl AI {
    /// The transposition table.
    pub open spec fn spec_tt(self) -> TranspositionTable {
        self.main_tt
    }

    /// The evaluation aggregates.
    pub open spec fn spec_evaluation(self) -> Evaluation {
        self.evaluation
    }

    /// The Zobrist tables.
    pub open spec fn spec_hasher(self) -> IncrementalHasher {
        self.hasher
    }

    /// The maintained hash.
    pub open spec fn spec_hash(self) -> IncrementalHash {
        self.hash
    }

    /// The engine invariant: a well-formed position in which both
    /// players still have pieces, the hash equal to a from-scratch
    /// recomputation, the evaluation aggregates equal to a from-scratch
    /// recount, and a well-formed table holding only bounded scores.
    pub open spec fn wf(self) -> bool {
        &&& self.state.wf()
        &&& self.spec_hasher().wf()
        &&& self.spec_tt().wf()
        &&& self.spec_hash() == self.spec_hasher().spec_hash_of(self.state)
        &&& self.spec_evaluation().consistent_with(self.state)
        &&& exists|i: int| 0 <= i < 256 && #[trigger] self.state.pieces[0].spec_bit(i)
        &&& exists|i: int| 0 <= i < 256 && #[trigger] self.state.pieces[1].spec_bit(i)
        &&& forall|k: int|
            0 <= k < self.spec_tt().spec_table().len() ==> (match #[trigger] self.spec_tt().spec_table()[k] {
                Some(t) => spec_entry_bounded(t),
                None => true,
            })
    }

    /// The fields a search call never changes.
    pub open spec fn frame(pre: AI, post: AI) -> bool {
        &&& post.state == pre.state
        &&& post.spec_hash() == pre.spec_hash()
        &&& post.spec_evaluation() == pre.spec_evaluation()
        &&& post.spec_hasher() == pre.spec_hasher()
        &&& post.stop_condition == pre.stop_condition
    }

    /// A fresh engine for the given external position, which must be a
    /// well-formed state where both players still have pieces on the
    /// board.
    #[verifier::rlimit(50)]
    #[verifier::spinoff_prover]
    pub fn new(state: GameState) -> (r: AI)
        requires
            state.wf(),
            state.spec_ply() <= u32::MAX,
            exists|x: int, y: int|
                0 <= x < 13 && 0 <= y < 17 && #[trigger] state.spec_tile(x, y) == Tile::Player(0),
            exists|x: int, y: int|
                0 <= x < 13 && 0 <= y < 17 && #[trigger] state.spec_tile(x, y) == Tile::Player(1),
        ensures
            r.wf(),
            r.stop_condition == StopCondition::Depth(0),
            r.state.current_player == state.spec_player(),
            r.state.ply as int == state.spec_ply(),
            forall|x: int, y: int|
                #![trigger crate::bitboard::spec_pos_to_index(x, y)]
                0 <= x < 13 && 0 <= y < 17 ==> (r.state.pieces[0].spec_bit(
                    crate::bitboard::spec_pos_to_index(x, y),
                ) == (state.spec_tile(x, y) == Tile::Player(0)) && r.state.pieces[1].spec_bit(
                    crate::bitboard::spec_pos_to_index(x, y),
                ) == (state.spec_tile(x, y) == Tile::Player(1))),
    {
        let internal = InternalGameState::from_game_state(&state);
        let hasher = IncrementalHasher::default();
        let hash = hasher.full_hash(&internal);
        let evaluation = Evaluation::new(&internal);
        let tt = TranspositionTable::new(20);
        proof {
            let (x0, y0) = choose|x: int, y: int|
                0 <= x < 13 && 0 <= y < 17 && #[trigger] state.spec_tile(x, y) == Tile::Player(0);
            let (x1, y1) = choose|x: int, y: int|
                0 <= x < 13 && 0 <= y < 17 && #[trigger] state.spec_tile(x, y) == Tile::Player(1);
            crate::bitboard::lemma_pos_index_round_trip(x0, y0);
            crate::bitboard::lemma_pos_index_round_trip(x1, y1);
            assert(internal.pieces[0].spec_bit(
                crate::bitboard::spec_pos_to_index(x0, y0),
            ));
            assert(internal.pieces[1].spec_bit(
                crate::bitboard::spec_pos_to_index(x1, y1),
            ));
        }
        AI {
            state: internal,
            stop_condition: StopCondition::Depth(0),
            stop_condition_triggered: false,
            start: instant_now(),
            main_tt: tt,
            evaluation,
            visited_nodes: 0,
            hasher,
            hash,
        }
    }

    /// Sets the stop condition for the next search.
    pub fn set_stop_condition(&mut self, c: StopCondition)
        requires
            old(self).wf(),
        ensures
            final (self).wf(),
            final (self).stop_condition == c,
            final (self).state == old(self).state,
    {
        self.stop_condition = c;
    }

    /// Plays an externally chosen move, keeping hash and evaluation in
    /// step; the position becomes exactly the made position, ply
    /// advanced and turn passed.
    pub fn make_move(&mut self, mov: Move)
        requires
            old(self).wf(),
            0 <= mov.from.0 < 13,
            0 <= mov.from.1 < 17,
            0 <= mov.to.0 < 13,
            0 <= mov.to.1 < 17,
            InternalGameState::spec_move_ok(
                old(self).state,
                (InternalMove {
                    from: crate::bitboard::spec_pos_to_index(
                        mov.from.0 as int,
                        mov.from.1 as int,
                    ) as u8,
                    to: crate::bitboard::spec_pos_to_index(mov.to.0 as int, mov.to.1 as int) as u8,
                }),
            ),
            old(self).state.ply < u32::MAX,
        ensures
            final (self).wf(),
            final (self).state == InternalGameState::spec_make(
                old(self).state,
                (InternalMove {
                    from: crate::bitboard::spec_pos_to_index(
                        mov.from.0 as int,
                        mov.from.1 as int,
                    ) as u8,
                    to: crate::bitboard::spec_pos_to_index(mov.to.0 as int, mov.to.1 as int) as u8,
                }),
            ),
            final (self).state.ply == old(self).state.ply + 1,
            final (self).state.current_player == 1 - old(self).state.current_player,
            final (self).spec_hasher() == old(self).spec_hasher(),
            final (self).spec_tt() == old(self).spec_tt(),
            final (self).stop_condition == old(self).stop_condition,
    {
        let internal = InternalMove::from_move(mov);
        proof {
            crate::bitboard::lemma_pos_index_round_trip(mov.from.0 as int, mov.from.1 as int);
            crate::bitboard::lemma_pos_index_round_trip(mov.to.0 as int, mov.to.1 as int);
        }
        self.internal_make_move(internal);
    }

    /// Takes an externally chosen move back: the position returns
    /// exactly to the one the move was played from, hash and evaluation
    /// restored alongside.
    pub fn unmake_move(&mut self, mov: Move, Ghost(prev): Ghost<InternalGameState>)
        requires
            old(self).wf(),
            0 <= mov.from.0 < 13,
            0 <= mov.from.1 < 17,
            0 <= mov.to.0 < 13,
            0 <= mov.to.1 < 17,
            prev.wf(),
            InternalGameState::spec_move_ok(
                prev,
                (InternalMove {
                    from: crate::bitboard::spec_pos_to_index(
                        mov.from.0 as int,
                        mov.from.1 as int,
                    ) as u8,
                    to: crate::bitboard::spec_pos_to_index(mov.to.0 as int, mov.to.1 as int) as u8,
                }),
            ),
            old(self).state == InternalGameState::spec_make(
                prev,
                (InternalMove {
                    from: crate::bitboard::spec_pos_to_index(
                        mov.from.0 as int,
                        mov.from.1 as int,
                    ) as u8,
                    to: crate::bitboard::spec_pos_to_index(mov.to.0 as int, mov.to.1 as int) as u8,
                }),
            ),
        ensures
            final (self).wf(),
            final (self).state == prev,
            final (self).spec_hash() == old(self).spec_hasher().spec_hash_of(prev),
            final (self).spec_hasher() == old(self).spec_hasher(),
            final (self).spec_tt() == old(self).spec_tt(),
            final (self).stop_condition == old(self).stop_condition,
    {
        let internal = InternalMove::from_move(mov);
        proof {
            crate::bitboard::lemma_pos_index_round_trip(mov.from.0 as int, mov.from.1 as int);
            crate::bitboard::lemma_pos_index_round_trip(mov.to.0 as int, mov.to.1 as int);
        }
        self.internal_unmake_move(internal, Ghost(prev));
    }

    /// XORs a move's hash delta into the maintained hash.
    fn update_hash(&mut self, mov: InternalMove)
        requires
            old(self).spec_hasher().wf(),
            old(self).state.current_player < 2,
        ensures
            *final (self) == (AI {
                hash: old(self).spec_hash() ^ old(self).spec_hasher().spec_update(
                    old(self).state.current_player as int,
                    mov,
                ),
                ..*old(self)
            }),
    {
        let delta = self.hasher.update(self.state.current_player, mov);
        self.hash = self.hash ^ delta;
    }

    /// Plays `mov` on the internal position, updating evaluation
    /// aggregates and hash alongside.
    fn internal_make_move(&mut self, mov: InternalMove)
        requires
            old(self).wf(),
            InternalGameState::spec_move_ok(old(self).state, mov),
        ensures
            final (self).wf(),
            final (self).state == InternalGameState::spec_make(old(self).state, mov),
            final (self).spec_tt() == old(self).spec_tt(),
            final (self).spec_hasher() == old(self).spec_hasher(),
            final (self).stop_condition == old(self).stop_condition,
            final (self).stop_condition_triggered == old(self).stop_condition_triggered,
            final (self).start == old(self).start,
            Evaluation::spec_bumped(
                old(self).spec_evaluation(),
                final (self).spec_evaluation(),
                old(self).state.current_player as int,
                mov,
            ),
    {
        let ghost pre = *old(self);
        proof {
            lemma_consistent_bounded(self.evaluation, self.state);
        }
        self.evaluation.make_move(self.state.current_player, mov);
        self.update_hash(mov);
        self.state.make_move(mov);
        proof {
            lemma_update_matches_recount(
                pre.spec_evaluation(),
                self.spec_evaluation(),
                pre.state,
                mov,
            );
            lemma_hash_update(pre.spec_hasher(), pre.state, mov);
            let s2 = self.state;
            pre.state.pieces[pre.state.current_player as int].lemma_spec_set(mov.to as int);
            pre.state.pieces[pre.state.current_player as int].spec_set(
                mov.to as int,
            ).lemma_spec_unset(mov.from as int);
            assert(s2.pieces[pre.state.current_player as int].spec_bit(mov.to as int));
            if pre.state.current_player == 0 {
                let w = choose|i: int| 0 <= i < 256 && #[trigger] pre.state.pieces[1].spec_bit(i);
                assert(s2.pieces[1].spec_bit(w));
            } else {
                let w = choose|i: int| 0 <= i < 256 && #[trigger] pre.state.pieces[0].spec_bit(i);
                assert(s2.pieces[0].spec_bit(w));
            }
        }
    }

    /// Takes `mov` back on the internal position, restoring the exact
    /// prior state, hash and evaluation.
    fn internal_unmake_move(&mut self, mov: InternalMove, Ghost(prev): Ghost<InternalGameState>)
        requires
            old(self).wf(),
            prev.wf(),
            InternalGameState::spec_move_ok(prev, mov),
            old(self).state == InternalGameState::spec_make(prev, mov),
        ensures
            final (self).wf(),
            final (self).state == prev,
            final (self).spec_hash() == old(self).spec_hasher().spec_hash_of(prev),
            final (self).spec_tt() == old(self).spec_tt(),
            final (self).spec_hasher() == old(self).spec_hasher(),
            final (self).stop_condition == old(self).stop_condition,
            final (self).stop_condition_triggered == old(self).stop_condition_triggered,
            final (self).start == old(self).start,
            Evaluation::spec_bumped(
                old(self).spec_evaluation(),
                final (self).spec_evaluation(),
                prev.current_player as int,
                mov.spec_inverse(),
            ),
    {
        let ghost pre = *old(self);
        proof {
            lemma_unmake_reverses_make(prev, mov);
        }
        self.state.unmake_move(mov);
        proof {
            assert(self.state == prev);
        }
        self.update_hash_unmake(mov, Ghost(prev));
        proof {
            lemma_consistent_bounded(self.evaluation, pre.state);
        }
        self.evaluation.unmake_move(self.state.current_player, mov);
        proof {
            // The reverse bump on aggregates consistent with the made
            // position recounts to the unmade position.
            let s_mid = pre.state;
            let flipped = InternalGameState {
                current_player: prev.current_player,
                ..s_mid
            };
            assert(flipped.pieces == s_mid.pieces);
            assert(flipped.wf()) by {
                assert forall|i: int|
                    0 <= i < 256 implies !(#[trigger] flipped.pieces[0].spec_bit(i)
                    && flipped.pieces[1].spec_bit(i)) by {
                    assert(!(s_mid.pieces[0].spec_bit(i) && s_mid.pieces[1].spec_bit(i)));
                }
                assert forall|i: int|
                    0 <= i < 256 && #[trigger] flipped.occ(i) implies
                crate::bitboard::spec_valid_cell(i) by {
                    assert(s_mid.occ(i));
                }
            }
            let p = prev.current_player as int;
            assert(InternalGameState::spec_move_ok(flipped, mov.spec_inverse())) by {
                prev.pieces[p].lemma_spec_set(mov.to as int);
                prev.pieces[p].spec_set(mov.to as int).lemma_spec_unset(mov.from as int);
                assert(flipped.pieces[p].spec_bit(mov.to as int));
                assert(!flipped.pieces[p].spec_bit(mov.from as int));
                assert(!flipped.pieces[1 - p].spec_bit(mov.from as int));
            }
            assert(self.evaluation.consistent_with(
                InternalGameState::spec_make(flipped, mov.spec_inverse()),
            )) by {
                assert(pre.spec_evaluation().consistent_with(flipped));
                lemma_update_matches_recount(
                    pre.spec_evaluation(),
                    self.spec_evaluation(),
                    flipped,
                    mov.spec_inverse(),
                );
            }
            let back = InternalGameState::spec_make(flipped, mov.spec_inverse());
            assert(back.pieces[0] == prev.pieces[0] && back.pieces[1] == prev.pieces[1]) by {
                lemma_unmake_reverses_make(prev, mov);
                assert(back.pieces =~= InternalGameState::spec_unmake(s_mid, mov).pieces);
            }
            assert(self.evaluation.consistent_with(prev));
        }
    }

    /// Decides whether the search must wind down: the root never stops,
    /// a triggered stop stays triggered, and on a time budget the clock
    /// is polled every 2048 visited nodes with a safety margin growing
    /// with the ply.  Under a fixed-depth condition nothing here ever
    /// stops the search.
    fn should_stop(&mut self, ply: Ply) -> (r: bool)
        requires
            old(self).wf(),
        ensures
            final (self).wf(),
            *final (self) == (AI {
                stop_condition_triggered: final (self).stop_condition_triggered,
                ..*old(self)
            }),
            ply == 0 ==> r == false && *final (self) == *old(self),
            old(self).stop_condition_triggered ==> final (self).stop_condition_triggered,
            final (self).stop_condition_triggered == (old(self).stop_condition_triggered || (r
                && ply != 0)),
            old(self).stop_condition is Depth ==> *final (self) == *old(self) && r == (ply != 0
                && old(self).stop_condition_triggered),
            ply != 0 && old(self).stop_condition_triggered ==> r,
    {
        if ply == 0 {
            return false;
        }
        if self.stop_condition_triggered {
            return true;
        }
        if self.visited_nodes & 0x7FF == 0 {
            if let StopCondition::Time(budget) = self.stop_condition {
                let elapsed = duration_millis(&instant_elapsed(&self.start));
                let margin = (ply as u64) * 4;
                if elapsed >= budget || budget - elapsed < margin {
                    self.stop_condition_triggered = true;
                    return true;
                }
            }
        }
        false
    }

    /// The static evaluation of the current position.
    fn evaluate_here(&self) -> (r: Score)
        requires
            self.wf(),
        ensures
            r == self.spec_evaluation().spec_eval_value(self.state),
            -WINNING_SCORE < r < WINNING_SCORE,
    {
        proof {
            lemma_consistent_bounded(self.evaluation, self.state);
            lemma_rows_nonzero(self.evaluation, self.state);
        }
        self.evaluation.evaluate(&self.state)
    }

    /// Reads the table entry of the current position and turns it into
    /// an early answer where its depth suffices: an exact score, or a
    /// window edge its bound proves; anything shallower or absent gives
    /// no answer.
    fn get_transposition_score(&self, alpha: Score, beta: Score, depth: Depth) -> (r: Option<
        (Score, bool),
    >)
        requires
            self.wf(),
            -WINNING_SCORE <= alpha,
            alpha <= beta,
            beta <= WINNING_SCORE,
        ensures
            r == (match self.spec_tt().spec_at(self.spec_hash()) {
                None => None::<(Score, bool)>,
                Some(t) => if t.depth < depth {
                    None::<(Score, bool)>
                } else {
                    match t.evaluation {
                        ScoreType::Exact(score) => Some((score, true)),
                        ScoreType::LowerBound(lower_bound) => if lower_bound >= beta {
                            Some((beta, false))
                        } else {
                            None::<(Score, bool)>
                        },
                        ScoreType::UpperBound(upper_bound) => if upper_bound <= alpha {
                            Some((alpha, false))
                        } else {
                            None::<(Score, bool)>
                        },
                    }
                },
            }),
            match r {
                Some((score, _)) => -WINNING_SCORE <= score <= WINNING_SCORE,
                None => true,
            },
    {
        let tt_entry = self.main_tt.get(self.hash);

        if let Some(transposition) = tt_entry {
            proof {
                self.spec_tt().lemma_index_in_range(self.spec_hash());
                assert(spec_entry_bounded(transposition));
            }
            // An entry searched shallower than the current request says
            // nothing useful.
            if transposition.depth < depth {
                return None;
            }

            match transposition.evaluation {
                ScoreType::Exact(score) => {
                    return Some((score, true));
                },
                ScoreType::LowerBound(lower_bound) => {
                    if lower_bound >= beta {
                        return Some((beta, false));
                    }
                },
                ScoreType::UpperBound(upper_bound) => {
                    if upper_bound <= alpha {
                        return Some((alpha, false));
                    }
                },
            }
        }
        None
    }

    /// Stores a search result for the current position: with a best move
    /// present, the slot of the current hash takes the new entry exactly
    /// when it was empty or the replacement policy yields; no other slot
    /// and no other field of the engine changes.
    fn insert_transposition(
        &mut self,
        evaluation: ScoreType,
        best_move: Option<InternalMove>,
        depth: Depth,
        pv: bool,
    )
        requires
            old(self).wf(),
            spec_entry_bounded(
                (Transposition {
                    evaluation,
                    best_move: (InternalMove { from: 0, to: 0 }),
                    depth,
                    ply: 0,
                }),
            ),
        ensures
            final (self).wf(),
            *final (self) == (AI { main_tt: final (self).main_tt, ..*old(self) }),
            final (self).spec_tt().spec_mask() == old(self).spec_tt().spec_mask(),
            final (self).spec_tt().spec_table() == (match best_move {
                None => old(self).spec_tt().spec_table(),
                Some(mov) => {
                    let entry = Transposition {
                        evaluation,
                        best_move: mov,
                        depth,
                        ply: old(self).state.ply,
                    };
                    let replace = match old(self).spec_tt().spec_at(old(self).spec_hash()) {
                        None => true,
                        Some(old_entry) => pv || old_entry.ply + 6 <= entry.ply
                            || old_entry.depth <= entry.depth,
                    };
                    if replace {
                        old(self).spec_tt().spec_table().update(
                            old(self).spec_tt().spec_index(old(self).spec_hash()),
                            Some(entry),
                        )
                    } else {
                        old(self).spec_tt().spec_table()
                    }
                },
            }),
    {
        let mov = match best_move {
            None => {
                return ;
            },
            Some(mov) => mov,
        };

        let transposition = Transposition {
            evaluation,
            best_move: mov,
            depth,
            ply: self.state.ply,
        };
        proof {
            assert(spec_entry_bounded(transposition));
        }

        let replace = match self.main_tt.get(self.hash) {
            None => true,
            Some(old_entry) => old_entry.should_be_replaced_by(&transposition, pv),
        };
        if replace {
            self.main_tt.insert(self.hash, transposition);
            proof {
                old(self).spec_tt().lemma_index_in_range(old(self).spec_hash());
                assert forall|k: int|
                    0 <= k < self.spec_tt().spec_table().len() implies (
                match #[trigger] self.spec_tt().spec_table()[k] {
                    Some(t) => spec_entry_bounded(t),
                    None => true,
                }) by {
                    if k != old(self).spec_tt().spec_index(old(self).spec_hash()) {
                        assert(self.spec_tt().spec_table()[k] == old(
                            self,
                        ).spec_tt().spec_table()[k]);
                    }
                }
                lemma_wf_same_boards(*old(self), *self);
            }
        }
    }

    /// The principal-variation search: full window on the first move,
    /// zero-window probes with re-search on the rest.  The position,
    /// hash and evaluation come back exactly as they went in, and the
    /// result lies within the winning bounds.
    fn search_pv(&mut self, ply: Ply, alpha: Score, beta: Score, depth: Depth) -> (r: Score)
        requires
            old(self).wf(),
            -WINNING_SCORE <= alpha < beta,
            beta <= WINNING_SCORE,
            0 <= depth,
            ply as int * 1000 + depth <= 400_000,
        ensures
            final (self).wf(),
            AI::frame(*old(self), *final (self)),
            -WINNING_SCORE <= r <= WINNING_SCORE,
            old(self).stop_condition is Depth && !old(self).stop_condition_triggered && old(
                self,
            ).state.spec_won(1 - old(self).state.current_player as int) ==> r == -WINNING_SCORE
                + ply,
            old(self).stop_condition is Depth && !old(self).stop_condition_triggered && !old(
                self,
            ).state.spec_won(1 - old(self).state.current_player as int) && depth < ONE_PLY ==> r
                == old(self).spec_evaluation().spec_eval_value(old(self).state),
        decreases depth, 1int,
    {
        if self.should_stop(ply) {
            return self.evaluate_here();
        }

        self.visited_nodes = self.visited_nodes.wrapping_add(1);

        // A position the opponent has already won scores as a loss,
        // preferring later losses over sooner ones.
        if self.state.won(1 - self.state.current_player) {
            return -WINNING_SCORE + ply as Score;
        }

        // Out of depth: stand on the static evaluation.
        if depth < ONE_PLY {
            return self.evaluate_here();
        }

        // A deep-enough table entry may answer immediately.
        if let Some((score, exact)) = self.get_transposition_score(alpha, beta, depth) {
            if exact {
                return score;
            }
        }

        let mut raised_alpha = false;
        let mut alpha = alpha;
        let mut best_move: Option<InternalMove> = None;

        let mut moves = MovePicker::new(self.state, self.hash);
        loop
            invariant
                self.wf(),
                AI::frame(*old(self), *self),
                moves.wf(),
                moves.spec_state() == self.state,
                !(old(self).stop_condition is Depth && !old(self).stop_condition_triggered && old(
                    self,
                ).state.spec_won(1 - old(self).state.current_player as int)),
                -WINNING_SCORE <= alpha < beta,
                beta <= WINNING_SCORE,
                ONE_PLY <= depth,
                ply as int * 1000 + depth <= 400_000,
                moves.spec_stage_rank() >= 0,
                moves.spec_moves_left() >= 0,
            ensures
                self.wf(),
                AI::frame(*old(self), *self),
                -WINNING_SCORE <= alpha < beta,
            decreases moves.spec_stage_rank(), moves.spec_moves_left(),
        {
            let mov = match moves.next(&self.main_tt) {
                None => { break ; },
                Some(mov) => mov,
            };
            let ghost prev_state = self.state;
            let ghost eval_before = self.spec_evaluation();
            proof {
                lemma_consistent_bounded(self.spec_evaluation(), self.state);
            }
            self.internal_make_move(mov);
            let ghost eval_mid = self.spec_evaluation();
            let score: Score;
            if !raised_alpha {
                score = -self.search_pv((ply + 1) as Ply, -beta, -alpha, depth - ONE_PLY);
            } else {
                let null_score = -self.search_null((ply + 1) as Ply, -alpha, depth - ONE_PLY);
                if null_score > alpha {
                    score = -self.search_pv((ply + 1) as Ply, -beta, -alpha, depth - ONE_PLY);
                } else {
                    score = null_score;
                }
            }
            self.internal_unmake_move(mov, Ghost(prev_state));
            proof {
                crate::evaluation::lemma_bump_reverses(
                    eval_before,
                    eval_mid,
                    self.spec_evaluation(),
                    prev_state.current_player as int,
                    mov,
                );
            }

            if score >= beta {
                self.insert_transposition(ScoreType::LowerBound(beta), Some(mov), depth, true);
                return beta;
            }

            if score > alpha {
                raised_alpha = true;
                best_move = Some(mov);
                alpha = score;
            }
        }

        if raised_alpha {
            self.insert_transposition(ScoreType::Exact(alpha), best_move, depth, true);
        } else {
            self.insert_transposition(ScoreType::UpperBound(alpha), best_move, depth, true);
        }

        alpha
    }

    /// The zero-window search: a fixed window of one point around
    /// `beta - 1`, used to test whether a move can beat the current
    /// best.
    fn search_null(&mut self, ply: Ply, beta: Score, depth: Depth) -> (r: Score)
        requires
            old(self).wf(),
            -WINNING_SCORE < beta <= WINNING_SCORE,
            0 <= depth,
            ply as int * 1000 + depth <= 400_000,
        ensures
            final (self).wf(),
            AI::frame(*old(self), *final (self)),
            -WINNING_SCORE <= r <= WINNING_SCORE,
            old(self).stop_condition is Depth && !old(self).stop_condition_triggered && old(
                self,
            ).state.spec_won(1 - old(self).state.current_player as int) ==> r == -WINNING_SCORE
                + ply,
            old(self).stop_condition is Depth && !old(self).stop_condition_triggered && !old(
                self,
            ).state.spec_won(1 - old(self).state.current_player as int) && depth < ONE_PLY ==> r
                == old(self).spec_evaluation().spec_eval_value(old(self).state),
        decreases depth, 0int,
    {
        if self.should_stop(ply) {
            return self.evaluate_here();
        }

        self.visited_nodes = self.visited_nodes.wrapping_add(1);

        if self.state.won(1 - self.state.current_player) {
            return -WINNING_SCORE + ply as Score;
        }

        if depth < ONE_PLY {
            return self.evaluate_here();
        }

        let alpha = beta - 1;

        if let Some((score, exact)) = self.get_transposition_score(alpha, beta, depth) {
            if exact {
                return score;
            }
            if score >= beta {
                return beta;
            }
        }

        let mut moves = MovePicker::new(self.state, self.hash);
        loop
            invariant
                self.wf(),
                AI::frame(*old(self), *self),
                moves.wf(),
                moves.spec_state() == self.state,
                !(old(self).stop_condition is Depth && !old(self).stop_condition_triggered && old(
                    self,
                ).state.spec_won(1 - old(self).state.current_player as int)),
                -WINNING_SCORE < beta <= WINNING_SCORE,
                alpha == beta - 1,
                ONE_PLY <= depth,
                ply as int * 1000 + depth <= 400_000,
                moves.spec_stage_rank() >= 0,
                moves.spec_moves_left() >= 0,
            ensures
                self.wf(),
                AI::frame(*old(self), *self),
            decreases moves.spec_stage_rank(), moves.spec_moves_left(),
        {
            let mov = match moves.next(&self.main_tt) {
                None => { break ; },
                Some(mov) => mov,
            };
            let ghost prev_state = self.state;
            let ghost eval_before = self.spec_evaluation();
            proof {
                lemma_consistent_bounded(self.spec_evaluation(), self.state);
            }
            self.internal_make_move(mov);
            let ghost eval_mid = self.spec_evaluation();
            let score = -self.search_null((ply + 1) as Ply, -alpha, depth - ONE_PLY);
            self.internal_unmake_move(mov, Ghost(prev_state));
            proof {
                crate::evaluation::lemma_bump_reverses(
                    eval_before,
                    eval_mid,
                    self.spec_evaluation(),
                    prev_state.current_player as int,
                    mov,
                );
            }

            if score >= beta {
                self.insert_transposition(ScoreType::LowerBound(beta), Some(mov), depth, false);
                return beta;
            }
        }

        alpha
    }

    /// Runs the iterative-deepening search and hands back the chosen
    /// move: the table's best move for the root position when it is
    /// legal, else the first generated move; `None` only when the side
    /// to move has no move at all.  Deepening runs until the stop
    /// condition triggers, capped at 200 rounds, far beyond any
    /// reachable horizon.
    pub fn calculate_move(&mut self) -> (r: Option<Move>)
        requires
            old(self).wf(),
        ensures
            final (self).wf(),
            AI::frame(*old(self), *final (self)),
            match r {
                None => forall|f: int, t: int|
                    0 <= f < 256 && 0 <= t < 256 ==> !(final (self).state.pieces[final (self).state.current_player as int].spec_bit(
                        f,
                    ) && #[trigger] InternalGameState::spec_reachable(final (self).state, f, t)),
                Some(m) => {
                    &&& 0 <= m.from.0 < 13
                    &&& 0 <= m.from.1 < 17
                    &&& 0 <= m.to.0 < 13
                    &&& 0 <= m.to.1 < 17
                    &&& InternalGameState::spec_move_ok(
                        final (self).state,
                        (InternalMove {
                            from: crate::bitboard::spec_pos_to_index(
                                m.from.0 as int,
                                m.from.1 as int,
                            ) as u8,
                            to: crate::bitboard::spec_pos_to_index(
                                m.to.0 as int,
                                m.to.1 as int,
                            ) as u8,
                        }),
                    )
                    &&& InternalGameState::spec_reachable(
                        final (self).state,
                        crate::bitboard::spec_pos_to_index(m.from.0 as int, m.from.1 as int),
                        crate::bitboard::spec_pos_to_index(m.to.0 as int, m.to.1 as int),
                    )
                },
            },
    {
        self.visited_nodes = 0;
        self.stop_condition_triggered = false;
        self.start = instant_now();

        let alpha = -WINNING_SCORE;
        let beta = WINNING_SCORE;
        let mut d: Depth = 1;
        while d <= 200
            invariant
                self.wf(),
                AI::frame(*old(self), *self),
                alpha == -WINNING_SCORE,
                beta == WINNING_SCORE,
                1 <= d <= 201,
            decreases 201 - d,
        {
            let stop = match self.stop_condition {
                StopCondition::Depth(stop_depth) => stop_depth < d,
                StopCondition::Time(budget) => {
                    let elapsed = duration_millis(&instant_elapsed(&self.start));
                    elapsed >= budget || budget - elapsed < 50
                },
            };
            if stop {
                self.stop_condition_triggered = true;
                break ;
            }
            let _score = self.search_pv(0, alpha, beta, d * ONE_PLY);
            d += 1;
        }

        // The move comes from the table's entry for the root position,
        // validated for legality; a missing or colliding entry falls
        // back to the first generated move.
        let mut best: Option<InternalMove> = None;
        if let Some(transposition) = self.main_tt.get(self.hash) {
            let mov = transposition.best_move;
            let cp = self.state.current_player as usize;
            if self.state.pieces[cp].get_bit(mov.from) {
                let reachable = self.state.reachable_from(mov.from);
                if reachable.get_bit(mov.to) {
                    proof {
                        assert(self.state.occ(mov.from as int));
                        assert(InternalGameState::spec_reachable(
                            self.state,
                            mov.from as int,
                            mov.to as int,
                        ));
                    }
                    best = Some(mov);
                }
            }
        }
        if best.is_none() {
            // Search exhaustion or a colliding root entry: fall back to
            // the first generated move; only a position with no move at
            // all yields nothing.
            let generated = self.state.possible_moves();
            if generated.len() > 0 {
                best = Some(generated[0]);
            } else {
                proof {
                    assert forall|f: int, t: int|
                        0 <= f < 256 && 0 <= t < 256 implies !(self.state.pieces[self.state.current_player as int].spec_bit(
                        f,
                    ) && #[trigger] InternalGameState::spec_reachable(self.state, f, t)) by {
                        if self.state.pieces[self.state.current_player as int].spec_bit(f)
                            && InternalGameState::spec_reachable(self.state, f, t) {
                            assert(InternalGameState::spec_has_move(generated@, f, t));
                        }
                    }
                }
                return None;
            }
        }

        match best {
            None => None,
            Some(mov) => {
                proof {
                    crate::bitboard::lemma_valid_cell_bounds(mov.from as int);
                    crate::bitboard::lemma_valid_cell_bounds(mov.to as int);
                }
                let m = mov.to_move();
                Some(m)
            },
        }
    }

    /// XORs the inverse move's delta into the hash, which lands back on
    /// the unmade position's hash.
    fn update_hash_unmake(&mut self, mov: InternalMove, Ghost(prev): Ghost<InternalGameState>)
        requires
            old(self).spec_hasher().wf(),
            prev.wf(),
            InternalGameState::spec_move_ok(prev, mov),
            old(self).state == prev,
            old(self).spec_hash() == old(self).spec_hasher().spec_hash_of(
                InternalGameState::spec_make(prev, mov),
            ),
        ensures
            *final (self) == (AI { hash: final (self).spec_hash(), ..*old(self) }),
            final (self).spec_hash() == old(self).spec_hasher().spec_hash_of(prev),
    {
        let delta = self.hasher.update(self.state.current_player, mov.inverse());
        self.hash = self.hash ^ delta;
        proof {
            let h = self.spec_hasher();
            let p = prev.current_player as int;
            let u = h.spec_update(p, mov);
            let ui = h.spec_update(p, mov.spec_inverse());
            assert(ui == u) by {
                let tf = if p == 0 {
                    h.spec_t0()[mov.from as int]
                } else {
                    h.spec_t1()[mov.from as int]
                };
                let tt_ = if p == 0 {
                    h.spec_t0()[mov.to as int]
                } else {
                    h.spec_t1()[mov.to as int]
                };
                assert(tt_ ^ tf == tf ^ tt_) by {
                    crate::hasher::lemma_xor_swap_args(tt_, tf);
                }
            }
            lemma_hash_update(h, prev, mov);
            lemma_xor_cancel(h.spec_hash_of(prev), u);
        }
    }
}

} // verus!
