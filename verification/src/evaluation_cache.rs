//! A standalone evaluation cache: the same per-player aggregates as the
//! search's evaluation, scored with each constituent normalised to the
//! range of a hundred thousand.

use vstd::prelude::*;

use crate::evaluation::Evaluation;
use crate::evaluation::Score;
use crate::evaluation::div_trunc;
use crate::evaluation::first_nz;
use crate::evaluation::last_nz;
use crate::evaluation::lemma_cent_score_bounds;
use crate::evaluation::lemma_first_nz_char;
use crate::evaluation::lemma_last_nz_char;
use crate::evaluation::spec_cent_score;
use crate::evaluation::spec_div_trunc;
use crate::evaluation::spec_mismatch;
use crate::state::InternalGameState;
use crate::state::InternalMove;

verus! {

/// The evaluation aggregates with normalised scoring.
pub struct EvaluationCache {
    inner: Evaluation,
}

impl EvaluationCache {
    /// The underlying aggregates.
    pub closed spec fn spec_inner(self) -> Evaluation {
        self.inner
    }

    /// Builds the cache by scanning the board from scratch.
    pub fn new(s: &InternalGameState) -> (r: EvaluationCache)
        requires
            s.wf(),
        ensures
            r.spec_inner().consistent_with(*s),
            r.spec_inner().bounded(),
    {
        EvaluationCache { inner: Evaluation::new(s) }
    }

    /// Updates the aggregates for the move `mov` of `player`.
    pub fn update(&mut self, player: u8, mov: InternalMove)
        requires
            player < 2,
            old(self).spec_inner().bounded(),
            crate::bitboard::spec_valid_cell(mov.from as int),
            crate::bitboard::spec_valid_cell(mov.to as int),
        ensures
            Evaluation::spec_bumped(
                old(self).spec_inner(),
                final (self).spec_inner(),
                player as int,
                mov,
            ),
    {
        self.inner.make_move(player, mov);
    }

    /// Kind mismatch balance, scaled to a hundred-thousand range.
    pub fn score_kinds(&self) -> (r: Score)
        requires
            self.spec_inner().bounded(),
        ensures
            r == spec_div_trunc(
                100000 * (spec_mismatch(
                    self.spec_inner().spec_tkinds1(),
                    self.spec_inner().spec_kinds1(),
                ) - spec_mismatch(
                    self.spec_inner().spec_tkinds0(),
                    self.spec_inner().spec_kinds0(),
                )),
                12,
            ),
    {
        let balance = self.inner.score_kinds();
        proof {
            assert(-8192 <= balance <= 8192);
        }
        div_trunc(100_000 * balance, 12)
    }

    /// Total distance balance, scaled to a hundred-thousand range.
    pub fn score_total_distance(&self) -> (r: Score)
        requires
            self.spec_inner().bounded(),
        ensures
            r == spec_div_trunc(
                100000 * (self.spec_inner().spec_dist1() - self.spec_inner().spec_dist0()),
                209,
            ),
    {
        let balance = self.inner.score_total_distance_raw();
        proof {
            assert(-16384 <= balance <= 16384);
        }
        div_trunc(100_000 * balance, 209)
    }

    /// Most advanced piece balance, scaled to a hundred-thousand range.
    pub fn score_dist_first_piece(&self) -> (r: Score)
        requires
            self.spec_inner().bounded(),
            last_nz(self.spec_inner().spec_ys0(), 17) >= 0,
            first_nz(self.spec_inner().spec_ys1(), 17) < 17,
        ensures
            r == spec_div_trunc(
                100000 * (first_nz(self.spec_inner().spec_ys1(), 17) - (16 - last_nz(
                    self.spec_inner().spec_ys0(),
                    17,
                ))),
                13,
            ),
    {
        proof {
            lemma_first_nz_char(self.spec_inner().spec_ys1(), 17);
            lemma_last_nz_char(self.spec_inner().spec_ys0(), 17);
        }
        let balance = self.inner.score_dist_first_piece_raw();
        div_trunc(100_000 * balance, 13)
    }

    /// Least advanced piece balance, scaled to a hundred-thousand range.
    pub fn score_dist_last_piece(&self) -> (r: Score)
        requires
            self.spec_inner().bounded(),
            first_nz(self.spec_inner().spec_ys0(), 17) < 17,
            last_nz(self.spec_inner().spec_ys1(), 17) >= 0,
        ensures
            r == spec_div_trunc(
                100000 * (last_nz(self.spec_inner().spec_ys1(), 17) - (16 - first_nz(
                    self.spec_inner().spec_ys0(),
                    17,
                ))),
                17,
            ),
    {
        proof {
            lemma_first_nz_char(self.spec_inner().spec_ys0(), 17);
            lemma_last_nz_char(self.spec_inner().spec_ys1(), 17);
        }
        let balance = self.inner.score_dist_last_piece();
        div_trunc(100_000 * balance, 17)
    }

    /// Centralisation balance with the wide neutral zone, scaled to a
    /// hundred-thousand range.
    pub fn score_centralization(&self) -> (r: Score)
        requires
            self.spec_inner().bounded(),
        ensures
            r == spec_div_trunc(
                100000 * (spec_cent_score(self.spec_inner().spec_cent1(), 3, 13)
                    - spec_cent_score(self.spec_inner().spec_cent0(), 3, 13)),
                100,
            ),
    {
        proof {
            lemma_cent_score_bounds(self.spec_inner().spec_cent0(), 3, 13, 512);
            lemma_cent_score_bounds(self.spec_inner().spec_cent1(), 3, 13, 512);
        }
        let balance = self.inner.score_centralization_wide();
        div_trunc(100_000 * balance, 100)
    }
}

} // verus!
