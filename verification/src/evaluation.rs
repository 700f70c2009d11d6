//! The incrementally maintained positional evaluation: per-parity kind
//! counts, per-row counts, total distance to the goal side and a
//! centralisation histogram for each player, updated on every move and
//! provably equal to a from-scratch recount of the board.

use vstd::prelude::*;

use crate::bitboard::Bitboard;
use crate::bitboard::index_to_pos;
use crate::bitboard::lemma_valid_cell_bounds;
use crate::bitboard::spec_index_to_pos;
use crate::bitboard::spec_valid_cell;
use crate::game::GameState;
use crate::state::InternalGameState;
use crate::state::InternalMove;

verus! {

/// A signed evaluation score; positive favours the side to move.
pub type Score = i64;

/// Column of the cell with index `i`.
pub open spec fn cell_x(i: int) -> int {
    spec_index_to_pos(i).0
}

/// Row of the cell with index `i`.
pub open spec fn cell_y(i: int) -> int {
    spec_index_to_pos(i).1
}

/// The parity class of the cell `(x, y)`: a piece can only ever reach
/// cells of its own class by slides and jumps of the star grid.
pub open spec fn spec_kind(x: int, y: int) -> int {
    2 * ((x + y / 2) % 2) + y % 2
}

/// The parity class of a cell, over grid coordinates.
pub fn kind(x: i8, y: i8) -> (r: usize)
    requires
        0 <= x < 13,
        0 <= y < 17,
    ensures
        r as int == spec_kind(x as int, y as int),
        r < 4,
{
    (2 * ((x + y / 2) % 2) + y % 2) as usize
}

/// Horizontal distance of `(x, y)` from the centre column, allowing for
/// the half-cell offset of odd rows.
pub open spec fn spec_dist_center(x: int, y: int) -> int {
    let a = if 6 - x >= 0 {
        6 - x
    } else {
        x - 6
    };
    let b = if x - (6 + y % 2) >= 0 {
        x - 6 - y % 2
    } else {
        6 + y % 2 - x
    };
    if a <= b {
        a
    } else {
        b
    }
}

/// Horizontal distance from the centre column.
pub fn distance_to_center(x: i8, y: i8) -> (r: i8)
    requires
        0 <= x < 13,
        0 <= y < 17,
    ensures
        r as int == spec_dist_center(x as int, y as int),
        0 <= r < 13,
{
    let a: i8 = if 6 - x >= 0 {
        6 - x
    } else {
        x - 6
    };
    let b: i8 = if x - (6 + y % 2) >= 0 {
        x - (6 + y % 2)
    } else {
        (6 + y % 2) - x
    };
    if a <= b {
        a
    } else {
        b
    }
}

/// Number of set bits `i < n` of `b` that satisfy `pred`.
pub open spec fn count_cells(b: Bitboard, pred: spec_fn(int) -> bool, n: int) -> int
    decreases n,
{
    if n <= 0 {
        0
    } else {
        count_cells(b, pred, n - 1) + if b.spec_bit(n - 1) && pred(n - 1) {
            1int
        } else {
            0int
        }
    }
}

/// Sum of `w(i)` over the set bits `i < n` of `b`.
pub open spec fn sum_cells(b: Bitboard, w: spec_fn(int) -> int, n: int) -> int
    decreases n,
{
    if n <= 0 {
        0
    } else {
        sum_cells(b, w, n - 1) + if b.spec_bit(n - 1) {
            w(n - 1)
        } else {
            0
        }
    }
}

/// A count lies between zero and the number of scanned cells.
pub proof fn lemma_count_bounds(b: Bitboard, pred: spec_fn(int) -> bool, n: int)
    requires
        n >= 0,
    ensures
        0 <= count_cells(b, pred, n) <= n,
    decreases n,
{
    if n > 0 {
        lemma_count_bounds(b, pred, n - 1);
    }
}

/// A sum of pointwise bounded weights is bounded by the cell count.
pub proof fn lemma_sum_bounds(b: Bitboard, w: spec_fn(int) -> int, n: int, lo: int, hi: int)
    requires
        n >= 0,
        lo <= 0,
        hi >= 0,
        forall|i: int| 0 <= i < n ==> lo <= #[trigger] w(i) <= hi,
    ensures
        n * lo <= sum_cells(b, w, n) <= n * hi,
    decreases n,
{
    if n == 0 {
        assert(n * lo == 0 && n * hi == 0) by (nonlinear_arith)
            requires
                n == 0,
        ;
    }
    if n > 0 {
        lemma_sum_bounds(b, w, n - 1, lo, hi);
        assert((n - 1) * lo + lo == n * lo && (n - 1) * hi + hi == n * hi) by (nonlinear_arith);
        assert(lo <= w(n - 1) <= hi);
        if b.spec_bit(n - 1) {
            assert(sum_cells(b, w, n) == sum_cells(b, w, n - 1) + w(n - 1));
        } else {
            assert(sum_cells(b, w, n) == sum_cells(b, w, n - 1));
        }
    }
}

/// Changing a board at one index changes a count by that index's
/// contribution alone.
pub proof fn lemma_count_one_diff(
    b1: Bitboard,
    b2: Bitboard,
    pred: spec_fn(int) -> bool,
    n: int,
    j: int,
)
    requires
        n >= 0,
        forall|i: int| 0 <= i < n && i != j ==> b1.spec_bit(i) == b2.spec_bit(i),
    ensures
        count_cells(b2, pred, n) == count_cells(b1, pred, n) + if 0 <= j < n && pred(j) {
            (if b2.spec_bit(j) {
                1int
            } else {
                0int
            }) - (if b1.spec_bit(j) {
                1int
            } else {
                0int
            })
        } else {
            0int
        },
    decreases n,
{
    if n > 0 {
        lemma_count_one_diff(b1, b2, pred, n - 1, j);
    }
}

/// Changing a board at one index changes a sum by that index's weight
/// alone.
pub proof fn lemma_sum_one_diff(b1: Bitboard, b2: Bitboard, w: spec_fn(int) -> int, n: int, j: int)
    requires
        n >= 0,
        forall|i: int| 0 <= i < n && i != j ==> b1.spec_bit(i) == b2.spec_bit(i),
    ensures
        sum_cells(b2, w, n) == sum_cells(b1, w, n) + if 0 <= j < n {
            ((if b2.spec_bit(j) {
                1int
            } else {
                0int
            }) - (if b1.spec_bit(j) {
                1int
            } else {
                0int
            })) * w(j)
        } else {
            0int
        },
    decreases n,
{
    if n > 0 {
        lemma_sum_one_diff(b1, b2, w, n - 1, j);
        if j == n - 1 {
            assert(((if b2.spec_bit(j) {
                1int
            } else {
                0int
            }) - (if b1.spec_bit(j) {
                1int
            } else {
                0int
            })) * w(j) == (if b2.spec_bit(j) {
                w(j)
            } else {
                0int
            }) - (if b1.spec_bit(j) {
                w(j)
            } else {
                0int
            })) by (nonlinear_arith);
        }
    }
}

/// A set bit that satisfies the predicate makes the count positive.
pub proof fn lemma_count_pos(b: Bitboard, pred: spec_fn(int) -> bool, n: int, i: int)
    requires
        0 <= i < n,
        b.spec_bit(i),
        pred(i),
    ensures
        count_cells(b, pred, n) >= 1,
    decreases n,
{
    lemma_count_bounds(b, pred, i);
    if n - 1 > i {
        lemma_count_pos(b, pred, n - 1, i);
        lemma_count_bounds(b, pred, n - 1);
    }
}

/// Any cell index decodes to a column below 13 and a row of at most 20.
pub proof fn lemma_cell_coord_range(i: int)
    requires
        0 <= i < 256,
    ensures
        0 <= cell_x(i) < 13,
        0 <= cell_y(i) <= 20,
{
}

/// The predicate selecting cells of parity class `k`.
pub open spec fn kind_pred(k: int) -> spec_fn(int) -> bool {
    |i: int| spec_kind(cell_x(i), cell_y(i)) == k
}

/// The predicate selecting cells of row `r`.
pub open spec fn row_pred(r: int) -> spec_fn(int) -> bool {
    |i: int| cell_y(i) == r
}

/// The predicate selecting cells at centre distance `d`.
pub open spec fn cent_pred(d: int) -> spec_fn(int) -> bool {
    |i: int| spec_dist_center(cell_x(i), cell_y(i)) == d
}

/// Rank distance of a cell to player 0's goal side (the last row).
pub open spec fn dist_weight0() -> spec_fn(int) -> int {
    |i: int| 16 - cell_y(i)
}

/// Rank distance of a cell to player 1's goal side (the first row).
pub open spec fn dist_weight1() -> spec_fn(int) -> int {
    |i: int| cell_y(i)
}

/// Number of cells of parity class `k` among the first `n` entries of a
/// goal-triangle list.
pub open spec fn count_kind_targets(ts: Seq<(i8, i8)>, k: int, n: int) -> int
    decreases n,
{
    if n <= 0 {
        0
    } else {
        count_kind_targets(ts, k, n - 1) + if spec_kind(
            ts[n - 1].0 as int,
            ts[n - 1].1 as int,
        ) == k {
            1int
        } else {
            0int
        }
    }
}

/// Absolute value.
pub open spec fn iabs(a: int) -> int {
    if a >= 0 {
        a
    } else {
        -a
    }
}

/// Truncating division, as the machine's signed division behaves.
pub open spec fn spec_div_trunc(a: int, b: int) -> int {
    if a >= 0 {
        a / b
    } else {
        -((-a) / b)
    }
}

/// A bucket sequence after one piece moved from bucket `f` to bucket `t`.
pub open spec fn bump(s: Seq<i64>, f: int, t: int) -> Seq<i64> {
    let s1 = s.update(f, (s[f] - 1) as i64);
    s1.update(t, (s1[t] + 1) as i64)
}

/// Least `j < n` with `s[j] != 0`, or `n` when the prefix is all zero.
pub open spec fn first_nz(s: Seq<i64>, n: int) -> int
    decreases n,
{
    if n <= 0 {
        0
    } else if first_nz(s, n - 1) < n - 1 {
        first_nz(s, n - 1)
    } else if s[n - 1] != 0 {
        n - 1
    } else {
        n
    }
}

/// Greatest `j < n` with `s[j] != 0`, or `-1` when the prefix is all zero.
pub open spec fn last_nz(s: Seq<i64>, n: int) -> int
    decreases n,
{
    if n <= 0 {
        -1
    } else if s[n - 1] != 0 {
        n - 1
    } else {
        last_nz(s, n - 1)
    }
}

/// What `first_nz` finds: the least non-zero entry of the prefix.
pub proof fn lemma_first_nz_char(s: Seq<i64>, n: int)
    requires
        n >= 0,
    ensures
        0 <= first_nz(s, n) <= n,
        first_nz(s, n) < n ==> s[first_nz(s, n)] != 0,
        forall|j: int| 0 <= j < first_nz(s, n) && j < n ==> s[j] == 0,
    decreases n,
{
    if n > 0 {
        lemma_first_nz_char(s, n - 1);
    }
}

/// What `last_nz` finds: the greatest non-zero entry of the prefix.
pub proof fn lemma_last_nz_char(s: Seq<i64>, n: int)
    requires
        n >= 0,
    ensures
        -1 <= last_nz(s, n) < n,
        last_nz(s, n) >= 0 ==> s[last_nz(s, n)] != 0,
        forall|j: int| last_nz(s, n) < j < n && 0 <= j ==> s[j] == 0,
    decreases n,
{
    if n > 0 {
        lemma_last_nz_char(s, n - 1);
    }
}

/// Sum over the four parity classes of how far a player's piece counts
/// are from the goal triangle's class counts.
pub open spec fn spec_mismatch(tk: Seq<i64>, hk: Seq<i64>) -> int {
    iabs(tk[0] - hk[0]) + iabs(tk[1] - hk[1]) + iabs(tk[2] - hk[2]) + iabs(tk[3] - hk[3])
}

/// Weighted centralisation score: entries at centre distance `d`
/// contribute `max(0, d - off)` each.
pub open spec fn spec_cent_score(s: Seq<i64>, off: int, n: int) -> int
    decreases n,
{
    if n <= 0 {
        0
    } else {
        spec_cent_score(s, off, n - 1) + if n - 1 - off > 0 {
            (n - 1 - off) * s[n - 1]
        } else {
            0
        }
    }
}

/// The centralisation score of a pointwise bounded histogram is bounded.
pub proof fn lemma_cent_score_bounds(s: Seq<i64>, off: int, n: int, m: int)
    requires
        n >= 0,
        off >= 0,
        m >= 0,
        forall|j: int| 0 <= j < n ==> -m <= #[trigger] s[j] <= m,
    ensures
        -(n * n * m) <= spec_cent_score(s, off, n) <= n * n * m,
    decreases n,
{
    if n > 0 {
        lemma_cent_score_bounds(s, off, n - 1, m);
        assert((n - 1) * (n - 1) * m + (n - 1) * m <= n * n * m && -(n * n * m) <= -((n - 1) * (n
            - 1) * m) - (n - 1) * m) by (nonlinear_arith)
            requires
                n >= 1,
                m >= 0,
        ;
        if n - 1 - off > 0 {
            assert(-((n - 1) * m) <= (n - 1 - off) * s[n - 1] <= (n - 1) * m) by (nonlinear_arith)
                requires
                    0 < n - 1 - off <= n - 1,
                    -m <= s[n - 1] <= m,
            ;
        }
    }
}

/// Number of destinations reachable by a piece standing on cell `i` of
/// `s`: slides into empty neighbours plus ends of jump chains.
pub open spec fn reach_count(s: InternalGameState, i: int) -> int {
    Set::new(|t: int| 0 <= t < 256 && InternalGameState::spec_reachable(s, i, t)).len() as int
}

/// The per-cell mobility weight of `s`.
pub open spec fn mobility_weight(s: InternalGameState) -> spec_fn(int) -> int {
    |i: int| reach_count(s, i)
}

/// Total number of destinations of `player`'s pieces in `s`.
pub open spec fn spec_mobility(s: InternalGameState, player: int) -> int {
    sum_cells(s.pieces[player], mobility_weight(s), 256)
}

/// Every cell's mobility weight lies between zero and the cell count.
pub proof fn lemma_mobility_weight_bounds(s: InternalGameState, i: int)
    ensures
        0 <= reach_count(s, i) <= 256,
{
    let reach = Set::new(|t: int| 0 <= t < 256 && InternalGameState::spec_reachable(s, i, t));
    let range = vstd::set_lib::set_int_range(0, 256);
    vstd::set_lib::lemma_int_range(0, 256);
    assert(reach.subset_of(range));
    vstd::set_lib::lemma_len_subset(reach, range);
}

/// Caches the five per-player aggregates of the evaluation.
pub struct Evaluation {
    p0_target_kinds: [i64; 4],
    p1_target_kinds: [i64; 4],
    p0_kinds: [i64; 4],
    p1_kinds: [i64; 4],
    p0_ys: [i64; 17],
    p1_ys: [i64; 17],
    p0_dist: i64,
    p1_dist: i64,
    p0_dist_to_center: [i64; 13],
    p1_dist_to_center: [i64; 13],
}

impl Evaluation {
    /// Kind counts of player 0.
    pub closed spec fn spec_kinds0(self) -> Seq<i64> {
        self.p0_kinds@
    }

    /// Kind counts of player 1.
    pub closed spec fn spec_kinds1(self) -> Seq<i64> {
        self.p1_kinds@
    }

    /// Row counts of player 0.
    pub closed spec fn spec_ys0(self) -> Seq<i64> {
        self.p0_ys@
    }

    /// Row counts of player 1.
    pub closed spec fn spec_ys1(self) -> Seq<i64> {
        self.p1_ys@
    }

    /// Total goal distance of player 0.
    pub closed spec fn spec_dist0(self) -> int {
        self.p0_dist as int
    }

    /// Total goal distance of player 1.
    pub closed spec fn spec_dist1(self) -> int {
        self.p1_dist as int
    }

    /// Centre-distance histogram of player 0.
    pub closed spec fn spec_cent0(self) -> Seq<i64> {
        self.p0_dist_to_center@
    }

    /// Centre-distance histogram of player 1.
    pub closed spec fn spec_cent1(self) -> Seq<i64> {
        self.p1_dist_to_center@
    }

    /// Kind counts of player 0's goal triangle.
    pub closed spec fn spec_tkinds0(self) -> Seq<i64> {
        self.p0_target_kinds@
    }

    /// Kind counts of player 1's goal triangle.
    pub closed spec fn spec_tkinds1(self) -> Seq<i64> {
        self.p1_target_kinds@
    }
}

impl Evaluation {
    /// The aggregates equal a from-scratch recount of the board `s`.
    pub open spec fn consistent_with(self, s: InternalGameState) -> bool {
        &&& forall|k: int|
            0 <= k < 4 ==> #[trigger] self.spec_kinds0()[k] == count_cells(
                s.pieces[0],
                kind_pred(k),
                256,
            )
        &&& forall|k: int|
            0 <= k < 4 ==> #[trigger] self.spec_kinds1()[k] == count_cells(
                s.pieces[1],
                kind_pred(k),
                256,
            )
        &&& forall|r: int|
            0 <= r < 17 ==> #[trigger] self.spec_ys0()[r] == count_cells(
                s.pieces[0],
                row_pred(r),
                256,
            )
        &&& forall|r: int|
            0 <= r < 17 ==> #[trigger] self.spec_ys1()[r] == count_cells(
                s.pieces[1],
                row_pred(r),
                256,
            )
        &&& self.spec_dist0() == sum_cells(s.pieces[0], dist_weight0(), 256)
        &&& self.spec_dist1() == sum_cells(s.pieces[1], dist_weight1(), 256)
        &&& forall|d: int|
            0 <= d < 13 ==> #[trigger] self.spec_cent0()[d] == count_cells(
                s.pieces[0],
                cent_pred(d),
                256,
            )
        &&& forall|d: int|
            0 <= d < 13 ==> #[trigger] self.spec_cent1()[d] == count_cells(
                s.pieces[1],
                cent_pred(d),
                256,
            )
        &&& forall|k: int|
            0 <= k < 4 ==> #[trigger] self.spec_tkinds0()[k] == count_kind_targets(
                GameState::spec_targets(0),
                k,
                15,
            )
        &&& forall|k: int|
            0 <= k < 4 ==> #[trigger] self.spec_tkinds1()[k] == count_kind_targets(
                GameState::spec_targets(1),
                k,
                15,
            )
    }

    /// All aggregates are small: they fit well below any overflow.
    pub open spec fn bounded(self) -> bool {
        &&& forall|k: int| 0 <= k < 4 ==> -512 <= #[trigger] self.spec_kinds0()[k] <= 512
        &&& forall|k: int| 0 <= k < 4 ==> -512 <= #[trigger] self.spec_kinds1()[k] <= 512
        &&& forall|r: int| 0 <= r < 17 ==> -512 <= #[trigger] self.spec_ys0()[r] <= 512
        &&& forall|r: int| 0 <= r < 17 ==> -512 <= #[trigger] self.spec_ys1()[r] <= 512
        &&& -8192 <= self.spec_dist0() <= 8192
        &&& -8192 <= self.spec_dist1() <= 8192
        &&& forall|d: int| 0 <= d < 13 ==> -512 <= #[trigger] self.spec_cent0()[d] <= 512
        &&& forall|d: int| 0 <= d < 13 ==> -512 <= #[trigger] self.spec_cent1()[d] <= 512
        &&& forall|k: int| 0 <= k < 4 ==> 0 <= #[trigger] self.spec_tkinds0()[k] <= 15
        &&& forall|k: int| 0 <= k < 4 ==> 0 <= #[trigger] self.spec_tkinds1()[k] <= 15
    }

    /// Builds the aggregates by scanning the board from scratch.
    #[verifier::rlimit(100)]
    #[verifier::spinoff_prover]
    pub fn new(s: &InternalGameState) -> (r: Evaluation)
        requires
            s.wf(),
        ensures
            r.consistent_with(*s),
            r.bounded(),
    {
        broadcast use vstd::array::group_array_axioms;

        let mut tk0: [i64; 4] = [0;4];
        let targets0 = GameState::targets(0);
        let mut t: usize = 0;
        while t < 15
            invariant
                t <= 15,
                targets0@ == GameState::spec_targets(0),
                forall|k: int|
                    0 <= k < 4 ==> #[trigger] tk0@[k] == count_kind_targets(
                        GameState::spec_targets(0),
                        k,
                        t as int,
                    ),
                forall|k: int| 0 <= k < 4 ==> 0 <= #[trigger] tk0@[k] <= t,
            decreases 15 - t,
        {
            let (x, y) = targets0[t];
            proof {
                assert(0 <= x < 13 && 0 <= y < 17);
            }
            let k = kind(x, y);
            tk0[k] = tk0[k] + 1;
            t += 1;
        }

        let mut tk1: [i64; 4] = [0;4];
        let targets1 = GameState::targets(1);
        let mut t: usize = 0;
        while t < 15
            invariant
                t <= 15,
                targets1@ == GameState::spec_targets(1),
                forall|k: int|
                    0 <= k < 4 ==> #[trigger] tk1@[k] == count_kind_targets(
                        GameState::spec_targets(1),
                        k,
                        t as int,
                    ),
                forall|k: int| 0 <= k < 4 ==> 0 <= #[trigger] tk1@[k] <= t,
            decreases 15 - t,
        {
            let (x, y) = targets1[t];
            proof {
                assert(0 <= x < 13 && 0 <= y < 17);
            }
            let k = kind(x, y);
            tk1[k] = tk1[k] + 1;
            t += 1;
        }

        let mut e = Evaluation {
            p0_target_kinds: tk0,
            p1_target_kinds: tk1,
            p0_kinds: [0; 4],
            p1_kinds: [0; 4],
            p0_ys: [0; 17],
            p1_ys: [0; 17],
            p0_dist: 0,
            p1_dist: 0,
            p0_dist_to_center: [0; 13],
            p1_dist_to_center: [0; 13],
        };

        let mut i: usize = 0;
        while i < 256
            invariant
                s.wf(),
                i <= 256,
                forall|k: int|
                    0 <= k < 4 ==> #[trigger] e.p0_kinds@[k] == count_cells(
                        s.pieces[0],
                        kind_pred(k),
                        i as int,
                    ),
                forall|k: int|
                    0 <= k < 4 ==> #[trigger] e.p1_kinds@[k] == count_cells(
                        s.pieces[1],
                        kind_pred(k),
                        i as int,
                    ),
                forall|r: int|
                    0 <= r < 17 ==> #[trigger] e.p0_ys@[r] == count_cells(
                        s.pieces[0],
                        row_pred(r),
                        i as int,
                    ),
                forall|r: int|
                    0 <= r < 17 ==> #[trigger] e.p1_ys@[r] == count_cells(
                        s.pieces[1],
                        row_pred(r),
                        i as int,
                    ),
                e.p0_dist == sum_cells(s.pieces[0], dist_weight0(), i as int),
                e.p1_dist == sum_cells(s.pieces[1], dist_weight1(), i as int),
                forall|d: int|
                    0 <= d < 13 ==> #[trigger] e.p0_dist_to_center@[d] == count_cells(
                        s.pieces[0],
                        cent_pred(d),
                        i as int,
                    ),
                forall|d: int|
                    0 <= d < 13 ==> #[trigger] e.p1_dist_to_center@[d] == count_cells(
                        s.pieces[1],
                        cent_pred(d),
                        i as int,
                    ),
                forall|k: int|
                    0 <= k < 4 ==> #[trigger] e.p0_target_kinds@[k] == count_kind_targets(
                        GameState::spec_targets(0),
                        k,
                        15,
                    ),
                forall|k: int|
                    0 <= k < 4 ==> #[trigger] e.p1_target_kinds@[k] == count_kind_targets(
                        GameState::spec_targets(1),
                        k,
                        15,
                    ),
                forall|k: int| 0 <= k < 4 ==> 0 <= #[trigger] e.p0_target_kinds@[k] <= 15,
                forall|k: int| 0 <= k < 4 ==> 0 <= #[trigger] e.p1_target_kinds@[k] <= 15,
            decreases 256 - i,
        {
            let in0 = s.pieces[0].get_bit(i as u8);
            let in1 = s.pieces[1].get_bit(i as u8);
            proof {
                assert(i as u8 as int == i as int);
                if in0 || in1 {
                    assert(s.occ(i as int));
                    lemma_valid_cell_bounds(i as int);
                }
                assert forall|k: int| 0 <= k < 4 implies 0 <= #[trigger] count_cells(
                    s.pieces[0],
                    kind_pred(k),
                    i as int,
                ) <= 256 && 0 <= count_cells(s.pieces[1], kind_pred(k), i as int) <= 256 by {
                    lemma_count_bounds(s.pieces[0], kind_pred(k), i as int);
                    lemma_count_bounds(s.pieces[1], kind_pred(k), i as int);
                }
                assert forall|r: int| 0 <= r < 17 implies 0 <= #[trigger] count_cells(
                    s.pieces[0],
                    row_pred(r),
                    i as int,
                ) <= 256 && 0 <= count_cells(s.pieces[1], row_pred(r), i as int) <= 256 by {
                    lemma_count_bounds(s.pieces[0], row_pred(r), i as int);
                    lemma_count_bounds(s.pieces[1], row_pred(r), i as int);
                }
                assert forall|d: int| 0 <= d < 13 implies 0 <= #[trigger] count_cells(
                    s.pieces[0],
                    cent_pred(d),
                    i as int,
                ) <= 256 && 0 <= count_cells(s.pieces[1], cent_pred(d), i as int) <= 256 by {
                    lemma_count_bounds(s.pieces[0], cent_pred(d), i as int);
                    lemma_count_bounds(s.pieces[1], cent_pred(d), i as int);
                }
                assert forall|j: int| 0 <= j < i as int implies -4 <= #[trigger] dist_weight0()(
                    j,
                ) <= 16 && 0 <= dist_weight1()(j) <= 20 by {
                    lemma_cell_coord_range(j);
                }
                lemma_sum_bounds(s.pieces[0], dist_weight0(), i as int, -4, 16);
                lemma_sum_bounds(s.pieces[1], dist_weight1(), i as int, 0, 20);
            }
            if in0 {
                let (x, y) = index_to_pos(i as u8);
                let k = kind(x, y);
                let d = distance_to_center(x, y);
                proof {
                    lemma_count_bounds(s.pieces[0], kind_pred(k as int), i as int);
                    lemma_count_bounds(s.pieces[0], row_pred(y as int), i as int);
                    lemma_count_bounds(s.pieces[0], cent_pred(d as int), i as int);
                    assert(e.p0_kinds@[k as int] == count_cells(
                        s.pieces[0],
                        kind_pred(k as int),
                        i as int,
                    ));
                    assert(e.p0_ys@[y as int] == count_cells(
                        s.pieces[0],
                        row_pred(y as int),
                        i as int,
                    ));
                    assert(e.p0_dist_to_center@[d as int] == count_cells(
                        s.pieces[0],
                        cent_pred(d as int),
                        i as int,
                    ));
                }
                e.p0_kinds[k] = e.p0_kinds[k] + 1;
                e.p0_ys[y as usize] = e.p0_ys[y as usize] + 1;
                e.p0_dist = e.p0_dist + (16 - y as i64);
                e.p0_dist_to_center[d as usize] = e.p0_dist_to_center[d as usize] + 1;
            } else if in1 {
                let (x, y) = index_to_pos(i as u8);
                let k = kind(x, y);
                let d = distance_to_center(x, y);
                proof {
                    lemma_count_bounds(s.pieces[1], kind_pred(k as int), i as int);
                    lemma_count_bounds(s.pieces[1], row_pred(y as int), i as int);
                    lemma_count_bounds(s.pieces[1], cent_pred(d as int), i as int);
                    assert(e.p1_kinds@[k as int] == count_cells(
                        s.pieces[1],
                        kind_pred(k as int),
                        i as int,
                    ));
                    assert(e.p1_ys@[y as int] == count_cells(
                        s.pieces[1],
                        row_pred(y as int),
                        i as int,
                    ));
                    assert(e.p1_dist_to_center@[d as int] == count_cells(
                        s.pieces[1],
                        cent_pred(d as int),
                        i as int,
                    ));
                }
                e.p1_kinds[k] = e.p1_kinds[k] + 1;
                e.p1_ys[y as usize] = e.p1_ys[y as usize] + 1;
                e.p1_dist = e.p1_dist + y as i64;
                e.p1_dist_to_center[d as usize] = e.p1_dist_to_center[d as usize] + 1;
            }
            i += 1;
        }
        proof {
            assert forall|j: int| 0 <= j < 256 implies -4 <= #[trigger] dist_weight0()(j) <= 16
                && 0 <= dist_weight1()(j) <= 20 by {
                lemma_cell_coord_range(j);
            }
            lemma_sum_bounds(s.pieces[0], dist_weight0(), 256, -4, 16);
            lemma_sum_bounds(s.pieces[1], dist_weight1(), 256, 0, 20);
            assert forall|k: int| 0 <= k < 4 implies -512 <= #[trigger] e.spec_kinds0()[k]
                <= 512 by {
                lemma_count_bounds(s.pieces[0], kind_pred(k), 256);
            }
            assert forall|k: int| 0 <= k < 4 implies -512 <= #[trigger] e.spec_kinds1()[k]
                <= 512 by {
                lemma_count_bounds(s.pieces[1], kind_pred(k), 256);
            }
            assert forall|r: int| 0 <= r < 17 implies -512 <= #[trigger] e.spec_ys0()[r] <= 512 by {
                lemma_count_bounds(s.pieces[0], row_pred(r), 256);
            }
            assert forall|r: int| 0 <= r < 17 implies -512 <= #[trigger] e.spec_ys1()[r] <= 512 by {
                lemma_count_bounds(s.pieces[1], row_pred(r), 256);
            }
            assert forall|d: int| 0 <= d < 13 implies -512 <= #[trigger] e.spec_cent0()[d]
                <= 512 by {
                lemma_count_bounds(s.pieces[0], cent_pred(d), 256);
            }
            assert forall|d: int| 0 <= d < 13 implies -512 <= #[trigger] e.spec_cent1()[d]
                <= 512 by {
                lemma_count_bounds(s.pieces[1], cent_pred(d), 256);
            }
            assert forall|k: int| 0 <= k < 4 implies 0 <= #[trigger] e.spec_tkinds0()[k] <= 15 by {
                assert(e.p0_target_kinds@[k] == e.spec_tkinds0()[k]);
            }
            assert forall|k: int| 0 <= k < 4 implies 0 <= #[trigger] e.spec_tkinds1()[k] <= 15 by {
                assert(e.p1_target_kinds@[k] == e.spec_tkinds1()[k]);
            }
        }
        e
    }

    /// How one move of `player` changes the aggregates: the relation
    /// between the cache before and after `make_move`.
    pub open spec fn spec_bumped(e1: Evaluation, e2: Evaluation, player: int, m: InternalMove) -> bool {
        let fx = cell_x(m.from as int);
        let fy = cell_y(m.from as int);
        let tx = cell_x(m.to as int);
        let ty = cell_y(m.to as int);
        let kf = spec_kind(fx, fy);
        let kt = spec_kind(tx, ty);
        let df = spec_dist_center(fx, fy);
        let dt = spec_dist_center(tx, ty);
        &&& e2.spec_tkinds0() == e1.spec_tkinds0()
        &&& e2.spec_tkinds1() == e1.spec_tkinds1()
        &&& (if player == 0 {
            &&& e2.spec_kinds0() == bump(e1.spec_kinds0(), kf, kt)
            &&& e2.spec_ys0() == bump(e1.spec_ys0(), fy, ty)
            &&& e2.spec_dist0() == e1.spec_dist0() + fy - ty
            &&& e2.spec_cent0() == bump(e1.spec_cent0(), df, dt)
            &&& e2.spec_kinds1() == e1.spec_kinds1()
            &&& e2.spec_ys1() == e1.spec_ys1()
            &&& e2.spec_dist1() == e1.spec_dist1()
            &&& e2.spec_cent1() == e1.spec_cent1()
        } else {
            &&& e2.spec_kinds1() == bump(e1.spec_kinds1(), kf, kt)
            &&& e2.spec_ys1() == bump(e1.spec_ys1(), fy, ty)
            &&& e2.spec_dist1() == e1.spec_dist1() + ty - fy
            &&& e2.spec_cent1() == bump(e1.spec_cent1(), df, dt)
            &&& e2.spec_kinds0() == e1.spec_kinds0()
            &&& e2.spec_ys0() == e1.spec_ys0()
            &&& e2.spec_dist0() == e1.spec_dist0()
            &&& e2.spec_cent0() == e1.spec_cent0()
        })
    }

    /// Updates the aggregates for the move `mov` of `player`.
    pub fn make_move(&mut self, player: u8, mov: InternalMove)
        requires
            player < 2,
            old(self).bounded(),
            spec_valid_cell(mov.from as int),
            spec_valid_cell(mov.to as int),
        ensures
            Self::spec_bumped(*old(self), *final (self), player as int, mov),
    {
        proof {
            lemma_valid_cell_bounds(mov.from as int);
            lemma_valid_cell_bounds(mov.to as int);
        }
        let (fx, fy) = index_to_pos(mov.from);
        let (tx, ty) = index_to_pos(mov.to);
        let kf = kind(fx, fy);
        let kt = kind(tx, ty);
        let df = distance_to_center(fx, fy) as usize;
        let dt = distance_to_center(tx, ty) as usize;
        proof {
            assert(self.spec_kinds0()[kf as int] == self.p0_kinds@[kf as int]);
            assert(self.spec_kinds0()[kt as int] == self.p0_kinds@[kt as int]);
            assert(self.spec_kinds1()[kf as int] == self.p1_kinds@[kf as int]);
            assert(self.spec_kinds1()[kt as int] == self.p1_kinds@[kt as int]);
            assert(self.spec_ys0()[fy as int] == self.p0_ys@[fy as int]);
            assert(self.spec_ys0()[ty as int] == self.p0_ys@[ty as int]);
            assert(self.spec_ys1()[fy as int] == self.p1_ys@[fy as int]);
            assert(self.spec_ys1()[ty as int] == self.p1_ys@[ty as int]);
            assert(self.spec_cent0()[df as int] == self.p0_dist_to_center@[df as int]);
            assert(self.spec_cent0()[dt as int] == self.p0_dist_to_center@[dt as int]);
            assert(self.spec_cent1()[df as int] == self.p1_dist_to_center@[df as int]);
            assert(self.spec_cent1()[dt as int] == self.p1_dist_to_center@[dt as int]);
        }
        if player == 0 {
            self.p0_kinds[kf] = self.p0_kinds[kf] - 1;
            self.p0_kinds[kt] = self.p0_kinds[kt] + 1;
            self.p0_ys[fy as usize] = self.p0_ys[fy as usize] - 1;
            self.p0_ys[ty as usize] = self.p0_ys[ty as usize] + 1;
            self.p0_dist = self.p0_dist + (fy as i64 - ty as i64);
            self.p0_dist_to_center[df] = self.p0_dist_to_center[df] - 1;
            self.p0_dist_to_center[dt] = self.p0_dist_to_center[dt] + 1;
        } else {
            self.p1_kinds[kf] = self.p1_kinds[kf] - 1;
            self.p1_kinds[kt] = self.p1_kinds[kt] + 1;
            self.p1_ys[fy as usize] = self.p1_ys[fy as usize] - 1;
            self.p1_ys[ty as usize] = self.p1_ys[ty as usize] + 1;
            self.p1_dist = self.p1_dist + (ty as i64 - fy as i64);
            self.p1_dist_to_center[df] = self.p1_dist_to_center[df] - 1;
            self.p1_dist_to_center[dt] = self.p1_dist_to_center[dt] + 1;
        }
        proof {
            broadcast use vstd::array::group_array_axioms;

            if player == 0 {
                assert(self.p0_kinds@ =~= bump(
                    old(self).spec_kinds0(),
                    spec_kind(cell_x(mov.from as int), cell_y(mov.from as int)),
                    spec_kind(cell_x(mov.to as int), cell_y(mov.to as int)),
                ));
                assert(self.p0_ys@ =~= bump(
                    old(self).spec_ys0(),
                    cell_y(mov.from as int),
                    cell_y(mov.to as int),
                ));
                assert(self.p0_dist_to_center@ =~= bump(
                    old(self).spec_cent0(),
                    spec_dist_center(cell_x(mov.from as int), cell_y(mov.from as int)),
                    spec_dist_center(cell_x(mov.to as int), cell_y(mov.to as int)),
                ));
            } else {
                assert(self.p1_kinds@ =~= bump(
                    old(self).spec_kinds1(),
                    spec_kind(cell_x(mov.from as int), cell_y(mov.from as int)),
                    spec_kind(cell_x(mov.to as int), cell_y(mov.to as int)),
                ));
                assert(self.p1_ys@ =~= bump(
                    old(self).spec_ys1(),
                    cell_y(mov.from as int),
                    cell_y(mov.to as int),
                ));
                assert(self.p1_dist_to_center@ =~= bump(
                    old(self).spec_cent1(),
                    spec_dist_center(cell_x(mov.from as int), cell_y(mov.from as int)),
                    spec_dist_center(cell_x(mov.to as int), cell_y(mov.to as int)),
                ));
            }
        }
    }

    /// Kind mismatch balance: the opponent's distance from a goal-shaped
    /// piece distribution minus the player's own.
    pub fn score_kinds(&self) -> (r: Score)
        requires
            self.bounded(),
        ensures
            r == spec_mismatch(self.spec_tkinds1(), self.spec_kinds1()) - spec_mismatch(
                self.spec_tkinds0(),
                self.spec_kinds0(),
            ),
    {
        proof {
            assert forall|k: int| 0 <= k < 4 implies -1024 <= #[trigger] self.p0_target_kinds@[k]
                <= 1024 by {
                assert(self.p0_target_kinds@[k] == self.spec_tkinds0()[k]);
            }
            assert forall|k: int| 0 <= k < 4 implies -1024 <= #[trigger] self.p1_target_kinds@[k]
                <= 1024 by {
                assert(self.p1_target_kinds@[k] == self.spec_tkinds1()[k]);
            }
            assert forall|k: int| 0 <= k < 4 implies -1024 <= #[trigger] self.p0_kinds@[k]
                <= 1024 by {
                assert(self.p0_kinds@[k] == self.spec_kinds0()[k]);
            }
            assert forall|k: int| 0 <= k < 4 implies -1024 <= #[trigger] self.p1_kinds@[k]
                <= 1024 by {
                assert(self.p1_kinds@[k] == self.spec_kinds1()[k]);
            }
        }
        let p0 = mismatch4(&self.p0_target_kinds, &self.p0_kinds);
        let p1 = mismatch4(&self.p1_target_kinds, &self.p1_kinds);
        p1 - p0
    }

    /// Rank of the least advanced piece of player 1 minus player 0's,
    /// as a difference of row indices.
    pub fn score_dist_last_piece(&self) -> (r: Score)
        requires
            self.bounded(),
            first_nz(self.spec_ys0(), 17) < 17,
            last_nz(self.spec_ys1(), 17) >= 0,
        ensures
            r == last_nz(self.spec_ys1(), 17) - (16 - first_nz(self.spec_ys0(), 17)),
    {
        let p0 = 16 - first_nonzero17(&self.p0_ys) as i64;
        let p1 = last_nonzero17(&self.p1_ys) as i64;
        p1 - p0
    }

    /// Total rank distance balance, with the least advanced pieces'
    /// contribution split out into `score_dist_last_piece`.
    pub fn score_total_distance(&self) -> (r: Score)
        requires
            self.bounded(),
            first_nz(self.spec_ys0(), 17) < 17,
            last_nz(self.spec_ys1(), 17) >= 0,
        ensures
            r == self.spec_dist1() - self.spec_dist0() - (last_nz(self.spec_ys1(), 17) - (16
                - first_nz(self.spec_ys0(), 17))),
    {
        proof {
            assert(self.p0_dist as int == self.spec_dist0() && self.p1_dist as int
                == self.spec_dist1());
            lemma_first_nz_char(self.spec_ys0(), 17);
            lemma_last_nz_char(self.spec_ys1(), 17);
        }
        let p0 = self.p0_dist;
        let p1 = self.p1_dist;
        p1 - p0 - self.score_dist_last_piece()
    }

    /// Centralisation balance: pieces far from the centre column count
    /// against their owner.
    pub fn score_centralization(&self) -> (r: Score)
        requires
            self.bounded(),
        ensures
            r == spec_cent_score(self.spec_cent1(), 1, 13) - spec_cent_score(
                self.spec_cent0(),
                1,
                13,
            ),
    {
        proof {
            assert forall|d: int| 0 <= d < 13 implies -1024 <= #[trigger] self.p0_dist_to_center@[d]
                <= 1024 by {
                assert(self.p0_dist_to_center@[d] == self.spec_cent0()[d]);
            }
            assert forall|d: int| 0 <= d < 13 implies -1024 <= #[trigger] self.p1_dist_to_center@[d]
                <= 1024 by {
                assert(self.p1_dist_to_center@[d] == self.spec_cent1()[d]);
            }
            lemma_cent_score_bounds(self.p0_dist_to_center@, 1, 13, 1024);
            lemma_cent_score_bounds(self.p1_dist_to_center@, 1, 13, 1024);
        }
        let p0 = cent_score13(&self.p0_dist_to_center, 1);
        let p1 = cent_score13(&self.p1_dist_to_center, 1);
        p1 - p0
    }

    /// Rank of the most advanced piece of player 1 minus player 0's, as
    /// a difference of row indices.
    pub fn score_dist_first_piece_raw(&self) -> (r: Score)
        requires
            self.bounded(),
            last_nz(self.spec_ys0(), 17) >= 0,
            first_nz(self.spec_ys1(), 17) < 17,
        ensures
            r == first_nz(self.spec_ys1(), 17) - (16 - last_nz(self.spec_ys0(), 17)),
    {
        let p0 = 16 - last_nonzero17(&self.p0_ys) as i64;
        let p1 = first_nonzero17(&self.p1_ys) as i64;
        p1 - p0
    }

    /// Centralisation balance with the wider neutral zone of three
    /// columns around the centre.
    pub fn score_centralization_wide(&self) -> (r: Score)
        requires
            self.bounded(),
        ensures
            r == spec_cent_score(self.spec_cent1(), 3, 13) - spec_cent_score(
                self.spec_cent0(),
                3,
                13,
            ),
    {
        proof {
            assert forall|d: int| 0 <= d < 13 implies -1024 <= #[trigger] self.p0_dist_to_center@[d]
                <= 1024 by {
                assert(self.p0_dist_to_center@[d] == self.spec_cent0()[d]);
            }
            assert forall|d: int| 0 <= d < 13 implies -1024 <= #[trigger] self.p1_dist_to_center@[d]
                <= 1024 by {
                assert(self.p1_dist_to_center@[d] == self.spec_cent1()[d]);
            }
        }
        let p0 = cent_score13(&self.p0_dist_to_center, 3);
        let p1 = cent_score13(&self.p1_dist_to_center, 3);
        proof {
            lemma_cent_score_bounds(self.p0_dist_to_center@, 3, 13, 1024);
            lemma_cent_score_bounds(self.p1_dist_to_center@, 3, 13, 1024);
        }
        p1 - p0
    }

    /// Total rank distance balance, unadjusted.
    pub fn score_total_distance_raw(&self) -> (r: Score)
        requires
            self.bounded(),
        ensures
            r == self.spec_dist1() - self.spec_dist0(),
    {
        proof {
            assert(self.p0_dist as int == self.spec_dist0() && self.p1_dist as int
                == self.spec_dist1());
        }
        self.p1_dist - self.p0_dist
    }

    /// Mobility balance: the total number of destinations of player 0's
    /// pieces minus player 1's.
    pub fn score_mobility(&self, state: &InternalGameState) -> (r: Score)
        requires
            state.wf(),
        ensures
            r == spec_mobility(*state, 0) - spec_mobility(*state, 1),
            -70000 <= r <= 70000,
    {
        let p0 = total_mobility(state, 0);
        let p1 = total_mobility(state, 1);
        p0 - p1
    }

    /// The deterministic part of the evaluation: the four incrementally
    /// maintained aggregates combined with fixed weights.
    pub open spec fn spec_static_eval(self) -> int {
        let dl = last_nz(self.spec_ys1(), 17) - (16 - first_nz(self.spec_ys0(), 17));
        let td = self.spec_dist1() - self.spec_dist0() - dl;
        let cent = spec_cent_score(self.spec_cent1(), 1, 13) - spec_cent_score(
            self.spec_cent0(),
            1,
            13,
        );
        let kinds = spec_mismatch(self.spec_tkinds1(), self.spec_kinds1()) - spec_mismatch(
            self.spec_tkinds0(),
            self.spec_kinds0(),
        );
        spec_div_trunc(100000 * dl, 17) + spec_div_trunc(100000 * td, 209) + spec_div_trunc(
            100000 * cent,
            100,
        ) + spec_div_trunc(100000 * kinds, 120)
    }

    /// The full evaluation of `state` from the side to move's point of
    /// view: the weighted aggregates plus twice the mobility balance,
    /// negated when player 1 is to move.
    pub open spec fn spec_eval_value(self, s: InternalGameState) -> int {
        let v = self.spec_static_eval() + 2 * (spec_mobility(s, 0) - spec_mobility(s, 1));
        if s.current_player == 0 {
            v
        } else {
            -v
        }
    }

    /// The full static evaluation from the side to move's point of view:
    /// the weighted aggregates plus a small mobility term.
    #[verifier::rlimit(100)]
    #[verifier::spinoff_prover]
    pub fn evaluate(&self, state: &InternalGameState) -> (r: Score)
        requires
            self.bounded(),
            state.wf(),
            first_nz(self.spec_ys0(), 17) < 17,
            last_nz(self.spec_ys1(), 17) >= 0,
        ensures
            r == self.spec_eval_value(*state),
            -900_000_000 < r < 900_000_000,
    {
        proof {
            lemma_first_nz_char(self.spec_ys0(), 17);
            lemma_last_nz_char(self.spec_ys1(), 17);
            lemma_cent_score_bounds(self.spec_cent0(), 1, 13, 512);
            lemma_cent_score_bounds(self.spec_cent1(), 1, 13, 512);
        }
        let dl = self.score_dist_last_piece();
        let td = self.score_total_distance();
        let cent = self.score_centralization();
        let kinds = self.score_kinds();
        let mob = self.score_mobility(state);
        proof {
            assert(-17 <= dl <= 16);
            assert(-16417 <= td <= 16417);
            assert(-173056 <= cent <= 173056);
            assert(-8192 <= kinds <= 8192);
        }
        let t1 = div_trunc(100_000 * dl, 17);
        let t2 = div_trunc(100_000 * td, 209);
        let t3 = div_trunc(100_000 * cent, 100);
        let t4 = div_trunc(100_000 * kinds, 120);
        let score = t1 + t2 + t3 + t4 + mob * 2;
        proof {
            assert(score == self.spec_static_eval() + 2 * (spec_mobility(*state, 0)
                - spec_mobility(*state, 1)));
        }
        let r = if state.current_player == 0 {
            score
        } else {
            -score
        };
        r
    }

    /// Reverts the aggregate update of `mov` by applying the reverse
    /// move.
    pub fn unmake_move(&mut self, player: u8, mov: InternalMove)
        requires
            player < 2,
            old(self).bounded(),
            spec_valid_cell(mov.from as int),
            spec_valid_cell(mov.to as int),
        ensures
            Self::spec_bumped(*old(self), *final (self), player as int, mov.spec_inverse()),
    {
        self.make_move(player, mov.inverse());
    }
}

/// Truncating signed division by a positive divisor.
pub(crate) fn div_trunc(num: i64, den: i64) -> (r: i64)
    requires
        0 < den,
        -0x4000_0000_0000_0000 < num < 0x4000_0000_0000_0000,
    ensures
        r as int == spec_div_trunc(num as int, den as int),
        -(if num >= 0 {
            num as int
        } else {
            -(num as int)
        }) <= r as int <= (if num >= 0 {
            num as int
        } else {
            -(num as int)
        }),
{
    let r = if num >= 0 {
        proof {
            lemma_div_pos_bound(num as int, den as int);
        }
        num / den
    } else {
        proof {
            lemma_div_pos_bound(-(num as int), den as int);
        }
        -((-num) / den)
    };
    r
}

/// A non-negative dividend bounds its quotient.
proof fn lemma_div_pos_bound(a: int, b: int)
    requires
        a >= 0,
        b >= 1,
    ensures
        0 <= a / b <= a,
{
    assert(0 <= a / b <= a) by (nonlinear_arith)
        requires
            a >= 0,
            b >= 1,
    ;
}

/// Sum of the four bucket mismatches between a goal distribution and a
/// piece distribution.
pub(crate) fn mismatch4(tk: &[i64; 4], hk: &[i64; 4]) -> (r: i64)
    requires
        forall|k: int| 0 <= k < 4 ==> -1024 <= #[trigger] tk@[k] <= 1024,
        forall|k: int| 0 <= k < 4 ==> -1024 <= #[trigger] hk@[k] <= 1024,
    ensures
        r as int == spec_mismatch(tk@, hk@),
{
    let mut r: i64 = 0;
    let d0 = tk[0] - hk[0];
    r = r + (if d0 >= 0 {
        d0
    } else {
        -d0
    });
    let d1 = tk[1] - hk[1];
    r = r + (if d1 >= 0 {
        d1
    } else {
        -d1
    });
    let d2 = tk[2] - hk[2];
    r = r + (if d2 >= 0 {
        d2
    } else {
        -d2
    });
    let d3 = tk[3] - hk[3];
    r = r + (if d3 >= 0 {
        d3
    } else {
        -d3
    });
    r
}

/// Index of the first non-zero row count.
pub(crate) fn first_nonzero17(arr: &[i64; 17]) -> (r: usize)
    requires
        first_nz(arr@, 17) < 17,
    ensures
        r as int == first_nz(arr@, 17),
        r < 17,
{
    let mut k: usize = 0;
    while k < 17
        invariant
            k <= 17,
            forall|j: int| 0 <= j < k ==> arr@[j] == 0,
        decreases 17 - k,
    {
        if arr[k] != 0 {
            proof {
                lemma_first_nz_char(arr@, 17);
                if first_nz(arr@, 17) < k as int {
                    assert(arr@[first_nz(arr@, 17)] != 0);
                }
            }
            return k;
        }
        k += 1;
    }
    proof {
        lemma_first_nz_char(arr@, 17);
        assert(arr@[first_nz(arr@, 17)] != 0);
        assert(false);
    }
    0
}

/// Index of the last non-zero row count.
pub(crate) fn last_nonzero17(arr: &[i64; 17]) -> (r: usize)
    requires
        last_nz(arr@, 17) >= 0,
    ensures
        r as int == last_nz(arr@, 17),
        r < 17,
{
    let mut k: usize = 17;
    while k > 0
        invariant
            k <= 17,
            forall|j: int| k <= j < 17 ==> arr@[j] == 0,
        decreases k,
    {
        k -= 1;
        if arr[k] != 0 {
            proof {
                lemma_last_nz_char(arr@, 17);
                if last_nz(arr@, 17) > k as int {
                    assert(arr@[last_nz(arr@, 17)] != 0);
                }
                if last_nz(arr@, 17) < k as int {
                    assert(arr@[k as int] == 0);
                }
            }
            return k;
        }
    }
    proof {
        lemma_last_nz_char(arr@, 17);
        assert(arr@[last_nz(arr@, 17)] != 0);
        assert(false);
    }
    0
}

/// Weighted centralisation score of one histogram: entries at distance
/// `d` count `max(0, d - off)` each.
pub(crate) fn cent_score13(arr: &[i64; 13], off: usize) -> (r: i64)
    requires
        forall|d: int| 0 <= d < 13 ==> -1024 <= #[trigger] arr@[d] <= 1024,
        off <= 3,
    ensures
        r as int == spec_cent_score(arr@, off as int, 13),
{
    let mut r: i64 = 0;
    let mut d: usize = 0;
    while d < 13
        invariant
            d <= 13,
            off <= 3,
            forall|j: int| 0 <= j < 13 ==> -1024 <= #[trigger] arr@[j] <= 1024,
            r as int == spec_cent_score(arr@, off as int, d as int),
            -13 * 13 * 1024 <= r <= 13 * 13 * 1024,
        decreases 13 - d,
    {
        proof {
            lemma_cent_score_bounds(arr@, off as int, d as int, 1024);
            lemma_cent_score_bounds(arr@, off as int, d as int + 1, 1024);
            assert((d as int) * (d as int) * 1024 <= 173056 && (d as int + 1) * (d as int + 1)
                * 1024 <= 173056) by (nonlinear_arith)
                requires
                    0 <= d as int <= 12,
            ;
        }
        if d > off {
            let w = (d - off) as i64;
            let v = arr[d];
            proof {
                assert(-12288 <= w * v <= 12288) by (nonlinear_arith)
                    requires
                        1 <= w <= 12,
                        -1024 <= v <= 1024,
                ;
            }
            r = r + w * v;
        }
        d += 1;
    }
    r
}

/// Total number of destinations of `player`'s pieces.
fn total_mobility(state: &InternalGameState, player: u8) -> (r: i64)
    requires
        state.wf(),
        player < 2,
    ensures
        r == spec_mobility(*state, player as int),
        0 <= r <= 65536,
{
    proof {
        assert forall|i: int| 0 <= i < 256 implies 0 <= #[trigger] mobility_weight(*state)(i)
            <= 256 by {
            lemma_mobility_weight_bounds(*state, i);
        }
        lemma_sum_bounds(state.pieces[player as int], mobility_weight(*state), 256, 0, 256);
    }
    let mut r: i64 = 0;
    let mut it = state.pieces[player as usize].ones();
    proof {
        crate::bitboard::lemma_bits_finite(it.spec_remaining());
    }
    loop
        invariant
            state.wf(),
            player < 2,
            it.spec_remaining().bits().finite(),
            forall|i: int| 0 <= i < 256 ==> 0 <= #[trigger] mobility_weight(*state)(i) <= 256,
            0 <= r,
            r + sum_cells(it.spec_remaining(), mobility_weight(*state), 256) == spec_mobility(
                *state,
                player as int,
            ),
            0 <= spec_mobility(*state, player as int) <= 65536,
            0 <= sum_cells(it.spec_remaining(), mobility_weight(*state), 256),
        ensures
            r == spec_mobility(*state, player as int),
        decreases it.spec_remaining().bits().len(),
    {
        let ghost prev = it.spec_remaining();
        let from = match it.next() {
            None => {
                proof {
                    lemma_sum_empty(it.spec_remaining(), mobility_weight(*state), 256);
                }
                break ;
            },
            Some(from) => from,
        };
        proof {
            assert(it.spec_remaining().bits() =~= prev.bits().remove(from as int));
            crate::bitboard::lemma_bits_finite(it.spec_remaining());
        }
        let reach = state.reachable_from(from);
        let count = reach.popcount();
        proof {
            let w = mobility_weight(*state);
            assert(reach.bits() =~= Set::new(
                |t: int| 0 <= t < 256 && InternalGameState::spec_reachable(*state, from as int, t),
            ));
            assert(count as int == w(from as int));
            lemma_sum_one_diff(it.spec_remaining(), prev, w, 256, from as int);
            assert(((1int - 0int) * w(from as int)) == w(from as int)) by (nonlinear_arith);
            assert(sum_cells(prev, w, 256) == sum_cells(it.spec_remaining(), w, 256) + w(
                from as int,
            ));
            lemma_sum_bounds(it.spec_remaining(), w, 256, 0, 256);
        }
        r = r + (count as i64);
    }
    r
}

/// The sum over a board with no set bits is zero.
proof fn lemma_sum_empty(b: Bitboard, w: spec_fn(int) -> int, n: int)
    requires
        n >= 0,
        forall|i: int| 0 <= i < 256 ==> !#[trigger] b.spec_bit(i),
        n <= 256,
    ensures
        sum_cells(b, w, n) == 0,
    decreases n,
{
    if n > 0 {
        lemma_sum_empty(b, w, n - 1);
    }
}

/// The incremental update agrees with a from-scratch recount/// The incremental update agrees with a from-scratch recount: aggregates
/// consistent with a position stay consistent after any legal move is
/// applied to both.
pub proof fn lemma_update_matches_recount(
    e1: Evaluation,
    e2: Evaluation,
    s: InternalGameState,
    m: InternalMove,
)
    requires
        s.wf(),
        InternalGameState::spec_move_ok(s, m),
        e1.consistent_with(s),
        Evaluation::spec_bumped(e1, e2, s.current_player as int, m),
    ensures
        e2.consistent_with(InternalGameState::spec_make(s, m)),
{
    broadcast use vstd::array::group_array_axioms;

    let p = s.current_player as int;
    let fi = m.from as int;
    let ti = m.to as int;
    let b = s.pieces[p];
    let bi = b.spec_set(ti);
    let b2 = bi.spec_unset(fi);
    let s2 = InternalGameState::spec_make(s, m);
    b.lemma_spec_set(ti);
    bi.lemma_spec_unset(fi);
    assert(s2.pieces[p] == b2);
    assert(s2.pieces[1 - p] == s.pieces[1 - p]);
    assert(!b.spec_bit(ti));
    assert(b.spec_bit(fi));
    assert(bi.spec_bit(ti) && bi.spec_bit(fi));
    assert(!b2.spec_bit(fi) && b2.spec_bit(ti));

    lemma_valid_cell_bounds(fi);
    lemma_valid_cell_bounds(ti);
    let fy = cell_y(fi);
    let ty = cell_y(ti);
    let kf = spec_kind(cell_x(fi), cell_y(fi));
    let kt = spec_kind(cell_x(ti), cell_y(ti));
    let df = spec_dist_center(cell_x(fi), cell_y(fi));
    let dt = spec_dist_center(cell_x(ti), cell_y(ti));

    assert forall|k: int| 0 <= k < 4 implies count_cells(b2, kind_pred(k), 256) == count_cells(
        b,
        kind_pred(k),
        256,
    ) + (if kt == k {
        1int
    } else {
        0int
    }) - (if kf == k {
        1int
    } else {
        0int
    }) by {
        lemma_count_one_diff(b, bi, kind_pred(k), 256, ti);
        lemma_count_one_diff(bi, b2, kind_pred(k), 256, fi);
        assert(kind_pred(k)(ti) == (kt == k));
        assert(kind_pred(k)(fi) == (kf == k));
    }
    assert forall|r: int| 0 <= r < 17 implies count_cells(b2, row_pred(r), 256) == count_cells(
        b,
        row_pred(r),
        256,
    ) + (if ty == r {
        1int
    } else {
        0int
    }) - (if fy == r {
        1int
    } else {
        0int
    }) by {
        lemma_count_one_diff(b, bi, row_pred(r), 256, ti);
        lemma_count_one_diff(bi, b2, row_pred(r), 256, fi);
        assert(row_pred(r)(ti) == (ty == r));
        assert(row_pred(r)(fi) == (fy == r));
    }
    assert forall|d: int| 0 <= d < 13 implies count_cells(b2, cent_pred(d), 256) == count_cells(
        b,
        cent_pred(d),
        256,
    ) + (if dt == d {
        1int
    } else {
        0int
    }) - (if df == d {
        1int
    } else {
        0int
    }) by {
        lemma_count_one_diff(b, bi, cent_pred(d), 256, ti);
        lemma_count_one_diff(bi, b2, cent_pred(d), 256, fi);
        assert(cent_pred(d)(ti) == (dt == d));
        assert(cent_pred(d)(fi) == (df == d));
    }
    if p == 0 {
        lemma_sum_one_diff(b, bi, dist_weight0(), 256, ti);
        lemma_sum_one_diff(bi, b2, dist_weight0(), 256, fi);
        assert(dist_weight0()(ti) == 16 - ty && dist_weight0()(fi) == 16 - fy);
        assert(0 <= ti < 256 && 0 <= fi < 256);
        assert(sum_cells(bi, dist_weight0(), 256) == sum_cells(b, dist_weight0(), 256) + ((if bi.spec_bit(ti) {
            1int
        } else {
            0int
        }) - (if b.spec_bit(ti) {
            1int
        } else {
            0int
        })) * dist_weight0()(ti));
        assert((1int - 0int) * dist_weight0()(ti) == dist_weight0()(ti)) by (nonlinear_arith);
        assert((0int - 1int) * dist_weight0()(fi) == -dist_weight0()(fi)) by (nonlinear_arith);
        assert(sum_cells(bi, dist_weight0(), 256) == sum_cells(b, dist_weight0(), 256) + (16 - ty));
        assert(sum_cells(b2, dist_weight0(), 256) == sum_cells(bi, dist_weight0(), 256) - (16 - fy));
        assert(sum_cells(b2, dist_weight0(), 256) == sum_cells(b, dist_weight0(), 256) + (16 - ty)
            - (16 - fy));
        assert(e2.spec_dist0() == sum_cells(s2.pieces[0], dist_weight0(), 256));
        assert forall|k: int| 0 <= k < 4 implies #[trigger] e2.spec_kinds0()[k] == count_cells(
            s2.pieces[0],
            kind_pred(k),
            256,
        ) by {
            assert(e1.spec_kinds0().len() == 4 && e2.spec_kinds0().len() == 4);
            assert(0 <= kf < 4 && 0 <= kt < 4);
            assert(e1.spec_kinds0()[k] == count_cells(b, kind_pred(k), 256));
            assert(count_cells(b2, kind_pred(k), 256) == count_cells(b, kind_pred(k), 256)
                + (if kt == k {
                1int
            } else {
                0int
            }) - (if kf == k {
                1int
            } else {
                0int
            }));
            assert(e1.spec_kinds0()[kf] == count_cells(b, kind_pred(kf), 256));
            lemma_count_bounds(b, kind_pred(kf), 256);
            assert(e1.spec_kinds0()[kt] == count_cells(b, kind_pred(kt), 256));
            lemma_count_bounds(b, kind_pred(kt), 256);
            assert(e2.spec_kinds0()[k] == bump(e1.spec_kinds0(), kf, kt)[k]);
            assert(bump(e1.spec_kinds0(), kf, kt)[k] == e1.spec_kinds0()[k] + (if kt == k {
                1int
            } else {
                0int
            }) - (if kf == k {
                1int
            } else {
                0int
            }));
        }
        assert forall|k: int| 0 <= k < 4 implies #[trigger] e2.spec_kinds1()[k] == count_cells(
            s2.pieces[1],
            kind_pred(k),
            256,
        ) by {
            assert(e2.spec_kinds1()[k] == e1.spec_kinds1()[k]);
        }
        assert forall|r: int| 0 <= r < 17 implies #[trigger] e2.spec_ys0()[r] == count_cells(
            s2.pieces[0],
            row_pred(r),
            256,
        ) by {
            assert(e1.spec_ys0().len() == 17 && e2.spec_ys0().len() == 17);
            assert(0 <= fy < 17 && 0 <= ty < 17);
            assert(e1.spec_ys0()[r] == count_cells(b, row_pred(r), 256));
            assert(count_cells(b2, row_pred(r), 256) == count_cells(b, row_pred(r), 256)
                + (if ty == r {
                1int
            } else {
                0int
            }) - (if fy == r {
                1int
            } else {
                0int
            }));
            assert(e1.spec_ys0()[fy] == count_cells(b, row_pred(fy), 256));
            lemma_count_bounds(b, row_pred(fy), 256);
            assert(e1.spec_ys0()[ty] == count_cells(b, row_pred(ty), 256));
            lemma_count_bounds(b, row_pred(ty), 256);
            assert(e2.spec_ys0()[r] == bump(e1.spec_ys0(), fy, ty)[r]);
            assert(bump(e1.spec_ys0(), fy, ty)[r] == e1.spec_ys0()[r] + (if ty == r {
                1int
            } else {
                0int
            }) - (if fy == r {
                1int
            } else {
                0int
            }));
        }
        assert forall|r: int| 0 <= r < 17 implies #[trigger] e2.spec_ys1()[r] == count_cells(
            s2.pieces[1],
            row_pred(r),
            256,
        ) by {
            assert(e2.spec_ys1()[r] == e1.spec_ys1()[r]);
        }
        assert forall|d: int| 0 <= d < 13 implies #[trigger] e2.spec_cent0()[d] == count_cells(
            s2.pieces[0],
            cent_pred(d),
            256,
        ) by {
            assert(e1.spec_cent0().len() == 13 && e2.spec_cent0().len() == 13);
            assert(0 <= df < 13 && 0 <= dt < 13);
            assert(e1.spec_cent0()[d] == count_cells(b, cent_pred(d), 256));
            assert(count_cells(b2, cent_pred(d), 256) == count_cells(b, cent_pred(d), 256)
                + (if dt == d {
                1int
            } else {
                0int
            }) - (if df == d {
                1int
            } else {
                0int
            }));
            assert(e1.spec_cent0()[df] == count_cells(b, cent_pred(df), 256));
            lemma_count_bounds(b, cent_pred(df), 256);
            assert(e1.spec_cent0()[dt] == count_cells(b, cent_pred(dt), 256));
            lemma_count_bounds(b, cent_pred(dt), 256);
            assert(e2.spec_cent0()[d] == bump(e1.spec_cent0(), df, dt)[d]);
            assert(bump(e1.spec_cent0(), df, dt)[d] == e1.spec_cent0()[d] + (if dt == d {
                1int
            } else {
                0int
            }) - (if df == d {
                1int
            } else {
                0int
            }));
        }
        assert forall|d: int| 0 <= d < 13 implies #[trigger] e2.spec_cent1()[d] == count_cells(
            s2.pieces[1],
            cent_pred(d),
            256,
        ) by {
            assert(e2.spec_cent1()[d] == e1.spec_cent1()[d]);
        }
    } else {
        lemma_sum_one_diff(b, bi, dist_weight1(), 256, ti);
        lemma_sum_one_diff(bi, b2, dist_weight1(), 256, fi);
        assert(dist_weight1()(ti) == ty && dist_weight1()(fi) == fy);
        assert((1int - 0int) * dist_weight1()(ti) == dist_weight1()(ti)) by (nonlinear_arith);
        assert((0int - 1int) * dist_weight1()(fi) == -dist_weight1()(fi)) by (nonlinear_arith);
        assert(sum_cells(bi, dist_weight1(), 256) == sum_cells(b, dist_weight1(), 256) + ty);
        assert(sum_cells(b2, dist_weight1(), 256) == sum_cells(bi, dist_weight1(), 256) - fy);
        assert(sum_cells(b2, dist_weight1(), 256) == sum_cells(b, dist_weight1(), 256) + ty - fy);
        assert(e2.spec_dist1() == sum_cells(s2.pieces[1], dist_weight1(), 256));
        assert forall|k: int| 0 <= k < 4 implies #[trigger] e2.spec_kinds1()[k] == count_cells(
            s2.pieces[1],
            kind_pred(k),
            256,
        ) by {
            assert(e1.spec_kinds1().len() == 4 && e2.spec_kinds1().len() == 4);
            assert(0 <= kf < 4 && 0 <= kt < 4);
            assert(e1.spec_kinds1()[k] == count_cells(b, kind_pred(k), 256));
            assert(count_cells(b2, kind_pred(k), 256) == count_cells(b, kind_pred(k), 256)
                + (if kt == k {
                1int
            } else {
                0int
            }) - (if kf == k {
                1int
            } else {
                0int
            }));
            assert(e1.spec_kinds1()[kf] == count_cells(b, kind_pred(kf), 256));
            lemma_count_bounds(b, kind_pred(kf), 256);
            assert(e1.spec_kinds1()[kt] == count_cells(b, kind_pred(kt), 256));
            lemma_count_bounds(b, kind_pred(kt), 256);
            assert(e2.spec_kinds1()[k] == bump(e1.spec_kinds1(), kf, kt)[k]);
            assert(bump(e1.spec_kinds1(), kf, kt)[k] == e1.spec_kinds1()[k] + (if kt == k {
                1int
            } else {
                0int
            }) - (if kf == k {
                1int
            } else {
                0int
            }));
        }
        assert forall|k: int| 0 <= k < 4 implies #[trigger] e2.spec_kinds0()[k] == count_cells(
            s2.pieces[0],
            kind_pred(k),
            256,
        ) by {
            assert(e2.spec_kinds0()[k] == e1.spec_kinds0()[k]);
        }
        assert forall|r: int| 0 <= r < 17 implies #[trigger] e2.spec_ys1()[r] == count_cells(
            s2.pieces[1],
            row_pred(r),
            256,
        ) by {
            assert(e1.spec_ys1().len() == 17 && e2.spec_ys1().len() == 17);
            assert(0 <= fy < 17 && 0 <= ty < 17);
            assert(e1.spec_ys1()[r] == count_cells(b, row_pred(r), 256));
            assert(count_cells(b2, row_pred(r), 256) == count_cells(b, row_pred(r), 256)
                + (if ty == r {
                1int
            } else {
                0int
            }) - (if fy == r {
                1int
            } else {
                0int
            }));
            assert(e1.spec_ys1()[fy] == count_cells(b, row_pred(fy), 256));
            lemma_count_bounds(b, row_pred(fy), 256);
            assert(e1.spec_ys1()[ty] == count_cells(b, row_pred(ty), 256));
            lemma_count_bounds(b, row_pred(ty), 256);
            assert(e2.spec_ys1()[r] == bump(e1.spec_ys1(), fy, ty)[r]);
            assert(bump(e1.spec_ys1(), fy, ty)[r] == e1.spec_ys1()[r] + (if ty == r {
                1int
            } else {
                0int
            }) - (if fy == r {
                1int
            } else {
                0int
            }));
        }
        assert forall|r: int| 0 <= r < 17 implies #[trigger] e2.spec_ys0()[r] == count_cells(
            s2.pieces[0],
            row_pred(r),
            256,
        ) by {
            assert(e2.spec_ys0()[r] == e1.spec_ys0()[r]);
        }
        assert forall|d: int| 0 <= d < 13 implies #[trigger] e2.spec_cent1()[d] == count_cells(
            s2.pieces[1],
            cent_pred(d),
            256,
        ) by {
            assert(e1.spec_cent1().len() == 13 && e2.spec_cent1().len() == 13);
            assert(0 <= df < 13 && 0 <= dt < 13);
            assert(e1.spec_cent1()[d] == count_cells(b, cent_pred(d), 256));
            assert(count_cells(b2, cent_pred(d), 256) == count_cells(b, cent_pred(d), 256)
                + (if dt == d {
                1int
            } else {
                0int
            }) - (if df == d {
                1int
            } else {
                0int
            }));
            assert(e1.spec_cent1()[df] == count_cells(b, cent_pred(df), 256));
            lemma_count_bounds(b, cent_pred(df), 256);
            assert(e1.spec_cent1()[dt] == count_cells(b, cent_pred(dt), 256));
            lemma_count_bounds(b, cent_pred(dt), 256);
            assert(e2.spec_cent1()[d] == bump(e1.spec_cent1(), df, dt)[d]);
            assert(bump(e1.spec_cent1(), df, dt)[d] == e1.spec_cent1()[d] + (if dt == d {
                1int
            } else {
                0int
            }) - (if df == d {
                1int
            } else {
                0int
            }));
        }
        assert forall|d: int| 0 <= d < 13 implies #[trigger] e2.spec_cent0()[d] == count_cells(
            s2.pieces[0],
            cent_pred(d),
            256,
        ) by {
            assert(e2.spec_cent0()[d] == e1.spec_cent0()[d]);
        }
    }
    assert forall|k: int| 0 <= k < 4 implies #[trigger] e2.spec_tkinds0()[k] == count_kind_targets(
        GameState::spec_targets(0),
        k,
        15,
    ) by {
        assert(e2.spec_tkinds0()[k] == e1.spec_tkinds0()[k]);
    }
    assert forall|k: int| 0 <= k < 4 implies #[trigger] e2.spec_tkinds1()[k] == count_kind_targets(
        GameState::spec_targets(1),
        k,
        15,
    ) by {
        assert(e2.spec_tkinds1()[k] == e1.spec_tkinds1()[k]);
    }
}

} // verus!

verus! {

/// Aggregates that match a recount of a board are small.
pub proof fn lemma_consistent_bounded(e: Evaluation, s: InternalGameState)
    requires
        e.consistent_with(s),
    ensures
        e.bounded(),
{
    assert forall|j: int| 0 <= j < 256 implies -4 <= #[trigger] dist_weight0()(j) <= 16 && 0
        <= dist_weight1()(j) <= 20 by {
        lemma_cell_coord_range(j);
    }
    lemma_sum_bounds(s.pieces[0], dist_weight0(), 256, -4, 16);
    lemma_sum_bounds(s.pieces[1], dist_weight1(), 256, 0, 20);
    assert forall|k: int| 0 <= k < 4 implies -512 <= #[trigger] e.spec_kinds0()[k] <= 512 by {
        lemma_count_bounds(s.pieces[0], kind_pred(k), 256);
    }
    assert forall|k: int| 0 <= k < 4 implies -512 <= #[trigger] e.spec_kinds1()[k] <= 512 by {
        lemma_count_bounds(s.pieces[1], kind_pred(k), 256);
    }
    assert forall|r: int| 0 <= r < 17 implies -512 <= #[trigger] e.spec_ys0()[r] <= 512 by {
        lemma_count_bounds(s.pieces[0], row_pred(r), 256);
    }
    assert forall|r: int| 0 <= r < 17 implies -512 <= #[trigger] e.spec_ys1()[r] <= 512 by {
        lemma_count_bounds(s.pieces[1], row_pred(r), 256);
    }
    assert forall|d: int| 0 <= d < 13 implies -512 <= #[trigger] e.spec_cent0()[d] <= 512 by {
        lemma_count_bounds(s.pieces[0], cent_pred(d), 256);
    }
    assert forall|d: int| 0 <= d < 13 implies -512 <= #[trigger] e.spec_cent1()[d] <= 512 by {
        lemma_count_bounds(s.pieces[1], cent_pred(d), 256);
    }
    assert forall|k: int| 0 <= k < 4 implies 0 <= #[trigger] e.spec_tkinds0()[k] <= 15 by {
        lemma_target_kind_bounds(GameState::spec_targets(0), k, 15);
    }
    assert forall|k: int| 0 <= k < 4 implies 0 <= #[trigger] e.spec_tkinds1()[k] <= 15 by {
        lemma_target_kind_bounds(GameState::spec_targets(1), k, 15);
    }
}

/// A target kind count lies between zero and the list length.
proof fn lemma_target_kind_bounds(ts: Seq<(i8, i8)>, k: int, n: int)
    requires
        n >= 0,
    ensures
        0 <= count_kind_targets(ts, k, n) <= n,
    decreases n,
{
    if n > 0 {
        lemma_target_kind_bounds(ts, k, n - 1);
    }
}

/// On a board where both players still have pieces, both row-count
/// tables have a non-zero entry.
pub proof fn lemma_rows_nonzero(e: Evaluation, s: InternalGameState)
    requires
        e.consistent_with(s),
        s.wf(),
        exists|i: int| 0 <= i < 256 && #[trigger] s.pieces[0].spec_bit(i),
        exists|i: int| 0 <= i < 256 && #[trigger] s.pieces[1].spec_bit(i),
    ensures
        first_nz(e.spec_ys0(), 17) < 17,
        last_nz(e.spec_ys1(), 17) >= 0,
{
    let i0 = choose|i: int| 0 <= i < 256 && #[trigger] s.pieces[0].spec_bit(i);
    let i1 = choose|i: int| 0 <= i < 256 && #[trigger] s.pieces[1].spec_bit(i);
    assert(s.occ(i0) && s.occ(i1));
    lemma_valid_cell_bounds(i0);
    lemma_valid_cell_bounds(i1);
    let r0 = cell_y(i0);
    let r1 = cell_y(i1);
    lemma_count_pos(s.pieces[0], row_pred(r0), 256, i0);
    lemma_count_pos(s.pieces[1], row_pred(r1), 256, i1);
    assert(e.spec_ys0()[r0] >= 1);
    assert(e.spec_ys1()[r1] >= 1);
    lemma_first_nz_char(e.spec_ys0(), 17);
    lemma_last_nz_char(e.spec_ys1(), 17);
    if first_nz(e.spec_ys0(), 17) == 17 {
        assert(e.spec_ys0()[r0] == 0);
    }
    if last_nz(e.spec_ys1(), 17) == -1 {
        assert(e.spec_ys1()[r1] == 0);
    }
}

} // verus!

verus! {

/// Applying a move's bump and then the reverse move's bump restores the
/// aggregates exactly.
pub proof fn lemma_bump_reverses(
    e1: Evaluation,
    e2: Evaluation,
    e3: Evaluation,
    player: int,
    m: InternalMove,
)
    requires
        Evaluation::spec_bumped(e1, e2, player, m),
        Evaluation::spec_bumped(e2, e3, player, m.spec_inverse()),
        e1.bounded(),
        spec_valid_cell(m.from as int),
        spec_valid_cell(m.to as int),
    ensures
        e3 == e1,
{
    broadcast use vstd::array::group_array_axioms;

    lemma_valid_cell_bounds(m.from as int);
    lemma_valid_cell_bounds(m.to as int);
    let fx = cell_x(m.from as int);
    let fy = cell_y(m.from as int);
    let tx = cell_x(m.to as int);
    let ty = cell_y(m.to as int);
    let kf = spec_kind(fx, fy);
    let kt = spec_kind(tx, ty);
    let df = spec_dist_center(fx, fy);
    let dt = spec_dist_center(tx, ty);
    assert(e3.spec_kinds0() =~= e1.spec_kinds0());
    assert(e3.spec_kinds1() =~= e1.spec_kinds1());
    assert(e3.spec_ys0() =~= e1.spec_ys0());
    assert(e3.spec_ys1() =~= e1.spec_ys1());
    assert(e3.spec_cent0() =~= e1.spec_cent0());
    assert(e3.spec_cent1() =~= e1.spec_cent1());
    lemma_eval_ext(e3, e1);
}

/// Two aggregate caches consistent with the same position are equal:
/// the recount determines every field.  With this, restoring
/// consistency on unmake restores the exact pre-move cache.
pub proof fn lemma_consistent_unique(a: Evaluation, b: Evaluation, s: InternalGameState)
    requires
        a.consistent_with(s),
        b.consistent_with(s),
    ensures
        a == b,
{
    assert(a.spec_kinds0() =~= b.spec_kinds0());
    assert(a.spec_kinds1() =~= b.spec_kinds1());
    assert(a.spec_ys0() =~= b.spec_ys0());
    assert(a.spec_ys1() =~= b.spec_ys1());
    assert(a.spec_cent0() =~= b.spec_cent0());
    assert(a.spec_cent1() =~= b.spec_cent1());
    assert(a.spec_tkinds0() =~= b.spec_tkinds0());
    assert(a.spec_tkinds1() =~= b.spec_tkinds1());
    lemma_eval_ext(a, b);
}

/// Evaluations with equal aggregate views are equal.
proof fn lemma_eval_ext(a: Evaluation, b: Evaluation)
    requires
        a.spec_kinds0() == b.spec_kinds0(),
        a.spec_kinds1() == b.spec_kinds1(),
        a.spec_ys0() == b.spec_ys0(),
        a.spec_ys1() == b.spec_ys1(),
        a.spec_cent0() == b.spec_cent0(),
        a.spec_cent1() == b.spec_cent1(),
        a.spec_tkinds0() == b.spec_tkinds0(),
        a.spec_tkinds1() == b.spec_tkinds1(),
        a.spec_dist0() == b.spec_dist0(),
        a.spec_dist1() == b.spec_dist1(),
    ensures
        a == b,
{
    broadcast use vstd::array::group_array_axioms;

    assert(a.p0_kinds =~= b.p0_kinds);
    assert(a.p1_kinds =~= b.p1_kinds);
    assert(a.p0_ys =~= b.p0_ys);
    assert(a.p1_ys =~= b.p1_ys);
    assert(a.p0_dist_to_center =~= b.p0_dist_to_center);
    assert(a.p1_dist_to_center =~= b.p1_dist_to_center);
    assert(a.p0_target_kinds =~= b.p0_target_kinds);
    assert(a.p1_target_kinds =~= b.p1_target_kinds);
}

} // verus!
