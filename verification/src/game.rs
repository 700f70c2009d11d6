//! The external board representation: a 13 by 17 grid of tiles, the move
//! history, and a reference move generator that walks slides and jump
//! chains cell by cell.

use vstd::prelude::*;

use crate::bitboard::spec_row_left;
use crate::bitboard::spec_row_right;
use crate::bitboard::spec_valid_loc;

verus! {

/// One cell of the grid.
#[derive(Clone, Copy, Debug, Hash, PartialEq, Eq, Structural)]
pub enum Tile {
    Empty,
    Invalid,
    Player(u8),
}

/// A move between two `(column, row)` coordinates.
#[derive(Clone, Copy, Debug)]
pub struct Move {
    pub from: (i8, i8),
    pub to: (i8, i8),
}

impl PartialEq for Move {
    fn eq(&self, other: &Move) -> (r: bool) {
        self.from.0 == other.from.0 && self.from.1 == other.from.1 && self.to.0 == other.to.0
            && self.to.1 == other.to.1
    }
}

impl Eq for Move {

}

impl vstd::std_specs::cmp::PartialEqSpecImpl for Move {
    open spec fn obeys_eq_spec() -> bool {
        true
    }

    open spec fn eq_spec(&self, other: &Move) -> bool {
        *self == *other
    }
}

impl Move {
    /// The move played backwards.
    pub fn inverse(&self) -> (r: Self)
        ensures
            r.from == self.to,
            r.to == self.from,
    {
        Move { from: self.to, to: self.from }
    }
}

/// The external game state: a grid of tiles, a ply counter and the side
/// to move.
#[derive(Clone, Debug)]
pub struct GameState {
    board: Vec<Tile>,
    ply: usize,
    current_player: u8,
}

/// A game: the current state plus the history of played moves.
#[derive(Clone, Debug)]
pub struct Game {
    state: GameState,
    moves: Vec<Move>,
}

impl GameState {
    /// The tile on column `x` of row `y`.
    pub closed spec fn spec_tile(self, x: int, y: int) -> Tile {
        self.board@[x * 17 + y]
    }

    /// The ply counter.
    pub closed spec fn spec_ply(self) -> int {
        self.ply as int
    }

    /// The side to move.
    pub closed spec fn spec_player(self) -> u8 {
        self.current_player
    }

    /// True when the grid vector has its full 221 entries.
    pub closed spec fn spec_board_full(self) -> bool {
        self.board@.len() == 221
    }

    /// Structural invariant: a full grid, a known side to move,
    /// `Invalid` on every cell outside the star, and only the two
    /// players' pieces on the board.
    pub open spec fn wf(self) -> bool {
        &&& self.spec_board_full()
        &&& self.spec_player() < 2
        &&& forall|x: int, y: int|
            0 <= x < 13 && 0 <= y < 17 && !spec_valid_loc(x, y) ==> #[trigger] self.spec_tile(
                x,
                y,
            ) == Tile::Invalid
        &&& forall|x: int, y: int|
            0 <= x < 13 && 0 <= y < 17 ==> ((#[trigger] self.spec_tile(x, y)) matches
            Tile::Player(p) ==> p < 2)
    }

    /// True when column `x` of row `y` is a playing cell.
    pub fn is_valid_location(&self, x: i8, y: i8) -> (r: bool)
        ensures
            r == spec_valid_loc(x as int, y as int),
    {
        if y < 0 || y >= 17 {
            return false;
        }
        let left: i8 = match y {
            0 | 16 => 6,
            1 | 15 => 6,
            2 | 14 => 5,
            3 | 13 => 5,
            4 | 12 => 0,
            5 | 11 => 1,
            6 | 10 => 1,
            7 | 9 => 2,
            _ => 2,
        };
        let right: i8 = match y {
            0 | 16 => 6,
            1 | 15 => 7,
            2 | 14 => 7,
            3 | 13 => 8,
            4 | 12 => 12,
            5 | 11 => 12,
            6 | 10 => 11,
            7 | 9 => 11,
            _ => 10,
        };
        proof {
            assert(left as int == spec_row_left(y as int));
            assert(right as int == spec_row_right(y as int));
        }
        x >= left && x <= right
    }

    /// The tile on `(x, y)`, which must lie inside the 13 by 17 grid.
    pub fn get(&self, x: i8, y: i8) -> (r: Tile)
        requires
            self.wf(),
            0 <= x < 13,
            0 <= y < 17,
        ensures
            r == self.spec_tile(x as int, y as int),
    {
        self.board[(x as usize) * 17 + (y as usize)]
    }

    /// Writes `tile` to the playing cell `(x, y)`.
    fn set(&mut self, x: i8, y: i8, tile: Tile)
        requires
            old(self).wf(),
            spec_valid_loc(x as int, y as int),
            tile matches Tile::Player(p) ==> p < 2,
        ensures
            final (self).wf(),
            final (self).spec_tile(x as int, y as int) == tile,
            forall|a: int, b: int|
                0 <= a < 13 && 0 <= b < 17 && (a != x as int || b != y as int)
                    ==> #[trigger] final (self).spec_tile(a, b) == old(self).spec_tile(a, b),
            final (self).spec_ply() == old(self).spec_ply(),
            final (self).spec_player() == old(self).spec_player(),
    {
        let i = (x as usize) * 17 + (y as usize);
        self.board[i] = tile;
        proof {
            assert forall|a: int, b: int|
                0 <= a < 13 && 0 <= b < 17 && (a != x as int || b != y as int) implies #[trigger] self.spec_tile(
                a,
                b,
            ) == old(self).spec_tile(a, b) by {
                lemma_grid_index_injective(a, b, x as int, y as int);
            }
        }
    }

    /// The 15 cells of the goal triangle of `player`, row by row.
    pub open spec fn spec_targets(player: int) -> Seq<(i8, i8)> {
        if player == 0 {
            seq![
                (4i8, 12i8),
                (5i8, 12i8),
                (6i8, 12i8),
                (7i8, 12i8),
                (8i8, 12i8),
                (5i8, 13i8),
                (6i8, 13i8),
                (7i8, 13i8),
                (8i8, 13i8),
                (5i8, 14i8),
                (6i8, 14i8),
                (7i8, 14i8),
                (6i8, 15i8),
                (7i8, 15i8),
                (6i8, 16i8),
            ]
        } else {
            seq![
                (6i8, 0i8),
                (6i8, 1i8),
                (7i8, 1i8),
                (5i8, 2i8),
                (6i8, 2i8),
                (7i8, 2i8),
                (5i8, 3i8),
                (6i8, 3i8),
                (7i8, 3i8),
                (8i8, 3i8),
                (4i8, 4i8),
                (5i8, 4i8),
                (6i8, 4i8),
                (7i8, 4i8),
                (8i8, 4i8),
            ]
        }
    }

    /// The goal triangle of `player` as a coordinate list.
    pub fn targets(player: u8) -> (r: Vec<(i8, i8)>)
        requires
            player < 2,
        ensures
            r@ == Self::spec_targets(player as int),
    {
        let mut v: Vec<(i8, i8)> = Vec::with_capacity(15);
        if player == 0 {
            v.push((4, 12));
            v.push((5, 12));
            v.push((6, 12));
            v.push((7, 12));
            v.push((8, 12));
            v.push((5, 13));
            v.push((6, 13));
            v.push((7, 13));
            v.push((8, 13));
            v.push((5, 14));
            v.push((6, 14));
            v.push((7, 14));
            v.push((6, 15));
            v.push((7, 15));
            v.push((6, 16));
        } else {
            v.push((6, 0));
            v.push((6, 1));
            v.push((7, 1));
            v.push((5, 2));
            v.push((6, 2));
            v.push((7, 2));
            v.push((5, 3));
            v.push((6, 3));
            v.push((7, 3));
            v.push((8, 3));
            v.push((4, 4));
            v.push((5, 4));
            v.push((6, 4));
            v.push((7, 4));
            v.push((8, 4));
        }
        proof {
            assert(v@ =~= Self::spec_targets(player as int));
        }
        v
    }

    /// True when every cell of the goal triangle of `player` holds one of
    /// the player's own pieces.
    pub open spec fn spec_won(self, player: int) -> bool {
        forall|k: int|
            0 <= k < 15 ==> #[trigger] self.spec_tile(
                Self::spec_targets(player)[k].0 as int,
                Self::spec_targets(player)[k].1 as int,
            ) == Tile::Player(player as u8)
    }

    /// Decides the simple winning condition: the goal triangle is filled
    /// entirely with the player's own pieces.
    pub fn won(&self, player: u8) -> (r: bool)
        requires
            self.wf(),
            player < 2,
        ensures
            r == self.spec_won(player as int),
    {
        let targets = Self::targets(player);
        let mut k: usize = 0;
        while k < targets.len()
            invariant
                self.wf(),
                player < 2,
                targets@ == Self::spec_targets(player as int),
                k <= 15,
                forall|j: int|
                    0 <= j < k ==> #[trigger] self.spec_tile(
                        Self::spec_targets(player as int)[j].0 as int,
                        Self::spec_targets(player as int)[j].1 as int,
                    ) == Tile::Player(player),
            decreases 15 - k,
        {
            let (x, y) = targets[k];
            if self.get(x, y) != Tile::Player(player) {
                return false;
            }
            k += 1;
        }
        true
    }

    /// The side to move.
    pub fn current_player(&self) -> (r: u8)
        ensures
            r == self.spec_player(),
    {
        self.current_player
    }

    /// True when `(tx, ty)` is one of the six slide neighbours of
    /// `(x, y)` on the grid, allowing for the half-cell offset of odd
    /// rows.
    pub open spec fn spec_grid_slide_pair(x: int, y: int, tx: int, ty: int) -> bool {
        let o = y % 2;
        ||| (tx == x - 1 && ty == y)
        ||| (tx == x + 1 && ty == y)
        ||| (tx == x + 1 - o && ty == y + 1)
        ||| (tx == x - o && ty == y + 1)
        ||| (tx == x + 1 - o && ty == y - 1)
        ||| (tx == x - o && ty == y - 1)
    }

    /// True when `(mx, my)` lies on the grid and holds a piece.
    pub open spec fn spec_mid_occ(s: GameState, mx: int, my: int) -> bool {
        0 <= mx < 13 && 0 <= my < 17 && s.spec_tile(mx, my) is Player
    }

    /// True when a piece may jump from `(a, b)` to `(c, d)` on the grid:
    /// two columns sideways, or one column and two rows, over an
    /// occupied intermediate cell, allowing for the half-cell offset of
    /// odd rows.
    pub open spec fn spec_grid_jump_edge(s: GameState, a: int, b: int, c: int, d: int) -> bool {
        let o = b % 2;
        ||| (c == a - 2 && d == b && Self::spec_mid_occ(s, a - 1, b))
        ||| (c == a + 2 && d == b && Self::spec_mid_occ(s, a + 1, b))
        ||| (c == a + 1 && d == b + 2 && Self::spec_mid_occ(s, a + 1 - o, b + 1))
        ||| (c == a - 1 && d == b + 2 && Self::spec_mid_occ(s, a - o, b + 1))
        ||| (c == a + 1 && d == b - 2 && Self::spec_mid_occ(s, a + 1 - o, b - 1))
        ||| (c == a - 1 && d == b - 2 && Self::spec_mid_occ(s, a - o, b - 1))
    }

    /// True when `path` is a jump chain on the grid: consecutive cells
    /// are joined by grid jump edges and every landing after the start
    /// is an empty playing cell.
    pub open spec fn spec_grid_jump_path(s: GameState, path: Seq<(int, int)>) -> bool {
        &&& path.len() >= 1
        &&& forall|k: int|
            1 <= k < path.len() ==> Self::spec_grid_jump_edge(
                s,
                path[k - 1].0,
                path[k - 1].1,
                (#[trigger] path[k]).0,
                path[k].1,
            )
        &&& forall|k: int|
            1 <= k < path.len() ==> spec_valid_loc((#[trigger] path[k]).0, path[k].1)
                && s.spec_tile(path[k].0, path[k].1) == Tile::Empty
    }

    /// True when the piece on `(fx, fy)` may move to `(tx, ty)`: the
    /// destination is an empty playing cell that is a slide neighbour or
    /// the end of a grid jump chain.
    pub open spec fn spec_grid_reachable(
        s: GameState,
        fx: int,
        fy: int,
        tx: int,
        ty: int,
    ) -> bool {
        &&& spec_valid_loc(tx, ty)
        &&& s.spec_tile(tx, ty) == Tile::Empty
        &&& (Self::spec_grid_slide_pair(fx, fy, tx, ty) || (exists|path: Seq<(int, int)>|
            #[trigger] Self::spec_grid_jump_path(s, path) && path.len() >= 2 && path[0] == (
            fx,
            fy,
        ) && path.last() == (tx, ty)))
    }

    /// True when some move in `s` goes from `(fx, fy)` to `(tx, ty)`.
    pub open spec fn spec_has_grid_move(s: Seq<Move>, fx: int, fy: int, tx: int, ty: int) -> bool {
        exists|k: int|
            0 <= k < s.len() && (#[trigger] s[k]).from.0 == fx && s[k].from.1 == fy && s[k].to.0
                == tx && s[k].to.1 == ty
    }

    /// True of every move that `moves_from(origin)` may emit: it starts
    /// at `origin` and ends on a different, empty playing cell.
    pub open spec fn spec_emitted_ok(s: GameState, origin: (i8, i8), m: Move) -> bool {
        &&& m.from == origin
        &&& spec_valid_loc(m.to.0 as int, m.to.1 as int)
        &&& s.spec_tile(m.to.0 as int, m.to.1 as int) == Tile::Empty
        &&& m.to != origin
    }

    /// The moves of the piece on `(x, y)`: every slide into an empty
    /// neighbour and every chain of jumps, found by a worklist walk.
    #[verifier::rlimit(100)]
    #[verifier::spinoff_prover]
    pub fn moves_from(&self, x: i8, y: i8) -> (result: Vec<Move>)
        requires
            self.wf(),
            spec_valid_loc(x as int, y as int),
            self.spec_tile(x as int, y as int) is Player,
        ensures
            forall|k: int|
                0 <= k < result@.len() ==> Self::spec_emitted_ok(
                    *self,
                    (x, y),
                    #[trigger] result@[k],
                ) && Self::spec_grid_reachable(
                    *self,
                    x as int,
                    y as int,
                    result@[k].to.0 as int,
                    result@[k].to.1 as int,
                ),
            forall|tx: int, ty: int|
                #![trigger Self::spec_grid_slide_pair(x as int, y as int, tx, ty)]
                Self::spec_grid_slide_pair(x as int, y as int, tx, ty) && spec_valid_loc(tx, ty)
                    && self.spec_tile(tx, ty) == Tile::Empty ==> Self::spec_has_grid_move(
                    result@,
                    x as int,
                    y as int,
                    tx,
                    ty,
                ),
    {
        proof {
            lemma_valid_loc_bounds(x as int, y as int);
        }
        let mut result: Vec<Move> = Vec::with_capacity(128);
        let mut jumping_targets: Vec<(i8, i8)> = Vec::with_capacity(128);
        jumping_targets.push((x, y));

        let o: i8 = y % 2;
        loop
            invariant
                self.wf(),
                spec_valid_loc(x as int, y as int),
                self.spec_tile(x as int, y as int) is Player,
                o == (y as int) % 2,
                forall|k: int|
                    0 <= k < jumping_targets@.len() ==> spec_valid_loc(
                        (#[trigger] jumping_targets@[k]).0 as int,
                        jumping_targets@[k].1 as int,
                    ) && jumping_targets@[k].1 as int % 2 == y as int % 2,
                forall|k: int|
                    0 <= k < jumping_targets@.len() ==> ((#[trigger] jumping_targets@[k]).0 == x
                        && jumping_targets@[k].1 == y) || (exists|path: Seq<(int, int)>|
                        #[trigger] Self::spec_grid_jump_path(*self, path) && path.len() >= 2
                            && path[0] == (x as int, y as int) && path.last() == (
                        jumping_targets@[k].0 as int,
                        jumping_targets@[k].1 as int,
                        )),
                forall|k: int|
                    0 <= k < result@.len() ==> Self::spec_emitted_ok(
                        *self,
                        (x, y),
                        #[trigger] result@[k],
                    ) && (exists|path: Seq<(int, int)>|
                    #[trigger] Self::spec_grid_jump_path(*self, path) && path.len() >= 2
                        && path[0] == (x as int, y as int) && path.last() == (
                    result@[k].to.0 as int,
                    result@[k].to.1 as int,
                    )),
                forall|i: int, j: int|
                    0 <= i < j < result@.len() ==> (#[trigger] result@[i]).to != (
                    #[trigger] result@[j]).to,
                result@.len() <= 221,
            ensures
                forall|k: int|
                    0 <= k < result@.len() ==> Self::spec_emitted_ok(
                        *self,
                        (x, y),
                        #[trigger] result@[k],
                    ) && (exists|path: Seq<(int, int)>|
                    #[trigger] Self::spec_grid_jump_path(*self, path) && path.len() >= 2
                        && path[0] == (x as int, y as int) && path.last() == (
                    result@[k].to.0 as int,
                    result@[k].to.1 as int,
                    )),
            decreases 221 - result@.len(), jumping_targets@.len(),
        {
            let (sx, sy) = match jumping_targets.pop() {
                None => { break ; },
                Some(p) => p,
            };
            proof {
                lemma_valid_loc_bounds(sx as int, sy as int);
            }
            let dirs: [(i8, i8, i8, i8); 6] = [
                (-1, 0, -2, 0),
                (1, 0, 2, 0),
                (1 - o, 1, 1, 2),
                (0 - o, 1, -1, 2),
                (1 - o, -1, 1, -2),
                (0 - o, -1, -1, -2),
            ];
            let ghost result_start = result@;
            let ghost targets_start = jumping_targets@;
            let mut d: usize = 0;
            while d < 6
                invariant
                    self.wf(),
                    spec_valid_loc(x as int, y as int),
                    self.spec_tile(x as int, y as int) is Player,
                    spec_valid_loc(sx as int, sy as int),
                    0 <= sx < 13,
                    0 <= sy < 17,
                    o == (y as int) % 2,
                    sy as int % 2 == y as int % 2,
                    (sx == x && sy == y) || (exists|path: Seq<(int, int)>|
                        #[trigger] Self::spec_grid_jump_path(*self, path) && path.len() >= 2
                            && path[0] == (x as int, y as int) && path.last() == (
                        sx as int,
                        sy as int,
                        )),
                    dirs@ =~= seq![
                        (-1i8, 0i8, -2i8, 0i8),
                        (1i8, 0i8, 2i8, 0i8),
                        ((1 - o) as i8, 1i8, 1i8, 2i8),
                        ((0 - o) as i8, 1i8, -1i8, 2i8),
                        ((1 - o) as i8, -1i8, 1i8, -2i8),
                        ((0 - o) as i8, -1i8, -1i8, -2i8),
                    ],
                    d <= 6,
                    forall|k: int|
                        0 <= k < jumping_targets@.len() ==> spec_valid_loc(
                            (#[trigger] jumping_targets@[k]).0 as int,
                            jumping_targets@[k].1 as int,
                        ) && jumping_targets@[k].1 as int % 2 == y as int % 2,
                    forall|k: int|
                        0 <= k < jumping_targets@.len() ==> ((#[trigger] jumping_targets@[k]).0
                            == x && jumping_targets@[k].1 == y) || (exists|
                            path: Seq<(int, int)>,
                        |
                            #[trigger] Self::spec_grid_jump_path(*self, path) && path.len() >= 2
                                && path[0] == (x as int, y as int) && path.last() == (
                            jumping_targets@[k].0 as int,
                            jumping_targets@[k].1 as int,
                            )),
                    forall|k: int|
                        0 <= k < result@.len() ==> Self::spec_emitted_ok(
                            *self,
                            (x, y),
                            #[trigger] result@[k],
                        ) && (exists|path: Seq<(int, int)>|
                        #[trigger] Self::spec_grid_jump_path(*self, path) && path.len() >= 2
                            && path[0] == (x as int, y as int) && path.last() == (
                        result@[k].to.0 as int,
                        result@[k].to.1 as int,
                        )),
                    forall|i: int, j: int|
                        0 <= i < j < result@.len() ==> (#[trigger] result@[i]).to != (
                        #[trigger] result@[j]).to,
                    result@.len() <= 221,
                    result@.len() - result_start.len() == jumping_targets@.len()
                        - targets_start.len(),
                    result@.len() >= result_start.len(),
                    forall|k: int|
                        0 <= k < result_start.len() ==> result@[k] == #[trigger] result_start[k],
                decreases 6 - d,
            {
                let (dx, dy, jx, jy) = dirs[d];
                proof {
                    assert((jx as int == -2 && dx as int == -1) || (jx as int == 2 && dx as int
                        == 1) || (jx as int == 1 && (dx as int == 0 || dx as int == 1)) || (
                    jx as int == -1 && (dx as int == -1 || dx as int == 0)));
                    assert(dy as int == 0 || dy as int == 1 || dy as int == -1);
                    assert((jy as int == 2 && dy as int == 1) || (jy as int == -2 && dy as int
                        == -1) || (jy as int == 0 && dy as int == 0));
                }
                if self.is_valid_location(sx + jx, sy + jy) {
                    proof {
                        lemma_valid_loc_bounds((sx + jx) as int, (sy + jy) as int);
                    }
                    let mid = self.get(sx + dx, sy + dy);
                    let landing = self.get(sx + jx, sy + jy);
                    if matches!(mid, Tile::Player(_)) && matches!(landing, Tile::Empty) {
                        let to = (sx + jx, sy + jy);
                        proof {
                            assert(Self::spec_grid_jump_edge(
                                *self,
                                sx as int,
                                sy as int,
                                to.0 as int,
                                to.1 as int,
                            )) by {
                                if d == 0 {
                                    assert(dirs@[0] == (-1i8, 0i8, -2i8, 0i8));
                                } else if d == 1 {
                                    assert(dirs@[1] == (1i8, 0i8, 2i8, 0i8));
                                } else if d == 2 {
                                    assert(dirs@[2] == ((1 - o) as i8, 1i8, 1i8, 2i8));
                                } else if d == 3 {
                                    assert(dirs@[3] == ((0 - o) as i8, 1i8, -1i8, 2i8));
                                } else if d == 4 {
                                    assert(dirs@[4] == ((1 - o) as i8, -1i8, 1i8, -2i8));
                                } else {
                                    assert(dirs@[5] == ((0 - o) as i8, -1i8, -1i8, -2i8));
                                }
                            }
                        }
                        if !contains_pos(&jumping_targets, to) && !contains_to(&result, to) {
                            let mov = Move { from: (x, y), to };
                            let ghost res_before = result@;
                            jumping_targets.push(to);
                            result.push(mov);
                            proof {
                                assert(to != (x, y));
                                lemma_moves_bound(result@);
                                assert(result@[res_before.len() as int] == mov);
                                if sx == x && sy == y {
                                    let path = seq![
                                        (x as int, y as int),
                                        (to.0 as int, to.1 as int),
                                    ];
                                    assert(Self::spec_grid_jump_path(*self, path) && path.len()
                                        >= 2 && path[0] == (x as int, y as int) && path.last()
                                        == (to.0 as int, to.1 as int));
                                } else {
                                    let path = choose|path: Seq<(int, int)>|
                                        #[trigger] Self::spec_grid_jump_path(*self, path)
                                            && path.len() >= 2 && path[0] == (x as int, y as int)
                                            && path.last() == (sx as int, sy as int);
                                    lemma_grid_path_extend(
                                        *self,
                                        path,
                                        to.0 as int,
                                        to.1 as int,
                                    );
                                }
                            }
                        }
                    }
                }
                d += 1;
            }
        }

        proof {
            assert forall|k: int|
                0 <= k < result@.len() implies Self::spec_emitted_ok(
                *self,
                (x, y),
                #[trigger] result@[k],
            ) && Self::spec_grid_reachable(
                *self,
                x as int,
                y as int,
                result@[k].to.0 as int,
                result@[k].to.1 as int,
            ) by {}
        }
        let sdirs: [(i8, i8); 6] = [
            (-1, 0),
            (1, 0),
            (1 - o, 1),
            (0 - o, 1),
            (1 - o, -1),
            (0 - o, -1),
        ];
        let mut d: usize = 0;
        while d < 6
            invariant
                self.wf(),
                spec_valid_loc(x as int, y as int),
                self.spec_tile(x as int, y as int) is Player,
                0 <= x < 13,
                0 <= y < 17,
                o == (y as int) % 2,
                d <= 6,
                sdirs@ =~= seq![
                    (-1i8, 0i8),
                    (1i8, 0i8),
                    ((1 - o) as i8, 1i8),
                    ((0 - o) as i8, 1i8),
                    ((1 - o) as i8, -1i8),
                    ((0 - o) as i8, -1i8),
                ],
                forall|k: int|
                    0 <= k < result@.len() ==> Self::spec_emitted_ok(
                        *self,
                        (x, y),
                        #[trigger] result@[k],
                    ) && Self::spec_grid_reachable(
                        *self,
                        x as int,
                        y as int,
                        result@[k].to.0 as int,
                        result@[k].to.1 as int,
                    ),
                forall|j: int|
                    0 <= j < d ==> {
                        let tx = x as int + (#[trigger] sdirs@[j]).0 as int;
                        let ty = y as int + sdirs@[j].1 as int;
                        spec_valid_loc(tx, ty) && self.spec_tile(tx, ty) == Tile::Empty
                            ==> Self::spec_has_grid_move(result@, x as int, y as int, tx, ty)
                    },
            decreases 6 - d,
        {
            let (dx, dy) = sdirs[d];
            proof {
                assert(-1 <= dx as int <= 1 && -1 <= dy as int <= 1);
            }
            let ghost before = result@;
            if self.is_valid_location(x + dx, y + dy) {
                proof {
                    lemma_valid_loc_bounds((x + dx) as int, (y + dy) as int);
                }
                if matches!(self.get(x + dx, y + dy), Tile::Empty) {
                    result.push(Move { from: (x, y), to: (x + dx, y + dy) });
                    proof {
                        assert(result@[before.len() as int].from == (x, y));
                        assert(result@[before.len() as int].to.0 as int == x as int + dx as int);
                        assert(result@[before.len() as int].to.1 as int == y as int + dy as int);
                        assert(Self::spec_grid_slide_pair(
                            x as int,
                            y as int,
                            x as int + dx as int,
                            y as int + dy as int,
                        ));
                    }
                }
            }
            proof {
                assert forall|j: int|
                    0 <= j < d + 1 implies {
                    let tx = x as int + (#[trigger] sdirs@[j]).0 as int;
                    let ty = y as int + sdirs@[j].1 as int;
                    spec_valid_loc(tx, ty) && self.spec_tile(tx, ty) == Tile::Empty
                        ==> Self::spec_has_grid_move(result@, x as int, y as int, tx, ty)
                } by {
                    let tx = x as int + sdirs@[j].0 as int;
                    let ty = y as int + sdirs@[j].1 as int;
                    if spec_valid_loc(tx, ty) && self.spec_tile(tx, ty) == Tile::Empty {
                        if j < d {
                            if Self::spec_has_grid_move(before, x as int, y as int, tx, ty) {
                                let k = choose|k: int|
                                    0 <= k < before.len() && (#[trigger] before[k]).from.0
                                        == x as int && before[k].from.1 == y as int
                                        && before[k].to.0 == tx && before[k].to.1 == ty;
                                assert(result@[k] == before[k]);
                            }
                        }
                    }
                }
            }
            d += 1;
        }
        proof {
            assert forall|tx: int, ty: int|
                #[trigger] Self::spec_grid_slide_pair(x as int, y as int, tx, ty)
                    && spec_valid_loc(tx, ty) && self.spec_tile(tx, ty)
                    == Tile::Empty implies Self::spec_has_grid_move(
                result@,
                x as int,
                y as int,
                tx,
                ty,
            ) by {
                let oi = (y as int) % 2;
                if tx == x as int - 1 && ty == y as int {
                    assert(sdirs@[0] == (-1i8, 0i8));
                } else if tx == x as int + 1 && ty == y as int {
                    assert(sdirs@[1] == (1i8, 0i8));
                } else if tx == x as int + 1 - oi && ty == y as int + 1 {
                    assert(sdirs@[2] == ((1 - o) as i8, 1i8));
                } else if tx == x as int - oi && ty == y as int + 1 {
                    assert(sdirs@[3] == ((0 - o) as i8, 1i8));
                } else if tx == x as int + 1 - oi && ty == y as int - 1 {
                    assert(sdirs@[4] == ((1 - o) as i8, -1i8));
                } else {
                    assert(sdirs@[5] == ((0 - o) as i8, -1i8));
                }
            }
        }
        result
    }

    /// True of every move that `possible_moves` may emit: it moves a
    /// piece of the side to move to a different, empty playing cell.
    pub open spec fn spec_possible_ok(s: GameState, m: Move) -> bool {
        &&& spec_valid_loc(m.from.0 as int, m.from.1 as int)
        &&& s.spec_tile(m.from.0 as int, m.from.1 as int) == Tile::Player(s.spec_player())
        &&& spec_valid_loc(m.to.0 as int, m.to.1 as int)
        &&& s.spec_tile(m.to.0 as int, m.to.1 as int) == Tile::Empty
        &&& m.to != m.from
    }

    /// Every move of the side to move: for each own piece the emitted
    /// moves always include every slide into an adjacent empty playing
    /// cell.
    pub fn possible_moves(&self) -> (result: Vec<Move>)
        requires
            self.wf(),
        ensures
            forall|k: int|
                0 <= k < result@.len() ==> Self::spec_possible_ok(*self, #[trigger] result@[k])
                    && Self::spec_grid_reachable(
                    *self,
                    result@[k].from.0 as int,
                    result@[k].from.1 as int,
                    result@[k].to.0 as int,
                    result@[k].to.1 as int,
                ),
            forall|fx: int, fy: int, tx: int, ty: int|
                #![trigger Self::spec_grid_slide_pair(fx, fy, tx, ty)]
                0 <= fx < 13 && 0 <= fy < 17 && self.spec_tile(fx, fy) == Tile::Player(
                    self.spec_player(),
                ) && Self::spec_grid_slide_pair(fx, fy, tx, ty) && spec_valid_loc(tx, ty)
                    && self.spec_tile(tx, ty) == Tile::Empty ==> Self::spec_has_grid_move(
                    result@,
                    fx,
                    fy,
                    tx,
                    ty,
                ),
    {
        let mut result: Vec<Move> = Vec::new();
        let mut x: i8 = 0;
        while x < 13
            invariant
                self.wf(),
                0 <= x <= 13,
                forall|k: int|
                    0 <= k < result@.len() ==> Self::spec_possible_ok(
                        *self,
                        #[trigger] result@[k],
                    ) && Self::spec_grid_reachable(
                        *self,
                        result@[k].from.0 as int,
                        result@[k].from.1 as int,
                        result@[k].to.0 as int,
                        result@[k].to.1 as int,
                    ),
                forall|fx: int, fy: int, tx: int, ty: int|
                    #![trigger Self::spec_grid_slide_pair(fx, fy, tx, ty)]
                    0 <= fx < x && 0 <= fy < 17 && self.spec_tile(fx, fy) == Tile::Player(
                        self.spec_player(),
                    ) && Self::spec_grid_slide_pair(fx, fy, tx, ty) && spec_valid_loc(tx, ty)
                        && self.spec_tile(tx, ty) == Tile::Empty ==> Self::spec_has_grid_move(
                        result@,
                        fx,
                        fy,
                        tx,
                        ty,
                    ),
            decreases 13 - x,
        {
            let mut y: i8 = 0;
            while y < 17
                invariant
                    self.wf(),
                    0 <= x < 13,
                    0 <= y <= 17,
                    forall|k: int|
                        0 <= k < result@.len() ==> Self::spec_possible_ok(
                            *self,
                            #[trigger] result@[k],
                        ) && Self::spec_grid_reachable(
                            *self,
                            result@[k].from.0 as int,
                            result@[k].from.1 as int,
                            result@[k].to.0 as int,
                            result@[k].to.1 as int,
                        ),
                    forall|fx: int, fy: int, tx: int, ty: int|
                        #![trigger Self::spec_grid_slide_pair(fx, fy, tx, ty)]
                        0 <= fx < 13 && 0 <= fy < 17 && (fx < x || (fx == x && fy < y))
                            && self.spec_tile(fx, fy) == Tile::Player(self.spec_player())
                            && Self::spec_grid_slide_pair(fx, fy, tx, ty) && spec_valid_loc(
                            tx,
                            ty,
                        ) && self.spec_tile(tx, ty) == Tile::Empty ==> Self::spec_has_grid_move(
                            result@,
                            fx,
                            fy,
                            tx,
                            ty,
                        ),
                decreases 17 - y,
            {
                let tile = self.get(x, y);
                let cp = self.current_player();
                let ghost before = result@;
                let ghost mut mf: Seq<Move> = Seq::empty();
                if tile == Tile::Player(cp) {
                    proof {
                        if !spec_valid_loc(x as int, y as int) {
                            assert(self.spec_tile(x as int, y as int) == Tile::Invalid);
                        }
                    }
                    let mut from_here = self.moves_from(x, y);
                    proof {
                        mf = from_here@;
                    }
                    result.append(&mut from_here);
                    proof {
                        assert(result@ =~= before + mf);
                    }
                }
                proof {
                    assert forall|fx: int, fy: int, tx: int, ty: int|
                        0 <= fx < 13 && 0 <= fy < 17 && (fx < x || (fx == x && fy < y + 1))
                            && self.spec_tile(fx, fy) == Tile::Player(self.spec_player())
                            && #[trigger] Self::spec_grid_slide_pair(fx, fy, tx, ty)
                            && spec_valid_loc(tx, ty) && self.spec_tile(tx, ty)
                            == Tile::Empty implies Self::spec_has_grid_move(
                        result@,
                        fx,
                        fy,
                        tx,
                        ty,
                    ) by {
                        if fx == x as int && fy == y as int {
                            assert(Self::spec_has_grid_move(mf, fx, fy, tx, ty));
                            let k = choose|k: int|
                                0 <= k < mf.len() && (#[trigger] mf[k]).from.0 == fx
                                    && mf[k].from.1 == fy && mf[k].to.0 == tx && mf[k].to.1 == ty;
                            assert(result@[before.len() + k] == mf[k]);
                        } else {
                            if Self::spec_has_grid_move(before, fx, fy, tx, ty) {
                                let k = choose|k: int|
                                    0 <= k < before.len() && (#[trigger] before[k]).from.0 == fx
                                        && before[k].from.1 == fy && before[k].to.0 == tx
                                        && before[k].to.1 == ty;
                                assert(result@[k] == before[k]);
                            }
                        }
                    }
                }
                y += 1;
            }
            x += 1;
        }
        result
    }

    /// Moves whatever stands on `mov.from` to `mov.to` and passes the
    /// turn; both endpoints must be playing cells.
    pub(crate) fn move_piece(&mut self, mov: Move)
        requires
            old(self).wf(),
            spec_valid_loc(mov.from.0 as int, mov.from.1 as int),
            spec_valid_loc(mov.to.0 as int, mov.to.1 as int),
        ensures
            final (self).wf(),
            forall|a: int, b: int|
                0 <= a < 13 && 0 <= b < 17 ==> #[trigger] final (self).spec_tile(a, b) == (if a
                    == mov.from.0 as int && b == mov.from.1 as int {
                    Tile::Empty
                } else if a == mov.to.0 as int && b == mov.to.1 as int {
                    old(self).spec_tile(mov.from.0 as int, mov.from.1 as int)
                } else {
                    old(self).spec_tile(a, b)
                }),
            final (self).spec_player() == 1 - old(self).spec_player(),
            final (self).spec_ply() == old(self).spec_ply(),
    {
        let (fx, fy) = mov.from;
        let (tx, ty) = mov.to;
        proof {
            lemma_valid_loc_bounds(fx as int, fy as int);
            lemma_valid_loc_bounds(tx as int, ty as int);
        }
        let from = self.get(fx, fy);
        proof {
            assert(from matches Tile::Player(p) ==> p < 2);
        }
        self.set(tx, ty, from);
        let ghost mid = *self;
        self.set(fx, fy, Tile::Empty);
        let ghost done = *self;
        self.current_player = 1 - self.current_player;
        proof {
            assert forall|a: int, b: int| 0 <= a < 13 && 0 <= b < 17 implies #[trigger] self.spec_tile(
                a,
                b,
            ) == (if a == fx as int && b == fy as int {
                Tile::Empty
            } else if a == tx as int && b == ty as int {
                old(self).spec_tile(fx as int, fy as int)
            } else {
                old(self).spec_tile(a, b)
            }) by {
                assert(self.spec_tile(a, b) == done.spec_tile(a, b));
                if a == fx as int && b == fy as int {
                } else {
                    assert(done.spec_tile(a, b) == mid.spec_tile(a, b));
                }
            }
            assert forall|a: int, b: int|
                0 <= a < 13 && 0 <= b < 17 && !spec_valid_loc(a, b) implies #[trigger] self.spec_tile(
                a,
                b,
            ) == Tile::Invalid by {
                assert(self.spec_tile(a, b) == done.spec_tile(a, b));
                assert(done.spec_tile(a, b) == mid.spec_tile(a, b));
            }
            assert(self.spec_board_full() == done.spec_board_full());
        }
    }

    /// The ply counter.
    pub fn ply(&self) -> (r: usize)
        ensures
            r == self.spec_ply(),
    {
        self.ply
    }

    /// Builds a state from a full tile grid (column-major: index
    /// `x * 17 + y`), a ply counter and a side to move.  Returns `None`
    /// exactly when the grid breaks the state invariant.
    pub fn from_tiles(board: Vec<Tile>, ply: usize, current_player: u8) -> (r: Option<GameState>)
        ensures
            match r {
                Some(s) => s.wf() && s.spec_ply() == ply as int && s.spec_player()
                    == current_player && (forall|x: int, y: int|
                    0 <= x < 13 && 0 <= y < 17 ==> #[trigger] s.spec_tile(x, y) == board@[x * 17
                        + y]),
                None => !(board@.len() == 221 && current_player < 2 && (forall|x: int, y: int|
                    0 <= x < 13 && 0 <= y < 17 && !spec_valid_loc(x, y) ==> #[trigger] board@[x
                        * 17 + y] == Tile::Invalid) && (forall|x: int, y: int|
                    0 <= x < 13 && 0 <= y < 17 ==> ((#[trigger] board@[x * 17 + y]) matches
                    Tile::Player(p) ==> p < 2))),
            },
    {
        if board.len() != 221 || current_player >= 2 {
            return None;
        }
        let candidate = GameState { board, ply, current_player };
        let mut x: i8 = 0;
        while x < 13
            invariant
                candidate.spec_board_full(),
                candidate.spec_player() == current_player,
                candidate.spec_ply() == ply as int,
                current_player < 2,
                board@.len() == 221,
                forall|a: int, b: int|
                    0 <= a < 13 && 0 <= b < 17 ==> #[trigger] candidate.spec_tile(a, b)
                        == board@[a * 17 + b],
                0 <= x <= 13,
                forall|a: int, b: int|
                    0 <= a < x && 0 <= b < 17 && !spec_valid_loc(a, b)
                        ==> #[trigger] candidate.spec_tile(a, b) == Tile::Invalid,
                forall|a: int, b: int|
                    0 <= a < x && 0 <= b < 17 ==> ((#[trigger] candidate.spec_tile(a, b)) matches
                    Tile::Player(p) ==> p < 2),
            decreases 13 - x,
        {
            let mut y: i8 = 0;
            while y < 17
                invariant
                    candidate.spec_board_full(),
                    candidate.spec_player() == current_player,
                    candidate.spec_ply() == ply as int,
                    current_player < 2,
                    board@.len() == 221,
                    forall|a: int, b: int|
                        0 <= a < 13 && 0 <= b < 17 ==> #[trigger] candidate.spec_tile(a, b)
                            == board@[a * 17 + b],
                    0 <= x < 13,
                    0 <= y <= 17,
                    forall|a: int, b: int|
                        0 <= a < x && 0 <= b < 17 && !spec_valid_loc(a, b)
                            ==> #[trigger] candidate.spec_tile(a, b) == Tile::Invalid,
                    forall|a: int, b: int|
                        0 <= a < x && 0 <= b < 17 ==> ((#[trigger] candidate.spec_tile(a, b))
                        matches Tile::Player(p) ==> p < 2),
                    forall|b: int|
                        0 <= b < y && !spec_valid_loc(x as int, b)
                            ==> #[trigger] candidate.spec_tile(x as int, b) == Tile::Invalid,
                    forall|b: int|
                        0 <= b < y ==> ((#[trigger] candidate.spec_tile(x as int, b)) matches
                        Tile::Player(p) ==> p < 2),
                decreases 17 - y,
            {
                let tile = candidate.board[(x as usize) * 17 + (y as usize)];
                if !candidate.is_valid_location(x, y) && tile != Tile::Invalid {
                    proof {
                        assert(candidate.spec_tile(x as int, y as int) == board@[x as int * 17
                            + y as int]);
                    }
                    return None;
                }
                if match tile {
                    Tile::Player(p) => p >= 2,
                    _ => false,
                } {
                    proof {
                        assert(candidate.spec_tile(x as int, y as int) == board@[x as int * 17
                            + y as int]);
                    }
                    return None;
                }
                y += 1;
            }
            x += 1;
        }
        Some(candidate)
    }
}

/// The tile of the canonical starting position on `(x, y)`: player 0
/// fills the top triangle, player 1 the bottom one.
pub open spec fn spec_start_tile(x: int, y: int) -> Tile {
    if !spec_valid_loc(x, y) {
        Tile::Invalid
    } else if y < 5 && 3 < x < 9 {
        Tile::Player(0)
    } else if y > 11 && 3 < x < 9 {
        Tile::Player(1)
    } else {
        Tile::Empty
    }
}

impl Default for GameState {
    /// The canonical starting position: 15 pieces per side, player 0 to
    /// move, ply zero.
    fn default() -> (r: Self)
        ensures
            r.wf(),
            r.spec_player() == 0,
            r.spec_ply() == 0,
            forall|x: int, y: int|
                0 <= x < 13 && 0 <= y < 17 ==> #[trigger] r.spec_tile(x, y) == spec_start_tile(
                    x,
                    y,
                ),
    {
        let mut board: Vec<Tile> = Vec::with_capacity(221);
        while board.len() < 221
            invariant
                board@.len() <= 221,
                forall|k: int| 0 <= k < board@.len() ==> #[trigger] board@[k] == Tile::Invalid,
            decreases 221 - board@.len(),
        {
            board.push(Tile::Invalid);
        }
        let mut state = GameState { board, ply: 0, current_player: 0 };

        let mut y: i8 = 0;
        while y < 17
            invariant
                state.wf(),
                state.spec_player() == 0,
                state.spec_ply() == 0,
                0 <= y <= 17,
                forall|a: int, b: int|
                    0 <= a < 13 && 0 <= b < y ==> #[trigger] state.spec_tile(a, b)
                        == spec_start_tile(a, b),
                forall|a: int, b: int|
                    0 <= a < 13 && y <= b < 17 && spec_valid_loc(a, b)
                        ==> #[trigger] state.spec_tile(a, b) == Tile::Invalid,
            decreases 17 - y,
        {
            let mut x: i8 = 0;
            while x < 13
                invariant
                    state.wf(),
                    state.spec_player() == 0,
                    state.spec_ply() == 0,
                    0 <= y < 17,
                    0 <= x <= 13,
                    forall|a: int, b: int|
                        0 <= a < 13 && 0 <= b < y ==> #[trigger] state.spec_tile(a, b)
                            == spec_start_tile(a, b),
                    forall|a: int|
                        0 <= a < x && spec_valid_loc(a, y as int) ==> #[trigger] state.spec_tile(
                            a,
                            y as int,
                        ) == spec_start_tile(a, y as int),
                    forall|a: int|
                        x <= a < 13 && spec_valid_loc(a, y as int) ==> #[trigger] state.spec_tile(
                            a,
                            y as int,
                        ) == Tile::Invalid,
                    forall|a: int, b: int|
                        0 <= a < 13 && y < b < 17 && spec_valid_loc(a, b)
                            ==> #[trigger] state.spec_tile(a, b) == Tile::Invalid,
                decreases 13 - x,
            {
                if state.is_valid_location(x, y) {
                    if y < 5 && x > 3 && x < 9 {
                        state.set(x, y, Tile::Player(0));
                    } else if y > 11 && x > 3 && x < 9 {
                        state.set(x, y, Tile::Player(1));
                    } else {
                        state.set(x, y, Tile::Empty);
                    }
                }
                x += 1;
            }
            y += 1;
        }
        state
    }
}

impl Game {
    /// The current state.
    pub closed spec fn spec_state(self) -> GameState {
        self.state
    }

    /// The history of played moves, oldest first.
    pub closed spec fn spec_moves(self) -> Seq<Move> {
        self.moves@
    }

    /// Structural invariant: a well-formed state, and a history of moves
    /// whose endpoints are playing cells.
    pub open spec fn wf(self) -> bool {
        &&& self.spec_state().wf()
        &&& forall|k: int|
            0 <= k < self.spec_moves().len() ==> spec_valid_loc(
                (#[trigger] self.spec_moves()[k]).from.0 as int,
                self.spec_moves()[k].from.1 as int,
            ) && spec_valid_loc(self.spec_moves()[k].to.0 as int, self.spec_moves()[k].to.1 as int)
    }

    /// Plays `mov` on the board and records it in the history; both
    /// endpoints must be playing cells.
    pub fn move_piece(&mut self, mov: Move)
        requires
            old(self).wf(),
            spec_valid_loc(mov.from.0 as int, mov.from.1 as int),
            spec_valid_loc(mov.to.0 as int, mov.to.1 as int),
        ensures
            final (self).wf(),
            final (self).spec_moves() == old(self).spec_moves().push(mov),
            forall|a: int, b: int|
                0 <= a < 13 && 0 <= b < 17 ==> #[trigger] final (self).spec_state().spec_tile(a, b)
                    == (if a == mov.from.0 as int && b == mov.from.1 as int {
                    Tile::Empty
                } else if a == mov.to.0 as int && b == mov.to.1 as int {
                    old(self).spec_state().spec_tile(mov.from.0 as int, mov.from.1 as int)
                } else {
                    old(self).spec_state().spec_tile(a, b)
                }),
            final (self).spec_state().spec_player() == 1 - old(self).spec_state().spec_player(),
    {
        self.moves.push(mov);
        self.state.move_piece(mov);
        proof {
            assert forall|k: int|
                0 <= k < self.spec_moves().len() implies spec_valid_loc(
                (#[trigger] self.spec_moves()[k]).from.0 as int,
                self.spec_moves()[k].from.1 as int,
            ) && spec_valid_loc(
                self.spec_moves()[k].to.0 as int,
                self.spec_moves()[k].to.1 as int,
            ) by {
                if k < old(self).spec_moves().len() {
                    assert(self.spec_moves()[k] == old(self).spec_moves()[k]);
                }
            }
        }
    }

    /// Takes the last recorded move back, or does nothing when the
    /// history is empty.
    pub fn undo(&mut self)
        requires
            old(self).wf(),
        ensures
            final (self).wf(),
            old(self).spec_moves().len() == 0 ==> final (self).spec_state() == old(
                self,
            ).spec_state() && final (self).spec_moves() == old(self).spec_moves(),
            old(self).spec_moves().len() > 0 ==> {
                let mov = old(self).spec_moves().last();
                &&& final (self).spec_moves() == old(self).spec_moves().drop_last()
                &&& final (self).spec_state().spec_player() == 1 - old(
                    self,
                ).spec_state().spec_player()
                &&& forall|a: int, b: int|
                    0 <= a < 13 && 0 <= b < 17 ==> #[trigger] final (self).spec_state().spec_tile(
                        a,
                        b,
                    ) == (if a == mov.to.0 as int && b == mov.to.1 as int {
                        Tile::Empty
                    } else if a == mov.from.0 as int && b == mov.from.1 as int {
                        old(self).spec_state().spec_tile(mov.to.0 as int, mov.to.1 as int)
                    } else {
                        old(self).spec_state().spec_tile(a, b)
                    })
            },
    {
        let mov = match self.moves.pop() {
            None => {
                return ;
            },
            Some(mov) => mov,
        };
        self.state.move_piece(Move { from: mov.to, to: mov.from });
        proof {
            assert(self.spec_moves() =~= old(self).spec_moves().drop_last());
        }
    }

    /// The most recently played move, if any.
    pub fn last_move(&self) -> (r: Option<&Move>)
        ensures
            match r {
                None => self.spec_moves().len() == 0,
                Some(m) => self.spec_moves().len() > 0 && *m == self.spec_moves().last(),
            },
    {
        self.moves.last()
    }

    /// The current state.
    pub fn state(&self) -> (r: &GameState)
        ensures
            *r == self.spec_state(),
    {
        &self.state
    }
}

impl Default for Game {
    /// A game at the canonical starting position with an empty history.
    fn default() -> (r: Self)
        ensures
            r.wf(),
            r.spec_moves().len() == 0,
            r.spec_state().spec_player() == 0,
            r.spec_state().spec_ply() == 0,
            forall|x: int, y: int|
                0 <= x < 13 && 0 <= y < 17 ==> #[trigger] r.spec_state().spec_tile(x, y)
                    == spec_start_tile(x, y),
    {
        Game { state: GameState::default(), moves: Vec::new() }
    }
}

/// Extending a grid jump chain by one more jump into an empty playing
/// cell keeps it a chain.
proof fn lemma_grid_path_extend(s: GameState, path: Seq<(int, int)>, c: int, d: int)
    requires
        GameState::spec_grid_jump_path(s, path),
        GameState::spec_grid_jump_edge(s, path.last().0, path.last().1, c, d),
        spec_valid_loc(c, d),
        s.spec_tile(c, d) == Tile::Empty,
    ensures
        GameState::spec_grid_jump_path(s, path.push((c, d))),
        path.push((c, d)).len() == path.len() + 1,
        path.push((c, d))[0] == path[0],
        path.push((c, d)).last() == (c, d),
{
    let longer = path.push((c, d));
    assert(longer[longer.len() - 2] == path.last());
    assert forall|k: int|
        1 <= k < longer.len() implies GameState::spec_grid_jump_edge(
        s,
        longer[k - 1].0,
        longer[k - 1].1,
        (#[trigger] longer[k]).0,
        longer[k].1,
    ) by {
        if k < path.len() {
            assert(longer[k] == path[k] && longer[k - 1] == path[k - 1]);
        }
    }
    assert forall|k: int|
        1 <= k < longer.len() implies spec_valid_loc((#[trigger] longer[k]).0, longer[k].1)
        && s.spec_tile(longer[k].0, longer[k].1) == Tile::Empty by {
        if k < path.len() {
            assert(longer[k] == path[k]);
        }
    }
}

/// A playing cell lies inside the 13 by 17 grid.
pub proof fn lemma_valid_loc_bounds(x: int, y: int)
    requires
        spec_valid_loc(x, y),
    ensures
        0 <= x < 13,
        0 <= y < 17,
{
    assert(spec_row_left(y) >= 0 && spec_row_right(y) <= 12);
}

/// True when `v` holds the coordinate pair `p`.
fn contains_pos(v: &Vec<(i8, i8)>, p: (i8, i8)) -> (r: bool)
    ensures
        r == exists|k: int| 0 <= k < v@.len() && #[trigger] v@[k] == p,
{
    let mut k: usize = 0;
    while k < v.len()
        invariant
            k <= v@.len(),
            forall|j: int| 0 <= j < k ==> #[trigger] v@[j] != p,
        decreases v@.len() - k,
    {
        let q = v[k];
        if q.0 == p.0 && q.1 == p.1 {
            return true;
        }
        k += 1;
    }
    false
}

/// True when some move of `v` ends on `to`.
fn contains_to(v: &Vec<Move>, to: (i8, i8)) -> (r: bool)
    ensures
        r == exists|k: int| 0 <= k < v@.len() && (#[trigger] v@[k]).to == to,
{
    let mut k: usize = 0;
    while k < v.len()
        invariant
            k <= v@.len(),
            forall|j: int| 0 <= j < k ==> (#[trigger] v@[j]).to != to,
        decreases v@.len() - k,
    {
        let q = v[k];
        if q.to.0 == to.0 && q.to.1 == to.1 {
            return true;
        }
        k += 1;
    }
    false
}

/// Moves with pairwise distinct, valid destinations number at most 221.
proof fn lemma_moves_bound(s: Seq<Move>)
    requires
        forall|k: int|
            0 <= k < s.len() ==> spec_valid_loc(
                (#[trigger] s[k]).to.0 as int,
                s[k].to.1 as int,
            ),
        forall|i: int, j: int| 0 <= i < j < s.len() ==> (#[trigger] s[i]).to != (#[trigger] s[j]).to,
    ensures
        s.len() <= 221,
{
    let codes = Seq::new(s.len(), |k: int| s[k].to.0 * 17 + s[k].to.1);
    assert forall|i: int, j: int| 0 <= i < s.len() && 0 <= j < s.len() && i != j implies codes[i]
        != codes[j] by {
        lemma_valid_loc_bounds(s[i].to.0 as int, s[i].to.1 as int);
        lemma_valid_loc_bounds(s[j].to.0 as int, s[j].to.1 as int);
        if s[i].to.0 as int == s[j].to.0 as int && s[i].to.1 as int == s[j].to.1 as int {
            assert(s[i].to == s[j].to);
        } else {
            lemma_grid_index_injective(
                s[i].to.0 as int,
                s[i].to.1 as int,
                s[j].to.0 as int,
                s[j].to.1 as int,
            );
        }
    }
    assert(codes.no_duplicates());
    codes.unique_seq_to_set();
    let range = vstd::set_lib::set_int_range(0, 221);
    vstd::set_lib::lemma_int_range(0, 221);
    assert forall|c: int| codes.to_set().contains(c) implies range.contains(c) by {
        let k = choose|k: int| 0 <= k < codes.len() && codes[k] == c;
        lemma_valid_loc_bounds(s[k].to.0 as int, s[k].to.1 as int);
    }
    vstd::set_lib::lemma_len_subset(codes.to_set(), range);
}

/// Distinct grid coordinates give distinct flat indices.
proof fn lemma_grid_index_injective(a: int, b: int, x: int, y: int)
    requires
        0 <= a < 13,
        0 <= b < 17,
        0 <= x < 13,
        0 <= y < 17,
        a != x || b != y,
    ensures
        a * 17 + b != x * 17 + y,
{
    assert(a * 17 + b != x * 17 + y) by (nonlinear_arith)
        requires
            0 <= a < 13,
            0 <= b < 17,
            0 <= x < 13,
            0 <= y < 17,
            a != x || b != y,
    ;
}

} // verus!
