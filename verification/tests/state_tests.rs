use halma::Evaluation;
use halma::GameState;
use halma::InternalGameState;
use halma::Move;
use halma::Tile;
use halma::index_to_pos;
use halma::pos_to_index;

#[test]
fn test_pos_to_index() {
    assert_eq!(pos_to_index(6, 0), 0x06);
    assert_eq!(pos_to_index(6, 1), 0x13);
    assert_eq!(pos_to_index(7, 1), 0x14);
    assert_eq!(pos_to_index(5, 2), 0x20);
    assert_eq!(pos_to_index(6, 2), 0x21);
    assert_eq!(pos_to_index(7, 2), 0x22);
    assert_eq!(pos_to_index(6, 16), 0xDE);
}

#[test]
fn index_round_trip_on_valid_cells() {
    let state = GameState::default();
    for x in 0..13i8 {
        for y in 0..17i8 {
            if state.is_valid_location(x, y) {
                let i = pos_to_index(x as u8, y as u8);
                assert_eq!(index_to_pos(i), (x, y));
            }
        }
    }
}

#[test]
fn make_and_unmake_restore_the_state_bit_exactly() {
    let state = GameState::default();
    let internal = InternalGameState::from_game_state(&state);
    let moves = internal.possible_moves();
    assert!(moves.len() > 0);
    for &mov in moves.iter() {
        let mut s = internal;
        s.make_move(mov);
        s.unmake_move(mov);
        assert_eq!(s.pieces[0], internal.pieces[0]);
        assert_eq!(s.pieces[1], internal.pieces[1]);
        assert_eq!(s.current_player, internal.current_player);
        assert_eq!(s.ply, internal.ply);
    }
}

#[test]
fn generators_agree_on_the_opening_position() {
    // The bitboard generator and the grid-walking generator must emit
    // the same move set from the canonical start.
    let state = GameState::default();
    let internal = InternalGameState::from_game_state(&state);

    let mut from_bits: Vec<((i8, i8), (i8, i8))> = internal
        .possible_moves()
        .iter()
        .map(|m| (index_to_pos(m.from), index_to_pos(m.to)))
        .collect();
    let mut from_grid: Vec<((i8, i8), (i8, i8))> =
        state.possible_moves().iter().map(|m| (m.from, m.to)).collect();
    from_bits.sort();
    from_grid.sort();
    assert_eq!(from_bits.len(), 22);
    assert_eq!(from_bits.len(), from_grid.len());
    assert_eq!(from_bits, from_grid);
}

#[test]
fn reachable_cells_are_empty_valid_and_distinct_from_start() {
    let state = GameState::default();
    let internal = InternalGameState::from_game_state(&state);
    let mut pieces = internal.pieces[0].ones();
    while let Some(from) = pieces.next() {
        let reach = internal.reachable_from(from);
        let mut it = reach.ones();
        while let Some(to) = it.next() {
            assert_ne!(to, from);
            assert!(!internal.pieces[0].get_bit(to));
            assert!(!internal.pieces[1].get_bit(to));
            assert!(!halma::invalid_cells().get_bit(to));
        }
    }
}

fn filled_target_state(parked: bool) -> InternalGameState {
    // Player 0 occupies its goal triangle; with `parked` one triangle
    // cell belongs to player 1 instead.
    let mut p0 = halma::Bitboard::empty();
    let mut p1 = halma::Bitboard::empty();
    let targets = GameState::targets(0);
    for (k, &(x, y)) in targets.iter().enumerate() {
        let i = pos_to_index(x as u8, y as u8);
        if parked && k == 0 {
            p1.set_bit(i);
        } else {
            p0.set_bit(i);
        }
    }
    // A second player 1 piece far away.
    p1.set_bit(pos_to_index(6, 0));
    InternalGameState { pieces: [p0, p1], ply: 0, current_player: 0 }
}

#[test]
fn win_needs_full_triangle_and_an_own_piece() {
    let full = filled_target_state(false);
    assert!(full.won(0));
    assert!(!full.won(1));

    // A parked opponent piece cannot block the win: the triangle is
    // still fully occupied and own pieces stand in it.
    let parked = filled_target_state(true);
    assert!(parked.won(0));

    // An unoccupied triangle cell refutes the win.
    let mut missing = filled_target_state(false);
    let (x, y) = GameState::targets(0)[3];
    missing.pieces[0].unset_bit(pos_to_index(x as u8, y as u8));
    assert!(!missing.won(0));
}

#[test]
fn grid_state_move_and_undo() {
    let mut game = halma::Game::default();
    assert!(game.last_move().is_none());
    let mov = Move { from: (4, 4), to: (4, 5) };
    assert_eq!(game.state().get(4, 4), Tile::Player(0));
    assert_eq!(game.state().get(4, 5), Tile::Empty);
    game.move_piece(mov);
    assert_eq!(game.state().get(4, 4), Tile::Empty);
    assert_eq!(game.state().get(4, 5), Tile::Player(0));
    assert_eq!(game.state().current_player(), 1);
    assert_eq!(game.last_move().copied().map(|m| m.to), Some((4, 5)));
    game.undo();
    assert_eq!(game.state().get(4, 4), Tile::Player(0));
    assert_eq!(game.state().get(4, 5), Tile::Empty);
    assert_eq!(game.state().current_player(), 0);
}

#[test]
fn from_tiles_rejects_broken_grids() {
    // Too short.
    assert!(GameState::from_tiles(vec![Tile::Empty; 100], 0, 0).is_none());
    // Bad player id.
    assert!(GameState::from_tiles(vec![Tile::Empty; 221], 0, 2).is_none());
    // A playing piece outside the star.
    let mut board = vec![Tile::Invalid; 221];
    board[0] = Tile::Player(0);
    assert!(GameState::from_tiles(board, 0, 0).is_none());
    // An all-invalid grid is fine.
    assert!(GameState::from_tiles(vec![Tile::Invalid; 221], 0, 0).is_some());
}

#[test]
fn full_rescan_matches_incremental_evaluation() {
    let state = GameState::default();
    let mut internal = InternalGameState::from_game_state(&state);
    let mut evaluation = Evaluation::new(&internal);

    for _ in 0..6 {
        let moves = internal.possible_moves();
        let mov = moves[moves.len() / 2];
        evaluation.make_move(internal.current_player, mov);
        internal.make_move(mov);
    }

    let fresh = Evaluation::new(&internal);
    assert_eq!(evaluation.evaluate(&internal), fresh.evaluate(&internal));
}

#[test]
fn grid_win_requires_own_pieces_on_every_target_cell() {
    // The grid-level predicate asks for the player's own piece on all
    // fifteen goal cells, so a parked opponent piece denies it there,
    // while the bitboard-level predicate (occupied triangle plus at
    // least one own piece) still grants the win.
    let mut board = vec![Tile::Invalid; 221];
    let probe = GameState::default();
    for x in 0..13i8 {
        for y in 0..17i8 {
            if probe.is_valid_location(x, y) {
                board[(x as usize) * 17 + (y as usize)] = Tile::Empty;
            }
        }
    }
    for (k, &(x, y)) in GameState::targets(0).iter().enumerate() {
        let tile = if k == 0 { Tile::Player(1) } else { Tile::Player(0) };
        board[(x as usize) * 17 + (y as usize)] = tile;
    }
    let state = GameState::from_tiles(board, 0, 0).expect("a well-formed grid");
    assert!(!state.won(0));
    let internal = InternalGameState::from_game_state(&state);
    assert!(internal.won(0));
}
