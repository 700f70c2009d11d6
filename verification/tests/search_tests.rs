use std::time::Instant;

use halma::AI;
use halma::GameState;
use halma::InternalMove;
use halma::Move;
use halma::ScoreType;
use halma::StopCondition;
use halma::Tile;
use halma::InternalGameState;
use halma::MovePicker;
use halma::Transposition;
use halma::TranspositionTable;
use halma::pos_to_index;

fn grid_index(x: i8, y: i8) -> usize {
    (x as usize) * 17 + (y as usize)
}

fn is_legal(state: &GameState, mov: Move) -> bool {
    state
        .possible_moves()
        .iter()
        .any(|m| m.from == mov.from && m.to == mov.to)
}

#[test]
fn depth_search_returns_a_legal_move() {
    let state = GameState::default();
    let mut ai = AI::new(state.clone());
    ai.set_stop_condition(StopCondition::Depth(2));
    let mov = ai.calculate_move().expect("the opening position has moves");
    assert!(is_legal(&state, mov));
}

#[test]
fn forced_win_in_one_is_found_at_depth_one() {
    // Player 0 has filled every goal cell but (4, 12); its fifteenth
    // piece stands on (3, 12), one slide west of the gap.
    let mut board = vec![Tile::Invalid; 221];
    let probe = GameState::default();
    for x in 0..13i8 {
        for y in 0..17i8 {
            if probe.is_valid_location(x, y) {
                board[grid_index(x, y)] = Tile::Empty;
            }
        }
    }
    for &(x, y) in GameState::targets(0).iter().skip(1) {
        board[grid_index(x, y)] = Tile::Player(0);
    }
    board[grid_index(3, 12)] = Tile::Player(0);
    // Player 1 sits far away in its own corner.
    board[grid_index(6, 0)] = Tile::Player(1);
    board[grid_index(6, 1)] = Tile::Player(1);

    let state = GameState::from_tiles(board, 0, 0).expect("a well-formed grid");
    let mut ai = AI::new(state);
    ai.set_stop_condition(StopCondition::Depth(1));
    let mov = ai.calculate_move().expect("a move exists");
    assert_eq!(mov.from, (3, 12));
    assert_eq!(mov.to, (4, 12));
}

#[test]
fn time_cutoff_returns_a_legal_move_quickly() {
    let state = GameState::default();
    let mut ai = AI::new(state.clone());
    ai.set_stop_condition(StopCondition::Time(50));
    let clock = Instant::now();
    let mov = ai.calculate_move().expect("the opening position has moves");
    let elapsed = clock.elapsed().as_millis();
    assert!(is_legal(&state, mov));
    assert!(elapsed <= 2000, "search ran for {} ms", elapsed);
}

#[test]
fn hash_stays_consistent_through_play() {
    // The incrementally maintained hash always equals a from-scratch
    // recomputation, and two move orders reaching the same position
    // give the same hash.
    let state = GameState::default();
    let mut ai = AI::new(state.clone());

    let m0 = Move { from: (4, 4), to: (4, 5) };
    let m1 = Move { from: (4, 12), to: (4, 11) };
    let m2 = Move { from: (8, 4), to: (8, 5) };
    let m3 = Move { from: (8, 12), to: (8, 11) };

    ai.make_move(m0);
    assert_eq!(ai.hash, ai.hasher.full_hash(&ai.state));
    ai.make_move(m1);
    ai.make_move(m2);
    ai.make_move(m3);
    assert_eq!(ai.hash, ai.hasher.full_hash(&ai.state));
    let hash_first_order = ai.hash;

    // The same four moves in a transposed order on a fresh board with
    // the same Zobrist tables.
    let mut replay = AI::new(state);
    replay.hasher = ai.hasher;
    replay.hash = replay.hasher.full_hash(&replay.state);
    replay.make_move(m2);
    replay.make_move(m1);
    replay.make_move(m0);
    replay.make_move(m3);
    assert_eq!(replay.hash, hash_first_order);
}

#[test]
fn transposition_table_returns_the_stored_entry() {
    let mut tt = TranspositionTable::new(10);
    let entry = Transposition {
        evaluation: ScoreType::Exact(42),
        best_move: InternalMove { from: pos_to_index(4, 4), to: pos_to_index(4, 5) },
        depth: 3000,
        ply: 7,
    };
    let hash = 0xDEAD_BEEF_u64;
    assert!(tt.get(hash).is_none());
    tt.insert(hash, entry);
    assert_eq!(tt.get(hash), Some(entry));
    // A second caller reaching the same hash sees the first's entry.
    assert_eq!(tt.get(hash), Some(entry));
}

#[test]
fn replacement_policy_prefers_pv_age_and_depth() {
    let mov = InternalMove { from: 0, to: 1 };
    let old = Transposition {
        evaluation: ScoreType::Exact(0),
        best_move: mov,
        depth: 5000,
        ply: 10,
    };
    let shallow_new = Transposition {
        evaluation: ScoreType::Exact(0),
        best_move: mov,
        depth: 2000,
        ply: 11,
    };
    let deep_new = Transposition {
        evaluation: ScoreType::Exact(0),
        best_move: mov,
        depth: 6000,
        ply: 11,
    };
    let much_later = Transposition {
        evaluation: ScoreType::Exact(0),
        best_move: mov,
        depth: 1000,
        ply: 17,
    };
    let six_later = Transposition {
        evaluation: ScoreType::Exact(0),
        best_move: mov,
        depth: 1000,
        ply: 16,
    };
    let five_later = Transposition {
        evaluation: ScoreType::Exact(0),
        best_move: mov,
        depth: 1000,
        ply: 15,
    };
    // A principal-variation entry replaces unconditionally.
    assert!(old.should_be_replaced_by(&shallow_new, true));
    // Without that, a shallower entry of similar age does not.
    assert!(!old.should_be_replaced_by(&shallow_new, false));
    // Equal or greater depth replaces.
    assert!(old.should_be_replaced_by(&deep_new, false));
    // An entry at least six plies younger replaces regardless of depth.
    assert!(old.should_be_replaced_by(&much_later, false));
    assert!(old.should_be_replaced_by(&six_later, false));
    // Five plies of age are not yet enough.
    assert!(!old.should_be_replaced_by(&five_later, false));
}

#[test]
fn played_and_unplayed_moves_leave_the_engine_unchanged() {
    let state = GameState::default();
    let mut ai = AI::new(state);
    let pieces_before = ai.state.pieces;
    let hash_before = ai.hash;

    ai.set_stop_condition(StopCondition::Depth(2));
    let _ = ai.calculate_move();

    assert_eq!(ai.state.pieces[0], pieces_before[0]);
    assert_eq!(ai.state.pieces[1], pieces_before[1]);
    assert_eq!(ai.hash, hash_before);
}

#[test]
fn zero_depth_search_still_produces_a_legal_move() {
    // With a stop condition that forbids even the first iteration the
    // table stays empty and the driver falls back to the first
    // generated move, which must still be legal.
    let state = GameState::default();
    let mut ai = AI::new(state.clone());
    ai.set_stop_condition(StopCondition::Depth(0));
    let mov = ai.calculate_move().expect("the opening position has moves");
    assert!(is_legal(&state, mov));
}

#[test]
fn deeper_search_still_finds_the_forced_win() {
    // The winning slide found at the shallowest depth stays the choice
    // when the search looks further ahead.
    let mut board = vec![Tile::Invalid; 221];
    let probe = GameState::default();
    for x in 0..13i8 {
        for y in 0..17i8 {
            if probe.is_valid_location(x, y) {
                board[grid_index(x, y)] = Tile::Empty;
            }
        }
    }
    for &(x, y) in GameState::targets(0).iter().skip(1) {
        board[grid_index(x, y)] = Tile::Player(0);
    }
    board[grid_index(3, 12)] = Tile::Player(0);
    board[grid_index(6, 0)] = Tile::Player(1);
    board[grid_index(6, 1)] = Tile::Player(1);

    let state = GameState::from_tiles(board, 0, 0).expect("a well-formed grid");
    let mut ai = AI::new(state);
    ai.set_stop_condition(StopCondition::Depth(2));
    let mov = ai.calculate_move().expect("a move exists");
    assert_eq!(mov.from, (3, 12));
    assert_eq!(mov.to, (4, 12));
}

#[test]
fn a_poisoned_table_entry_is_never_played() {
    // An entry whose move is illegal in the current position, as a hash
    // collision would leave behind, must be rejected in favour of a
    // generated legal move.
    let state = GameState::default();
    let mut ai = AI::new(state.clone());
    let bogus = Transposition {
        evaluation: ScoreType::Exact(123),
        best_move: InternalMove { from: 0, to: 1 },
        depth: 9000,
        ply: 0,
    };
    ai.main_tt.insert(ai.hash, bogus);
    ai.set_stop_condition(StopCondition::Depth(0));
    let mov = ai.calculate_move().expect("the opening position has moves");
    assert!(is_legal(&state, mov));
}


#[test]
fn picker_yields_every_legal_move_exactly_once() {
    let state = GameState::default();
    let internal = InternalGameState::from_game_state(&state);
    let legal = internal.possible_moves();

    // With an empty table the picker runs through the generated moves.
    let tt = TranspositionTable::new(8);
    let mut picker = MovePicker::new(internal, 0);
    let mut yielded = Vec::new();
    while let Some(m) = picker.next(&tt) {
        yielded.push((m.from, m.to));
    }
    let mut expected: Vec<(u8, u8)> = legal.iter().map(|m| (m.from, m.to)).collect();
    assert_eq!(yielded.len(), expected.len());
    let mut sorted = yielded.clone();
    sorted.sort();
    expected.sort();
    assert_eq!(sorted, expected);

    // With a legal table move, that move comes first and is not
    // repeated later.
    let tt_move = legal[legal.len() / 2];
    let mut tt = TranspositionTable::new(8);
    tt.insert(
        7,
        Transposition { evaluation: ScoreType::Exact(1), best_move: tt_move, depth: 1000, ply: 0 },
    );
    let mut picker = MovePicker::new(internal, 7);
    let mut yielded = Vec::new();
    while let Some(m) = picker.next(&tt) {
        yielded.push((m.from, m.to));
    }
    assert_eq!(yielded[0], (tt_move.from, tt_move.to));
    assert_eq!(yielded.len(), expected.len());
    let mut sorted = yielded.clone();
    sorted.sort();
    assert_eq!(sorted, expected);
}
