use halma::Evaluation;
use halma::EvaluationCache;
use halma::GameState;
use halma::InternalGameState;
use halma::InternalMove;
use halma::distance_to_center;
use halma::kind;
use halma::pos_to_index;

#[test]
fn evaluation_test_kinds() {
    let x = 6;
    let y = 9;

    assert_eq!(kind(x, y), kind(x + 2, y));
    assert_eq!(kind(x, y), kind(x - 2, y));
    assert_eq!(kind(x, y), kind(x + 1, y + 2));
    assert_eq!(kind(x, y), kind(x - 1, y + 2));
    assert_eq!(kind(x, y), kind(x + 1, y - 2));
    assert_eq!(kind(x, y), kind(x - 1, y - 2));

    assert_ne!(kind(x, y), kind(x + 1, y));
    assert_ne!(kind(x, y), kind(x - 1, y));
    assert_ne!(kind(x, y), kind(x + 1, y + 1));
    assert_ne!(kind(x, y), kind(x, y + 1));
}

#[test]
fn evaluation_cache_test_kinds() {
    let x = 6;
    let y = 9;

    assert_eq!(kind(x, y), kind(x + 2, y));
    assert_eq!(kind(x, y), kind(x - 2, y));
    assert_eq!(kind(x, y), kind(x + 1, y + 2));
    assert_eq!(kind(x, y), kind(x - 1, y + 2));
    assert_eq!(kind(x, y), kind(x + 1, y - 2));
    assert_eq!(kind(x, y), kind(x - 1, y - 2));

    assert_ne!(kind(x, y), kind(x + 1, y));
    assert_ne!(kind(x, y), kind(x - 1, y));
    assert_ne!(kind(x, y), kind(x + 1, y + 1));
    assert_ne!(kind(x, y), kind(x, y + 1));
}

#[test]
fn distance_to_center_values() {
    // Even rows centre on column 6, odd rows between 6 and 7.
    assert_eq!(distance_to_center(6, 0), 0);
    assert_eq!(distance_to_center(0, 4), 6);
    assert_eq!(distance_to_center(12, 4), 6);
    assert_eq!(distance_to_center(6, 5), 0);
    assert_eq!(distance_to_center(7, 5), 0);
    assert_eq!(distance_to_center(12, 5), 5);
}

#[test]
fn symmetric_start_scores_zero() {
    let state = GameState::default();
    let internal = InternalGameState::from_game_state(&state);
    let evaluation = Evaluation::new(&internal);
    assert_eq!(evaluation.evaluate(&internal), 0);
}

fn scores(c: &EvaluationCache) -> [i64; 5] {
    [
        c.score_kinds(),
        c.score_total_distance(),
        c.score_dist_first_piece(),
        c.score_dist_last_piece(),
        c.score_centralization(),
    ]
}

#[test]
fn incremental_update_matches_fresh_recount() {
    let state = GameState::default();
    let mut internal = InternalGameState::from_game_state(&state);
    let mut cache = EvaluationCache::new(&internal);

    // Play a few legal moves, updating the cache incrementally.
    for _ in 0..4 {
        let moves = internal.possible_moves();
        let mov = moves[0];
        cache.update(internal.current_player, mov);
        internal.make_move(mov);
    }

    let fresh = EvaluationCache::new(&internal);
    assert_eq!(scores(&cache), scores(&fresh));
}

#[test]
fn update_and_reverse_update_cancel() {
    let state = GameState::default();
    let internal = InternalGameState::from_game_state(&state);
    let mut cache = EvaluationCache::new(&internal);
    let before = scores(&cache);

    let from = pos_to_index(4, 4);
    let to = pos_to_index(4, 5);
    let mov = InternalMove { from, to };
    cache.update(0, mov);
    cache.update(0, mov.inverse());
    assert_eq!(scores(&cache), before);
}

#[test]
fn cache_scores_after_one_opening_move() {
    // After player 0 slides (4, 4) to (4, 5) the aggregates shift by
    // exactly one row and one parity class, giving known scaled scores.
    let state = GameState::default();
    let mut internal = InternalGameState::from_game_state(&state);
    let mut cache = EvaluationCache::new(&internal);
    let mov = halma::InternalMove { from: pos_to_index(4, 4), to: pos_to_index(4, 5) };
    cache.update(0, mov);
    internal.make_move(mov);

    // Total distance: player 0 gained one row of the 209 range.
    assert_eq!(cache.score_total_distance(), 100_000 / 209);
    // Most advanced pieces now differ by one row of the 13 range.
    assert_eq!(cache.score_dist_first_piece(), 100_000 / 13);
    // Least advanced pieces are still symmetric.
    assert_eq!(cache.score_dist_last_piece(), 0);
    // The moved piece left its parity class, costing two mismatches.
    assert_eq!(cache.score_kinds(), -(200_000 / 12));
    // Both landing and origin sit two columns from the centre.
    assert_eq!(cache.score_centralization(), 0);
}
