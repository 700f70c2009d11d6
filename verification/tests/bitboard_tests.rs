use halma::Bitboard;
use halma::InternalGameState;
use halma::pos_to_index;

#[test]
fn test_bitboard_shr() {
    let bb = Bitboard::from_lanes([
        0x0123456789ABCDEF,
        0x23456789ABCDEF12,
        0x456789ABCDEF0123,
        0x6789ABCDEF012345,
    ]);
    let result8 = Bitboard::from_lanes([
        0x120123456789ABCD,
        0x2323456789ABCDEF,
        0x45456789ABCDEF01,
        0x006789ABCDEF0123,
    ]);
    let result32 = Bitboard::from_lanes([
        0xABCDEF1201234567,
        0xCDEF012323456789,
        0xEF012345456789AB,
        0x000000006789ABCD,
    ]);
    assert_eq!(bb.shr(8), result8);
    assert_eq!(bb.shr(32), result32);
}

#[test]
fn test_bitboard_shl() {
    let bb = Bitboard::from_lanes([
        0xABCDEF1201234567,
        0xCDEF012323456789,
        0xEF012345456789AB,
        0x000000006789ABCD,
    ]);
    let result32 = Bitboard::from_lanes([
        0x0123456700000000,
        0x23456789ABCDEF12,
        0x456789ABCDEF0123,
        0x6789ABCDEF012345,
    ]);
    assert_eq!(bb.shl(32), result32);
}

#[test]
fn bit_set_get_unset() {
    let mut bb = Bitboard::empty();
    assert!(bb.is_empty());
    bb.set_bit(0);
    bb.set_bit(63);
    bb.set_bit(64);
    bb.set_bit(255);
    assert!(bb.get_bit(0));
    assert!(bb.get_bit(63));
    assert!(bb.get_bit(64));
    assert!(bb.get_bit(255));
    assert!(!bb.get_bit(1));
    assert_eq!(bb.popcount(), 4);
    bb.unset_bit(63);
    assert!(!bb.get_bit(63));
    assert_eq!(bb.popcount(), 3);
}

#[test]
fn pop_yields_ascending() {
    let mut bb = Bitboard::empty();
    bb.set_bit(200);
    bb.set_bit(5);
    bb.set_bit(70);
    assert_eq!(bb.pop(), Some(5));
    assert_eq!(bb.pop(), Some(70));
    assert_eq!(bb.pop(), Some(200));
    assert_eq!(bb.pop(), None);
}

#[test]
fn ones_iterates_all_set_bits() {
    let mut bb = Bitboard::empty();
    let indices = [3u8, 12, 64, 127, 128, 254];
    for &i in indices.iter() {
        bb.set_bit(i);
    }
    let mut it = bb.ones();
    let mut seen = Vec::new();
    while let Some(i) = it.next() {
        seen.push(i);
    }
    assert_eq!(seen, indices.to_vec());
}

#[test]
fn invalid_mask_has_121_valid_cells() {
    let invalid = halma::invalid_cells();
    assert_eq!(256 - invalid.popcount(), 121);
}

#[test]
fn target_masks_are_the_two_triangles() {
    let t0 = halma::target_cells(0);
    let t1 = halma::target_cells(1);
    assert_eq!(t0.popcount(), 15);
    assert_eq!(t1.popcount(), 15);
    assert_eq!(t0.or(t1).popcount(), 30);
    assert!(t0.and(t1).is_empty());
    // The masks match the coordinate lists of the goal triangles.
    for player in 0..2u8 {
        let mask = halma::target_cells(player);
        let mut count = 0;
        for (x, y) in halma::GameState::targets(player) {
            assert!(mask.get_bit(pos_to_index(x as u8, y as u8)));
            count += 1;
        }
        assert_eq!(count, 15);
    }
    // No target cell is invalid.
    assert!(t0.and(halma::invalid_cells()).is_empty());
    assert!(t1.and(halma::invalid_cells()).is_empty());
}

#[test]
fn jump_chain_reaches_the_far_cell() {
    // A piece on (2, 8) with stepping stones on (3, 8), (5, 8), (7, 8)
    // and (9, 8) can chain-jump all the way to (10, 8), landing on every
    // even column on the way.
    let mut own = Bitboard::empty();
    own.set_bit(pos_to_index(2, 8));
    let mut other = Bitboard::empty();
    for x in [3u8, 5, 7, 9] {
        other.set_bit(pos_to_index(x, 8));
    }
    let state = InternalGameState { pieces: [own, other], ply: 0, current_player: 0 };
    let from = pos_to_index(2, 8);
    let reach = state.reachable_from(from);
    for x in [4u8, 6, 8, 10] {
        assert!(reach.get_bit(pos_to_index(x, 8)), "missing landing at column {}", x);
    }
    // The start cell itself is not a destination.
    assert!(!reach.get_bit(from));
}
