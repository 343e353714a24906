use chess_engine::bit_help::{ray_until_blocker, Dir};
use chess_engine::move_generation::MoveTables;
use chess_engine::two_player_game::Player;

fn slow_rook(index: usize, blockers: u64) -> u64 {
    ray_until_blocker(index, blockers, Dir::North)
        | ray_until_blocker(index, blockers, Dir::South)
        | ray_until_blocker(index, blockers, Dir::East)
        | ray_until_blocker(index, blockers, Dir::West)
}

fn slow_bishop(index: usize, blockers: u64) -> u64 {
    ray_until_blocker(index, blockers, Dir::NorthEast)
        | ray_until_blocker(index, blockers, Dir::NorthWest)
        | ray_until_blocker(index, blockers, Dir::SouthEast)
        | ray_until_blocker(index, blockers, Dir::SouthWest)
}

#[test]
fn tables_answer_from_the_magic_tables() {
    let tables = MoveTables::new();
    assert!(tables.uses_tables());
}

#[test]
fn sliding_lookup_equals_ray_casting_on_a_sample() {
    let tables = MoveTables::new();
    let mut seed: u64 = 0x9e37_79b9_7f4a_7c15;
    for index in 0..64usize {
        for round in 0..200 {
            seed ^= seed << 13;
            seed ^= seed >> 7;
            seed ^= seed << 17;
            let blockers = if round % 3 == 0 { seed & seed.rotate_left(17) } else { seed };
            assert_eq!(tables.get_rook_moves(index, blockers), slow_rook(index, blockers));
            assert_eq!(tables.get_bishop_moves(index, blockers), slow_bishop(index, blockers));
            assert_eq!(
                MoveTables::_rook_moves_slow(index, blockers),
                slow_rook(index, blockers)
            );
            assert_eq!(
                MoveTables::_bishop_moves_slow(index, blockers),
                slow_bishop(index, blockers)
            );
        }
    }
}

#[test]
fn knight_and_king_masks() {
    let tables = MoveTables::new();
    assert_eq!(tables.get_knight_moves(0), (1 << 10) | (1 << 17));
    assert_eq!(
        tables.get_knight_moves(27),
        (1 << 10) | (1 << 12) | (1 << 17) | (1 << 21) | (1 << 33) | (1 << 37) | (1 << 42) | (1 << 44)
    );
    assert_eq!(tables.get_king_moves(0), (1 << 1) | (1 << 8) | (1 << 9));
    assert_eq!(
        tables.get_king_moves(27),
        (1 << 18) | (1 << 19) | (1 << 20) | (1 << 26) | (1 << 28) | (1 << 34) | (1 << 35) | (1 << 36)
    );
}

#[test]
fn pawn_pushes_and_captures() {
    let tables = MoveTables::new();
    // The first player's pawns start on rank coordinate 1 and move up.
    assert_eq!(tables.get_pawn_moves(Player::PLAYER1, 11, 0), (1 << 19) | (1 << 27));
    assert_eq!(tables.get_pawn_moves(Player::PLAYER1, 11, 1 << 27), 1 << 19);
    assert_eq!(tables.get_pawn_moves(Player::PLAYER1, 11, 1 << 19), 0);
    assert_eq!(tables.get_pawn_moves(Player::PLAYER1, 19, 0), 1 << 27);
    assert_eq!(tables.get_pawn_moves(Player::PLAYER2, 51, 0), (1 << 43) | (1 << 35));
    assert_eq!(tables.get_pawn_moves(Player::PLAYER2, 43, 0), 1 << 35);
    assert_eq!(tables.get_pawn_moves(Player::PLAYER2, 3, 0), 0);
    assert_eq!(tables.get_pawn_captures(Player::PLAYER1, 11, !0), (1 << 18) | (1 << 20));
    assert_eq!(tables.get_pawn_captures(Player::PLAYER1, 11, 1 << 18), 1 << 18);
    assert_eq!(tables.get_pawn_captures(Player::PLAYER1, 8, !0), 1 << 17);
    assert_eq!(tables.get_pawn_captures(Player::PLAYER2, 51, !0), (1 << 42) | (1 << 44));
    assert_eq!(tables.get_pawn_captures(Player::PLAYER2, 51, 0), 0);
}

#[test]
fn squares_between() {
    let tables = MoveTables::new();
    assert_eq!(tables.get_ray(0, 7), 0b0111_1110);
    assert_eq!(tables.get_ray(7, 0), 0b0111_1110);
    assert_eq!(tables.get_ray(0, 27), (1 << 9) | (1 << 18));
    assert_eq!(tables.get_ray(3, 59), (1 << 11) | (1 << 19) | (1 << 27) | (1 << 35) | (1 << 43) | (1 << 51));
    assert_eq!(tables.get_ray(0, 1), 0);
    assert_eq!(tables.get_ray(0, 10), 0);
    assert_eq!(tables.get_ray(5, 5), 0);
}
