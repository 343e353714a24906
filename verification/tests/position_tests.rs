use chess_engine::chess_impl::{
    king_start, kingside_rook_start, queenside_rook_start, BoardState, Chess, Move, PieceType,
};
use chess_engine::fen::FenError;
use chess_engine::move_generation::MoveTables;
use chess_engine::notation::place_to_letters;
use chess_engine::two_player_game::{Game, GameState, Player, Scored};

const START: &str = "rnbqkbnr/pppppppp/8/8/8/8/PPPPPPPP/RNBQKBNR w KQkq - 0 1";

fn position<'a>(tables: &'a MoveTables, fen: &str) -> Chess<'a> {
    let mut chess = Chess::new(tables);
    assert_eq!(chess.setup_fen_string(fen), Ok(()));
    chess
}

fn snapshot(chess: &Chess) -> ([[u64; 6]; 2], u64, u64, Player, usize) {
    (
        chess.board.piece_state,
        chess.board.castle_memory,
        chess.board.en_passant_square,
        chess.current_player,
        chess.history.len(),
    )
}

fn find(chess: &Chess, text: &str) -> Move {
    let found: Vec<Move> =
        chess.possible_moves().into_iter().filter(|m| m.to_string() == text).collect();
    assert_eq!(found.len(), 1, "{}", text);
    found[0]
}

fn round_trip_all(chess: &mut Chess, depth: u32) {
    let before = snapshot(chess);
    for m in chess.possible_moves() {
        chess.do_move(m);
        assert!(chess.is_wf());
        if depth > 1 {
            round_trip_all(chess, depth - 1);
        }
        assert_eq!(chess.undo_move(), m);
        assert_eq!(snapshot(chess), before);
    }
}

fn king_attacked_after(chess: &mut Chess, m: Move) -> bool {
    // The mover's king can be taken next if some reply of the opponent lands on it.
    let mover = chess.current_player;
    chess.do_move(m);
    let king = chess.board.get(mover, PieceType::KING);
    let other = mover.other();
    let occ_no_king = chess.board.all_occupancy();
    let danger = chess.tables.get_king_danger_squares(&chess.board, mover);
    let _ = (other, occ_no_king);
    chess.undo_move();
    danger & king != 0
}

#[test]
fn new_game_is_the_start_position() {
    let tables = MoveTables::new();
    let fresh = Chess::new(&tables);
    let parsed = position(&tables, START);
    assert_eq!(snapshot(&fresh), snapshot(&parsed));
    assert!(fresh.is_wf());
    assert_eq!(Chess::current_player(&fresh), Player::PLAYER1);
    assert_eq!(fresh.get_game_len(), 0);
    assert_eq!(fresh.board.get(Player::PLAYER1, PieceType::KING), king_start(Player::PLAYER1));
    assert_eq!(fresh.board.get(Player::PLAYER2, PieceType::KING), king_start(Player::PLAYER2));
    assert_eq!(
        fresh.board.get(Player::PLAYER1, PieceType::ROOK),
        kingside_rook_start(Player::PLAYER1) | queenside_rook_start(Player::PLAYER1)
    );
    assert_eq!(
        fresh.board.get(Player::PLAYER2, PieceType::ROOK),
        kingside_rook_start(Player::PLAYER2) | queenside_rook_start(Player::PLAYER2)
    );
    assert_eq!(fresh.board.occupancy(Player::PLAYER1), 0xffff);
    assert_eq!(fresh.board.all_occupancy(), 0xffff_0000_0000_ffff);
    assert_eq!(fresh.board.type_at(1 << 3), Some((Player::PLAYER1, PieceType::KING)));
    assert_eq!(fresh.board.type_at(1 << 60), Some((Player::PLAYER2, PieceType::QUEEN)));
    assert_eq!(fresh.board.type_at(1 << 30), None);
    assert_eq!(Game::game_state(&fresh), GameState::PLAYING);
    let mut again = position(&tables, "8/8/4k3/8/2p5/8/B2P2K1/8 w - - 0 1");
    again.setup_new_game();
    assert_eq!(snapshot(&again), snapshot(&fresh));
}

#[test]
fn do_then_undo_restores_every_bit() {
    let tables = MoveTables::new();
    let fens = [
        START,
        "r3k2r/1b4bq/8/8/8/8/7B/R3K2R w KQkq - 0 1",
        "8/8/1k6/2b5/2pP4/8/5K2/8 b - d3 0 1",
        "rnbq1k1r/pp1Pbppp/2p5/8/2B5/8/PPP1NnPP/RNBQK2R w KQ - 1 8",
        "8/P1k5/K7/8/8/8/8/8 w - - 0 1",
    ];
    for fen in fens.iter() {
        let mut chess = position(&tables, fen);
        round_trip_all(&mut chess, 2);
    }
}

#[test]
fn no_generated_move_leaves_the_king_attacked() {
    let tables = MoveTables::new();
    let fens = [
        START,
        "r6r/1b2k1bq/8/8/7B/8/8/R3K2R b QK - 3 2",
        "8/8/8/2k5/2pP4/8/B7/4K3 b - d3 5 3",
        "r3k2r/p1pp1pb1/bn2Qnp1/2qPN3/1p2P3/2N5/PPPBBPPP/R3K2R b QqKk - 3 2",
        "3k4/3p4/8/K1P4r/8/8/8/8 b - - 0 1",
        "8/8/1k6/2b5/2pP4/8/5K2/8 b - d3 0 1",
        "2K2r2/4P3/8/8/8/8/8/3k4 w - - 0 1",
    ];
    for fen in fens.iter() {
        let mut chess = position(&tables, fen);
        for m in chess.possible_moves() {
            assert!(!king_attacked_after(&mut chess, m), "{} {}", fen, m.to_string());
            chess.do_move(m);
            for reply in chess.possible_moves() {
                assert!(!king_attacked_after(&mut chess, reply));
            }
            chess.undo_move();
        }
    }
}

#[test]
fn castling_moves_the_rook_and_spends_the_rights() {
    let tables = MoveTables::new();
    let mut chess = position(&tables, "r3k2r/8/8/8/8/8/8/R3K2R w KQkq - 0 1");
    let before = snapshot(&chess);
    let short = find(&chess, "e1g1");
    chess.do_move(short);
    assert_eq!(chess.board.get(Player::PLAYER1, PieceType::KING), 1 << 1);
    assert_eq!(chess.board.get(Player::PLAYER1, PieceType::ROOK), (1 << 2) | (1 << 7));
    assert_eq!(chess.get_fen_string(), "r3k2r/8/8/8/8/8/8/R4RK1 b kq - 1 1");
    let long = find(&chess, "e8c8");
    chess.do_move(long);
    assert_eq!(chess.board.get(Player::PLAYER2, PieceType::KING), 1 << 61);
    assert_eq!(chess.board.get(Player::PLAYER2, PieceType::ROOK), (1 << 56) | (1 << 60));
    assert_eq!(chess.get_fen_string(), "2kr3r/8/8/8/8/8/8/R4RK1 w - - 2 2");
    assert_eq!(chess.undo_move(), long);
    assert_eq!(chess.undo_move(), short);
    assert_eq!(snapshot(&chess), before);
    assert_eq!(Chess::castle_rook_move(1 << 1), (1 << 0, 1 << 2));
    assert_eq!(Chess::castle_rook_move(1 << 5), (1 << 7, 1 << 4));
    assert_eq!(Chess::castle_rook_move(1 << 61), (1 << 63, 1 << 60));
    assert_eq!(Chess::castle_rook_move(1 << 57), (1 << 56, 1 << 58));
}

#[test]
fn a_double_step_sets_the_target_for_one_ply() {
    let tables = MoveTables::new();
    let mut chess = Chess::new(&tables);
    let m = find(&chess, "e2e4");
    assert_eq!(m.serialize(), "3 1 3 3 -1 -1 0");
    chess.do_move(m);
    assert_eq!(chess.board.en_passant_square, 1 << 19);
    assert_eq!(
        chess.get_fen_string(),
        "rnbqkbnr/pppppppp/8/8/4P3/8/PPPP1PPP/RNBQKBNR b KQkq e3 0 1"
    );
    let reply = find(&chess, "g8f6");
    chess.do_move(reply);
    assert_eq!(chess.board.en_passant_square, 0);
    assert_eq!(
        chess.get_fen_string(),
        "rnbqkb1r/pppppppp/5n2/8/4P3/8/PPPP1PPP/RNBQKBNR w KQkq - 1 2"
    );
}

#[test]
fn en_passant_takes_the_pawn_beside() {
    let tables = MoveTables::new();
    let mut chess = position(&tables, "8/8/1k6/2b5/2pP4/8/5K2/8 b - d3 0 1");
    let m = find(&chess, "c4d3");
    assert_eq!(m.eaten_loc, 1 << 28);
    assert_eq!(m.to, 1 << 20);
    assert_eq!(m.serialize(), "5 3 4 2 4 3 0");
    let before = snapshot(&chess);
    chess.do_move(m);
    assert_eq!(chess.board.get(Player::PLAYER1, PieceType::PAWN), 0);
    assert_eq!(chess.board.get(Player::PLAYER2, PieceType::PAWN), 1 << 20);
    chess.undo_move();
    assert_eq!(snapshot(&chess), before);
}

#[test]
fn en_passant_is_barred_when_it_opens_the_rank() {
    let tables = MoveTables::new();
    // King and both pawns on one rank with a rook, then a queen, behind them.
    let rook = position(&tables, "8/8/8/8/k2pP2R/8/8/4K3 b - e3 0 1");
    assert!(rook.possible_moves().iter().all(|m| m.to_string() != "d4e3"));
    let queen = position(&tables, "8/8/8/8/k2pP2Q/8/8/4K3 b - e3 0 1");
    assert!(queen.possible_moves().iter().all(|m| m.to_string() != "d4e3"));
    let free = position(&tables, "8/8/8/8/k2pP3/8/8/4K2R b - e3 0 1");
    assert!(free.possible_moves().iter().any(|m| m.to_string() == "d4e3"));
}

#[test]
fn a_pinned_pawn_takes_en_passant_along_the_pin() {
    let tables = MoveTables::new();
    let moves_from = |fen: &str, from: u64| -> Vec<String> {
        position(&tables, fen)
            .possible_moves()
            .iter()
            .filter(|m| m.from == from)
            .map(|m| m.to_string())
            .collect()
    };
    // The bishop on a2 pins the pawn on d5 to the king on f7; the target e6 lies
    // in their line, between pawn and king.
    assert_eq!(moves_from("k7/5K2/8/3Pp3/8/8/b7/8 w - e6 0 1", 1 << 36), vec!["d5e6"]);
    // The bishop on g8 pins the pawn to the king on c4; the target lies in their
    // line, beyond the pawn.
    assert_eq!(moves_from("6b1/8/8/3Pp3/2K5/8/8/k7 w - e6 0 1", 1 << 36), vec!["d5e6"]);
    // Pinned on the other diagonal, the pawn may not take, nor step ahead.
    assert!(moves_from("8/1K6/8/3Pp3/8/5b2/8/7k w - e6 0 1", 1 << 36).is_empty());
    // The same for the second player.
    assert_eq!(moves_from("8/B7/8/8/3pP3/8/5k2/K7 b - e3 0 1", 1 << 28), vec!["d4e3"]);
    // Without the pin the pawn has both moves.
    assert_eq!(moves_from("k7/5K2/8/3Pp3/8/8/8/8 w - e6 0 1", 1 << 36), vec!["d5e6", "d5d6"]);
}

#[test]
fn promotion_gives_four_moves() {
    let tables = MoveTables::new();
    let chess = position(&tables, "8/P1k5/K7/8/8/8/8/8 w - - 0 1");
    let promotions: Vec<String> = chess
        .possible_moves()
        .iter()
        .filter(|m| m.from == 1 << 55)
        .map(|m| m.to_string())
        .collect();
    assert_eq!(promotions, vec!["a7a8q", "a7a8r", "a7a8b", "a7a8n"]);
    let m = find(&chess, "a7a8q");
    assert_eq!(m.serialize(), "7 6 7 7 -1 -1 4");
    assert_eq!(m.end_type, PieceType::QUEEN);
}

#[test]
fn double_check_leaves_only_king_moves() {
    let tables = MoveTables::new();
    // Rook on e8 and knight on f3 both give check to the king on e1; the bishop
    // on g2 could take the knight, but that leaves the rook's check.
    let chess = position(&tables, "4r2k/8/8/8/8/5n2/6B1/4K3 w - - 0 1");
    let moves = chess.possible_moves();
    let texts: Vec<String> = moves.iter().map(|m| m.to_string()).collect();
    assert_eq!(texts, vec!["e1f1", "e1d1", "e1f2"]);
    assert!(moves.iter().all(|m| m.from == 1 << 3));
    assert_eq!(chess.get_checkers().count_ones(), 2);
}

#[test]
fn a_pinned_piece_moves_along_the_pin_only() {
    let tables = MoveTables::new();
    // The rook on e2 is pinned on the e-file by the rook on e8.
    let chess = position(&tables, "4r2k/8/8/8/8/8/4R3/4K3 w - - 0 1");
    let rook_moves: Vec<String> = chess
        .possible_moves()
        .iter()
        .filter(|m| m.from == 1 << 11)
        .map(|m| m.to_string())
        .collect();
    assert_eq!(rook_moves, vec!["e2e3", "e2e4", "e2e5", "e2e6", "e2e7", "e2e8"]);
}

#[test]
fn move_hash_packs_the_fields() {
    let m = Move {
        from: 1 << 11,
        to: 1 << 27,
        start_type: PieceType::PAWN,
        end_type: PieceType::QUEEN,
        eaten_type: PieceType::ROOK,
        eaten_loc: 1 << 27,
    };
    assert_eq!(m.hash(), 11 | (27 << 8) | (0 << 16) | (4 << 24) | (3 << 32) | (27 << 40));
    let quiet = Move { eaten_loc: 0, eaten_type: PieceType::PAWN, end_type: PieceType::PAWN, ..m };
    assert_eq!(quiet.hash(), 11 | (27 << 8) | (64u64 << 40));
    assert_eq!(m.to_string(), "e2e4q");
    assert_eq!(place_to_letters(1), "h1");
    assert_eq!(place_to_letters(1 << 63), "a8");
}

#[test]
fn position_text_round_trips() {
    let tables = MoveTables::new();
    let fens = [
        START,
        "r6r/1b2k1bq/8/8/7B/8/8/R3K2R b KQ - 3 2",
        "8/8/8/2k5/2pP4/8/B7/4K3 b - d3 0 3",
        "r3k2r/p1pp1pb1/bn2Qnp1/2qPN3/1p2P3/2N5/PPPBBPPP/R3K2R b KQkq - 3 2",
        "rnbq1k1r/pp1Pbppp/2p5/8/2B5/8/PPP1NnPP/RNBQK2R w KQ - 1 8",
        "8/8/8/8/8/8/8/K1k5 w - - 99 150",
        "8/8/8/8/8/8/8/K1k5 b - - 18446744073709551615 18446744073709551615",
    ];
    for fen in fens.iter() {
        let chess = position(&tables, fen);
        assert_eq!(chess.get_fen_string(), *fen);
        let again = position(&tables, &chess.get_fen_string());
        assert_eq!(snapshot(&again), snapshot(&chess));
        assert_eq!((again.start_clock, again.start_number), (chess.start_clock, chess.start_number));
    }
    let fresh = Chess::new(&tables);
    assert_eq!(fresh.get_fen_string(), START);
}

#[test]
fn the_counters_follow_the_moves() {
    let tables = MoveTables::new();
    let mut chess = Chess::new(&tables);
    assert_eq!((chess.get_halfmove_clock(), chess.get_move_number()), (0, 1));
    let texts = [
        ("e2e4", "rnbqkbnr/pppppppp/8/8/4P3/8/PPPP1PPP/RNBQKBNR b KQkq e3 0 1"),
        ("e7e5", "rnbqkbnr/pppp1ppp/8/4p3/4P3/8/PPPP1PPP/RNBQKBNR w KQkq e6 0 2"),
        ("g1f3", "rnbqkbnr/pppp1ppp/8/4p3/4P3/5N2/PPPP1PPP/RNBQKB1R b KQkq - 1 2"),
        ("b8c6", "r1bqkbnr/pppp1ppp/2n5/4p3/4P3/5N2/PPPP1PPP/RNBQKB1R w KQkq - 2 3"),
        ("f3e5", "r1bqkbnr/pppp1ppp/2n5/4N3/4P3/8/PPPP1PPP/RNBQKB1R b KQkq - 0 3"),
        ("c6e5", "r1bqkbnr/pppp1ppp/8/4n3/4P3/8/PPPP1PPP/RNBQKB1R w KQkq - 0 4"),
    ];
    for (m, fen) in texts.iter() {
        let m = find(&chess, m);
        chess.do_move(m);
        assert_eq!(chess.get_fen_string(), *fen);
        // The text of a game under way sets up the same position, without the moves.
        let again = position(&tables, fen);
        assert_eq!(again.get_fen_string(), *fen);
        assert_eq!(again.get_game_len(), 0);
        assert_eq!(again.board.piece_state, chess.board.piece_state);
    }
    chess.undo_move();
    assert_eq!(chess.get_fen_string(), texts[4].1);
    // Counters that the text gives are counted on.
    let mut late = position(&tables, "8/8/4k3/8/2p5/8/B2P2K1/8 b - - 49 77");
    assert_eq!((late.start_clock, late.start_number), (49, 77));
    let m = find(&late, "e6e5");
    late.do_move(m);
    assert_eq!(late.get_fen_string(), "8/8/8/4k3/2p5/8/B2P2K1/8 w - - 50 78");
    assert_eq!((late.get_halfmove_clock(), late.get_move_number()), (50, 78));
    let m = find(&late, "a2c4");
    late.do_move(m);
    assert_eq!(late.get_fen_string(), "8/8/8/4k3/2B5/8/3P2K1/8 b - - 0 78");
    // A text may end after its fourth or fifth field.
    let short = position(&tables, "8/8/4k3/8/2p5/8/B2P2K1/8 b - -");
    assert_eq!(short.get_fen_string(), "8/8/4k3/8/2p5/8/B2P2K1/8 b - - 0 1");
    let shorter = position(&tables, "8/8/4k3/8/2p5/8/B2P2K1/8 b - - 12");
    assert_eq!(shorter.get_fen_string(), "8/8/4k3/8/2p5/8/B2P2K1/8 b - - 12 1");
    let padded = position(&tables, "8/8/4k3/8/2p5/8/B2P2K1/8 b - - 007 010");
    assert_eq!(padded.get_fen_string(), "8/8/4k3/8/2p5/8/B2P2K1/8 b - - 7 10");
}

#[test]
fn a_taken_rook_takes_its_right_along() {
    let tables = MoveTables::new();
    let mut chess = position(&tables, "r3k2r/8/8/8/8/8/6B1/R3K2R w KQkq - 0 1");
    let before = snapshot(&chess);
    let m = find(&chess, "g2a8");
    assert_eq!(m.eaten_loc, 1 << 63);
    chess.do_move(m);
    assert_eq!(chess.board.castle_memory & (1 << 63), 0);
    assert_eq!(chess.get_fen_string(), "B3k2r/8/8/8/8/8/8/R3K2R b KQk - 0 1");
    assert!(chess.possible_moves().iter().all(|x| x.to_string() != "e8c8"));
    assert!(chess.possible_moves().iter().any(|x| x.to_string() == "e8g8"));
    // The text sets up the position that the game has come to.
    let again = position(&tables, &chess.get_fen_string());
    assert_eq!(again.board.castle_memory, chess.board.castle_memory);
    assert_eq!(again.board.piece_state, chess.board.piece_state);
    assert_eq!(chess.undo_move(), m);
    assert_eq!(snapshot(&chess), before);
    // A rook that comes to the corner later brings no right.
    let mut later = position(&tables, "4k2r/r7/8/8/8/8/8/R3K2R b KQk - 0 1");
    let back = find(&later, "a7a8");
    later.do_move(back);
    assert!(later.possible_moves().iter().any(|x| x.to_string() == "e1g1"));
    let wait = find(&later, "e1e2");
    later.do_move(wait);
    assert!(later.possible_moves().iter().all(|x| x.to_string() != "e8c8"));
    assert!(later.possible_moves().iter().any(|x| x.to_string() == "e8g8"));
}

#[test]
fn the_text_keeps_the_rights_that_the_memory_grants() {
    let tables = MoveTables::new();
    let mut chess = position(&tables, "r3k2r/8/8/8/8/8/8/R3K2R w KQkq - 0 1");
    for text in ["a1b1", "a8b8", "h1g1", "h8g8"] {
        let m = find(&chess, text);
        chess.do_move(m);
    }
    // Both kings keep their memory, and it grants nothing.
    assert_eq!(chess.board.castle_memory, king_start(Player::PLAYER1) | king_start(Player::PLAYER2));
    let text = chess.get_fen_string();
    assert_eq!(text, "1r2k1r1/8/8/8/8/8/8/1R2K1R1 w - - 4 3");
    let again = position(&tables, &text);
    assert_eq!(again.board.castle_memory, 0);
    assert_eq!(again.board.piece_state, chess.board.piece_state);
    assert_eq!(again.get_fen_string(), text);
    assert_eq!(again.possible_moves(), chess.possible_moves());
    // With one rook left in place the memory is what the text sets up.
    let mut half = position(&tables, "r3k2r/8/8/8/8/8/8/R3K2R w KQkq - 0 1");
    let m = find(&half, "a1b1");
    half.do_move(m);
    let again = position(&tables, &half.get_fen_string());
    assert_eq!(half.get_fen_string(), "r3k2r/8/8/8/8/8/8/1R2K2R b Kkq - 1 1");
    assert_eq!(again.board.castle_memory, half.board.castle_memory);
}

#[test]
fn no_move_is_given_twice() {
    let tables = MoveTables::new();
    let fens = [
        START,
        "r3k2r/p1ppqpb1/bn2pnp1/3PN3/1p2P3/2N2Q1p/PPPBBPPP/R3K2R w KQkq - 0 1",
        "8/2p5/3p4/KP5r/1R3p1k/8/4P1P1/8 w - - 0 1",
        "r3k2r/Pppp1ppp/1b3nbN/nP6/BBP1P3/q4N2/Pp1P2PP/R2Q1RK1 w kq - 0 1",
        "rnbq1k1r/pp1Pbppp/2p5/8/2B5/8/PPP1NnPP/RNBQK2R w KQ - 1 8",
        "k7/5K2/8/3Pp3/8/8/b7/8 w - e6 0 1",
        "8/8/8/8/k2pP2R/8/8/4K3 b - e3 0 1",
        "4r2k/8/8/8/8/5n2/6B1/4K3 w - - 0 1",
    ];
    for fen in fens.iter() {
        let mut chess = position(&tables, fen);
        let moves = chess.possible_moves();
        for (i, a) in moves.iter().enumerate() {
            assert!(!moves[i + 1..].contains(a), "{} {}", fen, a.to_string());
        }
        for m in moves {
            chess.do_move(m);
            let replies = chess.possible_moves();
            for (i, a) in replies.iter().enumerate() {
                assert!(!replies[i + 1..].contains(a));
            }
            chess.undo_move();
        }
    }
}

#[test]
fn a_game_ends_when_the_player_to_move_has_no_move() {
    let tables = MoveTables::new();
    let cases = [
        (START, GameState::PLAYING),
        ("rnb1kbnr/pppp1ppp/8/4p3/6Pq/5P2/PPPPP2P/RNBQKBNR w KQkq - 1 3", GameState::PLAYER2WIN),
        ("k6R/8/1K6/8/8/8/8/8 b - - 1 1", GameState::PLAYER1WIN),
        ("k7/2Q5/1K6/8/8/8/8/8 b - - 0 1", GameState::TIE),
        ("8/8/8/8/8/1k6/2q5/K7 w - - 0 1", GameState::TIE),
        // In check, with a way out.
        ("4r2k/8/8/8/8/8/8/4K3 w - - 0 1", GameState::PLAYING),
    ];
    for (fen, state) in cases.iter() {
        let chess = position(&tables, fen);
        assert_eq!(Game::game_state(&chess), *state, "{}", fen);
    }
    let mut chess = Chess::new(&tables);
    for text in ["f2f3", "e7e5", "g2g4"] {
        let m = find(&chess, text);
        chess.do_move(m);
        assert_eq!(Game::game_state(&chess), GameState::PLAYING);
    }
    let mate = find(&chess, "d8h4");
    chess.do_move(mate);
    assert_eq!(Game::game_state(&chess), GameState::PLAYER2WIN);
    assert_eq!(
        chess.get_fen_string(),
        "rnb1kbnr/pppp1ppp/8/4p3/6Pq/5P2/PPPPP2P/RNBQKBNR w KQkq - 1 3"
    );
}

#[test]
fn malformed_position_text_is_an_error() {
    let tables = MoveTables::new();
    let mut chess = position(&tables, "8/8/4k3/8/2p5/8/B2P2K1/8 w - - 0 1");
    let before = snapshot(&chess);
    let cases = [
        ("", FenError::MissingField),
        ("8/8/4k3/8/2p5/8/B2P2K1/8", FenError::MissingField),
        ("8/8/4k3/8/2p5/8/B2P2K1/8 w", FenError::MissingField),
        ("8/8/4k3/8/2p5/8/B2P2K1/8 w -", FenError::MissingField),
        ("8/8/4k3/8/2x5/8/B2P2K1/8 w - - 0 1", FenError::UnexpectedChar),
        ("8/8/4k3/8/2p5/8/B2P2K1/9 w - - 0 1", FenError::UnexpectedChar),
        ("8/8/4k3/8/2p5/8/B2P2K1/8/8 w - - 0 1", FenError::TooManySquares),
        ("8/8/4k3/8/2p5/8/B2P2K1/7pp w - - 0 1", FenError::TooManySquares),
        ("8/8/4k3/8/2p5/8/B2P2K1/8 x - - 0 1", FenError::BadSide),
        ("8/8/4k3/8/2p5/8/B2P2K1/8 wb - - 0 1", FenError::BadSide),
        ("8/8/4k3/8/2p5/8/B2P2K1/8  - - 0 1", FenError::BadSide),
        ("8/8/4k3/8/2p5/8/B2P2K1/8 w - x 0 1", FenError::BadEnPassant),
        ("8/8/4k3/8/2p5/8/B2P2K1/8 w - e9 0 1", FenError::BadEnPassant),
        ("8/8/4k3/8/2p5/8/B2P2K1/8 w - i3 0 1", FenError::BadEnPassant),
        ("8/8/4k3/8/2p5/8/B2P2K1/8 w -  0 1", FenError::BadEnPassant),
        ("8/8/4k3/8/2p5/8/B2P2K1/8 w - - x 1", FenError::BadCounter),
        ("8/8/4k3/8/2p5/8/B2P2K1/8 w - - 0 -1", FenError::BadCounter),
        ("8/8/4k3/8/2p5/8/B2P2K1/8 w - - 0 1a", FenError::BadCounter),
        ("8/8/4k3/8/2p5/8/B2P2K1/8 w - -  1", FenError::BadCounter),
        ("8/8/4k3/8/2p5/8/B2P2K1/8 w - - ", FenError::BadCounter),
        ("8/8/4k3/8/2p5/8/B2P2K1/8 w - - 0 ", FenError::BadCounter),
        ("8/8/4k3/8/2p5/8/B2P2K1/8 w - - 18446744073709551616 1", FenError::BadCounter),
        ("8/8/4k3/8/2p5/8/B2P2K1/8 w - - 0 99999999999999999999999", FenError::BadCounter),
        // A counter is read before the position is judged.
        ("8/8/8/8/2p5/8/B2P2K1/8 w - - x 1", FenError::BadCounter),
        // No king, two kings, rights without the king in place, a target without its pawn.
        ("8/8/8/8/2p5/8/B2P2K1/8 w - - 0 1", FenError::IllegalPosition),
        ("8/8/4k3/8/2p5/8/B2P2KK/8 w - - 0 1", FenError::IllegalPosition),
        ("8/8/4k3/8/2p5/8/B2P2K1/8 w K - 0 1", FenError::IllegalPosition),
        ("8/8/4k3/8/2p5/8/B2P2K1/8 w - e3 0 1", FenError::IllegalPosition),
        ("8/8/4k3/8/2p5/8/B2P2K1/8 w - c6 0 1", FenError::IllegalPosition),
    ];
    for (fen, error) in cases.iter() {
        assert_eq!(chess.setup_fen_string(fen), Err(*error), "{}", fen);
        assert_eq!(snapshot(&chess), before);
    }
}

#[test]
fn the_validator_sees_shared_squares() {
    let tables = MoveTables::new();
    let chess = Chess::new(&tables);
    let mut board: BoardState = chess.board;
    assert!(board.is_wf(Player::PLAYER1));
    assert!(board.is_disjoint());
    board.piece_state[1][0] |= 1 << 8;
    assert!(!board.is_disjoint());
    assert!(!board.is_wf(Player::PLAYER1));
    let empty = BoardState::empty();
    assert_eq!(empty.all_occupancy(), 0);
    assert!(!empty.is_wf(Player::PLAYER1));
}

#[test]
fn scores_of_known_positions() {
    let tables = MoveTables::new();
    let cases = [
        (START, 0),
        ("4k3/8/8/3q4/8/4N3/8/4K3 w - - 0 1", -672),
        ("8/8/4k3/8/2p5/8/B2P2K1/8 w - - 0 1", 253),
        ("r3k2r/8/3Q4/8/8/5q2/8/R3K2R b KQkq - 0 1", 27),
        ("8/P1k5/K7/8/8/8/8/8 w - - 0 1", 290),
    ];
    for (fen, score) in cases.iter() {
        let chess = position(&tables, fen);
        assert_eq!(Chess::get_score(&chess), *score, "{}", fen);
        assert_eq!(Scored::get_score(&chess), *score);
    }
}

#[test]
fn mirrored_positions_have_negated_scores() {
    let tables = MoveTables::new();
    let pairs = [
        ("4k3/8/8/3q4/8/4N3/8/4K3 w - - 0 1", "4k3/8/4n3/8/3Q4/8/8/4K3 b - - 0 1"),
        ("8/8/4k3/8/2p5/8/B2P2K1/8 w - - 0 1", "8/b2p2k1/8/2P5/8/4K3/8/8 b - - 0 1"),
        (START, "rnbqkbnr/pppppppp/8/8/8/8/PPPPPPPP/RNBQKBNR b KQkq - 0 1"),
    ];
    for (fen, mirrored) in pairs.iter() {
        let a = position(&tables, fen);
        let b = position(&tables, mirrored);
        for p in [Player::PLAYER1, Player::PLAYER2] {
            for t in PieceType::all() {
                assert_eq!(b.board.get(p, t), a.board.get(p.other(), t).swap_bytes());
            }
        }
        assert_eq!(Chess::get_score(&b), -Chess::get_score(&a));
    }
}

#[test]
fn pieces_and_picture() {
    let tables = MoveTables::new();
    let chess = Chess::new(&tables);
    let pieces = chess.all_pieces();
    assert_eq!(pieces.len(), 32);
    assert_eq!(pieces[0], (0, 0, Player::PLAYER1, PieceType::ROOK));
    assert_eq!(pieces[1], (0, 1, Player::PLAYER1, PieceType::PAWN));
    assert_eq!(pieces[2], (0, 6, Player::PLAYER2, PieceType::PAWN));
    assert_eq!(pieces[3], (0, 7, Player::PLAYER2, PieceType::ROOK));
    assert_eq!(pieces[4], (1, 0, Player::PLAYER1, PieceType::KNIGHT));
    let picture = chess.draw();
    let lines: Vec<&str> = picture.lines().collect();
    assert_eq!(lines.len(), 12);
    assert_eq!(lines[0], "- - - - - - - - - - - - ");
    assert_eq!(lines[2], "- - R N B K Q B N R - - ");
    assert_eq!(lines[3], "- - P P P P P P P P - - ");
    assert_eq!(lines[4], "- - . . . . . . . . - - ");
    assert_eq!(lines[9], "- - r n b k q b n r - - ");
    assert_eq!(lines[11], "- - - - - - - - - - - - ");
}

#[test]
fn piece_kinds_by_number() {
    assert_eq!(PieceType::try_from(0), Ok(PieceType::PAWN));
    assert_eq!(PieceType::try_from(5), Ok(PieceType::KING));
    assert_eq!(PieceType::try_from(6), Err(6));
    for (n, t) in PieceType::all().iter().enumerate() {
        assert_eq!(t.ordinal(), n);
        assert_eq!(PieceType::try_from(n), Ok(*t));
    }
    assert_eq!(Player::PLAYER1.other(), Player::PLAYER2);
    assert_eq!(Player::PLAYER2.other(), Player::PLAYER1);
}

#[test]
fn positions_that_no_game_comes_to_are_refused() {
    let tables = MoveTables::new();
    let mut chess = Chess::new(&tables);
    let before = snapshot(&chess);
    let cases = [
        // The pawn on d4 alone stands between the bishop on b2 and the king on g7:
        // before its double step the king stood attacked.
        "8/6k1/8/8/3Pp3/8/1B6/4K3 b - d3 0 1",
        // The player who has just moved is in check.
        "4k3/8/8/8/8/8/4r3/4K3 b - - 0 1",
        "4k3/8/8/8/8/3n4/8/4K3 b - - 0 1",
        "4k3/3P4/8/8/8/8/8/4K3 w - - 0 1",
        // The kings stand next to each other.
        "8/8/8/8/8/8/8/Kk6 w - - 0 1",
    ];
    for fen in cases.iter() {
        assert_eq!(chess.setup_fen_string(fen), Err(FenError::IllegalPosition), "{}", fen);
        assert_eq!(snapshot(&chess), before);
    }
    // The same boards with the other player to move are positions.
    assert_eq!(chess.setup_fen_string("4k3/8/8/8/8/8/4r3/4K3 w - - 0 1"), Ok(()));
    assert!(chess.king_in_check(Player::PLAYER1));
    assert!(!chess.king_in_check(Player::PLAYER2));
    assert_eq!(chess.get_checkers(), 1 << 11);
    assert_eq!(chess.checkers_of(Player::PLAYER2), 0);
    assert!(chess.is_legal());
    assert!(!chess.en_passant_uncovers());
    assert_eq!(chess.setup_fen_string("4k3/3P4/8/8/8/8/8/4K3 b - - 0 1"), Ok(()));
    assert!(chess.king_in_check(Player::PLAYER2));
    // A shield on a file or a rank is looked for when the moves are generated.
    assert_eq!(chess.setup_fen_string("8/8/8/8/k2pP2Q/8/8/4K3 b - e3 0 1"), Ok(()));
    assert!(!chess.en_passant_uncovers());
    chess.board.piece_state[0][2] = 1 << 9;
    chess.board.piece_state[0][4] = 0;
    chess.board.piece_state[1][5] = 1 << 54;
    // Bishop on g2, pawn on e4, king on b7: the pawn alone is in the bishop's line.
    assert!(chess.en_passant_uncovers());
    assert!(!chess.is_legal());
    assert!(!chess.is_wf());
}

#[test]
fn move_texts_tell_the_moves_apart() {
    let tables = MoveTables::new();
    let fens = [
        START,
        "r3k2r/1b4bq/8/8/8/8/7B/R3K2R w KQkq - 0 1",
        "8/8/1k6/2b5/2pP4/8/5K2/8 b - d3 0 1",
        "8/P1k5/K7/8/8/8/8/8 w - - 0 1",
        "rnbq1k1r/pp1Pbppp/2p5/8/2B5/8/PPP1NnPP/RNBQK2R w KQ - 1 8",
    ];
    for fen in fens.iter() {
        let chess = position(&tables, fen);
        let moves = chess.possible_moves();
        for (i, a) in moves.iter().enumerate() {
            assert_eq!(find(&chess, &a.to_string()), *a);
            for b in moves[i + 1..].iter() {
                assert_ne!(a, b);
                assert_ne!(a.to_string(), b.to_string());
                assert_ne!(a.serialize(), b.serialize());
            }
        }
    }
}

#[test]
fn moves_are_found_by_their_text() {
    let tables = MoveTables::new();
    let chess = Chess::new(&tables);
    let m = chess.find_move("e2e4", false).unwrap();
    assert_eq!((m.from, m.to), (1 << 11, 1 << 27));
    assert_eq!(chess.find_move("3 1 3 3 -1 -1 0", true), Some(m));
    assert_eq!(chess.find_move("e2e4", true), None);
    assert_eq!(chess.find_move("3 1 3 3 -1 -1 0", false), None);
    assert_eq!(chess.find_move("e2e5", false), None);
    assert_eq!(chess.find_move("e2e", false), None);
    assert_eq!(chess.find_move("", false), None);
    assert_eq!(chess.find_move("e2e4q", false), None);
    let promoting = position(&tables, "8/P1k5/K7/8/8/8/8/8 w - - 0 1");
    assert_eq!(promoting.find_move("a7a8n", false).unwrap().end_type, PieceType::KNIGHT);
    assert_eq!(promoting.find_move("a7a8", false), None);
    assert_eq!(promoting.find_move("7 6 7 7 -1 -1 3", true).unwrap().end_type, PieceType::ROOK);
}
