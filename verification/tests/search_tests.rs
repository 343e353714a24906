use chess_engine::alpha_beta::{
    alpha_beta, alpha_beta_at, deadline_passed, fits_search, get_next_move, keep_recaptures, min_max,
    move_ordering, order_moves, Cache, Caches, _get_next_move,
};
use chess_engine::chess_impl::Chess;
use chess_engine::evaluation::{MAX_INFINITY, MIN_INFINITY};
use chess_engine::move_generation::MoveTables;
use chess_engine::utils::{clock_face, get_time};
use std::collections::HashMap;

const NO_DEADLINE: u128 = u128::MAX;

fn position<'a>(tables: &'a MoveTables, fen: &str) -> Chess<'a> {
    let mut chess = Chess::new(tables);
    assert_eq!(chess.setup_fen_string(fen), Ok(()));
    chess
}

#[test]
fn alpha_beta_and_min_max_agree_on_small_positions() {
    let tables = MoveTables::new();
    let fens = [
        "rnbqkbnr/pppppppp/8/8/8/8/PPPPPPPP/RNBQKBNR w KQkq - 0 1",
        "r4rk1/1pp1qppp/p1np1n2/2b1p1B1/2B1P1b1/P1NP1N2/1PP1QPPP/R4RK1 w - - 0 10",
        "8/8/4k3/8/2p5/8/B2P2K1/8 w - - 0 1",
        "8/8/1k6/2b5/2pP4/8/5K2/8 b - d3 0 1",
        "2r5/3pk3/8/2P5/8/2K5/8/8 w - - 5 4",
    ];
    for fen in fens.iter() {
        for depth in 0..4 {
            let mut chess = position(&tables, fen);
            let before = (chess.board.piece_state, chess.board.castle_memory, chess.board.en_passant_square);
            let plain = min_max(&mut chess, depth, 0);
            let mut caches: Caches = HashMap::new();
            let mut calls = 0;
            let pruned = alpha_beta(
                &mut chess,
                depth,
                MIN_INFINITY,
                MAX_INFINITY,
                0,
                &mut caches,
                &mut calls,
                NO_DEADLINE,
            );
            assert_eq!(pruned, Some(plain), "{} at depth {}", fen, depth);
            assert!(calls > 0);
            let after = (chess.board.piece_state, chess.board.castle_memory, chess.board.en_passant_square);
            assert_eq!(before, after);
            assert_eq!(chess.get_game_len(), 0);
        }
    }
}

#[test]
fn a_score_outside_the_window_is_a_bound() {
    let tables = MoveTables::new();
    let mut chess = position(&tables, "8/8/4k3/8/2p5/8/B2P2K1/8 w - - 0 1");
    let value = min_max(&mut chess, 3, 0);
    let mut caches: Caches = HashMap::new();
    let mut calls = 0;
    let low = alpha_beta(&mut chess, 3, value + 50, value + 100, 0, &mut caches, &mut calls, NO_DEADLINE)
        .unwrap();
    assert!(low < value + 50);
    assert!(value <= low);
    let high = alpha_beta(&mut chess, 3, value - 100, value - 50, 0, &mut caches, &mut calls, NO_DEADLINE)
        .unwrap();
    assert!(high > value - 50);
    assert!(value >= high);
    let exact = alpha_beta(&mut chess, 3, value - 1, value + 1, 0, &mut caches, &mut calls, NO_DEADLINE);
    assert_eq!(exact, Some(value));
}

#[test]
fn a_passed_deadline_stops_the_search() {
    let tables = MoveTables::new();
    let mut chess = Chess::new(&tables);
    let mut caches: Caches = HashMap::new();
    let mut calls = 0;
    let r = alpha_beta(&mut chess, 2, MIN_INFINITY, MAX_INFINITY, 0, &mut caches, &mut calls, 0);
    // The clock may show a negative number, which reaches no deadline.
    if let Some(s) = r {
        assert_eq!(s, min_max(&mut chess, 2, 0));
    }
    assert_eq!(chess.get_game_len(), 0);
    assert!(deadline_passed(5, 5));
    assert!(deadline_passed(6, 5));
    assert!(!deadline_passed(4, 5));
    assert!(!deadline_passed(-1, 0));
    assert!(!deadline_passed(i32::MAX, i32::MAX as u128 + 1));
    let found = get_next_move(&mut chess, 2, 0);
    assert!(found.chess_move.is_none() || found.move_from_depth == 2);
}

#[test]
fn the_search_finds_mate_in_one() {
    let tables = MoveTables::new();
    // The rook on h1 mates on h8.
    let mut chess = position(&tables, "k7/8/1K6/8/8/8/8/7R w - - 0 1");
    for _ in 0..5 {
        let found = get_next_move(&mut chess, 2, NO_DEADLINE);
        let m = found.chess_move.unwrap();
        assert_eq!(found.move_from_depth, 2);
        assert_eq!(m.from, 1);
        assert_eq!(m.to, 1 << 56);
        assert!(found.call_count > 0);
    }
    assert_eq!(chess.get_game_len(), 0);
}

#[test]
fn the_search_takes_a_hanging_queen() {
    let tables = MoveTables::new();
    let mut chess = position(&tables, "4k3/8/8/3q4/8/4N3/8/4K3 w - - 0 1");
    let mut caches: Caches = HashMap::new();
    let mut calls = 0;
    let (m, score) = _get_next_move(&mut chess, 3, &mut caches, &mut calls, NO_DEADLINE).unwrap();
    let m = m.unwrap();
    assert_eq!(m.eaten_loc, m.to);
    assert!(m.eaten_loc != 0);
    assert!(score > 0);
    // The move was counted as a killer for the depth of the search.
    assert_eq!(caches.get(&3).unwrap().get(&m.hash()), Some(&1));
}

#[test]
fn a_position_without_moves_has_no_best_move() {
    let tables = MoveTables::new();
    // Stalemate: the king in the corner has no square and there is nothing else to move.
    let mut chess = position(&tables, "k7/2Q5/1K6/8/8/8/8/8 b - - 0 1");
    assert_eq!(chess.possible_moves().len(), 0);
    let found = get_next_move(&mut chess, 3, NO_DEADLINE);
    assert!(found.chess_move.is_none());
    assert_eq!(found.move_from_depth, 0);
    // A node without moves keeps the score it started from.
    assert_eq!(min_max(&mut chess, 2, 0), MAX_INFINITY);
    let mut caches: Caches = HashMap::new();
    let mut calls = 0;
    let r = alpha_beta(&mut chess, 2, MIN_INFINITY, MAX_INFINITY, 0, &mut caches, &mut calls, NO_DEADLINE);
    assert_eq!(r, Some(MAX_INFINITY));
}

#[test]
fn a_dead_end_below_the_root_scores_alike_in_both_searches() {
    let tables = MoveTables::new();
    // After the rook mates on h8 the second player has no move, one ply into the game.
    let mut chess = position(&tables, "k7/8/1K6/8/8/8/8/7R w - - 0 1");
    assert_eq!(min_max(&mut chess, 2, 0), MAX_INFINITY);
    let mut caches: Caches = HashMap::new();
    let mut calls = 0;
    let r = alpha_beta(&mut chess, 2, MIN_INFINITY, MAX_INFINITY, 0, &mut caches, &mut calls, NO_DEADLINE);
    assert_eq!(r, Some(MAX_INFINITY));
    // The same in a game under way.
    let mut played = Chess::new(&tables);
    for text in ["f2f3", "e7e5", "g2g4"] {
        let m = played.find_move(text, false).unwrap();
        played.do_move(m);
    }
    for depth in 2..5 {
        let plain = min_max(&mut played, depth, 0);
        assert_eq!(plain, MIN_INFINITY);
        let mut caches: Caches = HashMap::new();
        let mut calls = 0;
        let pruned = alpha_beta(
            &mut played,
            depth,
            MIN_INFINITY,
            MAX_INFINITY,
            0,
            &mut caches,
            &mut calls,
            NO_DEADLINE,
        );
        assert_eq!(pruned, Some(plain));
    }
    let found = get_next_move(&mut played, 2, NO_DEADLINE);
    assert_eq!(found.chess_move.unwrap().to_string(), "d8h4");
    assert_eq!(played.get_game_len(), 3);
}

#[test]
fn each_node_is_counted() {
    let tables = MoveTables::new();
    let mut chess = Chess::new(&tables);
    let mut caches: Caches = HashMap::new();
    let mut calls = 0;
    // Without depth and without a capture to follow, the root is the only node.
    let r = alpha_beta(&mut chess, 0, MIN_INFINITY, MAX_INFINITY, 0, &mut caches, &mut calls, NO_DEADLINE);
    assert_eq!(r, Some(0));
    assert_eq!(calls, 1);
    // One ply deep every move ends in a leaf that is scored without a call.
    let r = alpha_beta(&mut chess, 1, MIN_INFINITY, MAX_INFINITY, 0, &mut caches, &mut calls, NO_DEADLINE);
    assert!(r.is_some());
    assert_eq!(calls, 2);
    // Two plies deep the root and its twenty children are nodes.
    let r = alpha_beta(&mut chess, 2, MIN_INFINITY, MAX_INFINITY, 0, &mut caches, &mut calls, NO_DEADLINE);
    assert!(r.is_some());
    assert_eq!(calls, 23);
    // The count stops at its largest value.
    let mut full = i32::MAX;
    let r = alpha_beta(&mut chess, 2, MIN_INFINITY, MAX_INFINITY, 0, &mut caches, &mut full, NO_DEADLINE);
    assert!(r.is_some());
    assert_eq!(full, i32::MAX);
    let mut root_calls = 0;
    let found = _get_next_move(&mut chess, 2, &mut caches, &mut root_calls, NO_DEADLINE).unwrap();
    assert!(found.0.is_some());
    assert_eq!(root_calls, 21);
    let result = get_next_move(&mut chess, 2, NO_DEADLINE);
    assert_eq!(result.call_count, 21);
    let deeper = get_next_move(&mut chess, 5, NO_DEADLINE);
    assert!(deeper.call_count >= 2);
    assert_eq!(deeper.move_from_depth, 5);
}

#[test]
fn a_node_entered_after_the_deadline_gives_nothing() {
    let tables = MoveTables::new();
    let mut chess = Chess::new(&tables);
    let mut caches: Caches = HashMap::new();
    let mut calls = 7;
    let r = alpha_beta_at(50, &mut chess, 2, MIN_INFINITY, MAX_INFINITY, 0, &mut caches, &mut calls, 50);
    assert_eq!(r, None);
    assert_eq!(calls, 7);
    let r = alpha_beta_at(51, &mut chess, 0, MIN_INFINITY, MAX_INFINITY, 0, &mut caches, &mut calls, 50);
    assert_eq!(r, None);
    assert_eq!(calls, 7);
    // Before the deadline a leaf is scored and counted.
    let r = alpha_beta_at(49, &mut chess, 0, MIN_INFINITY, MAX_INFINITY, 0, &mut caches, &mut calls, 50);
    assert_eq!(r, Some(0));
    assert_eq!(calls, 8);
    // A clock that shows a negative number reaches no deadline.
    let r = alpha_beta_at(-1, &mut chess, 0, MIN_INFINITY, MAX_INFINITY, 0, &mut caches, &mut calls, 0);
    assert_eq!(r, Some(0));
    assert_eq!(calls, 9);
    assert_eq!(chess.get_game_len(), 0);
}

#[test]
fn a_search_without_deadline_returns_a_move_where_there_is_one() {
    let tables = MoveTables::new();
    let fens = [
        "rnbqkbnr/pppppppp/8/8/8/8/PPPPPPPP/RNBQKBNR w KQkq - 0 1",
        "8/8/4k3/8/2p5/8/B2P2K1/8 w - - 0 1",
        "8/8/1k6/2b5/2pP4/8/5K2/8 b - d3 0 1",
        "4r2k/8/8/8/8/5n2/6B1/4K3 w - - 0 1",
        "k7/8/1K6/8/8/8/8/7R w - - 0 1",
    ];
    for fen in fens.iter() {
        for depth in [-2, 0, 1, 3] {
            let mut chess = position(&tables, fen);
            let moves = chess.possible_moves();
            assert!(!moves.is_empty());
            let found = get_next_move(&mut chess, depth, NO_DEADLINE);
            let m = found.chess_move.unwrap();
            assert!(moves.contains(&m));
            assert_eq!(found.move_from_depth, depth);
            // The move is a best one by the values of plain minimax.
            let values: Vec<i32> = moves
                .iter()
                .map(|x| {
                    chess.do_move(*x);
                    let v = min_max(&mut chess, depth - 1, x.to);
                    chess.undo_move();
                    v
                })
                .collect();
            let best = if chess.current_player() == chess_engine::two_player_game::Player::PLAYER1 {
                *values.iter().max().unwrap()
            } else {
                *values.iter().min().unwrap()
            };
            let at = moves.iter().position(|x| *x == m).unwrap();
            assert_eq!(values[at], best, "{} at depth {}", fen, depth);
        }
    }
}

#[test]
fn captures_and_killers_come_first() {
    let tables = MoveTables::new();
    let chess = position(&tables, "4k3/8/8/3q4/8/4N3/8/4K3 w - - 0 1");
    let moves = chess.possible_moves();
    let mut cache: Cache = HashMap::new();
    let capture = moves.iter().find(|m| m.eaten_loc != 0).unwrap();
    let quiet = moves.iter().find(|m| m.eaten_loc == 0).unwrap();
    assert_eq!(move_ordering(capture, &cache), -10);
    assert_eq!(move_ordering(quiet, &cache), 0);
    cache.insert(quiet.hash(), 3);
    assert_eq!(move_ordering(quiet, &cache), -3);
    cache.insert(quiet.hash(), 30);
    assert_eq!(move_ordering(quiet, &cache), -30);
    cache.insert(capture.hash(), 3);
    assert_eq!(move_ordering(capture, &cache), -10);
    let kept = keep_recaptures(moves.clone(), capture.to);
    assert_eq!(kept, vec![*capture]);
    assert_eq!(keep_recaptures(moves, 0), vec![]);
}

#[test]
fn ordering_sorts_by_the_key() {
    let tables = MoveTables::new();
    let chess = position(&tables, "r4rk1/1pp1qppp/p1np1n2/2b1p1B1/2B1P1b1/P1NP1N2/1PP1QPPP/R4RK1 w - - 0 10");
    let unordered = chess.possible_moves();
    assert!(unordered.iter().any(|m| m.eaten_loc != 0));
    assert!(unordered[0].eaten_loc == 0);
    let mut caches: Caches = HashMap::new();
    let quiet = *unordered.iter().rev().find(|m| m.eaten_loc == 0).unwrap();
    let mut at_depth: Cache = HashMap::new();
    at_depth.insert(quiet.hash(), 25);
    caches.insert(0, at_depth);
    let mut moves = unordered.clone();
    order_moves(&mut moves, &caches, 0);
    // The move that the cache knows best comes first, then the captures, then the rest.
    assert_eq!(moves[0], quiet);
    let keys: Vec<i32> = moves.iter().map(|m| move_ordering(m, caches.get(&0).unwrap())).collect();
    assert!(keys.windows(2).all(|w| w[0] <= w[1]));
    assert_eq!(keys[0], -25);
    assert_eq!(keys[1], -10);
    let captures = unordered.iter().filter(|m| m.eaten_loc != 0).count();
    assert!(moves[1..1 + captures].iter().all(|m| m.eaten_loc != 0));
    let mut sorted_before = unordered.clone();
    let mut sorted_after = moves.clone();
    sorted_before.sort_by_key(|m| m.hash());
    sorted_after.sort_by_key(|m| m.hash());
    assert_eq!(sorted_before, sorted_after);
    // Another depth has no cache: captures first, the rest in the order they came.
    let mut plain = unordered.clone();
    order_moves(&mut plain, &caches, 7);
    assert!(plain[..captures].iter().all(|m| m.eaten_loc != 0));
    let rest: Vec<_> = unordered.iter().filter(|m| m.eaten_loc == 0).cloned().collect();
    assert_eq!(plain[captures..].to_vec(), rest);
}

#[test]
fn searches_need_a_depth_inside_its_range() {
    assert!(fits_search(8));
    assert!(fits_search(0));
    assert!(fits_search(-5));
    assert!(fits_search(i32::MAX - 1));
    assert!(!fits_search(i32::MAX));
    assert!(!fits_search(i32::MIN));
    assert!(!fits_search(i32::MIN + 65));
    assert!(fits_search(i32::MIN + 66));
}

#[test]
fn the_clock_falls_into_32_bits() {
    assert_eq!(clock_face(5), 5);
    assert_eq!(clock_face((1u128 << 32) + 7), 7);
    assert_eq!(clock_face(1u128 << 31), i32::MIN);
    assert_eq!(clock_face(u128::MAX), -1);
    let _ = get_time();
}
