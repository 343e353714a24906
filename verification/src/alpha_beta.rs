//! The search: minimax, and alpha-beta with capture extension, move
//! ordering by a killer-move cache, iterative deepening and a deadline.
use vstd::prelude::*;
use std::collections::HashMap;
use crate::chess_impl::{Chess, Move, Position, lemma_do_undo, lemma_fits_shape};
use crate::utils::get_time;
use crate::evaluation::{MAX_INFINITY, MIN_INFINITY};
use crate::king_safety::{every_safe, lemma_legal_stays, safe_after};
use crate::legal_moves::{all_fit, spec_possible_moves};
use crate::search_model::{
    best_of, better, depth_left, followed, is_recapture, lemma_capture_count, lemma_count_bounds,
    node_value, lemma_best_of_grows, lemma_best_of_reordered, lemma_quiet_leaf, lemma_window_step,
    node_inv, within_window, root_best_of, root_value, root_value_after,
    lemma_root_best, lemma_root_best_reordered, lemma_value_in_range, piece_count, search_moves, start_score,
    value_after,
};
use crate::two_player_game::Player;

verus! {

/// The moves of `moves` that take on `last_to`, in their order.
pub fn keep_recaptures(moves: Vec<Move>, last_to: u64) -> (r: Vec<Move>)
    ensures
        r@ == moves@.filter(|m: Move| is_recapture(m, last_to)),
{
    let mut kept: Vec<Move> = Vec::new();
    let mut k: usize = 0;
    let ghost pred = |m: Move| is_recapture(m, last_to);
    proof {
        reveal(Seq::filter);
        assert(moves@.take(0) =~= Seq::empty());
    }
    while k < moves.len()
        invariant
            k <= moves.len(),
            pred == |m: Move| is_recapture(m, last_to),
            kept@ == moves@.take(k as int).filter(pred),
        decreases moves.len() - k,
    {
        let m = moves[k];
        proof {
            reveal(Seq::filter);
            assert(moves@.take(k + 1).drop_last() =~= moves@.take(k as int));
            assert(moves@.take(k + 1).last() == m);
        }
        if m.eaten_loc != 0 && m.eaten_loc == last_to {
            kept.push(m);
        }
        k += 1;
    }
    proof {
        assert(moves@.take(moves.len() as int) =~= moves@);
    }
    kept
}

/// The moves that a node looks at fit the position.
proof fn lemma_search_moves_fit(pos: Position, depth: int, last_to: u64, k: int)
    requires
        pos.board.wf(pos.current_player),
        all_fit(pos.board, pos.current_player, spec_possible_moves(pos.board, pos.current_player)),
        every_safe(pos.board, pos.current_player, spec_possible_moves(pos.board, pos.current_player)),
        0 <= k < search_moves(pos, depth, last_to).len(),
    ensures
        followed(pos, depth, search_moves(pos, depth, last_to)[k]),
        safe_after(pos.board, pos.current_player, search_moves(pos, depth, last_to)[k]),
{
    let all = spec_possible_moves(pos.board, pos.current_player);
    let pred = |m: Move| is_recapture(m, last_to);
    if depth <= 0 {
        all.lemma_filter_pred(pred, k);
        lemma_filter_member(all, pred, k);
        let j = choose|j: int| 0 <= j < all.len() && all[j] == all.filter(pred)[k];
        assert(safe_after(pos.board, pos.current_player, all[j]));
    }
}

/// What a filter keeps was there.
proof fn lemma_filter_member(s: Seq<Move>, pred: spec_fn(Move) -> bool, k: int)
    requires
        0 <= k < s.filter(pred).len(),
    ensures
        s.contains(s.filter(pred)[k]),
    decreases s.len(),
{
    reveal(Seq::filter);
    if s.len() > 0 {
        let sub = s.drop_last().filter(pred);
        if k < sub.len() {
            lemma_filter_member(s.drop_last(), pred, k);
            let j = choose|j: int| 0 <= j < s.drop_last().len() && s.drop_last()[j] == sub[k];
            assert(s[j] == sub[k]);
        } else {
            assert(s[s.len() - 1] == s.filter(pred)[k]);
        }
    }
}

/// The value of the position searched `depth` plies deep by plain minimax.
/// The position is left as it was found.
pub fn min_max(game: &mut Chess, depth: i32, last_to: u64) -> (r: i32)
    requires
        old(game).wf(),
        depth - piece_count(old(game).board) > i32::MIN,
    ensures
        final(game)@ == old(game)@,
        final(game).tables == old(game).tables,
        r == node_value(old(game)@, depth as int, last_to),
    decreases depth_left(depth as int), piece_count(old(game).board),
{
    let ghost pos = game@;
    let mut possible_moves = game.possible_moves();

    if depth <= 0 {
        // Quiescence.
        possible_moves = keep_recaptures(possible_moves, last_to);
        if possible_moves.len() == 0 {
            return game.get_score();
        }
    }
    let maximizing = game.current_player() == Player::PLAYER1;
    let mut score: i32 = if maximizing {
        MIN_INFINITY
    } else {
        MAX_INFINITY
    };
    let mut k: usize = 0;
    while k < possible_moves.len()
        invariant
            k <= possible_moves.len(),
            game@ == pos,
            pos == old(game)@,
            game.wf(),
            game.tables == old(game).tables,
            depth - piece_count(pos.board) > i32::MIN,
            possible_moves@ == search_moves(pos, depth as int, last_to),
            all_fit(pos.board, pos.current_player, spec_possible_moves(pos.board, pos.current_player)),
            every_safe(
                pos.board,
                pos.current_player,
                spec_possible_moves(pos.board, pos.current_player),
            ),
            maximizing == (pos.current_player == Player::PLAYER1),
            score == best_of(pos, depth as int, possible_moves@, k as int),
        decreases possible_moves.len() - k,
    {
        let m = possible_moves[k];
        let to = m.eaten_loc;
        proof {
            lemma_search_moves_fit(pos, depth as int, last_to, k as int);
            lemma_fits_shape(pos.board, pos.current_player, m);
            lemma_do_undo(pos, m);
            lemma_legal_stays(pos.board, pos.current_player, m);
            if depth <= 0 {
                lemma_capture_count(pos.board, pos.current_player, m);
            }
        }
        game.do_move(m);
        proof {
            assert(game@ == pos.spec_do_move(m));
            lemma_count_bounds(game.board, 64);
            assert(value_after(pos, depth as int, m) == node_value(
                game@,
                depth - 1,
                m.eaten_loc,
            ));
        }
        let value = min_max(game, depth - 1, to);
        if maximizing {
            if value > score {
                score = value;
            }
        } else {
            if value < score {
                score = value;
            }
        }
        game.undo_move();
        k += 1;
    }
    return score;
}

/// How often each move, by its hash, has cut a search short.
pub type Cache = HashMap<u64, i32>;

/// The killer-move caches, by the depth that is left to search.
pub type Caches = HashMap<usize, HashMap<u64, i32>>;

/// The best move found and the depth of the search that found it.
pub struct MoveResult {
    pub chess_move: Option<Move>,
    pub move_from_depth: i32,
    /// The positions looked at by the searches that ended before the
    /// deadline, as far as the number fits.
    pub call_count: i32,
}

/// The key by which moves are ordered, lowest first: minus the number of
/// cuts that the cache holds for the move, or minus 10 for a capture, the
/// lower of the two.
pub open spec fn spec_move_ordering(m: Move, cache: Map<u64, i32>) -> int {
    let hits = if cache.contains_key(m.spec_hash()) {
        cache[m.spec_hash()] as int
    } else {
        0
    };
    let capture = if m.eaten_loc != 0 {
        10int
    } else {
        0int
    };
    if hits >= capture {
        -hits
    } else {
        -capture
    }
}

pub fn move_ordering(m: &Move, killer_move_cache_at_depth: &Cache) -> (r: i32)
    ensures
        r == spec_move_ordering(*m, killer_move_cache_at_depth@),
{
    broadcast use vstd::std_specs::hash::group_hash_axioms;

    let key = m.hash();
    let hits: i32 = match killer_move_cache_at_depth.get(&key) {
        Some(v) => *v,
        None => 0,
    };
    let capture: i32 = if m.eaten_loc != 0 {
        10
    } else {
        0
    };
    if hits >= capture {
        -hits
    } else {
        -capture
    }
}

/// Sorts the moves by `move_ordering`, lowest key first.
///
/// Calls `Vec::sort_by_cached_key` of the standard library with
/// `move_ordering` as the key. The contract claims what its documentation
/// says of the outcome: the same moves, in an order in which the keys do
/// not fall. That moves with equal keys keep their order is not stated.
#[verifier::external_body]
fn sort_by_ordering(moves: &mut Vec<Move>, cache: &Cache)
    ensures
        final(moves)@.to_multiset() == old(moves)@.to_multiset(),
        forall|i: int, j: int|
            0 <= i <= j < final(moves)@.len() ==> spec_move_ordering(final(moves)@[i], cache@)
                <= spec_move_ordering(final(moves)@[j], cache@),
{
    moves.sort_by_cached_key(|m| move_ordering(m, cache));
}

/// The cache for the depth `depth_left`; empty where there is none.
pub open spec fn spec_cache_at(killer_move_cache: Map<usize, HashMap<u64, i32>>, depth_left: usize) -> Map<
    u64,
    i32,
> {
    if killer_move_cache.contains_key(depth_left) {
        killer_move_cache[depth_left]@
    } else {
        Map::empty()
    }
}

/// The key of the cache for a depth: the depth, 0 where none is left.
pub fn cache_key(depth: i32) -> (r: usize)
    ensures
        r == depth_left(depth as int),
{
    if depth > 0 {
        depth as usize
    } else {
        0
    }
}

/// Puts captures and the moves that the cache for this depth knows first:
/// the same moves, in an order in which their keys do not fall.
pub fn order_moves(moves: &mut Vec<Move>, killer_move_cache: &Caches, depth_left: usize)
    ensures
        final(moves)@.to_multiset() == old(moves)@.to_multiset(),
        forall|i: int, j: int|
            0 <= i <= j < final(moves)@.len() ==> spec_move_ordering(
                final(moves)@[i],
                spec_cache_at(killer_move_cache@, depth_left),
            ) <= spec_move_ordering(final(moves)@[j], spec_cache_at(killer_move_cache@, depth_left)),
{
    broadcast use vstd::std_specs::hash::group_hash_axioms;

    match killer_move_cache.get(&depth_left) {
        Some(at_depth) => {
            sort_by_ordering(moves, at_depth);
        },
        None => {
            let at_depth: HashMap<u64, i32> = HashMap::new();
            sort_by_ordering(moves, &at_depth);
        },
    }
}

/// A cache with one more cut counted for the move with hash `key`; a count
/// at the top of its range stays.
pub open spec fn spec_bumped(cache: Map<u64, i32>, key: u64) -> Map<u64, i32> {
    let hits = if cache.contains_key(key) {
        cache[key]
    } else {
        0i32
    };
    if hits < i32::MAX {
        cache.insert(key, (hits + 1) as i32)
    } else {
        cache
    }
}

/// Counts one more cut for the move with hash `key` at this depth: the
/// cache for the depth, made where there was none, holds one more for the
/// move, and the caches for other depths are as they were.
fn note_killer(killer_move_cache: &mut Caches, depth_left: usize, key: u64)
    ensures
        final(killer_move_cache)@.contains_key(depth_left),
        final(killer_move_cache)@[depth_left]@ == spec_bumped(
            spec_cache_at(old(killer_move_cache)@, depth_left),
            key,
        ),
        forall|d: usize|
            d != depth_left ==> (#[trigger] final(killer_move_cache)@.contains_key(d)) == old(killer_move_cache)@.contains_key(d),
        forall|d: usize|
            d != depth_left && old(killer_move_cache)@.contains_key(d) ==> #[trigger] final(killer_move_cache)@[d] == old(killer_move_cache)@[d],
{
    broadcast use vstd::std_specs::hash::group_hash_axioms;

    let mut at_depth: HashMap<u64, i32> = match killer_move_cache.remove(&depth_left) {
        Some(c) => c,
        None => HashMap::new(),
    };
    let hits: i32 = match at_depth.get(&key) {
        Some(v) => *v,
        None => 0,
    };
    if hits < i32::MAX {
        at_depth.insert(key, hits + 1);
    }
    killer_move_cache.insert(depth_left, at_depth);
}

/// The deadline that is never reached.
pub const NO_DEADLINE: u128 = 0xffff_ffff_ffff_ffff_ffff_ffff_ffff_ffff;

/// Whether a clock that shows `now` has reached the deadline.
pub open spec fn spec_deadline_passed(now: i32, max_timestamp_ms: u128) -> bool {
    now >= 0 && now as u128 >= max_timestamp_ms
}

/// Whether the clock, read as `now`, has reached the deadline. A deadline
/// beyond what the clock can show is never reached.
pub fn deadline_passed(now: i32, max_timestamp_ms: u128) -> (r: bool)
    ensures
        r == spec_deadline_passed(now, max_timestamp_ms),
        r ==> max_timestamp_ms <= i32::MAX,
{
    now >= 0 && now as u128 >= max_timestamp_ms
}

/// The score from which a node starts.
fn start_of(game: &Chess) -> (r: i32)
    ensures
        r == start_score(game@),
{
    if game.current_player() == Player::PLAYER1 {
        MIN_INFINITY
    } else {
        MAX_INFINITY
    }
}

/// A move that stands in a reordering of the moves of a node is followed
/// by the search.
proof fn lemma_reordered_followed(pos: Position, depth: int, last_to: u64, moves: Seq<Move>, k: int)
    requires
        pos.board.wf(pos.current_player),
        all_fit(pos.board, pos.current_player, spec_possible_moves(pos.board, pos.current_player)),
        every_safe(pos.board, pos.current_player, spec_possible_moves(pos.board, pos.current_player)),
        moves.to_multiset() == search_moves(pos, depth, last_to).to_multiset(),
        0 <= k < moves.len(),
    ensures
        followed(pos, depth, moves[k]),
        safe_after(pos.board, pos.current_player, moves[k]),
{
    let sm = search_moves(pos, depth, last_to);
    moves.to_multiset_ensures();
    sm.to_multiset_ensures();
    assert(moves.contains(moves[k]));
    assert(moves.to_multiset().count(moves[k]) > 0);
    assert(sm.to_multiset().count(moves[k]) > 0);
    assert(sm.contains(moves[k]));
    let j = choose|j: int| 0 <= j < sm.len() && sm[j] == moves[k];
    lemma_search_moves_fit(pos, depth, last_to, j);
}

/// The value of a node from the best of a reordering of all its moves.
proof fn lemma_node_value_reordered(pos: Position, depth: int, last_to: u64, moves: Seq<Move>)
    requires
        moves.to_multiset() == search_moves(pos, depth, last_to).to_multiset(),
        depth > 0 || moves.len() > 0,
    ensures
        node_value(pos, depth, last_to) == best_of(pos, depth, moves, moves.len() as int),
{
    let sm = search_moves(pos, depth, last_to);
    moves.to_multiset_ensures();
    sm.to_multiset_ensures();
    lemma_best_of_reordered(pos, depth, moves, sm);
}

/// The value of the position searched `depth` plies deep, as far as the
/// window from `a` to `b` lets it be known: a score inside the window is
/// the value; below it the value is no higher, above it no lower. With the
/// widest window the score is the value, as plain minimax gives it. `None`
/// when the deadline passed, here or further down. The clock is read once
/// for each node. Each node that the search enters is counted, up to the
/// largest count. The position is left as it was found.
pub fn alpha_beta(
    game: &mut Chess,
    depth: i32,
    a: i32,
    b: i32,
    last_to: u64,
    killer_move_cache: &mut Caches,
    call_count: &mut i32,
    max_timestamp_ms: u128,
) -> (r: Option<i32>)
    requires
        old(game).wf(),
        a <= b,
        depth - piece_count(old(game).board) > i32::MIN,
    ensures
        final(game)@ == old(game)@,
        final(game).tables == old(game).tables,
        *final(call_count) >= *old(call_count),
        r is Some && *old(call_count) < i32::MAX ==> *final(call_count) > *old(call_count),
        max_timestamp_ms > i32::MAX ==> r is Some,
        r matches Some(s) ==> within_window(
            s as int,
            a as int,
            b as int,
            node_value(old(game)@, depth as int, last_to),
        ),
        a == MIN_INFINITY && b == MAX_INFINITY ==> (r matches Some(s) ==> s == node_value(
            old(game)@,
            depth as int,
            last_to,
        )),
    decreases depth_left(depth as int), piece_count(old(game).board), 1int,
{
    alpha_beta_at(
        get_time(),
        game,
        depth,
        a,
        b,
        last_to,
        killer_move_cache,
        call_count,
        max_timestamp_ms,
    )
}

/// The search of `alpha_beta` at a node for which the clock showed `now`:
/// `None` at once, with nothing counted, where the deadline has passed by
/// then. Otherwise the node is counted, once where it is a leaf, and the
/// nodes below it read the clock for themselves.
pub fn alpha_beta_at(
    now: i32,
    game: &mut Chess,
    depth: i32,
    a: i32,
    b: i32,
    last_to: u64,
    killer_move_cache: &mut Caches,
    call_count: &mut i32,
    max_timestamp_ms: u128,
) -> (r: Option<i32>)
    requires
        old(game).wf(),
        a <= b,
        depth - piece_count(old(game).board) > i32::MIN,
    ensures
        final(game)@ == old(game)@,
        final(game).tables == old(game).tables,
        spec_deadline_passed(now, max_timestamp_ms) ==> r is None && *final(call_count) == *old(
            call_count,
        ),
        !spec_deadline_passed(now, max_timestamp_ms) && *old(call_count) < i32::MAX
            ==> *final(call_count) > *old(call_count),
        *final(call_count) >= *old(call_count),
        r is Some && search_moves(old(game)@, depth as int, last_to).len() == 0 && *old(call_count)
            < i32::MAX ==> *final(call_count) == *old(call_count) + 1,
        max_timestamp_ms > i32::MAX ==> r is Some,
        r matches Some(s) ==> within_window(
            s as int,
            a as int,
            b as int,
            node_value(old(game)@, depth as int, last_to),
        ),
        a == MIN_INFINITY && b == MAX_INFINITY ==> (r matches Some(s) ==> s == node_value(
            old(game)@,
            depth as int,
            last_to,
        )),
    decreases depth_left(depth as int), piece_count(old(game).board), 0int,
{
    if deadline_passed(now, max_timestamp_ms) {
        return None;
    }
    let ghost pos = game@;
    let ghost count0 = *call_count;
    let ghost a0 = a;
    let ghost b0 = b;
    let mut a = a;
    let mut b = b;
    let mut possible_moves = game.possible_moves();
    if *call_count < i32::MAX {
        *call_count += 1;
    }
    proof {
        lemma_value_in_range(pos, depth as int, last_to);
    }
    if depth <= 0 {
        // Quiescence.
        possible_moves = keep_recaptures(possible_moves, last_to);
        if possible_moves.len() == 0 {
            return Some(game.get_score());
        }
    } else {
        order_moves(&mut possible_moves, killer_move_cache, cache_key(depth));
    }
    proof {
        lemma_count_bounds(pos.board, 64);
        lemma_node_value_reordered(pos, depth as int, last_to, possible_moves@);
        possible_moves@.to_multiset_ensures();
        search_moves(pos, depth as int, last_to).to_multiset_ensures();
    }
    let maximizing = game.current_player() == Player::PLAYER1;
    let mut score = start_of(game);
    let n = possible_moves.len();
    let mut k: usize = 0;
    let mut cut = false;
    while k < n && !cut
        invariant
            k <= n,
            n == possible_moves.len(),
            game@ == pos,
            pos == old(game)@,
            game.wf(),
            game.tables == old(game).tables,
            *call_count >= *old(call_count),
            count0 < i32::MAX ==> *call_count > count0,
            count0 < i32::MAX && k == 0 ==> *call_count == count0 + 1,
            !spec_deadline_passed(now, max_timestamp_ms),
            count0 == *old(call_count),
            a0 <= b0,
            a <= b,
            depth - piece_count(pos.board) > i32::MIN,
            possible_moves@.to_multiset() == search_moves(pos, depth as int, last_to).to_multiset(),
            all_fit(pos.board, pos.current_player, spec_possible_moves(pos.board, pos.current_player)),
            every_safe(
                pos.board,
                pos.current_player,
                spec_possible_moves(pos.board, pos.current_player),
            ),
            maximizing == (pos.current_player == Player::PLAYER1),
            !cut ==> node_inv(
                pos.current_player,
                a0 as int,
                b0 as int,
                score as int,
                best_of(pos, depth as int, possible_moves@, k as int),
            ),
            !cut && maximizing ==> b == b0 && a0 <= a && a <= (if a0 >= score {
                a0
            } else {
                score
            }),
            !cut && !maximizing ==> a == a0 && b <= b0 && b >= (if b0 <= score {
                b0
            } else {
                score
            }),
            cut && maximizing ==> score > b0 && best_of(
                pos,
                depth as int,
                possible_moves@,
                k as int,
            ) >= score,
            cut && !maximizing ==> score < a0 && best_of(
                pos,
                depth as int,
                possible_moves@,
                k as int,
            ) <= score,
        decreases n - k,
    {
        let m = possible_moves[k];
        let to = m.eaten_loc;
        proof {
            lemma_reordered_followed(pos, depth as int, last_to, possible_moves@, k as int);
            lemma_fits_shape(pos.board, pos.current_player, m);
            lemma_do_undo(pos, m);
            lemma_legal_stays(pos.board, pos.current_player, m);
            lemma_count_bounds(pos.board, 64);
            if depth <= 0 {
                lemma_capture_count(pos.board, pos.current_player, m);
            }
        }
        game.do_move(m);
        proof {
            assert(game@ == pos.spec_do_move(m));
            lemma_count_bounds(game.board, 64);
            assert(value_after(pos, depth as int, m) == node_value(
                game@,
                depth - 1,
                m.eaten_loc,
            ));
        }
        let move_score: i32;
        if depth > 1 || to != 0 {
            match alpha_beta(
                game,
                depth - 1,
                a,
                b,
                to,
                killer_move_cache,
                call_count,
                max_timestamp_ms,
            ) {
                Some(s) => {
                    move_score = s;
                },
                None => {
                    game.undo_move();
                    return None;
                },
            }
        } else {
            proof {
                lemma_quiet_leaf(game@, depth - 1);
            }
            move_score = game.get_score();
        }
        proof {
            lemma_window_step(
                pos.current_player,
                a0 as int,
                b0 as int,
                a as int,
                b as int,
                score as int,
                best_of(pos, depth as int, possible_moves@, k as int),
                move_score as int,
                value_after(pos, depth as int, m),
            );
        }
        if maximizing {
            if move_score > score {
                score = move_score;
            }
        } else {
            if move_score < score {
                score = move_score;
            }
        }
        let m_ = game.undo_move();
        k += 1;
        // A cut needs a score strictly beyond the window, so that a score
        // equal to the best so far can be trusted.
        if maximizing {
            if score > b {
                if depth >= 0 && m_.eaten_loc == 0 {
                    note_killer(killer_move_cache, cache_key(depth), m_.hash());
                }
                cut = true;
            } else if score > a {
                a = score;
            }
        } else {
            if score < a {
                if depth >= 0 && m_.eaten_loc == 0 {
                    note_killer(killer_move_cache, cache_key(depth), m_.hash());
                }
                cut = true;
            } else if score < b {
                b = score;
            }
        }
    }
    proof {
        lemma_best_of_grows(pos, depth as int, possible_moves@, k as int, n as int);
        lemma_value_in_range(pos, depth as int, last_to);
    }
    return Some(score);
}

/// An index below `len`, chosen at random; none for `len` 0.
///
/// Calls `rand::seq::IteratorRandom::choose` on the range from 0 to `len`
/// with the thread's generator of `rand::thread_rng`. The contract claims
/// what holds of every outcome: `choose` gives `None` exactly for an empty
/// iterator, and otherwise one of its items.
#[verifier::external_body]
fn choose_index(len: usize) -> (r: Option<usize>)
    ensures
        len == 0 ==> r is None,
        len > 0 ==> r is Some && r->0 < len,
{
    let mut rng = rand::thread_rng();
    rand::seq::IteratorRandom::choose(0..len, &mut rng)
}

/// Whether `m` is a best move at the root of a search `depth` plies deep:
/// one of the moves, with the value of the position as the value after it.
pub open spec fn is_best_move(pos: Position, depth: int, m: Move) -> bool {
    spec_possible_moves(pos.board, pos.current_player).contains(m) && root_value_after(pos, depth, m)
        == root_value(pos, depth)
}

/// A best move is best by the values of plain minimax: no move of the
/// position leads to a value that is better for the player to move.
pub proof fn lemma_best_move_is_best(pos: Position, depth: int, m: Move, x: Move)
    requires
        is_best_move(pos, depth, m),
        spec_possible_moves(pos.board, pos.current_player).contains(x),
    ensures
        match pos.current_player {
            Player::PLAYER1 => root_value_after(pos, depth, m) >= root_value_after(pos, depth, x),
            Player::PLAYER2 => root_value_after(pos, depth, m) <= root_value_after(pos, depth, x),
        },
{
    let moves = spec_possible_moves(pos.board, pos.current_player);
    lemma_root_best(pos, depth, moves, moves.len() as int);
    let i = choose|i: int| 0 <= i < moves.len() && moves[i] == x;
    assert(better(
        pos.current_player,
        root_value(pos, depth),
        root_value_after(pos, depth, moves[i]),
    ) == root_value(pos, depth));
}

/// Whether the position has a best move at that depth.
pub open spec fn has_best_move(pos: Position, depth: int) -> bool {
    exists|m: Move| is_best_move(pos, depth, m)
}

/// One of the `len` best moves, as `choice` picks it.
pub fn pick_best(best_moves: &mut Vec<Move>, choice: Option<usize>) -> (r: Option<Move>)
    requires
        choice is Some ==> choice->0 < old(best_moves).len(),
    ensures
        choice is None ==> r is None,
        choice is Some ==> r == Some(old(best_moves)@[choice->0 as int]),
{
    match choice {
        Some(x) => Some(best_moves.swap_remove(x)),
        None => None,
    }
}

/// One search from the root, `depth` plies deep: a move chosen at random
/// among the best, if there is any, and the value of the position. `None`
/// when the deadline passed. The position is left as it was found.
pub fn _get_next_move(
    game: &mut Chess,
    depth: i32,
    killer_move_cache: &mut Caches,
    call_count: &mut i32,
    max_timestamp_ms: u128,
) -> (r: Option<(Option<Move>, i32)>)
    requires
        old(game).wf(),
        depth > i32::MIN + 65,
    ensures
        final(game)@ == old(game)@,
        final(game).tables == old(game).tables,
        *final(call_count) >= *old(call_count),
        *old(call_count) < i32::MAX ==> *final(call_count) > *old(call_count),
        max_timestamp_ms > i32::MAX ==> r is Some,
        r matches Some(found) ==> {
            &&& found.1 == root_value(old(game)@, depth as int)
            &&& found.0 is Some == (spec_possible_moves(
                old(game).board,
                old(game).current_player,
            ).len() > 0)
            &&& match found.0 {
                Some(m) => is_best_move(old(game)@, depth as int, m),
                None => !has_best_move(old(game)@, depth as int),
            }
        },
{
    let ghost count0 = *call_count;
    let ghost pos = game@;
    let mut best_moves: Vec<Move> = Vec::new();
    let mut a = MIN_INFINITY;
    let mut b = MAX_INFINITY;

    let mut possible_moves = game.possible_moves();
    if *call_count < i32::MAX {
        *call_count += 1;
    }
    order_moves(&mut possible_moves, killer_move_cache, cache_key(depth));
    let ghost sm = spec_possible_moves(pos.board, pos.current_player);
    proof {
        possible_moves@.to_multiset_ensures();
        sm.to_multiset_ensures();
        lemma_root_best_reordered(pos, depth as int, possible_moves@, sm);
    }
    let maximizing = game.current_player() == Player::PLAYER1;
    let mut score = start_of(game);
    let n = possible_moves.len();
    let mut k: usize = 0;
    while k < n
        invariant
            k <= n,
            n == possible_moves.len(),
            game@ == pos,
            pos == old(game)@,
            game.wf(),
            game.tables == old(game).tables,
            *call_count >= *old(call_count),
            count0 == *old(call_count),
            count0 < i32::MAX ==> *call_count > count0,
            k > 0 ==> best_moves@.len() > 0,
            n == sm.len(),
            a <= b,
            depth > i32::MIN + 65,
            possible_moves@.to_multiset() == sm.to_multiset(),
            sm == spec_possible_moves(pos.board, pos.current_player),
            all_fit(pos.board, pos.current_player, sm),
            every_safe(pos.board, pos.current_player, sm),
            maximizing == (pos.current_player == Player::PLAYER1),
            score == root_best_of(pos, depth as int, possible_moves@, k as int),
            maximizing ==> b == MAX_INFINITY && a <= score,
            !maximizing ==> a == MIN_INFINITY && b >= score,
            forall|i: int|
                0 <= i < best_moves@.len() ==> sm.contains(#[trigger] best_moves@[i])
                    && root_value_after(pos, depth as int, best_moves@[i]) == score,
            forall|i: int|
                0 <= i < k && root_value_after(pos, depth as int, #[trigger] possible_moves@[i])
                    == score ==> best_moves@.contains(possible_moves@[i]),
        decreases n - k,
    {
        let m = possible_moves[k];
        let to = m.to;
        let ghost found_before = best_moves@;
        let ghost score_before = score;
        proof {
            possible_moves@.to_multiset_ensures();
            sm.to_multiset_ensures();
            assert(possible_moves@.contains(m));
            assert(possible_moves@.to_multiset().count(m) > 0);
            assert(sm.to_multiset().count(m) > 0);
            assert(sm.contains(m));
            let j = choose|j: int| 0 <= j < sm.len() && sm[j] == m;
            assert(pos.board.fits(pos.current_player, sm[j]));
            assert(safe_after(pos.board, pos.current_player, sm[j]));
            lemma_fits_shape(pos.board, pos.current_player, m);
            lemma_do_undo(pos, m);
            lemma_legal_stays(pos.board, pos.current_player, m);
        }
        game.do_move(m);
        proof {
            assert(game@ == pos.spec_do_move(m));
            lemma_count_bounds(game.board, 64);
        }
        let move_score = match alpha_beta(
            game,
            depth - 1,
            a,
            b,
            to,
            killer_move_cache,
            call_count,
            max_timestamp_ms,
        ) {
            Some(s) => s,
            None => {
                game.undo_move();
                return None;
            },
        };
        let m_ = game.undo_move();
        if maximizing {
            if move_score >= score {
                if move_score > score {
                    best_moves.clear();
                }
                best_moves.push(m_);
                score = move_score
            }
            if score > a {
                a = score;
            }
        } else {
            if move_score <= score {
                if move_score < score {
                    best_moves.clear();
                }
                best_moves.push(m_);
                score = move_score
            }
            if score < b {
                b = score;
            }
        }
        proof {
            assert forall|i: int| 0 <= i < k + 1 && root_value_after(
                pos,
                depth as int,
                #[trigger] possible_moves@[i],
            ) == score implies best_moves@.contains(possible_moves@[i]) by {
                if i < k {
                    if score == score_before {
                        assert(found_before.contains(possible_moves@[i]));
                        let j = choose|j: int|
                            0 <= j < found_before.len() && found_before[j] == possible_moves@[i];
                        assert(best_moves@[j] == possible_moves@[i]);
                    } else {
                        lemma_root_best(pos, depth as int, possible_moves@, k as int);
                    }
                } else {
                    assert(best_moves@[best_moves@.len() - 1] == m);
                }
            }
        }
        k += 1;
    }
    let choice = choose_index(best_moves.len());
    let m = pick_best(&mut best_moves, choice);
    if let Some(m_) = m {
        note_killer(killer_move_cache, cache_key(depth), m_.hash());
    }
    proof {
        lemma_root_best(pos, depth as int, sm, sm.len() as int);
        if m is None {
            assert forall|x: Move| !is_best_move(pos, depth as int, x) by {
                if is_best_move(pos, depth as int, x) {
                    possible_moves@.to_multiset_ensures();
                    sm.to_multiset_ensures();
                    assert(sm.to_multiset().count(x) > 0);
                    assert(possible_moves@.to_multiset().count(x) > 0);
                    assert(possible_moves@.contains(x));
                    let i = choose|i: int| 0 <= i < possible_moves@.len() && possible_moves@[i] == x;
                    assert(best_moves@.contains(possible_moves@[i]));
                }
            }
        }
    }
    return Some((m, score));
}

/// Whether a search can go `depth` plies deep: the depth is not at the
/// ends of its range.
pub fn fits_search(depth: i32) -> (r: bool)
    ensures
        r == (i32::MIN + 65 < depth < i32::MAX),
{
    depth > i32::MIN + 65 && depth < i32::MAX
}

/// The first depth that iterative deepening searches on the way to
/// `depth`: 4, or `depth` itself where that is less.
pub open spec fn first_depth(depth: int) -> int {
    if depth < 4 {
        depth
    } else {
        4
    }
}

/// The best move for the player to move, by searches of growing depth up to
/// `depth`: the move of the deepest search that ended before the deadline
/// and found one. The position is left as it was found.
pub fn get_next_move(game: &mut Chess, depth: i32, max_timestamp_ms: u128) -> (r: MoveResult)
    requires
        old(game).wf(),
        i32::MIN + 65 < depth < i32::MAX,
    ensures
        final(game)@ == old(game)@,
        final(game).tables == old(game).tables,
        match r.chess_move {
            Some(m) => first_depth(depth as int) <= r.move_from_depth <= depth && is_best_move(
                old(game)@,
                r.move_from_depth as int,
                m,
            ),
            None => r.move_from_depth == 0,
        },
        max_timestamp_ms > i32::MAX && spec_possible_moves(
            old(game).board,
            old(game).current_player,
        ).len() > 0 ==> r.chess_move is Some && r.move_from_depth == depth,
        r.call_count >= 0,
        r.chess_move is Some ==> r.call_count >= 1,
        max_timestamp_ms > i32::MAX ==> r.call_count >= depth - first_depth(depth as int) + 1,
{
    let mut killer_move_cache: Caches = HashMap::new();
    let mut m: Option<Move> = None;
    let mut total_count: i32 = 0;
    let mut move_from_depth: i32 = 0;
    let ghost pos = game@;

    let mut i = if depth < 4 {
        depth
    } else {
        4
    };
    while i <= depth
        invariant
            first_depth(depth as int) <= i <= depth + 1,
            i32::MIN + 65 < depth < i32::MAX,
            game@ == pos,
            pos == old(game)@,
            game.wf(),
            game.tables == old(game).tables,
            total_count >= 0,
            match m {
                Some(x) => first_depth(depth as int) <= move_from_depth < i && is_best_move(
                    pos,
                    move_from_depth as int,
                    x,
                ),
                None => move_from_depth == 0,
            },
            max_timestamp_ms > i32::MAX && i > first_depth(depth as int) && spec_possible_moves(
                pos.board,
                pos.current_player,
            ).len() > 0 ==> m is Some && move_from_depth == i - 1,
            m is Some ==> total_count >= 1,
            max_timestamp_ms > i32::MAX ==> total_count >= i - first_depth(depth as int),
        decreases depth + 1 - i,
    {
        let mut call_count: i32 = 0;
        let ores = _get_next_move(
            game,
            i,
            &mut killer_move_cache,
            &mut call_count,
            max_timestamp_ms,
        );
        if let Some(res) = ores {
            if res.0.is_some() {
                m = res.0;
                move_from_depth = i;
            }
            total_count = if total_count > i32::MAX - call_count {
                i32::MAX
            } else {
                total_count + call_count
            };
        }
        i += 1;
    }
    MoveResult { chess_move: m, move_from_depth, call_count: total_count }
}

} // verus!
