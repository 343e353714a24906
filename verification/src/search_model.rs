//! What the search computes, as mathematics: the value of a position
//! searched to a depth, with the capture sequences that extend the search
//! beyond it.
use vstd::prelude::*;
use crate::bits::{bit};
use crate::chess_impl::{
    BoardState, Move, PieceType, Position, sq, lemma_apply_bits, lemma_fits_shape, lemma_holds,
};
use crate::evaluation::{spec_score, lemma_score_bound, MAX_INFINITY, MIN_INFINITY};
use crate::legal_moves::spec_possible_moves;
use crate::two_player_game::Player;

verus! {

/// The number of occupied squares below `n`.
pub open spec fn count_occupied(board: BoardState, n: int) -> int
    decreases n,
{
    if n <= 0 {
        0
    } else {
        count_occupied(board, n - 1) + if board.free(n - 1) {
            0int
        } else {
            1int
        }
    }
}

/// The number of occupied squares.
pub open spec fn piece_count(board: BoardState) -> int {
    count_occupied(board, 64)
}

/// There are no more pieces than squares.
pub proof fn lemma_count_bounds(board: BoardState, n: int)
    requires
        0 <= n <= 64,
    ensures
        0 <= count_occupied(board, n) <= n,
    decreases n,
{
    if n > 0 {
        lemma_count_bounds(board, n - 1);
    }
}

/// Counting over squares that are occupied as a predicate says.
pub open spec fn count_where(f: spec_fn(int) -> bool, n: int) -> int
    decreases n,
{
    if n <= 0 {
        0
    } else {
        count_where(f, n - 1) + if f(n - 1) {
            1int
        } else {
            0int
        }
    }
}

proof fn lemma_count_where_step(f: spec_fn(int) -> bool, g: spec_fn(int) -> bool, j: int, n: int)
    requires
        0 <= j < 64,
        0 <= n <= 64,
        forall|i: int| 0 <= i < 64 && i != j ==> #[trigger] f(i) == g(i),
    ensures
        count_where(g, n) == count_where(f, n) + if j < n {
            (if g(j) {
                1int
            } else {
                0int
            }) - (if f(j) {
                1int
            } else {
                0int
            })
        } else {
            0int
        },
    decreases n,
{
    if n > 0 {
        lemma_count_where_step(f, g, j, n - 1);
    }
}

proof fn lemma_count_where_board(board: BoardState, f: spec_fn(int) -> bool, n: int)
    requires
        0 <= n <= 64,
        forall|i: int| 0 <= i < 64 ==> #[trigger] f(i) == !board.free(i),
    ensures
        count_where(f, n) == count_occupied(board, n),
    decreases n,
{
    if n > 0 {
        lemma_count_where_board(board, f, n - 1);
    }
}

/// Which squares are free after a fitting move that is no castling.
pub proof fn lemma_apply_free(b: BoardState, player: Player, m: Move, j: int)
    requires
        b.wf(player),
        b.fits(player, m),
        !m.is_castle(),
        0 <= j < 64,
    ensures
        !b.spec_apply(player, m).free(j) == ((!b.free(j) && j != sq(m.from) && !(m.eaten_loc != 0
            && j == sq(m.eaten_loc))) || j == sq(m.to)),
{
    let a = b.spec_apply(player, m);
    let other = player.spec_other();
    assert forall|q: Player, t: PieceType| #[trigger]
        bit(a.spec_get(q, t), j) == b.applied_bit(player, m, q, t, j) by {
        lemma_apply_bits(b, player, m, q, t, j);
    }
    lemma_holds(b, player, j);
    lemma_holds(b, other, j);
    lemma_holds(a, player, j);
    lemma_holds(a, other, j);
    lemma_holds(b, player, sq(m.from));
    lemma_holds(b, other, sq(m.from));
    if m.eaten_loc != 0 {
        lemma_holds(b, player, sq(m.eaten_loc));
        lemma_holds(b, other, sq(m.eaten_loc));
    }
    if j == sq(m.to) {
        assert(bit(a.spec_get(player, m.end_type), j));
    }
}

/// A capture leaves fewer pieces on the board.
pub proof fn lemma_capture_count(b: BoardState, player: Player, m: Move)
    requires
        b.wf(player),
        b.fits(player, m),
        m.eaten_loc != 0,
    ensures
        0 <= piece_count(b.spec_apply(player, m)) < piece_count(b) <= 64,
{
    let a = b.spec_apply(player, m);
    let other = player.spec_other();
    let fi = sq(m.from);
    let ti = sq(m.to);
    let ei = sq(m.eaten_loc);
    lemma_fits_shape(b, player, m);
    lemma_count_bounds(a, 64);
    lemma_count_bounds(b, 64);
    assert(!m.is_castle());
    let f = |j: int| !b.free(j);
    let g1 = |j: int| !b.free(j) && j != fi;
    let g2 = |j: int| !b.free(j) && j != fi && j != ei;
    let h = |j: int| (!b.free(j) && j != fi && j != ei) || j == ti;
    lemma_holds(b, player, fi);
    lemma_holds(b, other, fi);
    lemma_holds(b, player, ei);
    lemma_holds(b, other, ei);
    lemma_holds(b, player, ti);
    lemma_holds(b, other, ti);
    assert(fi != ei);
    assert(fi != ti);
    lemma_count_where_step(f, g1, fi, 64);
    lemma_count_where_step(g1, g2, ei, 64);
    lemma_count_where_step(g2, h, ti, 64);
    lemma_count_where_board(b, f, 64);
    assert forall|j: int| 0 <= j < 64 implies #[trigger] h(j) == !a.free(j) by {
        lemma_apply_free(b, player, m, j);
    }
    lemma_count_where_board(a, h, 64);
}

/// Whether `m` takes a piece on `last_to`.
pub open spec fn is_recapture(m: Move, last_to: u64) -> bool {
    m.eaten_loc != 0 && m.eaten_loc == last_to
}

/// The moves that a node of the search looks at: all of them while depth
/// is left, and after that only those that take on the square where the
/// last move took.
pub open spec fn search_moves(pos: Position, depth: int, last_to: u64) -> Seq<Move> {
    let all = spec_possible_moves(pos.board, pos.current_player);
    if depth <= 0 {
        all.filter(|m: Move| is_recapture(m, last_to))
    } else {
        all
    }
}

/// The score that a node starts from, before any move is looked at: the
/// worst there is for the player to move.
pub open spec fn start_score(pos: Position) -> int {
    match pos.current_player {
        Player::PLAYER1 => MIN_INFINITY as int,
        Player::PLAYER2 => MAX_INFINITY as int,
    }
}

/// The better of two scores for `p`: the first player wants the highest,
/// the second the lowest.
pub open spec fn better(p: Player, a: int, b: int) -> int {
    match p {
        Player::PLAYER1 => if a >= b {
            a
        } else {
            b
        },
        Player::PLAYER2 => if a <= b {
            a
        } else {
            b
        },
    }
}

/// The depth that is left, none where it is used up.
pub open spec fn depth_left(depth: int) -> int {
    if depth > 0 {
        depth
    } else {
        0
    }
}

/// Whether the search follows `m` from `pos`: the move fits a well-formed
/// board, and it takes something where no depth is left. The generator
/// gives no other moves for a well-formed position.
pub open spec fn followed(pos: Position, depth: int, m: Move) -> bool {
    pos.board.wf(pos.current_player) && pos.board.fits(pos.current_player, m) && (depth > 0
        || m.eaten_loc != 0)
}

/// The value of `pos` searched `depth` plies deep, `last_to` being where
/// the move before took (0 where it took nothing).
///
/// While depth is left, the value is the best for the player to move among
/// the values after each move, or the start score where there is no move.
/// Without depth left only the captures on `last_to` are followed, and where
/// there is none the value is the score of the board.
pub open spec fn node_value(pos: Position, depth: int, last_to: u64) -> int
    decreases depth_left(depth), piece_count(pos.board), 1int, 0int,
{
    let moves = search_moves(pos, depth, last_to);
    if depth <= 0 && moves.len() == 0 {
        spec_score(pos.board)
    } else {
        best_of(pos, depth, moves, moves.len() as int)
    }
}

/// The best for the player to move among the start score and the values
/// after each of the first `k` moves of `moves`.
pub open spec fn best_of(pos: Position, depth: int, moves: Seq<Move>, k: int) -> int
    decreases depth_left(depth), piece_count(pos.board), 0int, k,
    via best_of_decreases
{
    if k <= 0 || k > moves.len() {
        start_score(pos)
    } else {
        let prev = best_of(pos, depth, moves, k - 1);
        if followed(pos, depth, moves[k - 1]) {
            better(pos.current_player, prev, value_after(pos, depth, moves[k - 1]))
        } else {
            prev
        }
    }
}

/// The value of the position after `m`, searched one ply less deep.
pub open spec fn value_after(pos: Position, depth: int, m: Move) -> int
    decreases depth_left(depth), piece_count(pos.board), 0int, 0int,
    via value_after_decreases
{
    if followed(pos, depth, m) {
        node_value(pos.spec_do_move(m), depth - 1, m.eaten_loc)
    } else {
        0
    }
}

#[via_fn]
proof fn best_of_decreases(pos: Position, depth: int, moves: Seq<Move>, k: int) {
}

#[via_fn]
proof fn value_after_decreases(pos: Position, depth: int, m: Move) {
    if followed(pos, depth, m) {
        if depth <= 0 {
            lemma_capture_count(pos.board, pos.current_player, m);
        }
    }
}

/// What a score `s` returned for the window from `a` to `b` says of the
/// value `v`: inside the window it is the value; below it the value is no
/// higher, above it the value is no lower.
pub open spec fn within_window(s: int, a: int, b: int, v: int) -> bool {
    &&& s < a ==> v <= s
    &&& s > b ==> v >= s
    &&& a <= s <= b ==> v == s
}

/// What the best score so far says of the best value so far at a node of
/// `p`, searched for the window from `a` to `b`.
pub open spec fn node_inv(p: Player, a: int, b: int, score: int, value: int) -> bool {
    match p {
        Player::PLAYER1 => (score >= a ==> value == score) && (score < a ==> value <= score),
        Player::PLAYER2 => (score <= b ==> value == score) && (score > b ==> value >= score),
    }
}

/// One more move at a node: the child was searched for a window that the
/// best score so far had narrowed, and its score is taken in.
pub proof fn lemma_window_step(
    p: Player,
    a: int,
    b: int,
    a_now: int,
    b_now: int,
    score: int,
    value: int,
    r: int,
    v: int,
)
    requires
        a <= b,
        node_inv(p, a, b, score, value),
        within_window(r, a_now, b_now, v),
        match p {
            Player::PLAYER1 => b_now == b && a <= a_now && a_now <= (if a >= score {
                a
            } else {
                score
            }),
            Player::PLAYER2 => a_now == a && b_now <= b && b_now >= (if b <= score {
                b
            } else {
                score
            }),
        },
    ensures
        match p {
            Player::PLAYER1 => {
                &&& better(p, score, r) > b ==> better(p, value, v) >= better(p, score, r)
                &&& better(p, score, r) <= b ==> node_inv(p, a, b, better(p, score, r), better(p, value, v))
            },
            Player::PLAYER2 => {
                &&& better(p, score, r) < a ==> better(p, value, v) <= better(p, score, r)
                &&& better(p, score, r) >= a ==> node_inv(p, a, b, better(p, score, r), better(p, value, v))
            },
        },
{
}

/// The best of more moves is no worse for the player to move.
pub proof fn lemma_best_of_grows(pos: Position, depth: int, moves: Seq<Move>, k: int, n: int)
    requires
        0 <= k <= n <= moves.len(),
    ensures
        better(
            pos.current_player,
            best_of(pos, depth, moves, n),
            best_of(pos, depth, moves, k),
        ) == best_of(pos, depth, moves, n),
    decreases n - k,
{
    if k < n {
        lemma_best_of_grows(pos, depth, moves, k, n - 1);
    }
}

/// The best of the first `k` moves is the start score or the value after
/// one of them, and no worse than any of these.
pub proof fn lemma_best_of_is_best(pos: Position, depth: int, moves: Seq<Move>, k: int)
    requires
        0 <= k <= moves.len(),
    ensures
        better(pos.current_player, best_of(pos, depth, moves, k), start_score(pos))
            == best_of(pos, depth, moves, k),
        forall|i: int|
            0 <= i < k && followed(pos, depth, #[trigger] moves[i]) ==> better(
                pos.current_player,
                best_of(pos, depth, moves, k),
                value_after(pos, depth, moves[i]),
            ) == best_of(pos, depth, moves, k),
        best_of(pos, depth, moves, k) == start_score(pos) || exists|i: int|
            0 <= i < k && followed(pos, depth, #[trigger] moves[i]) && best_of(
                pos,
                depth,
                moves,
                k,
            ) == value_after(pos, depth, moves[i]),
    decreases k,
{
    if k > 0 {
        lemma_best_of_is_best(pos, depth, moves, k - 1);
        let prev = best_of(pos, depth, moves, k - 1);
        let now = best_of(pos, depth, moves, k);
        if now != start_score(pos) {
            if now == prev {
                let i = choose|i: int|
                    0 <= i < k - 1 && followed(pos, depth, #[trigger] moves[i]) && prev
                        == value_after(pos, depth, moves[i]);
                assert(followed(pos, depth, moves[i]) && now == value_after(
                    pos,
                    depth,
                    moves[i],
                ));
            } else {
                assert(followed(pos, depth, moves[k - 1]) && now == value_after(
                    pos,
                    depth,
                    moves[k - 1],
                ));
            }
        }
    }
}

/// The best of a list of moves does not depend on their order.
pub proof fn lemma_best_of_reordered(pos: Position, depth: int, s1: Seq<Move>, s2: Seq<Move>)
    requires
        s1.to_multiset() == s2.to_multiset(),
    ensures
        best_of(pos, depth, s1, s1.len() as int) == best_of(
            pos,
            depth,
            s2,
            s2.len() as int,
        ),
{
    s1.to_multiset_ensures();
    s2.to_multiset_ensures();
    lemma_best_of_is_best(pos, depth, s1, s1.len() as int);
    lemma_best_of_is_best(pos, depth, s2, s2.len() as int);
    let v1 = best_of(pos, depth, s1, s1.len() as int);
    let v2 = best_of(pos, depth, s2, s2.len() as int);
    let p = pos.current_player;
    if v1 != start_score(pos) {
        let i = choose|i: int|
            0 <= i < s1.len() && followed(pos, depth, #[trigger] s1[i]) && v1 == value_after(
                pos,
                depth,
                s1[i],
            );
        assert(s1.contains(s1[i]));
        assert(s1.to_multiset().count(s1[i]) > 0);
        assert(s2.to_multiset().count(s1[i]) > 0);
        assert(s2.contains(s1[i]));
        let j = choose|j: int| 0 <= j < s2.len() && s2[j] == s1[i];
        assert(followed(pos, depth, s2[j]));
        assert(better(p, v2, v1) == v2);
    } else {
        assert(better(p, v2, v1) == v2);
    }
    if v2 != start_score(pos) {
        let i = choose|i: int|
            0 <= i < s2.len() && followed(pos, depth, #[trigger] s2[i]) && v2 == value_after(
                pos,
                depth,
                s2[i],
            );
        assert(s2.contains(s2[i]));
        assert(s2.to_multiset().count(s2[i]) > 0);
        assert(s1.to_multiset().count(s2[i]) > 0);
        assert(s1.contains(s2[i]));
        let j = choose|j: int| 0 <= j < s1.len() && s1[j] == s2[i];
        assert(followed(pos, depth, s1[j]));
        assert(better(p, v1, v2) == v1);
    } else {
        assert(better(p, v1, v2) == v1);
    }
}

/// With no depth left and nothing taken by the move before, the value of a
/// position is the score of its board.
pub proof fn lemma_quiet_leaf(pos: Position, depth: int)
    requires
        depth <= 0,
    ensures
        node_value(pos, depth, 0) == spec_score(pos.board),
{
    let all = spec_possible_moves(pos.board, pos.current_player);
    let pred = |m: Move| is_recapture(m, 0);
    if all.filter(pred).len() > 0 {
        all.lemma_filter_pred(pred, 0);
    }
}

/// The value of the position after the move `m` made at the root of a
/// search `depth` plies deep: the search goes on from the square on which
/// `m` landed.
pub open spec fn root_value_after(pos: Position, depth: int, m: Move) -> int {
    node_value(pos.spec_do_move(m), depth - 1, m.to)
}

/// The best for the player to move among the start score and the values
/// after each of the first `k` moves of `moves`, at the root.
pub open spec fn root_best_of(pos: Position, depth: int, moves: Seq<Move>, k: int) -> int
    decreases k,
{
    if k <= 0 || k > moves.len() {
        start_score(pos)
    } else {
        better(
            pos.current_player,
            root_best_of(pos, depth, moves, k - 1),
            root_value_after(pos, depth, moves[k - 1]),
        )
    }
}

/// The value of the position at the root of a search `depth` plies deep.
pub open spec fn root_value(pos: Position, depth: int) -> int {
    let moves = spec_possible_moves(pos.board, pos.current_player);
    root_best_of(pos, depth, moves, moves.len() as int)
}

/// The best at the root is the start score or the value after one of the
/// moves, and no worse than any of these.
pub proof fn lemma_root_best(pos: Position, depth: int, moves: Seq<Move>, k: int)
    requires
        0 <= k <= moves.len(),
    ensures
        better(pos.current_player, root_best_of(pos, depth, moves, k), start_score(pos))
            == root_best_of(pos, depth, moves, k),
        forall|i: int|
            0 <= i < k ==> better(
                pos.current_player,
                root_best_of(pos, depth, moves, k),
                root_value_after(pos, depth, #[trigger] moves[i]),
            ) == root_best_of(pos, depth, moves, k),
        root_best_of(pos, depth, moves, k) == start_score(pos) || exists|i: int|
            0 <= i < k && root_best_of(pos, depth, moves, k) == root_value_after(
                pos,
                depth,
                #[trigger] moves[i],
            ),
    decreases k,
{
    if k > 0 {
        lemma_root_best(pos, depth, moves, k - 1);
        let prev = root_best_of(pos, depth, moves, k - 1);
        let now = root_best_of(pos, depth, moves, k);
        if now != start_score(pos) {
            if now == prev {
                let i = choose|i: int|
                    0 <= i < k - 1 && prev == root_value_after(pos, depth, #[trigger] moves[i]);
                assert(now == root_value_after(pos, depth, moves[i]));
            } else {
                assert(now == root_value_after(pos, depth, moves[k - 1]));
            }
        }
    }
}

/// The best at the root does not depend on the order of the moves.
pub proof fn lemma_root_best_reordered(pos: Position, depth: int, s1: Seq<Move>, s2: Seq<Move>)
    requires
        s1.to_multiset() == s2.to_multiset(),
    ensures
        root_best_of(pos, depth, s1, s1.len() as int) == root_best_of(pos, depth, s2, s2.len() as int),
{
    s1.to_multiset_ensures();
    s2.to_multiset_ensures();
    lemma_root_best(pos, depth, s1, s1.len() as int);
    lemma_root_best(pos, depth, s2, s2.len() as int);
    let v1 = root_best_of(pos, depth, s1, s1.len() as int);
    let v2 = root_best_of(pos, depth, s2, s2.len() as int);
    let p = pos.current_player;
    if v1 != start_score(pos) {
        let i = choose|i: int|
            0 <= i < s1.len() && v1 == root_value_after(pos, depth, #[trigger] s1[i]);
        assert(s1.contains(s1[i]));
        assert(s1.to_multiset().count(s1[i]) > 0);
        assert(s2.to_multiset().count(s1[i]) > 0);
        assert(s2.contains(s1[i]));
        let j = choose|j: int| 0 <= j < s2.len() && s2[j] == s1[i];
        assert(better(p, v2, root_value_after(pos, depth, s2[j])) == v2);
    }
    if v2 != start_score(pos) {
        let i = choose|i: int|
            0 <= i < s2.len() && v2 == root_value_after(pos, depth, #[trigger] s2[i]);
        assert(s2.contains(s2[i]));
        assert(s2.to_multiset().count(s2[i]) > 0);
        assert(s1.to_multiset().count(s2[i]) > 0);
        assert(s1.contains(s2[i]));
        let j = choose|j: int| 0 <= j < s1.len() && s1[j] == s2[i];
        assert(better(p, v1, root_value_after(pos, depth, s1[j])) == v1);
    }
}

/// Alpha-beta/minimax equivalence: a score that alpha-beta returns for the
/// window from the lowest to the highest score is the value of the
/// position, which is what plain minimax returns. Both searches start
/// every node from the same score, so this holds at every depth and
/// whether or not a line of play ends in a position without moves.
pub proof fn lemma_alpha_beta_equals_min_max(pos: Position, depth: int, last_to: u64, s: int)
    requires
        MIN_INFINITY <= s <= MAX_INFINITY,
        within_window(
            s,
            MIN_INFINITY as int,
            MAX_INFINITY as int,
            node_value(pos, depth, last_to),
        ),
    ensures
        s == node_value(pos, depth, last_to),
{
}

/// Every value lies between the lowest and the highest score.
pub proof fn lemma_value_in_range(pos: Position, depth: int, last_to: u64)
    ensures
        MIN_INFINITY <= node_value(pos, depth, last_to) <= MAX_INFINITY,
    decreases depth_left(depth), piece_count(pos.board), 1int, 0int,
{
    let moves = search_moves(pos, depth, last_to);
    if depth <= 0 && moves.len() == 0 {
        lemma_score_bound(pos.board);
    } else {
        lemma_best_in_range(pos, depth, moves, moves.len() as int);
    }
}

proof fn lemma_best_in_range(pos: Position, depth: int, moves: Seq<Move>, k: int)
    requires
        0 <= k <= moves.len(),
    ensures
        MIN_INFINITY <= best_of(pos, depth, moves, k) <= MAX_INFINITY,
    decreases depth_left(depth), piece_count(pos.board), 0int, k,
{
    if k > 0 {
        lemma_best_in_range(pos, depth, moves, k - 1);
        let m = moves[k - 1];
        if followed(pos, depth, m) {
            if depth <= 0 {
                lemma_capture_count(pos.board, pos.current_player, m);
            }
            lemma_value_in_range(pos.spec_do_move(m), depth - 1, m.eaten_loc);
            assert(value_after(pos, depth, m) == node_value(
                pos.spec_do_move(m),
                depth - 1,
                m.eaten_loc,
            ));
        }
        assert(best_of(pos, depth, moves, k) == if followed(pos, depth, m) {
            better(pos.current_player, best_of(pos, depth, moves, k - 1), value_after(pos, depth, m))
        } else {
            best_of(pos, depth, moves, k - 1)
        });
    }
}

} // verus!
