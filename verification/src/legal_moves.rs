//! The legal-move generator: king moves first, then, unless the king is in
//! double check, castling, the moves of pinned pieces along their pins,
//! en-passant captures, and the moves of every other piece, all held to the
//! squares that deal with a check.
use vstd::prelude::*;
use crate::bit_help::{index, index_to_place, iter_index, iter_place, is_step, rank_of};
use crate::bits::{
    bit, single, lowest, rest, has_several, lemma_rest, lemma_bit_and, lemma_bit_not, lemma_bit_or,
    lemma_bit_single, lemma_bit_zero, lemma_single_index, lemma_single_nonzero, lemma_test_single,
    lemma_lowest, lemma_bits_equal,
};
use crate::bit_help::lemma_shift_single;
use crate::chess_impl::{
    BoardState, Chess, Move, PieceType, sq, king_place, kingside_rook, queenside_rook, lemma_holds,
    king_start, kingside_rook_start, queenside_rook_start, lemma_castle_squares,
};
use crate::move_generation::lemma_vertical_steps;
use crate::move_generation::{
    forward, king_step, pawn_attack, pawn_start_rank, spec_between, spec_bishop_attacks,
    spec_king_attacks, spec_king_danger_squares, spec_knight_attacks, spec_moves,
    spec_pawn_captures, spec_pawn_moves, spec_rook_attacks, between, lemma_between_bit,
    lemma_king_attacks_bit, lemma_pawn_captures_bit, lemma_pawn_moves_bit,
};
use crate::king_safety::{
    all_safe, check_mask, kings_apart, lemma_castle_safe, lemma_mask_answers, lemma_pinned_keeps,
    lemma_target_moves_safe, lemma_unpinned_keeps, pin_of, target_safe, targets_safe,
    lemma_en_passant_safe, uncovered_by_en_passant, every_safe, lemma_all_safe_on_legal, safe_after,
    lemma_legal_stays, castles_unchecked, king_attacked,
};
use crate::generator_laws::{is_legal_move, lemma_all_legal_given};
use crate::generator_once::{lemma_generator_once, no_twice};
use crate::two_player_game::{Game, GameState, Player, Scored};

verus! {

/// Whether every move of `moves` fits the board with `player` to move.
pub open spec fn all_fit(board: BoardState, player: Player, moves: Seq<Move>) -> bool {
    forall|k: int| 0 <= k < moves.len() ==> board.fits(player, #[trigger] moves[k])
}

/// Whether `from` is one square that holds a piece of `player` of kind
/// `piece_type`.
pub open spec fn source_fits(board: BoardState, player: Player, from: u64, piece_type: PieceType) -> bool {
    &&& 0 <= sq(from) < 64
    &&& from == single(sq(from))
    &&& bit(board.spec_get(player, piece_type), sq(from))
}

/// Whether a piece of `player` of kind `piece_type` on `fi` can go to `j`
/// as far as the board's bookkeeping goes.
pub open spec fn target_fits(board: BoardState, player: Player, piece_type: PieceType, fi: int, j: int) -> bool {
    let other = player.spec_other();
    let d = forward(player);
    &&& !board.holds(player, j)
    &&& piece_type == PieceType::KING ==> king_step(fi, j)
    &&& piece_type != PieceType::KING && piece_type != PieceType::PAWN ==> bit(
        spec_moves(fi, player, piece_type, board.spec_all_occupancy()),
        j,
    )
    &&& piece_type == PieceType::PAWN ==> {
        ||| is_step(fi, d, 1, j) && board.free(j)
        ||| rank_of(fi) == pawn_start_rank(player) && is_step(fi, d, 2, j) && board.free(
            fi + d.delta(),
        ) && board.free(j)
        ||| pawn_attack(player, fi, j) && board.holds(other, j)
    }
}

/// Whether every member of `to_options` is a fitting target.
pub open spec fn targets_fit(
    board: BoardState,
    player: Player,
    piece_type: PieceType,
    fi: int,
    to_options: u64,
) -> bool {
    forall|j: int| #[trigger] bit(to_options, j) ==> target_fits(board, player, piece_type, fi, j)
}

/// Whether a move of `piece_type` to `to` promotes: a pawn reaches the
/// first or the last rank.
pub open spec fn promotes(piece_type: PieceType, to: u64) -> bool {
    piece_type == PieceType::PAWN && (sq(to) / 8) % 7 == 0
}

/// What a move to `to` takes: the piece found there where `to` is among
/// `enemy_occ`, nothing otherwise.
pub open spec fn spec_eaten(board: BoardState, to: u64, enemy_occ: u64) -> (u64, PieceType) {
    if enemy_occ & to != 0 {
        match board.spec_type_at(to) {
            Some(x) => (to, x.1),
            None => (0, PieceType::PAWN),
        }
    } else {
        (0, PieceType::PAWN)
    }
}

pub open spec fn spec_move(
    from: u64,
    to: u64,
    start_type: PieceType,
    end_type: PieceType,
    eaten: (u64, PieceType),
) -> Move {
    Move { from, to, start_type, end_type, eaten_type: eaten.1, eaten_loc: eaten.0 }
}

/// The moves from `from` to `to`: one, or the four promotions in the order
/// queen, rook, bishop, knight.
pub open spec fn spec_moves_for_target(
    board: BoardState,
    from: u64,
    to: u64,
    piece_type: PieceType,
    enemy_occ: u64,
) -> Seq<Move> {
    let eaten = spec_eaten(board, to, enemy_occ);
    if promotes(piece_type, to) {
        seq![
            spec_move(from, to, piece_type, PieceType::QUEEN, eaten),
            spec_move(from, to, piece_type, PieceType::ROOK, eaten),
            spec_move(from, to, piece_type, PieceType::BISHOP, eaten),
            spec_move(from, to, piece_type, PieceType::KNIGHT, eaten),
        ]
    } else {
        seq![spec_move(from, to, piece_type, piece_type, eaten)]
    }
}

/// `acc` followed by the moves from `from` to each member of `remaining`,
/// lowest square first.
pub open spec fn spec_add_loop(
    board: BoardState,
    from: u64,
    remaining: u64,
    piece_type: PieceType,
    enemy_occ: u64,
    acc: Seq<Move>,
) -> Seq<Move>
    decreases remaining,
    via add_loop_decreases
{
    if remaining == 0 {
        acc
    } else {
        spec_add_loop(
            board,
            from,
            rest(remaining),
            piece_type,
            enemy_occ,
            acc + spec_moves_for_target(board, from, single(lowest(remaining)), piece_type, enemy_occ),
        )
    }
}

#[via_fn]
proof fn add_loop_decreases(
    board: BoardState,
    from: u64,
    remaining: u64,
    piece_type: PieceType,
    enemy_occ: u64,
    acc: Seq<Move>,
) {
    if remaining != 0 {
        lemma_rest(remaining);
    }
}

/// `acc` followed by the moves of the piece on `from` to the members of
/// `to_options`, the square of the opponent's king left out: a king is
/// never taken.
pub open spec fn spec_add_moves(
    board: BoardState,
    player: Player,
    from: u64,
    to_options: u64,
    piece_type: PieceType,
    enemy_occ: u64,
    acc: Seq<Move>,
) -> Seq<Move> {
    spec_add_loop(
        board,
        from,
        to_options & !board.spec_get(player.spec_other(), PieceType::KING),
        piece_type,
        enemy_occ,
        acc,
    )
}

/// Membership in a player's occupancy is holding the square.
pub proof fn lemma_occupancy_bit(b: BoardState, p: Player, j: int)
    ensures
        bit(b.spec_occupancy(p), j) == b.holds(p, j),
        bit(b.spec_all_occupancy(), j) == !b.free(j),
{
    broadcast use crate::bits::group_bits;

}

/// On a board without shared squares, the piece found on a square that the
/// opponent of `player` holds is the opponent's.
pub proof fn lemma_type_at_enemy(b: BoardState, player: Player, j: int)
    requires
        b.disjoint(),
        0 <= j < 64,
        b.holds(player.spec_other(), j),
    ensures
        b.spec_type_at(single(j)) is Some,
        (b.spec_type_at(single(j))->0).0 == player.spec_other(),
        bit(b.spec_get(player.spec_other(), (b.spec_type_at(single(j))->0).1), j),
{
    lemma_kind_at(b, Player::PLAYER1, j);
    lemma_kind_at(b, Player::PLAYER2, j);
    lemma_holds(b, Player::PLAYER1, j);
    lemma_holds(b, Player::PLAYER2, j);
}

/// The kind found for `player` on one square is a kind that holds it, and
/// none is found exactly when the player does not hold the square.
pub proof fn lemma_kind_at(b: BoardState, player: Player, j: int)
    requires
        0 <= j < 64,
    ensures
        b.spec_kind_at(player, single(j)) is None <==> !b.holds(player, j),
        b.spec_kind_at(player, single(j)) is Some ==> bit(
            b.spec_get(player, b.spec_kind_at(player, single(j))->0),
            j,
        ),
{
    lemma_test_single(b.spec_get(player, PieceType::PAWN), j);
    lemma_test_single(b.spec_get(player, PieceType::KNIGHT), j);
    lemma_test_single(b.spec_get(player, PieceType::BISHOP), j);
    lemma_test_single(b.spec_get(player, PieceType::ROOK), j);
    lemma_test_single(b.spec_get(player, PieceType::QUEEN), j);
    lemma_test_single(b.spec_get(player, PieceType::KING), j);
}

/// The moves to one fitting target fit.
proof fn lemma_target_moves_fit(
    board: BoardState,
    player: Player,
    from: u64,
    ti: int,
    piece_type: PieceType,
    enemy_occ: u64,
)
    requires
        board.wf(player),
        source_fits(board, player, from, piece_type),
        0 <= ti < 64,
        target_fits(board, player, piece_type, sq(from), ti),
        !bit(board.spec_get(player.spec_other(), PieceType::KING), ti),
        enemy_occ == board.spec_occupancy(player.spec_other()),
    ensures
        all_fit(board, player, spec_moves_for_target(board, from, single(ti), piece_type, enemy_occ)),
{
    let other = player.spec_other();
    let to = single(ti);
    lemma_single_index(ti);
    lemma_occupancy_bit(board, other, ti);
    lemma_test_single(enemy_occ, ti);
    lemma_holds(board, other, ti);
    lemma_holds(board, player, ti);
    let eaten = spec_eaten(board, to, enemy_occ);
    if board.holds(other, ti) {
        lemma_type_at_enemy(board, player, ti);
        lemma_single_nonzero(ti);
    }
    let moves = spec_moves_for_target(board, from, to, piece_type, enemy_occ);
    assert forall|k: int| 0 <= k < moves.len() implies board.fits(player, #[trigger] moves[k]) by {
        let m = moves[k];
        assert(m.from == from && m.to == to && m.start_type == piece_type);
        assert(m.eaten_loc == eaten.0 && m.eaten_type == eaten.1);
        assert(board.capture_fits(player, m));
    }
}

/// The opponent's pieces that attack `player`'s king; the opponent's king is
/// not looked for.
pub open spec fn spec_checkers(board: BoardState, player: Player) -> u64 {
    let k = sq(board.spec_get(player, PieceType::KING));
    let enemy = player.spec_other();
    let occ = board.spec_all_occupancy();
    (spec_rook_attacks(k, occ) & (board.spec_get(enemy, PieceType::QUEEN) | board.spec_get(
        enemy,
        PieceType::ROOK,
    ))) | (spec_bishop_attacks(k, occ) & (board.spec_get(enemy, PieceType::QUEEN) | board.spec_get(
        enemy,
        PieceType::BISHOP,
    ))) | (spec_knight_attacks(k) & board.spec_get(enemy, PieceType::KNIGHT)) | spec_pawn_captures(
        player,
        k,
        board.spec_get(enemy, PieceType::PAWN),
    )
}

/// A king's move from `from` to `to` that takes nothing.
pub open spec fn quiet_king_move(from: u64, to: u64) -> Move {
    Move {
        from,
        to,
        start_type: PieceType::KING,
        end_type: PieceType::KING,
        eaten_type: PieceType::PAWN,
        eaten_loc: 0,
    }
}

/// Whether `player` may castle king-side: king and rook keep their castling
/// memory, the rook is in place, and the squares between them are free and
/// not attacked.
pub open spec fn can_castle_kingside(board: BoardState, player: Player, king_danger: u64) -> bool {
    let king = board.spec_get(player, PieceType::KING);
    let occ = board.spec_all_occupancy();
    &&& board.castle_memory & king_place(player) != 0
    &&& spec_between(sq(king), sq(kingside_rook(player))) & (king_danger | occ) == 0
    &&& board.castle_memory & kingside_rook(player) & board.spec_get(player, PieceType::ROOK) != 0
}

/// Whether `player` may castle queen-side: as king-side, but the square
/// next to the rook need only be free.
pub open spec fn can_castle_queenside(board: BoardState, player: Player, king_danger: u64) -> bool {
    let king = board.spec_get(player, PieceType::KING);
    let occ = board.spec_all_occupancy();
    &&& board.castle_memory & king_place(player) != 0
    &&& (spec_between(sq(king), sq(queenside_rook(player)) - 1) & (king_danger | occ)) | (
    spec_between(sq(queenside_rook(player)), sq(king)) & occ) == 0
    &&& board.castle_memory & queenside_rook(player) & board.spec_get(player, PieceType::ROOK) != 0
}

/// `acc` followed by the castling moves, king-side first. There are none
/// while the king is in check.
pub open spec fn spec_castle_moves(
    board: BoardState,
    player: Player,
    checkers: u64,
    king_danger: u64,
    acc: Seq<Move>,
) -> Seq<Move> {
    let king = board.spec_get(player, PieceType::KING);
    if checkers == 0 {
        let acc1 = if can_castle_kingside(board, player, king_danger) {
            acc.push(quiet_king_move(king, king >> 2))
        } else {
            acc
        };
        if can_castle_queenside(board, player, king_danger) {
            acc1.push(quiet_king_move(king, king << 2))
        } else {
            acc1
        }
    } else {
        acc
    }
}

/// What the first stage of move generation finds.
pub struct KingPart {
    pub moves: Seq<Move>,
    /// The squares on which the king would stand attacked.
    pub king_danger: u64,
    /// The opponent's pieces that give check.
    pub checkers: u64,
    /// The squares on which another piece can block the check; every square
    /// where there is no check, none in double check.
    pub push_mask: u64,
}

/// The king's moves to squares that are neither its own nor attacked, then
/// castling where there is no check.
pub open spec fn spec_king_part(board: BoardState, player: Player, acc: Seq<Move>) -> KingPart {
    let king = board.spec_get(player, PieceType::KING);
    let danger = spec_king_danger_squares(board, player);
    let king_moves = spec_king_attacks(sq(king)) & !board.spec_occupancy(player) & !danger;
    let m1 = spec_add_moves(
        board,
        player,
        king,
        king_moves,
        PieceType::KING,
        board.spec_occupancy(player.spec_other()),
        acc,
    );
    let checkers = spec_checkers(board, player);
    if checkers != 0 {
        if has_several(checkers) {
            KingPart { moves: m1, king_danger: danger, checkers, push_mask: 0 }
        } else {
            KingPart {
                moves: m1,
                king_danger: danger,
                checkers,
                push_mask: spec_between(sq(king), sq(checkers)),
            }
        }
    } else {
        KingPart {
            moves: spec_castle_moves(board, player, checkers, danger, m1),
            king_danger: danger,
            checkers,
            push_mask: !0u64,
        }
    }
}

/// The opponent's sliders that would attack the king if only the opponent's
/// pieces stood on the board.
pub open spec fn spec_pinners(board: BoardState, player: Player) -> u64 {
    let enemy = player.spec_other();
    let k = sq(board.spec_get(player, PieceType::KING));
    let enemy_occ = board.spec_occupancy(enemy);
    (spec_rook_attacks(k, enemy_occ) & (board.spec_get(enemy, PieceType::ROOK) | board.spec_get(
        enemy,
        PieceType::QUEEN,
    ))) | (spec_bishop_attacks(k, enemy_occ) & (board.spec_get(enemy, PieceType::BISHOP)
        | board.spec_get(enemy, PieceType::QUEEN)))
}

/// The kind found on `place`.
pub open spec fn spec_kind_on(board: BoardState, place: u64) -> PieceType {
    match board.spec_type_at(place) {
        Some(x) => x.1,
        None => PieceType::PAWN,
    }
}

/// Moves and pinned pieces gathered so far.
pub struct PinnedPart {
    pub moves: Seq<Move>,
    pub pinned: u64,
}

/// One slider `i` of the pinners: where exactly one piece of `player` stands
/// between it and the king, that piece is pinned, and its moves are those
/// that stay between king and slider or take the slider.
pub open spec fn spec_pinned_step(
    board: BoardState,
    player: Player,
    capture_mask: u64,
    push_mask: u64,
    i: int,
    acc: PinnedPart,
) -> PinnedPart {
    let k = sq(board.spec_get(player, PieceType::KING));
    let my_occ = board.spec_occupancy(player);
    let enemy_occ = board.spec_occupancy(player.spec_other());
    let pin = spec_between(k, i) & my_occ;
    if pin != 0 && rest(pin) == 0 {
        let pin_space = single(i) | spec_between(k, i);
        let piece_type = spec_kind_on(board, pin);
        let moves = spec_moves(sq(pin), player, piece_type, my_occ | enemy_occ) & pin_space & (
        capture_mask | push_mask) & !my_occ;
        PinnedPart {
            moves: spec_add_moves(board, player, pin, moves, piece_type, enemy_occ, acc.moves),
            pinned: acc.pinned | pin,
        }
    } else {
        acc
    }
}

pub open spec fn spec_pinned_loop(
    board: BoardState,
    player: Player,
    capture_mask: u64,
    push_mask: u64,
    remaining: u64,
    acc: PinnedPart,
) -> PinnedPart
    decreases remaining,
    via pinned_loop_decreases
{
    if remaining == 0 {
        acc
    } else {
        spec_pinned_loop(
            board,
            player,
            capture_mask,
            push_mask,
            rest(remaining),
            spec_pinned_step(board, player, capture_mask, push_mask, lowest(remaining), acc),
        )
    }
}

#[via_fn]
proof fn pinned_loop_decreases(
    board: BoardState,
    player: Player,
    capture_mask: u64,
    push_mask: u64,
    remaining: u64,
    acc: PinnedPart,
) {
    if remaining != 0 {
        lemma_rest(remaining);
    }
}

/// `acc` followed by the moves of the pinned pieces, with the pinned
/// pieces.
pub open spec fn spec_pinned_part(
    board: BoardState,
    player: Player,
    capture_mask: u64,
    push_mask: u64,
    acc: Seq<Move>,
) -> PinnedPart {
    spec_pinned_loop(
        board,
        player,
        capture_mask,
        push_mask,
        spec_pinners(board, player),
        PinnedPart { moves: acc, pinned: 0 },
    )
}

/// Whether the pawn on `i` may not take en passant: it is pinned and
/// king, pawn and target are not in one line with the king at its end, or
/// king and pawn share a rank on which a rook or queen attacks the king
/// once both pawns are gone.
pub open spec fn en_passant_barred(board: BoardState, player: Player, pinned: u64, eaten: u64, i: int) -> bool {
    let k = sq(board.spec_get(player, PieceType::KING));
    let enemy = player.spec_other();
    ||| single(i) & pinned != 0 && spec_between(k, sq(board.en_passant_square)) & single(i) == 0
        && spec_between(k, i) & board.en_passant_square == 0
    ||| k / 8 == i / 8 && spec_rook_attacks(k, board.spec_all_occupancy() & !eaten & !single(i)) & (
    board.spec_get(enemy, PieceType::ROOK) | board.spec_get(enemy, PieceType::QUEEN)) != 0
}

pub open spec fn en_passant_move(board: BoardState, eaten: u64, i: int) -> Move {
    Move {
        from: single(i),
        to: board.en_passant_square,
        start_type: PieceType::PAWN,
        end_type: PieceType::PAWN,
        eaten_type: PieceType::PAWN,
        eaten_loc: eaten,
    }
}

pub open spec fn spec_en_passant_loop(
    board: BoardState,
    player: Player,
    pinned: u64,
    eaten: u64,
    remaining: u64,
    acc: Seq<Move>,
) -> Seq<Move>
    decreases remaining,
    via en_passant_loop_decreases
{
    if remaining == 0 {
        acc
    } else {
        spec_en_passant_loop(
            board,
            player,
            pinned,
            eaten,
            rest(remaining),
            if en_passant_barred(board, player, pinned, eaten, lowest(remaining)) {
                acc
            } else {
                acc.push(en_passant_move(board, eaten, lowest(remaining)))
            },
        )
    }
}

#[via_fn]
proof fn en_passant_loop_decreases(
    board: BoardState,
    player: Player,
    pinned: u64,
    eaten: u64,
    remaining: u64,
    acc: Seq<Move>,
) {
    if remaining != 0 {
        lemma_rest(remaining);
    }
}

/// `acc` followed by the en-passant captures: where there is a target, and
/// the pawn to take gives the check or the target blocks it (or there is no
/// check), one by each pawn next to the target that is not barred.
pub open spec fn spec_en_passant_part(
    board: BoardState,
    player: Player,
    capture_mask: u64,
    push_mask: u64,
    pinned: u64,
    acc: Seq<Move>,
) -> Seq<Move> {
    let enemy = player.spec_other();
    let ep = board.en_passant_square;
    if ep != 0 {
        let eaten = spec_pawn_moves(enemy, sq(ep), 0);
        if (eaten & capture_mask) | (ep & push_mask) != 0 {
            spec_en_passant_loop(
                board,
                player,
                pinned,
                eaten,
                spec_pawn_captures(enemy, sq(ep), board.spec_get(player, PieceType::PAWN)),
                acc,
            )
        } else {
            acc
        }
    } else {
        acc
    }
}

pub open spec fn spec_sweep_loop(
    board: BoardState,
    player: Player,
    checkers: u64,
    push_mask: u64,
    remaining: u64,
    acc: Seq<Move>,
) -> Seq<Move>
    decreases remaining,
    via sweep_loop_decreases
{
    if remaining == 0 {
        acc
    } else {
        let p = single(lowest(remaining));
        let my_occ = board.spec_occupancy(player);
        let blockers = board.spec_all_occupancy();
        let piece_type = spec_kind_on(board, p);
        let moves = spec_moves(lowest(remaining), player, piece_type, blockers) & (checkers
            | push_mask) & !my_occ;
        spec_sweep_loop(
            board,
            player,
            checkers,
            push_mask,
            rest(remaining),
            spec_add_moves(board, player, p, moves, piece_type, blockers & !my_occ, acc),
        )
    }
}

#[via_fn]
proof fn sweep_loop_decreases(
    board: BoardState,
    player: Player,
    checkers: u64,
    push_mask: u64,
    remaining: u64,
    acc: Seq<Move>,
) {
    if remaining != 0 {
        lemma_rest(remaining);
    }
}

/// The moves that the generator gives for `player` on `board`, in the order
/// in which it gives them: the king's, castling, those of pinned pieces,
/// en-passant captures, and those of the other pieces from the lowest
/// square up. In double check only the king's.
#[verifier::opaque]
pub open spec fn spec_possible_moves(board: BoardState, player: Player) -> Seq<Move> {
    let kp = spec_king_part(board, player, Seq::empty());
    if has_several(kp.checkers) {
        kp.moves
    } else {
        let pp = spec_pinned_part(board, player, kp.checkers, kp.push_mask, kp.moves);
        let m3 = spec_en_passant_part(board, player, kp.checkers, kp.push_mask, pp.pinned, pp.moves);
        let can_move = board.spec_occupancy(player) & !pp.pinned & !board.spec_get(
            player,
            PieceType::KING,
        );
        spec_sweep_loop(board, player, kp.checkers, kp.push_mask, can_move, m3)
    }
}

/// A bitboard that shares no square with another: no member of the one is
/// a member of the other.
pub proof fn lemma_no_common(a: u64, b: u64)
    requires
        a & b == 0,
    ensures
        forall|j: int| #[trigger] bit(a, j) ==> !bit(b, j),
{
    assert forall|j: int| #[trigger] bit(a, j) implies !bit(b, j) by {
        lemma_bit_and(a, b, j);
        lemma_bit_zero(j);
    }
}

/// Two bitboards that share a square.
pub proof fn lemma_common(a: u64, b: u64)
    requires
        a & b != 0,
    ensures
        exists|j: int| 0 <= j < 64 && bit(a, j) && bit(b, j),
{
    lemma_lowest(a & b);
    let j = lowest(a & b);
    lemma_bit_and(a, b, j);
    assert(bit(a, j) && bit(b, j));
}

/// The squares between a king on its starting square and its rooks.
pub proof fn lemma_castle_between(fi: int, j: int)
    requires
        fi == 3 || fi == 59,
    ensures
        between(fi, fi - 3, j) == (j == fi - 1 || j == fi - 2),
        between(fi, fi + 3, j) == (j == fi + 1 || j == fi + 2),
        between(fi + 4, fi, j) == (j == fi + 1 || j == fi + 2 || j == fi + 3),
{
}

/// Castling moves fit the board on which they are allowed.
proof fn lemma_castle_fits(board: BoardState, player: Player, king_danger: u64)
    requires
        board.wf(player),
    ensures
        can_castle_kingside(board, player, king_danger) ==> board.fits(
            player,
            quiet_king_move(
                board.spec_get(player, PieceType::KING),
                board.spec_get(player, PieceType::KING) >> 2,
            ),
        ),
        can_castle_queenside(board, player, king_danger) ==> board.fits(
            player,
            quiet_king_move(
                board.spec_get(player, PieceType::KING),
                board.spec_get(player, PieceType::KING) << 2,
            ),
        ),
{
    lemma_castle_squares();
    let king = board.spec_get(player, PieceType::KING);
    let occ = board.spec_all_occupancy();
    let rooks = board.spec_get(player, PieceType::ROOK);
    let fi = sq(king);
    if board.castle_memory & king_place(player) != 0 {
        assert(king == king_place(player));
        assert(fi == 3 || fi == 59);
        lemma_shift_single(fi, 2);
        lemma_single_index(fi - 2);
        lemma_single_index(fi + 2);
        lemma_bit_single(fi, fi);
        assert forall|j: int| 0 <= j < 64 implies (bit(occ, j) == !board.free(j)) && (board.holds(
            player,
            j,
        ) ==> !board.free(j)) && (board.holds(player.spec_other(), j) ==> !board.free(j)) by {
            lemma_occupancy_bit(board, player, j);
        }
        if can_castle_kingside(board, player, king_danger) {
            let m = quiet_king_move(king, king >> 2);
            let b = spec_between(fi, fi - 3);
            lemma_no_common(b, king_danger | occ);
            assert forall|j: int| j == fi - 1 || j == fi - 2 implies board.free(j) by {
                lemma_castle_between(fi, j);
                lemma_between_bit(fi, fi - 3, j);
                lemma_bit_or(king_danger, occ, j);
            }
            lemma_common(board.castle_memory & kingside_rook(player), rooks);
            let r = choose|j: int|
                0 <= j < 64 && bit(board.castle_memory & kingside_rook(player), j) && bit(rooks, j);
            lemma_bit_and(board.castle_memory, kingside_rook(player), r);
            lemma_bit_single(fi - 3, r);
            assert(bit(rooks, fi - 3));
            assert(board.free(fi - 1) && board.free(fi - 2));
            assert(board.king_fits(player, m));
            assert(board.fits(player, m));
        }
        if can_castle_queenside(board, player, king_danger) {
            let m = quiet_king_move(king, king << 2);
            let b1 = spec_between(fi, fi + 3) & (king_danger | occ);
            let b2 = spec_between(fi + 4, fi) & occ;
            bv_or_zero(b1, b2);
            lemma_no_common(spec_between(fi + 4, fi), occ);
            assert forall|j: int| j == fi + 1 || j == fi + 2 implies board.free(j) by {
                lemma_castle_between(fi, j);
                lemma_between_bit(fi + 4, fi, j);
            }
            lemma_common(board.castle_memory & queenside_rook(player), rooks);
            let r = choose|j: int|
                0 <= j < 64 && bit(board.castle_memory & queenside_rook(player), j) && bit(rooks, j);
            lemma_bit_and(board.castle_memory, queenside_rook(player), r);
            lemma_bit_single(fi + 4, r);
            assert(bit(rooks, fi + 4));
            assert(board.free(fi + 1) && board.free(fi + 2));
            assert(board.king_fits(player, m));
            assert(board.fits(player, m));
        }
    }
}

proof fn bv_and_nonzero(a: u64, b: u64, c: u64)
    by (bit_vector)
    ensures
        a & b & c != 0 ==> a & b != 0,
{
}

proof fn bv_or_zero(a: u64, b: u64)
    by (bit_vector)
    ensures
        a | b == 0 ==> a == 0 && b == 0,
        a == 0 && b == 0 ==> a | b == 0,
{
}

/// The king's targets fit: each is one step away and not the player's own.
proof fn lemma_king_targets_fit(board: BoardState, player: Player, danger: u64)
    ensures
        targets_fit(
            board,
            player,
            PieceType::KING,
            sq(board.spec_get(player, PieceType::KING)),
            spec_king_attacks(sq(board.spec_get(player, PieceType::KING))) & !board.spec_occupancy(
                player,
            ) & !danger,
        ),
{
    let ki = sq(board.spec_get(player, PieceType::KING));
    let t = spec_king_attacks(ki) & !board.spec_occupancy(player) & !danger;
    assert forall|j: int| #[trigger] bit(t, j) implies target_fits(
        board,
        player,
        PieceType::KING,
        ki,
        j,
    ) by {
        lemma_bit_and(spec_king_attacks(ki) & !board.spec_occupancy(player), !danger, j);
        lemma_bit_and(spec_king_attacks(ki), !board.spec_occupancy(player), j);
        lemma_bit_not(board.spec_occupancy(player), j);
        lemma_king_attacks_bit(ki, j);
        lemma_occupancy_bit(board, player, j);
    }
}

/// On a board without shared squares, the piece found on a square that
/// `player` holds is the player's, of the kind that holds the square.
pub proof fn lemma_type_at_own(b: BoardState, player: Player, j: int)
    requires
        b.disjoint(),
        0 <= j < 64,
        b.holds(player, j),
    ensures
        b.spec_type_at(single(j)) is Some,
        bit(b.spec_get(player, spec_kind_on(b, single(j))), j),
        forall|t: PieceType| #[trigger]
            bit(b.spec_get(player, t), j) ==> t == spec_kind_on(b, single(j)),
{
    lemma_kind_at(b, Player::PLAYER1, j);
    lemma_kind_at(b, Player::PLAYER2, j);
    lemma_holds(b, Player::PLAYER1, j);
    lemma_holds(b, Player::PLAYER2, j);
}

/// A bitboard with a lowest member and nothing else is that square.
pub proof fn lemma_single_from_rest(x: u64)
    requires
        x != 0,
        rest(x) == 0,
    ensures
        x == single(lowest(x)),
        0 <= lowest(x) < 64,
{
    lemma_rest(x);
    assert forall|j: int| 0 <= j < 64 implies #[trigger] bit(x, j) == bit(single(lowest(x)), j) by {
        lemma_bit_zero(j);
        lemma_bit_single(lowest(x), j);
    }
    lemma_bits_equal(x, single(lowest(x)));
}

/// The ordinary targets of a piece that is no king fit, as far as they are
/// not the player's own squares.
proof fn lemma_moves_targets_fit(
    board: BoardState,
    player: Player,
    t: PieceType,
    fi: int,
    occ: u64,
    targets: u64,
)
    requires
        board.disjoint(),
        t != PieceType::KING,
        0 <= fi < 64,
        forall|j: int| 0 <= j < 64 ==> #[trigger] bit(occ, j) == !board.free(j),
        forall|j: int| #[trigger]
            bit(targets, j) ==> bit(spec_moves(fi, player, t, occ), j) && !board.holds(player, j),
    ensures
        targets_fit(board, player, t, fi, targets),
{
    assert(occ == board.spec_all_occupancy()) by {
        assert forall|j: int| 0 <= j < 64 implies #[trigger] bit(occ, j) == bit(
            board.spec_all_occupancy(),
            j,
        ) by {
            lemma_occupancy_bit(board, player, j);
        }
        lemma_bits_equal(occ, board.spec_all_occupancy());
    }
    assert forall|j: int| #[trigger] bit(targets, j) implies target_fits(board, player, t, fi, j) by {
        if t == PieceType::PAWN {
            lemma_bit_or(
                spec_pawn_moves(player, fi, occ),
                spec_pawn_captures(player, fi, occ),
                j,
            );
            lemma_pawn_moves_bit(player, fi, occ, j);
            lemma_pawn_captures_bit(player, fi, occ, j);
            let d = forward(player);
            lemma_vertical_steps(fi, d, j);
            if bit(spec_pawn_moves(player, fi, occ), j) {
                if is_step(fi, d, 1, j) {
                } else {
                    assert(!bit(occ, fi + d.delta()));
                    assert(0 <= fi + d.delta() < 64);
                    assert(board.free(fi + d.delta()));
                }
            }
        }
    }
}

/// An en-passant capture by a pawn next to the target fits.
pub proof fn lemma_en_passant_fits(board: BoardState, player: Player, i: int)
    requires
        board.wf(player),
        board.en_passant_square != 0,
        bit(
            spec_pawn_captures(
                player.spec_other(),
                sq(board.en_passant_square),
                board.spec_get(player, PieceType::PAWN),
            ),
            i,
        ),
    ensures
        board.fits(
            player,
            en_passant_move(
                board,
                spec_pawn_moves(player.spec_other(), sq(board.en_passant_square), 0),
                i,
            ),
        ),
        spec_pawn_moves(player.spec_other(), sq(board.en_passant_square), 0) == single(
            sq(board.en_passant_square) + forward(player.spec_other()).delta(),
        ),
{
    let other = player.spec_other();
    let e = sq(board.en_passant_square);
    let d = forward(other);
    let eaten = spec_pawn_moves(other, e, 0);
    let target = e + d.delta();
    lemma_pawn_captures_bit(other, e, board.spec_get(player, PieceType::PAWN), i);
    assert(0 <= target < 64);
    assert forall|j: int| 0 <= j < 64 implies #[trigger] bit(eaten, j) == bit(single(target), j) by {
        lemma_pawn_moves_bit(other, e, 0, j);
        lemma_bit_zero(j);
        lemma_bit_single(target, j);
        lemma_vertical_steps(e, d, j);
    }
    lemma_bits_equal(eaten, single(target));
    lemma_single_index(target);
    lemma_single_index(i);
    lemma_single_nonzero(target);
    lemma_holds(board, player, e);
    lemma_holds(board, other, e);
    let m = en_passant_move(board, eaten, i);
    assert(pawn_attack(player, i, e));
    assert(board.capture_fits(player, m));
    assert(board.pawn_fits(player, m));
}

/// What stands on the board besides the player's own pieces is the
/// opponent's.
proof fn lemma_enemy_occupancy(board: BoardState, player: Player)
    requires
        board.disjoint(),
    ensures
        board.spec_all_occupancy() & !board.spec_occupancy(player) == board.spec_occupancy(
            player.spec_other(),
        ),
        forall|j: int|
            0 <= j < 64 ==> #[trigger] bit(
                board.spec_occupancy(player) | board.spec_occupancy(player.spec_other()),
                j,
            ) == !board.free(j),
        forall|j: int| 0 <= j < 64 ==> #[trigger] bit(board.spec_all_occupancy(), j) == !board.free(j),
{
    let other = player.spec_other();
    let a = board.spec_all_occupancy() & !board.spec_occupancy(player);
    assert forall|j: int| 0 <= j < 64 implies #[trigger] bit(a, j) == bit(
        board.spec_occupancy(other),
        j,
    ) by {
        lemma_bit_and(board.spec_all_occupancy(), !board.spec_occupancy(player), j);
        lemma_bit_not(board.spec_occupancy(player), j);
        lemma_occupancy_bit(board, player, j);
        lemma_occupancy_bit(board, other, j);
        lemma_holds(board, player, j);
        lemma_holds(board, other, j);
    }
    lemma_bits_equal(a, board.spec_occupancy(other));
    assert forall|j: int| 0 <= j < 64 implies #[trigger] bit(
        board.spec_occupancy(player) | board.spec_occupancy(other),
        j,
    ) == !board.free(j) by {
        lemma_bit_or(board.spec_occupancy(player), board.spec_occupancy(other), j);
        lemma_occupancy_bit(board, player, j);
        lemma_occupancy_bit(board, other, j);
    }
    assert forall|j: int| 0 <= j < 64 implies #[trigger] bit(board.spec_all_occupancy(), j)
        == !board.free(j) by {
        lemma_occupancy_bit(board, player, j);
    }
}

/// The moves of a piece that is pinned, or swept up with the rest, fit.
proof fn lemma_piece_moves_fit(
    board: BoardState,
    player: Player,
    pi: int,
    occ: u64,
    moves: u64,
)
    requires
        board.wf(player),
        0 <= pi < 64,
        board.holds(player, pi),
        !bit(board.spec_get(player, PieceType::KING), pi),
        forall|j: int| 0 <= j < 64 ==> #[trigger] bit(occ, j) == !board.free(j),
        forall|j: int| #[trigger]
            bit(moves, j) ==> bit(
                spec_moves(pi, player, spec_kind_on(board, single(pi)), occ),
                j,
            ) && !bit(board.spec_occupancy(player), j),
    ensures
        source_fits(board, player, single(pi), spec_kind_on(board, single(pi))),
        targets_fit(board, player, spec_kind_on(board, single(pi)), pi, moves),
{
    lemma_type_at_own(board, player, pi);
    lemma_single_index(pi);
    let t = spec_kind_on(board, single(pi));
    assert forall|j: int| #[trigger] bit(moves, j) implies bit(spec_moves(pi, player, t, occ), j)
        && !board.holds(player, j) by {
        lemma_occupancy_bit(board, player, j);
    }
    lemma_moves_targets_fit(board, player, t, pi, occ, moves);
}

/// The king's targets are safe: none is a danger square.
proof fn lemma_king_targets_safe(board: BoardState, player: Player)
    ensures
        targets_safe(
            board,
            player,
            PieceType::KING,
            sq(board.spec_get(player, PieceType::KING)),
            spec_king_attacks(sq(board.spec_get(player, PieceType::KING))) & !board.spec_occupancy(
                player,
            ) & !spec_king_danger_squares(board, player),
        ),
{
    let ki = sq(board.spec_get(player, PieceType::KING));
    let danger = spec_king_danger_squares(board, player);
    let t = spec_king_attacks(ki) & !board.spec_occupancy(player) & !danger;
    assert forall|j: int| #[trigger] bit(t, j) implies target_safe(
        board,
        player,
        PieceType::KING,
        ki,
        j,
    ) by {
        lemma_bit_and(spec_king_attacks(ki) & !board.spec_occupancy(player), !danger, j);
        lemma_bit_not(danger, j);
    }
}

/// Castling moves leave the king unattacked.
proof fn lemma_castle_moves_safe(board: BoardState, player: Player)
    requires
        board.wf(player),
    ensures
        can_castle_kingside(board, player, spec_king_danger_squares(board, player))
            ==> crate::king_safety::safe_after(
            board,
            player,
            quiet_king_move(
                board.spec_get(player, PieceType::KING),
                board.spec_get(player, PieceType::KING) >> 2,
            ),
        ),
        can_castle_queenside(board, player, spec_king_danger_squares(board, player))
            ==> crate::king_safety::safe_after(
            board,
            player,
            quiet_king_move(
                board.spec_get(player, PieceType::KING),
                board.spec_get(player, PieceType::KING) << 2,
            ),
        ),
        can_castle_kingside(board, player, spec_king_danger_squares(board, player)) && spec_checkers(
            board,
            player,
        ) == 0 ==> castles_unchecked(
            board,
            player,
            quiet_king_move(
                board.spec_get(player, PieceType::KING),
                board.spec_get(player, PieceType::KING) >> 2,
            ),
        ),
        can_castle_queenside(board, player, spec_king_danger_squares(board, player))
            && spec_checkers(board, player) == 0 ==> castles_unchecked(
            board,
            player,
            quiet_king_move(
                board.spec_get(player, PieceType::KING),
                board.spec_get(player, PieceType::KING) << 2,
            ),
        ),
{
    let danger = spec_king_danger_squares(board, player);
    let king = board.spec_get(player, PieceType::KING);
    let occ = board.spec_all_occupancy();
    let fi = sq(king);
    lemma_castle_squares();
    lemma_castle_fits(board, player, danger);
    if board.castle_memory & king_place(player) != 0 {
        lemma_shift_single(fi, 2);
        lemma_single_index(fi - 2);
        lemma_single_index(fi + 2);
        if can_castle_kingside(board, player, danger) {
            let m = quiet_king_move(king, king >> 2);
            lemma_no_common(spec_between(fi, fi - 3), danger | occ);
            lemma_castle_between(fi, fi - 2);
            lemma_between_bit(fi, fi - 3, fi - 2);
            lemma_bit_or(danger, occ, fi - 2);
            crate::chess_impl::lemma_fits_shape(board, player, m);
            lemma_castle_safe(board, player, m);
            lemma_castle_between(fi, fi - 1);
            lemma_between_bit(fi, fi - 3, fi - 1);
            lemma_bit_or(danger, occ, fi - 1);
            bv_and_nonzero(board.castle_memory, kingside_rook(player), board.spec_get(player, PieceType::ROOK));
        }
        if can_castle_queenside(board, player, danger) {
            let m = quiet_king_move(king, king << 2);
            let b1 = spec_between(fi, fi + 3) & (danger | occ);
            let b2 = spec_between(fi + 4, fi) & occ;
            bv_or_zero(b1, b2);
            lemma_no_common(spec_between(fi, fi + 3), danger | occ);
            lemma_castle_between(fi, fi + 2);
            lemma_between_bit(fi, fi + 3, fi + 2);
            lemma_bit_or(danger, occ, fi + 2);
            crate::chess_impl::lemma_fits_shape(board, player, m);
            lemma_castle_safe(board, player, m);
            lemma_castle_between(fi, fi + 1);
            lemma_between_bit(fi, fi + 3, fi + 1);
            lemma_bit_or(danger, occ, fi + 1);
            bv_and_nonzero(board.castle_memory, queenside_rook(player), board.spec_get(player, PieceType::ROOK));
        }
    }
}

/// The pieces of `player` that each alone stand between the king and a
/// slider of the opponent.
pub open spec fn spec_pinned(board: BoardState, player: Player) -> u64 {
    spec_pinned_part(board, player, 0, 0, Seq::empty()).pinned
}

/// Which pieces are pinned does not depend on the masks, nor on the moves
/// gathered before.
pub proof fn lemma_pinned_loop_same(
    board: BoardState,
    player: Player,
    capture_mask: u64,
    push_mask: u64,
    remaining: u64,
    acc: PinnedPart,
    other: PinnedPart,
)
    requires
        acc.pinned == other.pinned,
    ensures
        spec_pinned_loop(board, player, capture_mask, push_mask, remaining, acc).pinned
            == spec_pinned_loop(board, player, 0, 0, remaining, other).pinned,
    decreases remaining,
{
    if remaining != 0 {
        lemma_rest(remaining);
        lemma_pinned_loop_same(
            board,
            player,
            capture_mask,
            push_mask,
            rest(remaining),
            spec_pinned_step(board, player, capture_mask, push_mask, lowest(remaining), acc),
            spec_pinned_step(board, player, 0, 0, lowest(remaining), other),
        );
    }
}

/// The push mask that goes with the checkers.
pub open spec fn spec_push_mask(board: BoardState, player: Player) -> u64 {
    let c = spec_checkers(board, player);
    if c != 0 {
        spec_between(sq(board.spec_get(player, PieceType::KING)), sq(c))
    } else {
        !0u64
    }
}

/// Whether the masks are those of a position with one check at most, and
/// the kings stand apart: what the safety of the moves of pieces other than
/// the king rests on.
pub open spec fn masks_fit(board: BoardState, player: Player, capture_mask: u64, push_mask: u64) -> bool {
    &&& kings_apart(board)
    &&& !has_several(spec_checkers(board, player))
    &&& capture_mask == spec_checkers(board, player)
    &&& push_mask == spec_push_mask(board, player)
}

/// The targets of a piece other than the king inside the masks are safe,
/// where none of them opens a line.
proof fn lemma_masked_targets_safe(
    board: BoardState,
    player: Player,
    piece_type: PieceType,
    fi: int,
    capture_mask: u64,
    push_mask: u64,
    targets: u64,
)
    requires
        board.wf(player),
        piece_type != PieceType::KING,
        masks_fit(board, player, capture_mask, push_mask),
        forall|j: int| #[trigger] bit(targets, j) ==> bit(capture_mask | push_mask, j)
            && crate::king_safety::target_keeps(board, player, fi, j),
    ensures
        targets_safe(board, player, piece_type, fi, targets),
{
    assert forall|j: int| #[trigger] bit(targets, j) implies target_safe(
        board,
        player,
        piece_type,
        fi,
        j,
    ) by {
        assert(capture_mask | push_mask == check_mask(board, player, spec_checkers(board, player)));
        lemma_mask_answers(board, player, j);
    }
}

impl<'a> Chess<'a> {
    /// The tables are built, and the position is one that a game can come
    /// to.
    pub open spec fn wf(&self) -> bool {
        self.tables.wf() && self.board.legal(self.current_player)
    }

    /// Appends the moves of the piece on `from` to the members of
    /// `to_options`.
    pub fn add_moves(
        &self,
        possible_moves: &mut Vec<Move>,
        from: u64,
        to_options: u64,
        piece_type: PieceType,
        enemy_occ: u64,
    )
        ensures
            final(possible_moves)@ == spec_add_moves(
                self.board,
                self.current_player,
                from,
                to_options,
                piece_type,
                enemy_occ,
                old(possible_moves)@,
            ),
            self.board.wf(self.current_player) && source_fits(
                self.board,
                self.current_player,
                from,
                piece_type,
            ) && targets_fit(self.board, self.current_player, piece_type, sq(from), to_options)
                && enemy_occ == self.board.spec_occupancy(self.current_player.spec_other())
                && all_fit(self.board, self.current_player, old(possible_moves)@) ==> all_fit(
                self.board,
                self.current_player,
                final(possible_moves)@,
            ),
            self.board.wf(self.current_player) && source_fits(
                self.board,
                self.current_player,
                from,
                piece_type,
            ) && targets_fit(self.board, self.current_player, piece_type, sq(from), to_options)
                && enemy_occ == self.board.spec_occupancy(self.current_player.spec_other())
                && all_fit(self.board, self.current_player, old(possible_moves)@) && targets_safe(
                self.board,
                self.current_player,
                piece_type,
                sq(from),
                to_options,
            ) && all_safe(self.board, self.current_player, old(possible_moves)@) ==> all_safe(
                self.board,
                self.current_player,
                final(possible_moves)@,
            ),
    {
        let ghost board = self.board;
        let ghost player = self.current_player;
        let ghost start = old(possible_moves)@;
        let ghost premise = board.wf(player) && source_fits(board, player, from, piece_type)
            && targets_fit(board, player, piece_type, sq(from), to_options) && enemy_occ
            == board.spec_occupancy(player.spec_other()) && all_fit(board, player, start);
        let ghost careful = premise && targets_safe(board, player, piece_type, sq(from), to_options)
            && all_safe(board, player, start);
        let enemy_king = self.board.get(self.current_player.other(), PieceType::KING);
        let targets = to_options & !enemy_king;
        let mut it = iter_place(targets);
        proof {
            assert forall|j: int| #[trigger] bit(targets, j) implies bit(to_options, j) && !bit(
                enemy_king,
                j,
            ) by {
                lemma_bit_and(to_options, !enemy_king, j);
                lemma_bit_not(enemy_king, j);
            }
        }
        loop
            invariant
                board == self.board,
                player == self.current_player,
                enemy_king == board.spec_get(player.spec_other(), PieceType::KING),
                forall|j: int| #[trigger] bit(it.remaining(), j) ==> bit(to_options, j) && !bit(enemy_king, j),
                spec_add_loop(board, from, targets, piece_type, enemy_occ, start) == spec_add_loop(
                    board,
                    from,
                    it.remaining(),
                    piece_type,
                    enemy_occ,
                    possible_moves@,
                ),
                premise ==> all_fit(board, player, possible_moves@),
                premise == (board.wf(player) && source_fits(board, player, from, piece_type)
                    && targets_fit(board, player, piece_type, sq(from), to_options) && enemy_occ
                    == board.spec_occupancy(player.spec_other()) && all_fit(board, player, start)),
                careful ==> all_safe(board, player, possible_moves@),
                careful == (premise && targets_safe(board, player, piece_type, sq(from), to_options)
                    && all_safe(board, player, start)),
            ensures
                it.remaining() == 0,
            decreases it.remaining(),
        {
            let ghost rem = it.remaining();
            let ghost before = possible_moves@;
            match it.next() {
                None => {
                    break ;
                },
                Some(to) => {
                    proof {
                        lemma_rest(rem);
                        lemma_single_index(lowest(rem));
                    }
                    let (eaten_loc, eaten_type) = if enemy_occ & to != 0 {
                        match self.board.type_at(to) {
                            Some(x) => (to, x.1),
                            None => (0, PieceType::PAWN),
                        }
                    } else {
                        (0, PieceType::PAWN)
                    };
                    if piece_type == PieceType::PAWN && (index(to) / 8) % 7 == 0 {
                        possible_moves.push(
                            Move { from, to, start_type: piece_type, end_type: PieceType::QUEEN, eaten_type, eaten_loc },
                        );
                        possible_moves.push(
                            Move { from, to, start_type: piece_type, end_type: PieceType::ROOK, eaten_type, eaten_loc },
                        );
                        possible_moves.push(
                            Move { from, to, start_type: piece_type, end_type: PieceType::BISHOP, eaten_type, eaten_loc },
                        );
                        possible_moves.push(
                            Move { from, to, start_type: piece_type, end_type: PieceType::KNIGHT, eaten_type, eaten_loc },
                        );
                    } else {
                        let m = Move {
                            from,
                            to,
                            start_type: piece_type,
                            end_type: piece_type,
                            eaten_type,
                            eaten_loc,
                        };
                        possible_moves.push(m);
                    }
                    proof {
                        let added = spec_moves_for_target(board, from, to, piece_type, enemy_occ);
                        assert(possible_moves@ =~= before + added);
                        lemma_bit_and(to_options, !enemy_king, lowest(rem));
                        if premise {
                            lemma_bit_not(enemy_king, lowest(rem));
                            lemma_target_moves_fit(
                                board,
                                player,
                                from,
                                lowest(rem),
                                piece_type,
                                enemy_occ,
                            );
                        }
                        if careful {
                            lemma_target_moves_safe(
                                board,
                                player,
                                from,
                                lowest(rem),
                                piece_type,
                                enemy_occ,
                            );
                        }
                    }
                },
            }
        }
    }

    /// The opponent's pieces that give check.
    pub fn get_checkers(&self) -> (r: u64)
        requires
            self.tables.wf(),
            self.board.wf(self.current_player),
        ensures
            r == spec_checkers(self.board, self.current_player),
    {
        let king_index = index(self.board.get(self.current_player, PieceType::KING));
        let enemy = self.current_player.other();
        let occ = self.board.all_occupancy();

        let straight = self.tables.get_rook_moves(king_index, occ) & (self.board.get(
            enemy,
            PieceType::QUEEN,
        ) | self.board.get(enemy, PieceType::ROOK));
        let diagonal = self.tables.get_bishop_moves(king_index, occ) & (self.board.get(
            enemy,
            PieceType::QUEEN,
        ) | self.board.get(enemy, PieceType::BISHOP));
        let jumps = self.tables.get_knight_moves(king_index) & self.board.get(
            enemy,
            PieceType::KNIGHT,
        );
        let pawns = self.tables.get_pawn_captures(
            self.current_player,
            king_index,
            self.board.get(enemy, PieceType::PAWN),
        );
        straight | diagonal | jumps | pawns
    }

    /// Appends the castling moves.
    pub fn add_castle_moves(&self, possible_moves: &mut Vec<Move>, checkers: u64, king_danger: u64)
        requires
            self.wf(),
        ensures
            final(possible_moves)@ == spec_castle_moves(
                self.board,
                self.current_player,
                checkers,
                king_danger,
                old(possible_moves)@,
            ),
            all_fit(self.board, self.current_player, old(possible_moves)@) ==> all_fit(
                self.board,
                self.current_player,
                final(possible_moves)@,
            ),
            king_danger == spec_king_danger_squares(self.board, self.current_player) && checkers
                == spec_checkers(self.board, self.current_player) && all_safe(
                self.board,
                self.current_player,
                old(possible_moves)@,
            ) ==> all_safe(self.board, self.current_player, final(possible_moves)@),
    {
        let king_place = self.board.get(self.current_player, PieceType::KING);
        let rook_board = self.board.get(self.current_player, PieceType::ROOK);

        let occ = self.board.all_occupancy();
        let player = self.current_player;
        proof {
            lemma_castle_squares();
            lemma_castle_fits(self.board, player, king_danger);
            lemma_castle_moves_safe(self.board, player);
        }

        if checkers == 0 && self.board.castle_memory & king_start(player) != 0 {
            let clear = self.tables.get_ray(index(king_place), index(kingside_rook_start(player))) & (
            king_danger | occ);
            if clear == 0 && self.board.castle_memory & kingside_rook_start(player) & rook_board != 0 {
                possible_moves.push(
                    Move {
                        from: king_place,
                        to: king_place >> 2,
                        start_type: PieceType::KING,
                        end_type: PieceType::KING,
                        eaten_type: PieceType::PAWN,
                        eaten_loc: 0,
                    },
                )
            }
            let clear = (self.tables.get_ray(
                index(king_place),
                index(queenside_rook_start(player)) - 1,
            ) & (king_danger | occ)) | (self.tables.get_ray(
                index(queenside_rook_start(player)),
                index(king_place),
            ) & occ);
            if clear == 0 && self.board.castle_memory & queenside_rook_start(player) & rook_board != 0 {
                possible_moves.push(
                    Move {
                        from: king_place,
                        to: king_place << 2,
                        start_type: PieceType::KING,
                        end_type: PieceType::KING,
                        eaten_type: PieceType::PAWN,
                        eaten_loc: 0,
                    },
                )
            }
        }
    }

    /// Appends the king's moves and castling, and returns the squares on
    /// which the king would stand attacked, the pieces that give check, and
    /// the squares on which a check can be blocked.
    pub fn add_king_moves(&self, possible_moves: &mut Vec<Move>) -> (r: (u64, u64, u64))
        requires
            self.wf(),
        ensures
            final(possible_moves)@ == spec_king_part(
                self.board,
                self.current_player,
                old(possible_moves)@,
            ).moves,
            r.0 == spec_king_part(self.board, self.current_player, old(possible_moves)@).king_danger,
            r.1 == spec_king_part(self.board, self.current_player, old(possible_moves)@).checkers,
            r.2 == spec_king_part(self.board, self.current_player, old(possible_moves)@).push_mask,
            all_fit(self.board, self.current_player, old(possible_moves)@) ==> all_fit(
                self.board,
                self.current_player,
                final(possible_moves)@,
            ),
            all_fit(self.board, self.current_player, old(possible_moves)@) && all_safe(
                self.board,
                self.current_player,
                old(possible_moves)@,
            ) ==> all_safe(self.board, self.current_player, final(possible_moves)@),
    {
        // Return (king_danger_squares, checkers, push_mask)
        let king_place = self.board.get(self.current_player, PieceType::KING);
        let king_danger_squares = self.tables.get_king_danger_squares(
            &self.board,
            self.current_player,
        );
        let king_moves = self.tables.get_king_moves(index(king_place)) & !self.board.occupancy(
            self.current_player,
        ) & !king_danger_squares;
        let mut push_mask: u64 = !0;
        proof {
            lemma_king_targets_fit(self.board, self.current_player, king_danger_squares);
            lemma_king_targets_safe(self.board, self.current_player);
            let king = self.board.spec_get(self.current_player, PieceType::KING);
            lemma_single_index(sq(king));
            lemma_bit_single(sq(king), sq(king));
        }

        self.add_moves(
            possible_moves,
            king_place,
            king_moves,
            PieceType::KING,
            self.board.occupancy(self.current_player.other()),
        );

        let checkers = self.get_checkers();
        if checkers != 0 {
            proof {
                lemma_lowest(checkers);
            }
            if checkers & (checkers - 1) != 0 {
                return (king_danger_squares, checkers, 0);
            }
            push_mask = self.tables.get_ray(index(king_place), index(checkers))
        } else {
            self.add_castle_moves(possible_moves, checkers, king_danger_squares);
        }

        (king_danger_squares, checkers, push_mask)
    }

    /// The kind of the piece found on `place`.
    fn kind_on(&self, place: u64) -> (r: PieceType)
        ensures
            r == spec_kind_on(self.board, place),
    {
        match self.board.type_at(place) {
            Some(x) => x.1,
            None => PieceType::PAWN,
        }
    }

    /// Appends the moves of the pinned pieces and returns the pinned
    /// pieces.
    pub fn add_pinned_moves(&self, possible_moves: &mut Vec<Move>, capture_mask: u64, push_mask: u64) -> (r:
        u64)
        requires
            self.wf(),
        ensures
            final(possible_moves)@ == spec_pinned_part(
                self.board,
                self.current_player,
                capture_mask,
                push_mask,
                old(possible_moves)@,
            ).moves,
            r == spec_pinned_part(
                self.board,
                self.current_player,
                capture_mask,
                push_mask,
                old(possible_moves)@,
            ).pinned,
            all_fit(self.board, self.current_player, old(possible_moves)@) ==> all_fit(
                self.board,
                self.current_player,
                final(possible_moves)@,
            ),
            masks_fit(self.board, self.current_player, capture_mask, push_mask) && all_fit(
                self.board,
                self.current_player,
                old(possible_moves)@,
            ) && all_safe(self.board, self.current_player, old(possible_moves)@) ==> all_safe(
                self.board,
                self.current_player,
                final(possible_moves)@,
            ),
    {
        // Returns a board of pinned pieces.
        let enemy = self.current_player.other();
        let my_occ = self.board.occupancy(self.current_player);
        let enemy_occ = self.board.occupancy(enemy);
        let occ = my_occ | enemy_occ;
        let king_index = index(self.board.get(self.current_player, PieceType::KING));

        let enemy_rooks = self.board.get(enemy, PieceType::ROOK) | self.board.get(
            enemy,
            PieceType::QUEEN,
        );
        let enemy_bishops = self.board.get(enemy, PieceType::BISHOP) | self.board.get(
            enemy,
            PieceType::QUEEN,
        );

        let mut pinned = 0_u64;
        let pinners = (self.tables.get_rook_moves(king_index, enemy_occ) & enemy_rooks) | (
        self.tables.get_bishop_moves(king_index, enemy_occ) & enemy_bishops);
        let ghost board = self.board;
        let ghost player = self.current_player;
        let ghost start = old(possible_moves)@;
        let mut it = iter_index(pinners);
        proof {
            lemma_enemy_occupancy(board, player);
        }
        loop
            invariant
                self.wf(),
                board == self.board,
                player == self.current_player,
                enemy == player.spec_other(),
                my_occ == board.spec_occupancy(player),
                enemy_occ == board.spec_occupancy(enemy),
                occ == my_occ | enemy_occ,
                king_index == sq(board.spec_get(player, PieceType::KING)),
                forall|j: int| 0 <= j < 64 ==> #[trigger] bit(occ, j) == !board.free(j),
                pinners == spec_pinners(board, player),
                forall|j: int| #[trigger] bit(it.remaining(), j) ==> bit(pinners, j),
                masks_fit(board, player, capture_mask, push_mask) && all_fit(board, player, start)
                    && all_safe(board, player, start) ==> all_safe(board, player, possible_moves@),
                spec_pinned_loop(
                    board,
                    player,
                    capture_mask,
                    push_mask,
                    pinners,
                    PinnedPart { moves: start, pinned: 0 },
                ) == spec_pinned_loop(
                    board,
                    player,
                    capture_mask,
                    push_mask,
                    it.remaining(),
                    PinnedPart { moves: possible_moves@, pinned },
                ),
                all_fit(board, player, start) ==> all_fit(board, player, possible_moves@),
            ensures
                it.remaining() == 0,
            decreases it.remaining(),
        {
            let ghost rem = it.remaining();
            match it.next() {
                None => {
                    break ;
                },
                Some(i) => {
                    proof {
                        lemma_rest(rem);
                    }
                    let pin = self.tables.get_ray(king_index, i) & my_occ;
                    if pin != 0 {
                        proof {
                            lemma_lowest(pin);
                        }
                        if pin & (pin - 1) == 0 {
                            let pin_space = index_to_place(i) | self.tables.get_ray(king_index, i);
                            let piece_type = self.kind_on(pin);
                            let moves = self.tables.get_moves(
                                index(pin),
                                self.current_player,
                                piece_type,
                                occ,
                            ) & pin_space & (capture_mask | push_mask) & !my_occ;
                            proof {
                                lemma_single_from_rest(pin);
                                let pi = lowest(pin);
                                let full = spec_moves(pi, player, piece_type, occ);
                                lemma_bit_and(spec_between(king_index as int, i as int), my_occ, pi);
                                lemma_between_bit(king_index as int, i as int, pi);
                                lemma_occupancy_bit(board, player, pi);
                                let king = board.spec_get(player, PieceType::KING);
                                lemma_bit_single(king_index as int, pi);
                                assert(!bit(king, pi));
                                assert forall|j: int| #[trigger] bit(moves, j) implies bit(full, j)
                                    && !bit(my_occ, j) by {
                                    lemma_bit_and(
                                        full & pin_space & (capture_mask | push_mask),
                                        !my_occ,
                                        j,
                                    );
                                    lemma_bit_and(full & pin_space, capture_mask | push_mask, j);
                                    lemma_bit_and(full, pin_space, j);
                                    lemma_bit_not(my_occ, j);
                                }
                                lemma_piece_moves_fit(board, player, pi, occ, moves);
                                if masks_fit(board, player, capture_mask, push_mask) {
                                    lemma_type_at_own(board, player, pi);
                                    assert(piece_type != PieceType::KING);
                                    assert(pin == pin_of(board, player, i as int));
                                    assert forall|j: int| #[trigger] bit(moves, j) implies bit(
                                        capture_mask | push_mask,
                                        j,
                                    ) && crate::king_safety::target_keeps(board, player, pi, j) by {
                                        lemma_bit_and(
                                            full & pin_space & (capture_mask | push_mask),
                                            !my_occ,
                                            j,
                                        );
                                        lemma_bit_and(full & pin_space, capture_mask | push_mask, j);
                                        lemma_bit_and(full, pin_space, j);
                                        lemma_pinned_keeps(board, player, pi, i as int, j);
                                    }
                                    lemma_masked_targets_safe(
                                        board,
                                        player,
                                        piece_type,
                                        pi,
                                        capture_mask,
                                        push_mask,
                                        moves,
                                    );
                                }
                            }
                            self.add_moves(possible_moves, pin, moves, piece_type, enemy_occ);
                            pinned |= pin;
                        }
                    }
                },
            }
        }
        pinned
    }

    /// Appends the en-passant captures.
    pub fn add_en_passant_captures(
        &self,
        possible_moves: &mut Vec<Move>,
        capture_mask: u64,
        push_mask: u64,
        pinned: u64,
    )
        requires
            self.wf(),
        ensures
            final(possible_moves)@ == spec_en_passant_part(
                self.board,
                self.current_player,
                capture_mask,
                push_mask,
                pinned,
                old(possible_moves)@,
            ),
            all_fit(self.board, self.current_player, old(possible_moves)@) ==> all_fit(
                self.board,
                self.current_player,
                final(possible_moves)@,
            ),
            masks_fit(self.board, self.current_player, capture_mask, push_mask) && pinned
                == spec_pinned(self.board, self.current_player) && all_safe(
                self.board,
                self.current_player,
                old(possible_moves)@,
            ) ==> all_safe(self.board, self.current_player, final(possible_moves)@),
    {
        if self.board.en_passant_square != 0 {
            let king_index = index(self.board.get(self.current_player, PieceType::KING));
            let enemy = self.current_player.other();
            let target_index = index(self.board.en_passant_square);

            let eaten = self.tables.get_pawn_moves(enemy, target_index, 0);

            if (eaten & capture_mask) | (self.board.en_passant_square & push_mask) != 0 {
                let pawns = self.tables.get_pawn_captures(
                    enemy,
                    target_index,
                    self.board.get(self.current_player, PieceType::PAWN),
                );
                let ghost board = self.board;
                let ghost player = self.current_player;
                let ghost start = old(possible_moves)@;
                let mut it = iter_index(pawns);
                loop
                    invariant
                        self.wf(),
                        board == self.board,
                        player == self.current_player,
                        enemy == player.spec_other(),
                        board.en_passant_square != 0,
                        target_index == sq(board.en_passant_square),
                        king_index == sq(board.spec_get(player, PieceType::KING)),
                        eaten == spec_pawn_moves(enemy, target_index as int, 0),
                        pawns == spec_pawn_captures(
                            enemy,
                            target_index as int,
                            board.spec_get(player, PieceType::PAWN),
                        ),
                        forall|j: int| #[trigger] bit(it.remaining(), j) ==> bit(pawns, j),
                        spec_en_passant_loop(board, player, pinned, eaten, pawns, start)
                            == spec_en_passant_loop(
                            board,
                            player,
                            pinned,
                            eaten,
                            it.remaining(),
                            possible_moves@,
                        ),
                        all_fit(board, player, start) ==> all_fit(board, player, possible_moves@),
                        (eaten & capture_mask) | (board.en_passant_square & push_mask) != 0,
                        masks_fit(board, player, capture_mask, push_mask) && pinned == spec_pinned(
                            board,
                            player,
                        ) && all_safe(board, player, start) ==> all_safe(
                            board,
                            player,
                            possible_moves@,
                        ),
                    ensures
                        it.remaining() == 0,
                    decreases it.remaining(),
                {
                    let ghost rem = it.remaining();
                    let ghost before = possible_moves@;
                    match it.next() {
                        None => {
                            break ;
                        },
                        Some(i) => {
                            proof {
                                lemma_rest(rem);
                            }
                            // A pinned pawn may take only along the line from the king,
                            // away from it or towards it.
                            let mut barred = (index_to_place(i) & pinned != 0) && self.tables.get_ray(
                                king_index,
                                target_index,
                            ) & index_to_place(i) == 0 && self.tables.get_ray(king_index, i)
                                & self.board.en_passant_square == 0;
                            // Both pawns leave the rank: a rook or queen may then see the king.
                            if !barred && king_index / 8 == i / 8 {
                                let no_pawn_occ = self.board.all_occupancy() & !eaten
                                    & !index_to_place(i);
                                if self.tables.get_rook_moves(king_index, no_pawn_occ) & (
                                self.board.get(enemy, PieceType::ROOK) | self.board.get(
                                    enemy,
                                    PieceType::QUEEN,
                                )) != 0 {
                                    barred = true;
                                }
                            }
                            if !barred {
                                possible_moves.push(
                                    Move {
                                        from: index_to_place(i),
                                        to: self.board.en_passant_square,
                                        start_type: PieceType::PAWN,
                                        end_type: PieceType::PAWN,
                                        eaten_type: PieceType::PAWN,
                                        eaten_loc: eaten,
                                    },
                                );
                                proof {
                                    lemma_en_passant_fits(board, player, i as int);
                                    assert(possible_moves@ =~= before.push(
                                        en_passant_move(board, eaten, i as int),
                                    ));
                                    // The pawn taken stands beside the target, not on it.
                                    let e = sq(board.en_passant_square);
                                    let beside = e + forward(player.spec_other()).delta();
                                    lemma_single_nonzero(beside);
                                    lemma_bit_single(beside, e);
                                    lemma_bit_single(e, e);
                                    assert(eaten != board.en_passant_square);
                                    if masks_fit(board, player, capture_mask, push_mask) && pinned
                                        == spec_pinned(board, player) && !uncovered_by_en_passant(
                                        board,
                                        player,
                                    ) {
                                        lemma_pinned_loop_same(
                                            board,
                                            player,
                                            capture_mask,
                                            push_mask,
                                            spec_pinners(board, player),
                                            PinnedPart { moves: Seq::empty(), pinned: 0 },
                                            PinnedPart { moves: Seq::empty(), pinned: 0 },
                                        );
                                        lemma_en_passant_safe(
                                            board,
                                            player,
                                            i as int,
                                            pinned,
                                            capture_mask,
                                            push_mask,
                                            Seq::empty(),
                                        );
                                    }
                                }
                            }
                        },
                    }
                }
            }
        }
    }

    /// The legal moves of the player to move, each once: every move given
    /// is legal, no legal move is left out, and none is given twice.
    pub fn possible_moves(&self) -> (r: Vec<Move>)
        requires
            self.wf(),
        ensures
            r@ == spec_possible_moves(self.board, self.current_player),
            all_fit(self.board, self.current_player, r@),
            every_safe(self.board, self.current_player, r@),
            forall|m: Move| #[trigger]
                is_legal_move(self.board, self.current_player, m) ==> r@.contains(m),
            forall|k: int|
                0 <= k < r@.len() ==> is_legal_move(self.board, self.current_player, #[trigger] r@[k]),
            no_twice(r@),
    {
        let mut possible_moves: Vec<Move> = Vec::with_capacity(50);
        proof {
            reveal(spec_possible_moves);
        }

        let (king_danger, checkers, push_mask) = self.add_king_moves(&mut possible_moves);

        if checkers != 0 {
            proof {
                lemma_lowest(checkers);
            }
            if checkers & (checkers - 1) != 0 {
                proof {
                    lemma_all_safe_on_legal(self.board, self.current_player, possible_moves@);
                    lemma_all_legal_given(self.board, self.current_player);
                    lemma_generator_once(self.board, self.current_player);
                }
                return possible_moves;
            }
        }
        let pinned = self.add_pinned_moves(&mut possible_moves, checkers, push_mask);
        proof {
            lemma_pinned_loop_same(
                self.board,
                self.current_player,
                checkers,
                push_mask,
                spec_pinners(self.board, self.current_player),
                PinnedPart {
                    moves: spec_king_part(self.board, self.current_player, Seq::empty()).moves,
                    pinned: 0,
                },
                PinnedPart { moves: Seq::empty(), pinned: 0 },
            );
        }

        self.add_en_passant_captures(&mut possible_moves, checkers, push_mask, pinned);

        let my_occ = self.board.occupancy(self.current_player);
        let king = self.board.get(self.current_player, PieceType::KING);
        let can_move = my_occ & !pinned & !king;
        let blockers = self.board.all_occupancy();
        let enemy_occ = blockers & !my_occ;
        let ghost board = self.board;
        let ghost player = self.current_player;
        let ghost start = possible_moves@;
        let mut it = iter_place(can_move);
        proof {
            lemma_enemy_occupancy(board, player);
            assert forall|j: int| #[trigger] bit(can_move, j) implies bit(my_occ, j) && !bit(king, j)
                && !bit(pinned, j) by {
                lemma_bit_and(my_occ & !pinned, !king, j);
                lemma_bit_and(my_occ, !pinned, j);
                lemma_bit_not(king, j);
                lemma_bit_not(pinned, j);
            }
        }
        loop
            invariant
                self.wf(),
                board == self.board,
                player == self.current_player,
                my_occ == board.spec_occupancy(player),
                blockers == board.spec_all_occupancy(),
                enemy_occ == blockers & !my_occ,
                enemy_occ == board.spec_occupancy(player.spec_other()),
                king == board.spec_get(player, PieceType::KING),
                forall|j: int| 0 <= j < 64 ==> #[trigger] bit(blockers, j) == !board.free(j),
                forall|j: int| #[trigger] bit(it.remaining(), j) ==> bit(my_occ, j) && !bit(king, j)
                    && !bit(pinned, j),
                pinned == spec_pinned_part(
                    board,
                    player,
                    checkers,
                    push_mask,
                    spec_king_part(board, player, Seq::empty()).moves,
                ).pinned,
                kings_apart(board) ==> masks_fit(board, player, checkers, push_mask) && all_safe(
                    board,
                    player,
                    possible_moves@,
                ),
                spec_sweep_loop(board, player, checkers, push_mask, can_move, start)
                    == spec_sweep_loop(
                    board,
                    player,
                    checkers,
                    push_mask,
                    it.remaining(),
                    possible_moves@,
                ),
                all_fit(board, player, possible_moves@),
            ensures
                it.remaining() == 0,
            decreases it.remaining(),
        {
            let ghost rem = it.remaining();
            match it.next() {
                None => {
                    break ;
                },
                Some(p) => {
                    proof {
                        lemma_rest(rem);
                        lemma_single_index(lowest(rem));
                    }
                    let piece_type = self.kind_on(p);
                    let moves = self.tables.get_moves(
                        index(p),
                        self.current_player,
                        piece_type,
                        blockers,
                    ) & (checkers | push_mask) & !my_occ;
                    proof {
                        let pi = lowest(rem);
                        let full = spec_moves(pi, player, piece_type, blockers);
                        lemma_occupancy_bit(board, player, pi);
                        assert forall|j: int| #[trigger] bit(moves, j) implies bit(full, j) && !bit(
                            my_occ,
                            j,
                        ) by {
                            lemma_bit_and(full & (checkers | push_mask), !my_occ, j);
                            lemma_bit_and(full, checkers | push_mask, j);
                            lemma_bit_not(my_occ, j);
                        }
                        lemma_piece_moves_fit(board, player, pi, blockers, moves);
                        if kings_apart(board) {
                            lemma_type_at_own(board, player, pi);
                            assert(piece_type != PieceType::KING);
                            assert forall|j: int| #[trigger] bit(moves, j) implies bit(
                                checkers | push_mask,
                                j,
                            ) && crate::king_safety::target_keeps(board, player, pi, j) by {
                                lemma_bit_and(full & (checkers | push_mask), !my_occ, j);
                                lemma_bit_and(full, checkers | push_mask, j);
                                lemma_unpinned_keeps(
                                    board,
                                    player,
                                    pi,
                                    checkers,
                                    push_mask,
                                    spec_king_part(board, player, Seq::empty()).moves,
                                    j,
                                );
                            }
                            lemma_masked_targets_safe(
                                board,
                                player,
                                piece_type,
                                pi,
                                checkers,
                                push_mask,
                                moves,
                            );
                        }
                    }
                    self.add_moves(&mut possible_moves, p, moves, piece_type, enemy_occ);
                },
            }
        }
        proof {
            lemma_all_safe_on_legal(board, player, possible_moves@);
            lemma_all_legal_given(board, player);
            lemma_generator_once(board, player);
        }
        possible_moves
    }
}

/// The state of a game of chess in which `player` moves next on `board`:
/// it goes on while that player has a move; without one the opponent has
/// won where the player's king stands attacked, and else it is a tie.
pub open spec fn spec_game_state(board: BoardState, player: Player) -> GameState {
    if spec_possible_moves(board, player).len() > 0 {
        GameState::PLAYING
    } else if king_attacked(board, player) {
        match player {
            Player::PLAYER1 => GameState::PLAYER2WIN,
            Player::PLAYER2 => GameState::PLAYER1WIN,
        }
    } else {
        GameState::TIE
    }
}

impl<'a> Game for Chess<'a> {
    type T = Move;

    open spec fn playable(&self) -> bool {
        self.wf()
    }

    open spec fn accepts(&self, play: Move) -> bool {
        self.wf() && self.board.fits(self.current_player, play) && safe_after(
            self.board,
            self.current_player,
            play,
        )
    }

    open spec fn can_take_back(&self) -> bool {
        self@.can_undo()
    }

    fn current_player(&self) -> (r: Player)
        ensures
            r == self@.current_player,
    {
        self.current_player
    }

    fn possible_moves(&self) -> (r: Vec<Move>)
        ensures
            r@ == spec_possible_moves(self.board, self.current_player),
            all_fit(self.board, self.current_player, r@),
            every_safe(self.board, self.current_player, r@),
            forall|m: Move| #[trigger]
                is_legal_move(self.board, self.current_player, m) ==> r@.contains(m),
            forall|k: int|
                0 <= k < r@.len() ==> is_legal_move(self.board, self.current_player, #[trigger] r@[k]),
            no_twice(r@),
    {
        Chess::possible_moves(self)
    }

    fn do_move(&mut self, play: Move)
        ensures
            final(self)@ == old(self)@.spec_do_move(play),
            final(self).tables == old(self).tables,
            final(self).wf(),
            final(self)@.can_undo(),
            final(self)@.spec_undo_move() == old(self)@,
    {
        proof {
            crate::chess_impl::lemma_do_undo(self@, play);
            lemma_legal_stays(self.board, self.current_player, play);
        }
        Chess::do_move(self, play)
    }

    fn undo_move(&mut self) -> (play: Move)
        ensures
            final(self)@ == old(self)@.spec_undo_move(),
            play == old(self)@.history.last().0,
            final(self).tables == old(self).tables,
    {
        Chess::undo_move(self)
    }

    /// The game goes on while the player to move has a move. Without one,
    /// the opponent has won where that player's king stands attacked, and
    /// the game is tied where it does not. The game goes on exactly where
    /// a move is legal.
    fn game_state(&self) -> (r: GameState)
        ensures
            r == spec_game_state(self.board, self.current_player),
            (r == GameState::PLAYING) == (exists|m: Move| #[trigger]
                is_legal_move(self.board, self.current_player, m)),
    {
        let moves = Chess::possible_moves(self);
        proof {
            if moves@.len() > 0 {
                assert(is_legal_move(self.board, self.current_player, moves@[0]));
            }
            if moves@.len() == 0 {
                assert forall|m: Move| !#[trigger] is_legal_move(
                    self.board,
                    self.current_player,
                    m,
                ) by {
                    if is_legal_move(self.board, self.current_player, m) {
                        assert(moves@.contains(m));
                    }
                }
            }
        }
        if moves.len() > 0 {
            GameState::PLAYING
        } else if self.king_in_check(self.current_player) {
            match self.current_player {
                Player::PLAYER1 => GameState::PLAYER2WIN,
                Player::PLAYER2 => GameState::PLAYER1WIN,
            }
        } else {
            GameState::TIE
        }
    }
}

impl<'a> Scored for Chess<'a> {
    fn get_score(&self) -> (r: i32)
        ensures
            r == crate::evaluation::spec_score(self.board),
    {
        Chess::get_score(self)
    }
}

} // verus!
