//! The evaluator: piece values and piece-square bonuses for the middlegame
//! and for the endgame, blended by how much material is left.
use vstd::prelude::*;
use crate::bit_help::iter_index;
use crate::bits::{bit, single, lemma_bit_and, lemma_bit_not, lemma_bit_single};
use crate::chess_impl::{BoardState, Chess, PieceType};
use crate::two_player_game::Player;

verus! {

/// The best and the worst score a position can be given.
pub const MAX_SCORE: i32 = 1000;

pub const NEUTRAL_SCORE: i32 = 0;

pub const MIN_SCORE: i32 = -1000;

/// Bounds beyond every score, to start a search from.
pub const MAX_INFINITY: i32 = 0x7fff_ffff;

pub const MIN_INFINITY: i32 = -0x8000_0000;

/// Middlegame value of each piece kind.
pub const MG_VALUE: [i32; 6] = [82, 337, 365, 477, 1025, 0];

/// Endgame value of each piece kind.
pub const EG_VALUE: [i32; 6] = [94, 281, 297, 512, 936, 0];

/// What each piece kind adds to the game phase.
pub const GAMEPHASE_INC: [i32; 6] = [0, 1, 1, 2, 4, 0];

// Piece-square bonuses, by square as the second player sees the board; the
// first player's squares are mirrored onto them.
pub const MG_PAWN_TABLE: [i32; 64] = [
    0, 0, 0, 0, 0, 0, 0, 0,
    98, 134, 61, 95, 68, 126, 34, -11,
    -6, 7, 26, 31, 65, 56, 25, -20,
    -14, 13, 6, 21, 23, 12, 17, -23,
    -27, -2, -5, 12, 17, 6, 10, -25,
    -26, -4, -4, -10, 3, 3, 33, -12,
    -35, -1, -20, -23, -15, 24, 38, -22,
    0, 0, 0, 0, 0, 0, 0, 0,
];

pub const EG_PAWN_TABLE: [i32; 64] = [
    0, 0, 0, 0, 0, 0, 0, 0,
    178, 173, 158, 134, 147, 132, 165, 187,
    94, 100, 85, 67, 56, 53, 82, 84,
    32, 24, 13, 5, -2, 4, 17, 17,
    13, 9, -3, -7, -7, -8, 3, -1,
    4, 7, -6, 1, 0, -5, -1, -8,
    13, 8, 8, 10, 13, 0, 2, -7,
    0, 0, 0, 0, 0, 0, 0, 0,
];

pub const MG_KNIGHT_TABLE: [i32; 64] = [
    -167, -89, -34, -49, 61, -97, -15, -107,
    -73, -41, 72, 36, 23, 62, 7, -17,
    -47, 60, 37, 65, 84, 129, 73, 44,
    -9, 17, 19, 53, 37, 69, 18, 22,
    -13, 4, 16, 13, 28, 19, 21, -8,
    -23, -9, 12, 10, 19, 17, 25, -16,
    -29, -53, -12, -3, -1, 18, -14, -19,
    -105, -21, -58, -33, -17, -28, -19, -23,
];

pub const EG_KNIGHT_TABLE: [i32; 64] = [
    -58, -38, -13, -28, -31, -27, -63, -99,
    -25, -8, -25, -2, -9, -25, -24, -52,
    -24, -20, 10, 9, -1, -9, -19, -41,
    -17, 3, 22, 22, 22, 11, 8, -18,
    -18, -6, 16, 25, 16, 17, 4, -18,
    -23, -3, -1, 15, 10, -3, -20, -22,
    -42, -20, -10, -5, -2, -20, -23, -44,
    -29, -51, -23, -15, -22, -18, -50, -64,
];

pub const MG_BISHOP_TABLE: [i32; 64] = [
    -29, 4, -82, -37, -25, -42, 7, -8,
    -26, 16, -18, -13, 30, 59, 18, -47,
    -16, 37, 43, 40, 35, 50, 37, -2,
    -4, 5, 19, 50, 37, 37, 7, -2,
    -6, 13, 13, 26, 34, 12, 10, 4,
    0, 15, 15, 15, 14, 27, 18, 10,
    4, 15, 16, 0, 7, 21, 33, 1,
    -33, -3, -14, -21, -13, -12, -39, -21,
];

pub const EG_BISHOP_TABLE: [i32; 64] = [
    -14, -21, -11, -8, -7, -9, -17, -24,
    -8, -4, 7, -12, -3, -13, -4, -14,
    2, -8, 0, -1, -2, 6, 0, 4,
    -3, 9, 12, 9, 14, 10, 3, 2,
    -6, 3, 13, 19, 7, 10, -3, -9,
    -12, -3, 8, 10, 13, 3, -7, -15,
    -14, -18, -7, -1, 4, -9, -15, -27,
    -23, -9, -23, -5, -9, -16, -5, -17,
];

pub const MG_ROOK_TABLE: [i32; 64] = [
    32, 42, 32, 51, 63, 9, 31, 43,
    27, 32, 58, 62, 80, 67, 26, 44,
    -5, 19, 26, 36, 17, 45, 61, 16,
    -24, -11, 7, 26, 24, 35, -8, -20,
    -36, -26, -12, -1, 9, -7, 6, -23,
    -45, -25, -16, -17, 3, 0, -5, -33,
    -44, -16, -20, -9, -1, 11, -6, -71,
    -19, -13, 1, 17, 16, 7, -37, -26,
];

pub const EG_ROOK_TABLE: [i32; 64] = [
    13, 10, 18, 15, 12, 12, 8, 5,
    11, 13, 13, 11, -3, 3, 8, 3,
    7, 7, 7, 5, 4, -3, -5, -3,
    4, 3, 13, 1, 2, 1, -1, 2,
    3, 5, 8, 4, -5, -6, -8, -11,
    -4, 0, -5, -1, -7, -12, -8, -16,
    -6, -6, 0, 2, -9, -9, -11, -3,
    -9, 2, 3, -1, -5, -13, 4, -20,
];

pub const MG_QUEEN_TABLE: [i32; 64] = [
    -28, 0, 29, 12, 59, 44, 43, 45,
    -24, -39, -5, 1, -16, 57, 28, 54,
    -13, -17, 7, 8, 29, 56, 47, 57,
    -27, -27, -16, -16, -1, 17, -2, 1,
    -9, -26, -9, -10, -2, -4, 3, -3,
    -14, 2, -11, -2, -5, 2, 14, 5,
    -35, -8, 11, 2, 8, 15, -3, 1,
    -1, -18, -9, 10, -15, -25, -31, -50,
];

pub const EG_QUEEN_TABLE: [i32; 64] = [
    -9, 22, 22, 27, 27, 19, 10, 20,
    -17, 20, 32, 41, 58, 25, 30, 0,
    -20, 6, 9, 49, 47, 35, 19, 9,
    3, 22, 24, 45, 57, 40, 57, 36,
    -18, 28, 19, 47, 31, 34, 39, 23,
    -16, -27, 15, 6, 9, 17, 10, 5,
    -22, -23, -30, -16, -16, -23, -36, -32,
    -33, -28, -22, -43, -5, -32, -20, -41,
];

pub const MG_KING_TABLE: [i32; 64] = [
    -65, 23, 16, -15, -56, -34, 2, 13,
    29, -1, -20, -7, -8, -4, -38, -29,
    -9, 24, 2, -16, -20, 6, 22, -22,
    -17, -20, -12, -27, -30, -25, -14, -36,
    -49, -1, -27, -39, -46, -44, -33, -51,
    -14, -14, -22, -46, -44, -30, -15, -27,
    1, 7, -8, -64, -43, -16, 9, 8,
    -15, 36, 12, -54, 8, -28, 24, 14,
];

pub const EG_KING_TABLE: [i32; 64] = [
    -74, -35, -18, -18, -11, 15, 4, -17,
    -12, 17, 14, 17, 17, 38, 23, 11,
    10, 17, 23, 15, 20, 45, 44, 13,
    -8, 22, 24, 27, 26, 33, 26, 3,
    -18, -4, 21, 24, 27, 23, 9, -11,
    -19, -3, 11, 21, 23, 16, 7, -9,
    -27, -11, 4, 13, 14, 4, -5, -17,
    -53, -34, -21, -11, -28, -14, -24, -43,
];

pub open spec fn spec_mg_table(t: PieceType, i: int) -> int {
    match t {
        PieceType::PAWN => MG_PAWN_TABLE[i] as int,
        PieceType::KNIGHT => MG_KNIGHT_TABLE[i] as int,
        PieceType::BISHOP => MG_BISHOP_TABLE[i] as int,
        PieceType::ROOK => MG_ROOK_TABLE[i] as int,
        PieceType::QUEEN => MG_QUEEN_TABLE[i] as int,
        PieceType::KING => MG_KING_TABLE[i] as int,
    }
}

pub fn mg_table(t: PieceType, i: usize) -> (r: i32)
    requires
        i < 64,
    ensures
        r == spec_mg_table(t, i as int),
        -200 <= r <= 200,
{
    match t {
        PieceType::PAWN => MG_PAWN_TABLE[i],
        PieceType::KNIGHT => MG_KNIGHT_TABLE[i],
        PieceType::BISHOP => MG_BISHOP_TABLE[i],
        PieceType::ROOK => MG_ROOK_TABLE[i],
        PieceType::QUEEN => MG_QUEEN_TABLE[i],
        PieceType::KING => MG_KING_TABLE[i],
    }
}

pub open spec fn spec_eg_table(t: PieceType, i: int) -> int {
    match t {
        PieceType::PAWN => EG_PAWN_TABLE[i] as int,
        PieceType::KNIGHT => EG_KNIGHT_TABLE[i] as int,
        PieceType::BISHOP => EG_BISHOP_TABLE[i] as int,
        PieceType::ROOK => EG_ROOK_TABLE[i] as int,
        PieceType::QUEEN => EG_QUEEN_TABLE[i] as int,
        PieceType::KING => EG_KING_TABLE[i] as int,
    }
}

pub fn eg_table(t: PieceType, i: usize) -> (r: i32)
    requires
        i < 64,
    ensures
        r == spec_eg_table(t, i as int),
        -200 <= r <= 200,
{
    match t {
        PieceType::PAWN => EG_PAWN_TABLE[i],
        PieceType::KNIGHT => EG_KNIGHT_TABLE[i],
        PieceType::BISHOP => EG_BISHOP_TABLE[i],
        PieceType::ROOK => EG_ROOK_TABLE[i],
        PieceType::QUEEN => EG_QUEEN_TABLE[i],
        PieceType::KING => EG_KING_TABLE[i],
    }
}

/// The square with the same file on the mirrored rank.
pub open spec fn mirror_sq(i: int) -> int {
    (7 - i / 8) * 8 + i % 8
}

/// The square under which a piece of `p` on `i` is looked up.
pub open spec fn table_sq(p: Player, i: int) -> int {
    match p {
        Player::PLAYER1 => mirror_sq(i),
        Player::PLAYER2 => i,
    }
}

/// Scores count for the first player and against the second.
pub open spec fn sign(p: Player) -> int {
    match p {
        Player::PLAYER1 => 1,
        Player::PLAYER2 => -1,
    }
}

/// `v` as it counts for `p`.
pub open spec fn signed(p: Player, v: int) -> int {
    match p {
        Player::PLAYER1 => v,
        Player::PLAYER2 => -v,
    }
}

/// What a piece of `p` of kind `t` on `i` adds to the middlegame score
/// (`which` 0), to the endgame score (1), or to the game phase (2).
pub open spec fn term(which: int, p: Player, t: PieceType, i: int) -> int {
    if which == 0 {
        signed(p, spec_mg_table(t, table_sq(p, i)) + MG_VALUE[t.spec_ordinal()])
    } else if which == 1 {
        signed(p, spec_eg_table(t, table_sq(p, i)) + EG_VALUE[t.spec_ordinal()])
    } else {
        GAMEPHASE_INC[t.spec_ordinal()] as int
    }
}

/// The sum of `f` over the members of `x` below `n`.
pub open spec fn sum_over(x: u64, n: int, f: spec_fn(int) -> int) -> int
    decreases n,
{
    if n <= 0 {
        0
    } else {
        sum_over(x, n - 1, f) + if bit(x, n - 1) {
            f(n - 1)
        } else {
            0
        }
    }
}

/// The player at position `n` of the order in which the pieces are summed.
pub open spec fn player_at(n: int) -> Player {
    if n < 6 {
        Player::PLAYER1
    } else {
        Player::PLAYER2
    }
}

/// The piece kind at position `n` of that order.
pub open spec fn kind_at(n: int) -> PieceType {
    match PieceType::spec_from_ordinal(n % 6) {
        Some(t) => t,
        None => PieceType::PAWN,
    }
}

/// What the pieces of one player and kind add.
pub open spec fn kind_sum(board: BoardState, which: int, p: Player, t: PieceType) -> int {
    sum_over(board.spec_get(p, t), 64, |i: int| term(which, p, t, i))
}

/// What the first `n` bitboards add.
pub open spec fn partial_total(board: BoardState, which: int, n: int) -> int
    decreases n,
{
    if n <= 0 {
        0
    } else {
        partial_total(board, which, n - 1) + kind_sum(board, which, player_at(n - 1), kind_at(n - 1))
    }
}

/// The middlegame score, the endgame score or the game phase of a board.
pub open spec fn total(board: BoardState, which: int) -> int {
    partial_total(board, which, 12)
}

/// Division that rounds towards zero.
pub open spec fn trunc_div(x: int, d: int) -> int {
    if x >= 0 {
        x / d
    } else {
        -((-x) / d)
    }
}

/// The score of a board: middlegame and endgame scores blended by the game
/// phase, which counts for at most 24. Positive favours the first player.
pub open spec fn spec_score(board: BoardState) -> int {
    let phase = if total(board, 2) <= 24 {
        total(board, 2)
    } else {
        24
    };
    trunc_div(total(board, 0) * phase + total(board, 1) * (24 - phase), 24)
}

/// Taking one member away takes its term from the sum.
proof fn lemma_sum_without(x: u64, i: int, n: int, f: spec_fn(int) -> int)
    requires
        0 <= i < 64,
        bit(x, i),
        0 <= n <= 64,
    ensures
        sum_over(x, n, f) == sum_over(x & !single(i), n, f) + if i < n {
            f(i)
        } else {
            0
        },
    decreases n,
{
    if n > 0 {
        lemma_sum_without(x, i, n - 1, f);
        lemma_bit_and(x, !single(i), n - 1);
        lemma_bit_not(single(i), n - 1);
        lemma_bit_single(i, n - 1);
    }
}

/// The empty bitboard adds nothing.
proof fn lemma_sum_empty(n: int, f: spec_fn(int) -> int)
    requires
        0 <= n <= 64,
    ensures
        sum_over(0, n, f) == 0,
    decreases n,
{
    if n > 0 {
        lemma_sum_empty(n - 1, f);
        crate::bits::lemma_bit_zero(n - 1);
    }
}

proof fn bv_mirror(i: usize)
    by (bit_vector)
    requires
        i < 64,
    ensures
        i ^ 56 == (7 - i / 8) * 8 + i % 8,
        i ^ 56 < 64,
{
}

proof fn lemma_kind_at(n: int)
    requires
        0 <= n < 12,
    ensures
        kind_at(n).spec_ordinal() == n % 6,
        player_at(n).spec_ordinal() == n / 6,
{
}

/// Whether `b` is `a` with the colours exchanged and the board turned
/// upside down: each piece stands on the mirrored rank and belongs to the
/// other player.
pub open spec fn is_mirror(a: BoardState, b: BoardState) -> bool {
    forall|p: Player, t: PieceType, j: int|
        0 <= j < 64 ==> #[trigger] bit(b.spec_get(p, t), j) == bit(
            a.spec_get(p.spec_other(), t),
            mirror_sq(j),
        )
}

/// What square `j` adds to a sum.
pub open spec fn addend(x: u64, f: spec_fn(int) -> int, j: int) -> int {
    if bit(x, j) {
        f(j)
    } else {
        0
    }
}

/// A sum grows by one rank's eight addends.
proof fn lemma_sum_rank(x: u64, f: spec_fn(int) -> int, r: int)
    requires
        0 <= r < 8,
    ensures
        sum_over(x, 8 * r + 8, f) == sum_over(x, 8 * r, f) + addend(x, f, 8 * r) + addend(
            x,
            f,
            8 * r + 1,
        ) + addend(x, f, 8 * r + 2) + addend(x, f, 8 * r + 3) + addend(x, f, 8 * r + 4) + addend(
            x,
            f,
            8 * r + 5,
        ) + addend(x, f, 8 * r + 6) + addend(x, f, 8 * r + 7),
{
    reveal_with_fuel(sum_over, 9);
}

/// A sum over a mirrored bitboard of mirrored (and, with `neg`, negated)
/// terms is the (negated) sum.
proof fn lemma_sum_mirror(xa: u64, xb: u64, fa: spec_fn(int) -> int, fb: spec_fn(int) -> int, neg: bool)
    requires
        forall|j: int| 0 <= j < 64 ==> #[trigger] bit(xb, j) == bit(xa, mirror_sq(j)),
        forall|j: int|
            0 <= j < 64 ==> #[trigger] fb(j) == if neg {
                -fa(mirror_sq(j))
            } else {
                fa(mirror_sq(j))
            },
    ensures
        sum_over(xb, 64, fb) == if neg {
            -sum_over(xa, 64, fa)
        } else {
            sum_over(xa, 64, fa)
        },
{
    assert forall|j: int| 0 <= j < 64 implies #[trigger] addend(xb, fb, j) == if neg {
        -addend(xa, fa, mirror_sq(j))
    } else {
        addend(xa, fa, mirror_sq(j))
    } by {
        assert(bit(xb, j) == bit(xa, mirror_sq(j)));
        assert(fb(j) == if neg {
            -fa(mirror_sq(j))
        } else {
            fa(mirror_sq(j))
        });
    }
    lemma_mirror_ranks(xa, xb, fa, fb, neg);
}

/// The difference that one rank makes to a sum.
pub open spec fn rank_part(x: u64, f: spec_fn(int) -> int, r: int) -> int {
    sum_over(x, 8 * r + 8, f) - sum_over(x, 8 * r, f)
}

proof fn lemma_mirror_ranks(xa: u64, xb: u64, fa: spec_fn(int) -> int, fb: spec_fn(int) -> int, neg: bool)
    requires
        forall|j: int|
            0 <= j < 64 ==> #[trigger] addend(xb, fb, j) == if neg {
                -addend(xa, fa, mirror_sq(j))
            } else {
                addend(xa, fa, mirror_sq(j))
            },
    ensures
        sum_over(xb, 64, fb) == if neg {
            -sum_over(xa, 64, fa)
        } else {
            sum_over(xa, 64, fa)
        },
{
    assert forall|r: int| 0 <= r < 8 implies #[trigger] rank_part(xb, fb, r) == if neg {
        -rank_part(xa, fa, 7 - r)
    } else {
        rank_part(xa, fa, 7 - r)
    } by {
        lemma_sum_rank(xb, fb, r);
        lemma_sum_rank(xa, fa, 7 - r);
        assert(mirror_sq(8 * r) == 8 * (7 - r));
        assert(mirror_sq(8 * r + 1) == 8 * (7 - r) + 1);
        assert(mirror_sq(8 * r + 2) == 8 * (7 - r) + 2);
        assert(mirror_sq(8 * r + 3) == 8 * (7 - r) + 3);
        assert(mirror_sq(8 * r + 4) == 8 * (7 - r) + 4);
        assert(mirror_sq(8 * r + 5) == 8 * (7 - r) + 5);
        assert(mirror_sq(8 * r + 6) == 8 * (7 - r) + 6);
        assert(mirror_sq(8 * r + 7) == 8 * (7 - r) + 7);
        assert(addend(xb, fb, 8 * r) == if neg {
            -addend(xa, fa, mirror_sq(8 * r))
        } else {
            addend(xa, fa, mirror_sq(8 * r))
        });
        assert(addend(xb, fb, 8 * r + 1) == if neg {
            -addend(xa, fa, mirror_sq(8 * r + 1))
        } else {
            addend(xa, fa, mirror_sq(8 * r + 1))
        });
        assert(addend(xb, fb, 8 * r + 2) == if neg {
            -addend(xa, fa, mirror_sq(8 * r + 2))
        } else {
            addend(xa, fa, mirror_sq(8 * r + 2))
        });
        assert(addend(xb, fb, 8 * r + 3) == if neg {
            -addend(xa, fa, mirror_sq(8 * r + 3))
        } else {
            addend(xa, fa, mirror_sq(8 * r + 3))
        });
        assert(addend(xb, fb, 8 * r + 4) == if neg {
            -addend(xa, fa, mirror_sq(8 * r + 4))
        } else {
            addend(xa, fa, mirror_sq(8 * r + 4))
        });
        assert(addend(xb, fb, 8 * r + 5) == if neg {
            -addend(xa, fa, mirror_sq(8 * r + 5))
        } else {
            addend(xa, fa, mirror_sq(8 * r + 5))
        });
        assert(addend(xb, fb, 8 * r + 6) == if neg {
            -addend(xa, fa, mirror_sq(8 * r + 6))
        } else {
            addend(xa, fa, mirror_sq(8 * r + 6))
        });
        assert(addend(xb, fb, 8 * r + 7) == if neg {
            -addend(xa, fa, mirror_sq(8 * r + 7))
        } else {
            addend(xa, fa, mirror_sq(8 * r + 7))
        });
    }
    assert(rank_part(xb, fb, 0) + rank_part(xb, fb, 1) + rank_part(xb, fb, 2) + rank_part(xb, fb, 3)
        + rank_part(xb, fb, 4) + rank_part(xb, fb, 5) + rank_part(xb, fb, 6) + rank_part(xb, fb, 7)
        == sum_over(xb, 64, fb));
    assert(rank_part(xa, fa, 0) + rank_part(xa, fa, 1) + rank_part(xa, fa, 2) + rank_part(xa, fa, 3)
        + rank_part(xa, fa, 4) + rank_part(xa, fa, 5) + rank_part(xa, fa, 6) + rank_part(xa, fa, 7)
        == sum_over(xa, 64, fa));
}

/// What one player's pieces of one kind add on the mirrored board.
proof fn lemma_kind_sum_mirror(a: BoardState, b: BoardState, which: int, p: Player, t: PieceType)
    requires
        is_mirror(a, b),
        0 <= which <= 2,
    ensures
        kind_sum(b, which, p, t) == if which == 2 {
            kind_sum(a, which, p.spec_other(), t)
        } else {
            -kind_sum(a, which, p.spec_other(), t)
        },
{
    let q = p.spec_other();
    let fa = |i: int| term(which, q, t, i);
    let fb = |i: int| term(which, p, t, i);
    assert forall|j: int| 0 <= j < 64 implies #[trigger] fb(j) == if which != 2 {
        -fa(mirror_sq(j))
    } else {
        fa(mirror_sq(j))
    } by {
        let m = mirror_sq(j);
        assert(mirror_sq(m) == j);
        assert(table_sq(p, j) == table_sq(q, m));
    }
    lemma_sum_mirror(a.spec_get(q, t), b.spec_get(p, t), fa, fb, which != 2);
}

/// Middlegame and endgame scores change sign on the mirrored board; the
/// game phase stays.
proof fn lemma_total_mirror(a: BoardState, b: BoardState, which: int)
    requires
        is_mirror(a, b),
        0 <= which <= 2,
    ensures
        total(b, which) == if which == 2 {
            total(a, which)
        } else {
            -total(a, which)
        },
{
    reveal_with_fuel(partial_total, 13);
    assert forall|n: int| 0 <= n < 12 implies #[trigger] kind_sum(
        b,
        which,
        player_at(n),
        kind_at(n),
    ) == if which == 2 {
        kind_sum(a, which, player_at(n).spec_other(), kind_at(n))
    } else {
        -kind_sum(a, which, player_at(n).spec_other(), kind_at(n))
    } by {
        lemma_kind_sum_mirror(a, b, which, player_at(n), kind_at(n));
    }
    assert(kind_sum(b, which, player_at(0), kind_at(0)) + kind_sum(b, which, player_at(6), kind_at(6))
        == if which == 2 {
        kind_sum(a, which, player_at(0), kind_at(0)) + kind_sum(a, which, player_at(6), kind_at(6))
    } else {
        -(kind_sum(a, which, player_at(0), kind_at(0)) + kind_sum(a, which, player_at(6), kind_at(6)))
    });
    assert(kind_sum(b, which, player_at(1), kind_at(1)) + kind_sum(b, which, player_at(7), kind_at(7))
        == if which == 2 {
        kind_sum(a, which, player_at(1), kind_at(1)) + kind_sum(a, which, player_at(7), kind_at(7))
    } else {
        -(kind_sum(a, which, player_at(1), kind_at(1)) + kind_sum(a, which, player_at(7), kind_at(7)))
    });
    assert(kind_sum(b, which, player_at(2), kind_at(2)) + kind_sum(b, which, player_at(8), kind_at(8))
        == if which == 2 {
        kind_sum(a, which, player_at(2), kind_at(2)) + kind_sum(a, which, player_at(8), kind_at(8))
    } else {
        -(kind_sum(a, which, player_at(2), kind_at(2)) + kind_sum(a, which, player_at(8), kind_at(8)))
    });
    assert(kind_sum(b, which, player_at(3), kind_at(3)) + kind_sum(b, which, player_at(9), kind_at(9))
        == if which == 2 {
        kind_sum(a, which, player_at(3), kind_at(3)) + kind_sum(a, which, player_at(9), kind_at(9))
    } else {
        -(kind_sum(a, which, player_at(3), kind_at(3)) + kind_sum(a, which, player_at(9), kind_at(9)))
    });
    assert(kind_sum(b, which, player_at(4), kind_at(4)) + kind_sum(b, which, player_at(10), kind_at(10))
        == if which == 2 {
        kind_sum(a, which, player_at(4), kind_at(4)) + kind_sum(a, which, player_at(10), kind_at(10))
    } else {
        -(kind_sum(a, which, player_at(4), kind_at(4)) + kind_sum(a, which, player_at(10), kind_at(10)))
    });
    assert(kind_sum(b, which, player_at(5), kind_at(5)) + kind_sum(b, which, player_at(11), kind_at(11))
        == if which == 2 {
        kind_sum(a, which, player_at(5), kind_at(5)) + kind_sum(a, which, player_at(11), kind_at(11))
    } else {
        -(kind_sum(a, which, player_at(5), kind_at(5)) + kind_sum(a, which, player_at(11), kind_at(11)))
    });
}

/// Score symmetry: a board and the same board with the colours exchanged
/// and turned upside down have scores that are each other's negation.
pub proof fn lemma_score_symmetry(a: BoardState, b: BoardState)
    requires
        is_mirror(a, b),
    ensures
        spec_score(b) == -spec_score(a),
{
    lemma_total_mirror(a, b, 0);
    lemma_total_mirror(a, b, 1);
    lemma_total_mirror(a, b, 2);
    let phase = if total(a, 2) <= 24 {
        total(a, 2)
    } else {
        24
    };
    let mg = total(a, 0);
    let eg = total(a, 1);
    assert((-mg) * phase + (-eg) * (24 - phase) == -(mg * phase + eg * (24 - phase)))
        by (nonlinear_arith);
}

/// A sum of terms between `-bound` and `bound` over the squares below `n`
/// lies between `-n * bound` and `n * bound`.
proof fn lemma_sum_bound(x: u64, n: int, f: spec_fn(int) -> int, bound: int)
    requires
        0 <= n <= 64,
        0 <= bound,
        forall|j: int| 0 <= j < 64 ==> -bound <= #[trigger] f(j) <= bound,
    ensures
        -n * bound <= sum_over(x, n, f) <= n * bound,
    decreases n,
{
    if n > 0 {
        lemma_sum_bound(x, n - 1, f, bound);
        assert(-bound <= f(n - 1) <= bound);
        assert((n - 1) * bound + bound == n * bound) by (nonlinear_arith);
        assert(-(n - 1) * bound - bound == -n * bound) by (nonlinear_arith);
    }
}

/// A sum of terms that are not negative is not negative.
proof fn lemma_sum_not_negative(x: u64, n: int, f: spec_fn(int) -> int)
    requires
        0 <= n <= 64,
        forall|j: int| 0 <= j < 64 ==> 0 <= #[trigger] f(j),
    ensures
        0 <= sum_over(x, n, f),
    decreases n,
{
    if n > 0 {
        lemma_sum_not_negative(x, n - 1, f);
        assert(0 <= f(n - 1));
    }
}

/// Every score lies well inside the bounds that a search starts from.
pub proof fn lemma_score_bound(board: BoardState)
    ensures
        -1_200_000 <= spec_score(board) <= 1_200_000,
{
    reveal_with_fuel(partial_total, 13);
    assert forall|which: int, n: int| 0 <= which <= 2 && 0 <= n < 12 implies -96_000 <= #[trigger] kind_sum(
        board,
        which,
        player_at(n),
        kind_at(n),
    ) <= 96_000 && (which == 2 ==> 0 <= kind_sum(board, which, player_at(n), kind_at(n))) by {
        let p = player_at(n);
        let t = kind_at(n);
        let f = |i: int| term(which, p, t, i);
        assert forall|j: int| 0 <= j < 64 implies -1500 <= #[trigger] f(j) <= 1500 by {
            assert(0 <= table_sq(p, j) < 64);
            lemma_table_bound(t, table_sq(p, j));
        }
        lemma_sum_bound(board.spec_get(p, t), 64, f, 1500);
        if which == 2 {
            assert forall|j: int| 0 <= j < 64 implies 0 <= #[trigger] f(j) by {}
            lemma_sum_not_negative(board.spec_get(p, t), 64, f);
        }
    }
    let mg = total(board, 0);
    let eg = total(board, 1);
    let raw = total(board, 2);
    assert(kind_sum(board, 0, player_at(0), kind_at(0)) <= 96_000);
    assert(kind_sum(board, 1, player_at(0), kind_at(0)) <= 96_000);
    assert(kind_sum(board, 2, player_at(0), kind_at(0)) >= 0);
    assert(-1_152_000 <= mg <= 1_152_000);
    assert(-1_152_000 <= eg <= 1_152_000);
    assert(0 <= raw);
    let phase = if raw <= 24 {
        raw
    } else {
        24
    };
    assert(-1_152_000 * 24 <= mg * phase + eg * (24 - phase) <= 1_152_000 * 24) by (nonlinear_arith)
        requires
            -1_152_000 <= mg <= 1_152_000,
            -1_152_000 <= eg <= 1_152_000,
            0 <= phase <= 24,
    ;
}

proof fn lemma_table_bound(t: PieceType, i: int)
    requires
        0 <= i < 64,
    ensures
        -200 <= spec_mg_table(t, i) <= 200,
        -200 <= spec_eg_table(t, i) <= 200,
{
}

impl<'a> Chess<'a> {
    /// The score of the position. Positive favours the first player.
    pub fn get_score(&self) -> (r: i32)
        ensures
            r == spec_score(self.board),
    {
        let mut game_phase: i32 = 0;
        let mut mg_score: i32 = 0;
        let mut eg_score: i32 = 0;
        let kinds = PieceType::all();
        let players = [Player::PLAYER1, Player::PLAYER2];
        let ghost board = self.board;

        /* evaluate each piece */
        let mut n: usize = 0;
        while n < 12
            invariant
                n <= 12,
                board == self.board,
                forall|k: int| 0 <= k < 6 ==> (#[trigger] kinds@[k]).spec_ordinal() == k,
                players@ == seq![Player::PLAYER1, Player::PLAYER2],
                mg_score == partial_total(board, 0, n as int),
                eg_score == partial_total(board, 1, n as int),
                game_phase == partial_total(board, 2, n as int),
                -100_000 * n <= mg_score <= 100_000 * n,
                -100_000 * n <= eg_score <= 100_000 * n,
                0 <= game_phase <= 256 * n,
            decreases 12 - n,
        {
            let player = players[n / 6];
            let piece_type = kinds[n % 6];
            let mult: i32 = match player {
                Player::PLAYER1 => 1,
                Player::PLAYER2 => -1,
            };
            let x = self.board.get(player, piece_type);
            let ghost f0 = |i: int| term(0, player, piece_type, i);
            let ghost f1 = |i: int| term(1, player, piece_type, i);
            let ghost f2 = |i: int| term(2, player, piece_type, i);
            let ghost mg0 = mg_score;
            let ghost eg0 = eg_score;
            let ghost ph0 = game_phase;
            let ghost mut low: int = 0;
            proof {
                lemma_kind_at(n as int);
                assert(player == player_at(n as int));
                assert(piece_type == kind_at(n as int));
            }
            let mut it = iter_index(x);
            loop
                invariant
                    n < 12,
                    0 <= low <= 64,
                    mult == sign(player),
                    f0 == |i: int| term(0, player, piece_type, i),
                    f1 == |i: int| term(1, player, piece_type, i),
                    f2 == |i: int| term(2, player, piece_type, i),
                    forall|j: int| 0 <= j < low ==> !#[trigger] bit(it.remaining(), j),
                    mg_score + sum_over(it.remaining(), 64, f0) == mg0 + sum_over(x, 64, f0),
                    eg_score + sum_over(it.remaining(), 64, f1) == eg0 + sum_over(x, 64, f1),
                    game_phase + sum_over(it.remaining(), 64, f2) == ph0 + sum_over(x, 64, f2),
                    -100_000 * n <= mg0 <= 100_000 * n,
                    -100_000 * n <= eg0 <= 100_000 * n,
                    0 <= ph0 <= 256 * n,
                    mg0 - 1500 * low <= mg_score <= mg0 + 1500 * low,
                    eg0 - 1500 * low <= eg_score <= eg0 + 1500 * low,
                    ph0 <= game_phase <= ph0 + 4 * low,
                ensures
                    it.remaining() == 0,
                decreases it.remaining(),
            {
                let ghost rem = it.remaining();
                match it.next() {
                    None => {
                        break ;
                    },
                    Some(i) => {
                        proof {
                            bv_mirror(i);
                            lemma_sum_without(rem, i as int, 64, f0);
                            lemma_sum_without(rem, i as int, 64, f1);
                            lemma_sum_without(rem, i as int, 64, f2);
                            assert(i >= low);
                            assert forall|j: int| 0 <= j < i + 1 implies !#[trigger] bit(
                                it.remaining(),
                                j,
                            ) by {
                                lemma_bit_and(rem, !single(i as int), j);
                                lemma_bit_not(single(i as int), j);
                                lemma_bit_single(i as int, j);
                                crate::bits::lemma_lowest(rem);
                            }
                            low = i + 1;
                        }
                        let fi = match player {
                            Player::PLAYER1 => i ^ 56,
                            Player::PLAYER2 => i,
                        };
                        assert(fi == table_sq(player, i as int));
                        let mg = mg_table(piece_type, fi) + MG_VALUE[piece_type.ordinal()];
                        let eg = eg_table(piece_type, fi) + EG_VALUE[piece_type.ordinal()];
                        assert(mult * mg == (if mult == 1 {
                            mg as int
                        } else {
                            -mg
                        }) && mult * eg == (if mult == 1 {
                            eg as int
                        } else {
                            -eg
                        })) by (nonlinear_arith)
                            requires
                                mult == 1 || mult == -1,
                        ;
                        mg_score += mult * mg;
                        eg_score += mult * eg;
                        game_phase += GAMEPHASE_INC[piece_type.ordinal()];
                    },
                }
            }
            proof {
                lemma_sum_empty(64, f0);
                lemma_sum_empty(64, f1);
                lemma_sum_empty(64, f2);
            }
            n += 1;
        }
        /* tapered eval */

        let mg_phase = if game_phase <= 24 {
            game_phase
        } else {
            24
        };
        let eg_phase = 24 - mg_phase;
        assert(-24 * 1_200_000 <= mg_score * mg_phase <= 24 * 1_200_000) by (nonlinear_arith)
            requires
                -1_200_000 <= mg_score <= 1_200_000,
                0 <= mg_phase <= 24,
        ;
        assert(-24 * 1_200_000 <= eg_score * eg_phase <= 24 * 1_200_000) by (nonlinear_arith)
            requires
                -1_200_000 <= eg_score <= 1_200_000,
                0 <= eg_phase <= 24,
        ;
        return (mg_score * mg_phase + eg_score * eg_phase) / 24;
    }
}

} // verus!
