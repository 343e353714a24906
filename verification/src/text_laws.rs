//! What holds between the two directions of the position text: the text
//! that is written of a position sets that position up again, with its
//! castling rights and its two counters.
use vstd::prelude::*;
use crate::bit_help::{Dir, file_of, rank_of};
use crate::bits::{
    bit, lemma_bit_or, lemma_bit_single, lemma_bit_zero, lemma_bits_equal, lemma_test_single,
    single,
};
use crate::chess_impl::{
    BoardState, Move, PieceType, Position, king_place, kingside_rook, lemma_board_equal,
    lemma_memory_spent, lemma_with_get, queenside_rook, sq,
};
use crate::fen::{
    is_empty_board, is_start_board, spec_all_digits, spec_castle_field, spec_counter_field,
    spec_digit_value, spec_en_passant_field, spec_field_end, spec_file_of_letter, spec_holds_char,
    spec_numeral, spec_parse_fen, spec_piece_of, spec_place_char, spec_placement, spec_side_field,
    spec_skip_of,
};
use crate::notation::{
    spec_castle_text, spec_clock, spec_decimal, spec_digit, spec_file_letter, spec_piece_letter,
    spec_place_letters, spec_placement_text, spec_rights, spec_run,
};
use crate::king_safety::{king_attacked, passed_pawn, shields, slides, uncovered_by_en_passant};
use crate::move_generation::attacks_from;
use crate::two_player_game::Player;

verus! {

/// A field that starts at `i` ends at the first space from there on.
pub proof fn lemma_field_end(s: Seq<char>, i: int, e: int)
    requires
        0 <= i <= e <= s.len(),
        forall|j: int| i <= j < e ==> s[j] != ' ',
        e == s.len() || s[e] == ' ',
    ensures
        spec_field_end(s, i) == e,
    decreases e - i,
{
    if i < e {
        lemma_field_end(s, i + 1, e);
    }
}

/// The numeral of `n`, where it stands in `t` from `start` on, is read as
/// `n`: it has a digit, nothing but digits, and spells `n`.
pub proof fn lemma_decimal_reads(n: int, t: Seq<char>, start: int)
    requires
        0 <= n,
        0 <= start,
        start + spec_decimal(n).len() <= t.len(),
        forall|k: int| 0 <= k < spec_decimal(n).len() ==> t[start + k] == spec_decimal(n)[k],
    ensures
        spec_decimal(n).len() >= 1,
        spec_all_digits(t, start, start + spec_decimal(n).len()),
        spec_numeral(t, start, start + spec_decimal(n).len()) == n,
        forall|k: int| start <= k < start + spec_decimal(n).len() ==> t[k] != ' ',
    decreases n,
{
    let d = spec_decimal(n);
    if n < 10 {
        assert(d.len() == 1);
        assert(t[start + 0] == d[0]);
        assert(spec_digit_value(spec_digit(n)) == Some(n));
        assert(spec_numeral(t, start, start) == 0);
        assert(spec_numeral(t, start, start + 1) == 0 * 10 + n);
    } else {
        let front = spec_decimal(n / 10);
        assert(d == front.push(spec_digit(n % 10)));
        assert forall|k: int| 0 <= k < front.len() implies t[start + k] == front[k] by {
            assert(t[start + k] == d[k]);
        }
        lemma_decimal_reads(n / 10, t, start);
        let end = start + d.len();
        assert(t[start + (d.len() - 1)] == d[d.len() - 1]);
        assert(t[end - 1] == spec_digit(n % 10));
        assert(spec_digit_value(spec_digit(n % 10)) == Some(n % 10));
        assert(spec_numeral(t, start, end) == spec_numeral(t, start, end - 1) * 10 + n % 10);
        assert forall|k: int| start <= k < end implies (#[trigger] spec_digit_value(t[k])) is Some
            && t[k] != ' ' by {
            if k < end - 1 {
            }
        }
    }
}

/// What stands on square `j`, seen from the bitboards.
proof fn lemma_type_at(b: BoardState, j: int)
    requires
        0 <= j < 64,
    ensures
        match b.spec_type_at(single(j)) {
            Some(x) => bit(b.spec_get(x.0, x.1), j),
            None => forall|p: Player, t: PieceType| !#[trigger] bit(b.spec_get(p, t), j),
        },
{
    assert forall|p: Player, t: PieceType|
        (#[trigger] b.spec_get(p, t) & single(j) != 0) == bit(b.spec_get(p, t), j) by {
        lemma_test_single(b.spec_get(p, t), j);
    }
    if b.spec_type_at(single(j)) is None {
        assert forall|p: Player, t: PieceType| !#[trigger] bit(b.spec_get(p, t), j) by {
            assert(b.spec_kind_at(p, single(j)) is None);
            assert((b.spec_get(p, t) & single(j) != 0) == bit(b.spec_get(p, t), j));
            match t {
                PieceType::PAWN => {},
                PieceType::KNIGHT => {},
                PieceType::BISHOP => {},
                PieceType::ROOK => {},
                PieceType::QUEEN => {},
                PieceType::KING => {},
            }
        }
    } else {
        let x = b.spec_type_at(single(j))->0;
        assert(b.spec_kind_at(x.0, single(j)) == Some(x.1));
        assert((b.spec_get(x.0, x.1) & single(j) != 0) == bit(b.spec_get(x.0, x.1), j));
    }
}

/// Whether `cur` holds the pieces of `board` on the squares from `k` up,
/// and nothing else.
pub open spec fn holds_from(cur: BoardState, board: BoardState, k: int) -> bool {
    forall|p: Player, t: PieceType, j: int| #[trigger]
        bit(cur.spec_get(p, t), j) == (k <= j && bit(board.spec_get(p, t), j))
}

/// Reading the digit of a run of free squares.
proof fn lemma_read_run(t: Seq<char>, i: int, end: int, next: int, cur: BoardState, run: int)
    requires
        0 <= run <= 8,
        run <= next,
        0 <= i,
        i + spec_run(run).len() <= end <= t.len(),
        forall|k: int| 0 <= k < spec_run(run).len() ==> t[i + k] == spec_run(run)[k],
    ensures
        spec_placement(t, i, end, next, cur) == spec_placement(
            t,
            i + spec_run(run).len(),
            end,
            next - run,
            cur,
        ),
        forall|k: int| i <= k < i + spec_run(run).len() ==> t[k] != ' ',
{
    if run != 0 {
        assert(spec_run(run).len() == 1);
        assert(t[i + 0] == spec_run(run)[0]);
        assert(t[i] == spec_digit(run));
        assert(spec_piece_of(t[i]) is None);
        assert(spec_skip_of(t[i]) == Some(run));
        assert(spec_place_char(t[i], next, cur) == Ok::<(int, BoardState), crate::fen::FenError>(
            (next - run, cur),
        ));
    }
}

/// Reading the letter of a piece.
proof fn lemma_read_letter(
    t: Seq<char>,
    i: int,
    end: int,
    next: int,
    cur: BoardState,
    p: Player,
    kind: PieceType,
)
    requires
        0 < next,
        0 <= i < end <= t.len(),
        t[i] == spec_piece_letter(p, kind),
    ensures
        spec_placement(t, i, end, next, cur) == spec_placement(
            t,
            i + 1,
            end,
            next - 1,
            cur.with(p, kind, cur.spec_get(p, kind) | single(next - 1)),
        ),
        t[i] != ' ',
{
    assert(spec_piece_of(spec_piece_letter(p, kind)) == Some((p, kind))) by {
        match kind {
            PieceType::PAWN => {},
            PieceType::KNIGHT => {},
            PieceType::BISHOP => {},
            PieceType::ROOK => {},
            PieceType::QUEEN => {},
            PieceType::KING => {},
        }
    }
    assert(spec_place_char(t[i], next, cur) == Ok::<(int, BoardState), crate::fen::FenError>(
        (next - 1, cur.with(p, kind, cur.spec_get(p, kind) | single(next - 1))),
    ));
}

/// Reading the mark between two ranks.
proof fn lemma_read_slash(t: Seq<char>, i: int, end: int, next: int, cur: BoardState)
    requires
        0 <= i < end <= t.len(),
        t[i] == '/',
    ensures
        spec_placement(t, i, end, next, cur) == spec_placement(t, i + 1, end, next, cur),
{
    assert(spec_piece_of('/') is None);
    assert(spec_skip_of('/') is None);
    assert(spec_place_char(t[i], next, cur) == Ok::<(int, BoardState), crate::fen::FenError>(
        (next, cur),
    ));
}

/// Putting the piece of square `j` onto a board that holds the pieces
/// above it.
proof fn lemma_piece_added(cur: BoardState, board: BoardState, j: int)
    requires
        0 <= j < 64,
        board.disjoint(),
        holds_from(cur, board, j + 1),
    ensures
        match board.spec_type_at(single(j)) {
            Some(x) => holds_from(
                cur.with(x.0, x.1, cur.spec_get(x.0, x.1) | single(j)),
                board,
                j,
            ),
            None => holds_from(cur, board, j),
        },
{
    broadcast use lemma_with_get, lemma_bit_or, lemma_bit_single;

    lemma_type_at(board, j);
    match board.spec_type_at(single(j)) {
        Some(x) => {
            let after = cur.with(x.0, x.1, cur.spec_get(x.0, x.1) | single(j));
            assert forall|p: Player, t: PieceType, i: int| #[trigger]
                bit(after.spec_get(p, t), i) == (j <= i && bit(board.spec_get(p, t), i)) by {
                assert(bit(cur.spec_get(p, t), i) == (j + 1 <= i && bit(board.spec_get(p, t), i)));
                if p == x.0 && t == x.1 {
                    assert(after.spec_get(p, t) == cur.spec_get(p, t) | single(j));
                } else {
                    assert(after.spec_get(p, t) == cur.spec_get(p, t));
                    if bit(board.spec_get(p, t), j) {
                        assert(bit(board.spec_get(x.0, x.1), j));
                    }
                }
            }
        },
        None => {
            assert forall|p: Player, t: PieceType, i: int| #[trigger]
                bit(cur.spec_get(p, t), i) == (j <= i && bit(board.spec_get(p, t), i)) by {
                assert(bit(cur.spec_get(p, t), i) == (j + 1 <= i && bit(board.spec_get(p, t), i)));
                if i == j {
                    assert(!bit(board.spec_get(p, t), j));
                }
            }
        },
    }
}

/// The placement text reads back: where the text written for the squares
/// below `n` stands at the start of `t`, reading it on from the end of
/// `acc`, with the pieces above `n` placed, places every piece of the
/// board. The text holds no space.
pub proof fn lemma_placement_reads(
    board: BoardState,
    n: int,
    run: int,
    acc: Seq<char>,
    t: Seq<char>,
    cur: BoardState,
)
    requires
        board.disjoint(),
        0 <= n <= 64,
        0 <= run <= (8 - n % 8) % 8,
        holds_from(cur, board, n),
        spec_placement_text(board, n, run, acc).len() <= t.len(),
        forall|k: int|
            0 <= k < spec_placement_text(board, n, run, acc).len() ==> t[k] == spec_placement_text(
                board,
                n,
                run,
                acc,
            )[k],
    ensures
        acc.len() <= spec_placement_text(board, n, run, acc).len(),
        forall|k: int| 0 <= k < acc.len() ==> spec_placement_text(board, n, run, acc)[k] == acc[k],
        forall|k: int| acc.len() <= k < spec_placement_text(board, n, run, acc).len() ==> t[k] != ' ',
        match spec_placement(
            t,
            acc.len() as int,
            spec_placement_text(board, n, run, acc).len() as int,
            n + run,
            cur,
        ) {
            Ok(placed) => holds_from(placed, board, 0) && placed.castle_memory == cur.castle_memory
                && placed.en_passant_square == cur.en_passant_square,
            Err(e) => false,
        },
    decreases n,
{
    broadcast use lemma_with_get;

    let full = spec_placement_text(board, n, run, acc);
    if n > 0 {
        let j = n - 1;
        let here = board.spec_type_at(single(j));
        lemma_piece_added(cur, board, j);
        let front = match here {
            None => Seq::<char>::empty(),
            Some(x) => spec_run(run) + seq![spec_piece_letter(x.0, x.1)],
        };
        let run1 = match here {
            None => run + 1,
            Some(x) => 0,
        };
        let cur1 = match here {
            None => cur,
            Some(x) => cur.with(x.0, x.1, cur.spec_get(x.0, x.1) | single(j)),
        };
        let back = if j % 8 == 0 {
            spec_run(run1) + if j != 0 {
                seq!['/']
            } else {
                Seq::<char>::empty()
            }
        } else {
            Seq::<char>::empty()
        };
        let run2 = if j % 8 == 0 {
            0
        } else {
            run1
        };
        let acc2 = acc + front + back;
        assert(full == spec_placement_text(board, n - 1, run2, acc2)) by {
            match here {
                None => {
                    assert(acc + front =~= acc);
                },
                Some(x) => {
                    assert(acc + front =~= acc + spec_run(run) + seq![spec_piece_letter(x.0, x.1)]);
                },
            }
            if j % 8 == 0 {
                assert(acc + front + back =~= acc + front + spec_run(run1) + if j != 0 {
                    seq!['/']
                } else {
                    Seq::<char>::empty()
                });
            } else {
                assert(acc + front + back =~= acc + front);
            }
        }
        lemma_placement_reads(board, n - 1, run2, acc2, t, cur1);
        let end = full.len() as int;
        let i0 = acc.len() as int;
        let i1 = i0 + front.len();
        let i2 = i1 + back.len();
        assert(i2 == acc2.len());
        assert forall|k: int| 0 <= k < front.len() implies t[i0 + k] == front[k] by {
            assert(full[i0 + k] == acc2[i0 + k]);
        }
        assert forall|k: int| 0 <= k < back.len() implies t[i1 + k] == back[k] by {
            assert(full[i1 + k] == acc2[i1 + k]);
        }
        assert forall|k: int| 0 <= k < acc.len() implies full[k] == acc[k] by {
            assert(full[k] == acc2[k]);
        }
        // The part written for a piece: the run before it and its letter.
        assert(spec_placement(t, i0, end, n + run, cur) == spec_placement(t, i1, end, j + run1, cur1)
            && forall|k: int| i0 <= k < i1 ==> t[k] != ' ') by {
            match here {
                None => {},
                Some(x) => {
                    let digits = spec_run(run).len() as int;
                    assert forall|k: int| 0 <= k < digits implies t[i0 + k] == spec_run(run)[k] by {
                        assert(t[i0 + k] == front[k]);
                    }
                    lemma_read_run(t, i0, end, n + run, cur, run);
                    assert(t[i0 + digits] == front[digits]);
                    lemma_read_letter(t, i0 + digits, end, n, cur, x.0, x.1);
                },
            }
        }
        // The part written at the end of a rank: the run that is left and the mark.
        assert(spec_placement(t, i1, end, j + run1, cur1) == spec_placement(t, i2, end, j + run2, cur1)
            && forall|k: int| i1 <= k < i2 ==> t[k] != ' ') by {
            if j % 8 == 0 {
                let digits = spec_run(run1).len() as int;
                assert forall|k: int| 0 <= k < digits implies t[i1 + k] == spec_run(run1)[k] by {
                    assert(t[i1 + k] == back[k]);
                }
                lemma_read_run(t, i1, end, j + run1, cur1, run1);
                if j != 0 {
                    assert(t[i1 + digits] == back[digits]);
                    lemma_read_slash(t, i1 + digits, end, j, cur1);
                }
            }
        }
    }
}

/// Whether the castling memory grants `p` the right to castle on the
/// king's side, or on the queen's: king and rook both keep their memory.
pub open spec fn has_right(board: BoardState, p: Player, kingside: bool) -> bool {
    board.castle_memory & king_place(p) != 0 && board.castle_memory & (if kingside {
        kingside_rook(p)
    } else {
        queenside_rook(p)
    }) != 0
}

/// The castling memory that holds the rights that `board` grants and
/// nothing else: for each right the starting squares of its king and rook.
pub open spec fn plain_memory(board: BoardState) -> u64 {
    (if has_right(board, Player::PLAYER1, true) {
        0x9u64
    } else {
        0
    }) | (if has_right(board, Player::PLAYER2, true) {
        0x0900_0000_0000_0000u64
    } else {
        0
    }) | (if has_right(board, Player::PLAYER1, false) {
        0x88u64
    } else {
        0
    }) | (if has_right(board, Player::PLAYER2, false) {
        0x8800_0000_0000_0000u64
    } else {
        0
    })
}

/// Whether the castling memory holds nothing but the rights it grants.
/// This is so of every position that a text sets up, and of the start of
/// a game; a king whose rooks have both moved keeps a memory that grants
/// nothing.
pub open spec fn castle_plain(board: BoardState) -> bool {
    board.castle_memory == plain_memory(board)
}

/// The board with its castling memory reduced to the rights it grants.
pub open spec fn spec_plain(board: BoardState) -> BoardState {
    BoardState {
        piece_state: board.piece_state,
        castle_memory: plain_memory(board),
        en_passant_square: board.en_passant_square,
    }
}

proof fn bv_rights(a: u64, b: u64, c: u64, d: u64)
    by (bit_vector)
    requires
        a == 0 || a == 0x9,
        b == 0 || b == 0x0900_0000_0000_0000,
        c == 0 || c == 0x88,
        d == 0 || d == 0x8800_0000_0000_0000,
    ensures
        ((a | b | c | d) & 0x8 != 0 && (a | b | c | d) & 0x1 != 0) == (a != 0),
        ((a | b | c | d) & 0x0800_0000_0000_0000 != 0 && (a | b | c | d) & 0x0100_0000_0000_0000
            != 0) == (b != 0),
        ((a | b | c | d) & 0x8 != 0 && (a | b | c | d) & 0x80 != 0) == (c != 0),
        ((a | b | c | d) & 0x0800_0000_0000_0000 != 0 && (a | b | c | d) & 0x8000_0000_0000_0000
            != 0) == (d != 0),
        ((a | b | c | d) & 0x8 != 0) == (a != 0 || c != 0),
        ((a | b | c | d) & 0x0800_0000_0000_0000 != 0) == (b != 0 || d != 0),
        ((a | b | c | d) & 0x1 != 0) == (a != 0),
        ((a | b | c | d) & 0x80 != 0) == (c != 0),
        ((a | b | c | d) & 0x0100_0000_0000_0000 != 0) == (b != 0),
        ((a | b | c | d) & 0x8000_0000_0000_0000 != 0) == (d != 0),
        a != 0 && b != 0 && c != 0 && d != 0 ==> (a | b | c | d) == 0x8900_0000_0000_0089,
{
}

/// The castling memory that a rights field stands for holds nothing but
/// the rights it grants.
pub proof fn lemma_read_rights_plain(s: Seq<char>, start: int, end: int, board: BoardState)
    requires
        board.castle_memory == spec_castle_field(s, start, end),
    ensures
        castle_plain(board),
        has_right(board, Player::PLAYER1, true) == spec_holds_char(s, start, end, 'K'),
        has_right(board, Player::PLAYER2, true) == spec_holds_char(s, start, end, 'k'),
        has_right(board, Player::PLAYER1, false) == spec_holds_char(s, start, end, 'Q'),
        has_right(board, Player::PLAYER2, false) == spec_holds_char(s, start, end, 'q'),
{
    let a = if spec_holds_char(s, start, end, 'K') {
        0x9u64
    } else {
        0
    };
    let b = if spec_holds_char(s, start, end, 'k') {
        0x0900_0000_0000_0000u64
    } else {
        0
    };
    let c = if spec_holds_char(s, start, end, 'Q') {
        0x88u64
    } else {
        0
    };
    let d = if spec_holds_char(s, start, end, 'q') {
        0x8800_0000_0000_0000u64
    } else {
        0
    };
    bv_rights(a, b, c, d);
}

/// What is in a text that is one after the other.
proof fn lemma_contains_both(a: Seq<char>, b: Seq<char>, x: char)
    ensures
        (a + b).contains(x) == (a.contains(x) || b.contains(x)),
{
    if a.contains(x) {
        let k = choose|k: int| 0 <= k < a.len() && a[k] == x;
        assert((a + b)[k] == x);
    }
    if b.contains(x) {
        let k = choose|k: int| 0 <= k < b.len() && b[k] == x;
        assert((a + b)[a.len() + k] == x);
    }
    if (a + b).contains(x) {
        let k = choose|k: int| 0 <= k < (a + b).len() && (a + b)[k] == x;
        if k < a.len() {
            assert(a[k] == x);
        } else {
            assert(b[k - a.len()] == x);
        }
    }
}

/// The letters of one player's rights.
proof fn lemma_rights_letters(board: BoardState, p: Player, x: char)
    ensures
        spec_rights(board, p).contains(x) == ((has_right(board, p, true) && x == spec_piece_letter(
            p,
            PieceType::KING,
        )) || (has_right(board, p, false) && x == spec_piece_letter(p, PieceType::QUEEN))),
        (spec_rights(board, p).len() > 0) == (has_right(board, p, true) || has_right(board, p, false)),
{
    let k = if board.castle_memory & kingside_rook(p) != 0 {
        seq![spec_piece_letter(p, PieceType::KING)]
    } else {
        Seq::<char>::empty()
    };
    let q = if board.castle_memory & queenside_rook(p) != 0 {
        seq![spec_piece_letter(p, PieceType::QUEEN)]
    } else {
        Seq::<char>::empty()
    };
    lemma_contains_both(k, q, x);
    if k.len() > 0 {
        assert(k[0] == spec_piece_letter(p, PieceType::KING));
    }
    if q.len() > 0 {
        assert(q[0] == spec_piece_letter(p, PieceType::QUEEN));
    }
}

/// The rights field reads back: where the castling text of a board stands
/// in `t` from `start` on, each letter is found in it exactly where the
/// board grants its right. The text holds no space.
pub proof fn lemma_rights_read(board: BoardState, t: Seq<char>, start: int)
    requires
        0 <= start,
        start + spec_castle_text(board).len() <= t.len(),
        forall|k: int|
            0 <= k < spec_castle_text(board).len() ==> t[start + k] == spec_castle_text(board)[k],
    ensures
        spec_castle_text(board).len() >= 1,
        forall|k: int| start <= k < start + spec_castle_text(board).len() ==> t[k] != ' ',
        spec_holds_char(t, start, start + spec_castle_text(board).len(), 'K') == has_right(
            board,
            Player::PLAYER1,
            true,
        ),
        spec_holds_char(t, start, start + spec_castle_text(board).len(), 'k') == has_right(
            board,
            Player::PLAYER2,
            true,
        ),
        spec_holds_char(t, start, start + spec_castle_text(board).len(), 'Q') == has_right(
            board,
            Player::PLAYER1,
            false,
        ),
        spec_holds_char(t, start, start + spec_castle_text(board).len(), 'q') == has_right(
            board,
            Player::PLAYER2,
            false,
        ),
{
    let c = spec_castle_text(board);
    let r1 = spec_rights(board, Player::PLAYER1);
    let r2 = spec_rights(board, Player::PLAYER2);
    let end = start + c.len();
    assert forall|x: char|
        x == 'K' || x == 'k' || x == 'Q' || x == 'q' || x == ' ' implies (#[trigger] c.contains(x)
        == ((x == 'K' && has_right(board, Player::PLAYER1, true)) || (x == 'k' && has_right(
        board,
        Player::PLAYER2,
        true,
    )) || (x == 'Q' && has_right(board, Player::PLAYER1, false)) || (x == 'q' && has_right(
        board,
        Player::PLAYER2,
        false,
    )))) by {
        lemma_rights_letters(board, Player::PLAYER1, x);
        lemma_rights_letters(board, Player::PLAYER2, x);
        lemma_contains_both(r1, r2, x);
        if (r1 + r2).len() == 0 {
            assert(c =~= seq!['-']);
            if c.contains(x) {
                let k = choose|k: int| 0 <= k < c.len() && c[k] == x;
                assert(c[k] == '-');
            }
        }
    }
    assert forall|x: char| #[trigger] spec_holds_char(t, start, end, x) == c.contains(x) by {
        if c.contains(x) {
            let k = choose|k: int| 0 <= k < c.len() && c[k] == x;
            assert(t[start + k] == x);
        }
        if spec_holds_char(t, start, end, x) {
            let i = choose|i: int| start <= i < end && t[i] == x;
            assert(t[start + (i - start)] == c[i - start]);
        }
    }
    assert(c.contains('K') == has_right(board, Player::PLAYER1, true));
    assert(c.contains('k') == has_right(board, Player::PLAYER2, true));
    assert(c.contains('Q') == has_right(board, Player::PLAYER1, false));
    assert(c.contains('q') == has_right(board, Player::PLAYER2, false));
    assert(!c.contains(' '));
    assert forall|k: int| start <= k < end implies t[k] != ' ' by {
        assert(t[start + (k - start)] == c[k - start]);
        assert(c.contains(c[k - start]));
    }
}

/// The half-move clock is no negative number.
pub proof fn lemma_clock_counts(history: Seq<(Move, u64, u64)>, first: int)
    requires
        0 <= first,
    ensures
        0 <= spec_clock(history, first) <= first + history.len(),
    decreases history.len(),
{
    if history.len() > 0 {
        lemma_clock_counts(history.drop_last(), first);
    }
}

/// The en-passant field reads back.
proof fn lemma_target_reads(board: BoardState, to_move: Player, t: Seq<char>, start: int, end: int)
    requires
        board.en_passant_wf(to_move),
        0 <= start,
        end <= t.len(),
        board.en_passant_square != 0 ==> end == start + 2 && t[start] == spec_place_letters(
            board.en_passant_square,
        )[0] && t[start + 1] == spec_place_letters(board.en_passant_square)[1],
        board.en_passant_square == 0 ==> end == start + 1 && t[start] == '-',
    ensures
        spec_en_passant_field(t, start, end) == Ok::<u64, crate::fen::FenError>(
            board.en_passant_square,
        ),
        forall|k: int| start <= k < end ==> t[k] != ' ',
{
    if board.en_passant_square != 0 {
        let e = sq(board.en_passant_square);
        let x = file_of(e);
        let y = rank_of(e);
        assert(0 <= x <= 7 && 0 <= y <= 7);
        assert(t[start] == spec_file_letter(x));
        assert(t[start + 1] == spec_digit(y + 1));
        assert(spec_file_of_letter(spec_file_letter(x)) == Some(x));
        assert(spec_skip_of(spec_digit(y + 1)) == Some(y + 1));
        assert(t[start] != '-');
        assert((y + 1 - 1) * 8 + x == e);
    }
}

/// Where the six fields of the text of a position end.
pub open spec fn spec_ends(pos: Position) -> (int, int, int, int, int, int) {
    let e0 = spec_placement_text(pos.board, 64, 0, Seq::<char>::empty()).len() as int;
    let e1 = e0 + 2;
    let e2 = e1 + 1 + spec_castle_text(pos.board).len();
    let e3 = e2 + 1 + if pos.board.en_passant_square != 0 {
        2int
    } else {
        1int
    };
    let e4 = e3 + 1 + spec_decimal(pos.spec_halfmove_clock()).len();
    let e5 = e4 + 1 + spec_decimal(pos.spec_move_number()).len();
    (e0, e1, e2, e3, e4, e5)
}

/// The text of a position is its six fields, each in its place, with one
/// space between them.
proof fn lemma_layout(pos: Position)
    ensures
        ({
            let t = pos.spec_fen();
            let ends = spec_ends(pos);
            let p = spec_placement_text(pos.board, 64, 0, Seq::<char>::empty());
            let c = spec_castle_text(pos.board);
            let h = spec_decimal(pos.spec_halfmove_clock());
            let f = spec_decimal(pos.spec_move_number());
            &&& t.len() == ends.5
            &&& forall|k: int| 0 <= k < p.len() ==> t[k] == p[k]
            &&& t[ends.0] == ' '
            &&& t[ends.0 + 1] == if pos.current_player == Player::PLAYER1 {
                'w'
            } else {
                'b'
            }
            &&& t[ends.1] == ' '
            &&& forall|k: int| 0 <= k < c.len() ==> t[ends.1 + 1 + k] == c[k]
            &&& t[ends.2] == ' '
            &&& pos.board.en_passant_square != 0 ==> t[ends.2 + 1] == spec_place_letters(
                pos.board.en_passant_square,
            )[0] && t[ends.2 + 2] == spec_place_letters(pos.board.en_passant_square)[1]
            &&& pos.board.en_passant_square == 0 ==> t[ends.2 + 1] == '-'
            &&& t[ends.3] == ' '
            &&& forall|k: int| 0 <= k < h.len() ==> t[ends.3 + 1 + k] == h[k]
            &&& t[ends.4] == ' '
            &&& forall|k: int| 0 <= k < f.len() ==> t[ends.4 + 1 + k] == f[k]
        }),
{
    let board = pos.board;
    let p = spec_placement_text(board, 64, 0, Seq::<char>::empty());
    let side = if pos.current_player == Player::PLAYER1 {
        seq![' ', 'w', ' ']
    } else {
        seq![' ', 'b', ' ']
    };
    let c = spec_castle_text(board);
    let e = if board.en_passant_square != 0 {
        spec_place_letters(board.en_passant_square)
    } else {
        seq!['-']
    };
    let h = spec_decimal(pos.spec_halfmove_clock());
    let f = spec_decimal(pos.spec_move_number());
    let gap = seq![' '];
    let t1 = p + side;
    let t2 = t1 + c;
    let t3 = t2 + gap;
    let t4 = t3 + e;
    let t5 = t4 + gap;
    let t6 = t5 + h;
    let t7 = t6 + gap;
    let t = t7 + f;
    assert(t == pos.spec_fen());
    let e0 = p.len() as int;
    let e1 = e0 + 2;
    let e2 = e1 + 1 + c.len();
    let e3 = e2 + 1 + e.len();
    let e4 = e3 + 1 + h.len();
    let e5 = e4 + 1 + f.len();
    assert(spec_ends(pos) == (e0, e1, e2, e3, e4, e5));
    assert(t.len() == e5);
    assert forall|k: int| 0 <= k < p.len() implies t[k] == p[k] by {
        assert(t7[k] == t6[k] && t6[k] == t5[k] && t5[k] == t4[k] && t4[k] == t3[k] && t3[k]
            == t2[k] && t2[k] == t1[k]);
    }
    assert forall|k: int| 0 <= k < 3 implies t[e0 + k] == side[k] by {
        let i = e0 + k;
        assert(t7[i] == t6[i] && t6[i] == t5[i] && t5[i] == t4[i] && t4[i] == t3[i] && t3[i]
            == t2[i] && t2[i] == t1[i]);
    }
    assert(t[e0 + 0] == side[0] && t[e0 + 1] == side[1] && t[e0 + 2] == side[2]);
    assert forall|k: int| 0 <= k < c.len() implies t[e1 + 1 + k] == c[k] by {
        let i = e1 + 1 + k;
        assert(t7[i] == t6[i] && t6[i] == t5[i] && t5[i] == t4[i] && t4[i] == t3[i] && t3[i]
            == t2[i]);
    }
    assert(t[e2] == ' ') by {
        assert(t7[e2] == t6[e2] && t6[e2] == t5[e2] && t5[e2] == t4[e2] && t4[e2] == t3[e2]);
        assert(t3[e2] == gap[0]);
    }
    assert forall|k: int| 0 <= k < e.len() implies t[e2 + 1 + k] == e[k] by {
        let i = e2 + 1 + k;
        assert(t7[i] == t6[i] && t6[i] == t5[i] && t5[i] == t4[i]);
    }
    assert(t[e2 + 1 + 0] == e[0]);
    if board.en_passant_square != 0 {
        assert(t[e2 + 1 + 1] == e[1]);
    }
    assert(t[e3] == ' ') by {
        assert(t7[e3] == t6[e3] && t6[e3] == t5[e3]);
        assert(t5[e3] == gap[0]);
    }
    assert forall|k: int| 0 <= k < h.len() implies t[e3 + 1 + k] == h[k] by {
        let i = e3 + 1 + k;
        assert(t7[i] == t6[i]);
    }
    assert(t[e4] == ' ') by {
        assert(t7[e4] == gap[0]);
    }
    assert forall|k: int| 0 <= k < f.len() implies t[e4 + 1 + k] == f[k] by {}
}

/// What each field of the text of a position reads as.
proof fn lemma_fields(pos: Position, empty: BoardState)
    requires
        is_empty_board(empty),
        pos.board.wf(pos.current_player),
        0 <= pos.spec_halfmove_clock() <= u64::MAX,
        0 <= pos.spec_move_number() <= u64::MAX,
    ensures
        ({
            let t = pos.spec_fen();
            let ends = spec_ends(pos);
            &&& ends.5 == t.len()
            &&& spec_field_end(t, 0) == ends.0
            &&& spec_field_end(t, ends.0 + 1) == ends.1
            &&& spec_field_end(t, ends.1 + 1) == ends.2
            &&& spec_field_end(t, ends.2 + 1) == ends.3
            &&& spec_field_end(t, ends.3 + 1) == ends.4
            &&& spec_field_end(t, ends.4 + 1) == ends.5
            &&& 0 <= ends.0 < ends.1 < ends.2 < ends.3 < ends.4 < ends.5
            &&& match spec_placement(t, 0, ends.0, 64, empty) {
                Ok(placed) => holds_from(placed, pos.board, 0),
                Err(e) => false,
            }
            &&& spec_side_field(t, ends.0 + 1, ends.1) == Ok::<Player, crate::fen::FenError>(
                pos.current_player,
            )
            &&& spec_holds_char(t, ends.1 + 1, ends.2, 'K') == has_right(
                pos.board,
                Player::PLAYER1,
                true,
            )
            &&& spec_holds_char(t, ends.1 + 1, ends.2, 'k') == has_right(
                pos.board,
                Player::PLAYER2,
                true,
            )
            &&& spec_holds_char(t, ends.1 + 1, ends.2, 'Q') == has_right(
                pos.board,
                Player::PLAYER1,
                false,
            )
            &&& spec_holds_char(t, ends.1 + 1, ends.2, 'q') == has_right(
                pos.board,
                Player::PLAYER2,
                false,
            )
            &&& spec_en_passant_field(t, ends.2 + 1, ends.3) == Ok::<u64, crate::fen::FenError>(
                pos.board.en_passant_square,
            )
            &&& spec_counter_field(t, ends.3 + 1, ends.4, 0) == Ok::<u64, crate::fen::FenError>(
                pos.spec_halfmove_clock() as u64,
            )
            &&& spec_counter_field(t, ends.4 + 1, ends.5, 1) == Ok::<u64, crate::fen::FenError>(
                pos.spec_move_number() as u64,
            )
        }),
{
    broadcast use lemma_bit_zero;

    let board = pos.board;
    let t = pos.spec_fen();
    let ends = spec_ends(pos);
    let p = spec_placement_text(board, 64, 0, Seq::<char>::empty());
    lemma_layout(pos);
    assert(holds_from(empty, board, 64)) by {
        assert forall|q: Player, u: PieceType, j: int| #[trigger]
            bit(empty.spec_get(q, u), j) == (64 <= j && bit(board.spec_get(q, u), j)) by {
            assert(empty.spec_get(q, u) == 0);
        }
    }
    lemma_placement_reads(board, 64, 0, Seq::<char>::empty(), t, empty);
    lemma_field_end(t, 0, ends.0);
    lemma_field_end(t, ends.0 + 1, ends.1);
    lemma_rights_read(board, t, ends.1 + 1);
    lemma_field_end(t, ends.1 + 1, ends.2);
    lemma_target_reads(board, pos.current_player, t, ends.2 + 1, ends.3);
    lemma_field_end(t, ends.2 + 1, ends.3);
    lemma_decimal_reads(pos.spec_halfmove_clock(), t, ends.3 + 1);
    lemma_field_end(t, ends.3 + 1, ends.4);
    lemma_decimal_reads(pos.spec_move_number(), t, ends.4 + 1);
    lemma_field_end(t, ends.4 + 1, ends.5);
}

/// Position text round trip: the text of a position sets up that position
/// again, with the player to move, the board bit for bit, and the two
/// counters that the text shows. This holds of every position on which
/// moves can be generated and whose castling memory holds nothing but the
/// rights it grants, as long as the counters fit in 64 bits.
pub proof fn lemma_text_round_trip(pos: Position, empty: BoardState)
    requires
        is_empty_board(empty),
        pos.board.legal(pos.current_player),
        castle_plain(pos.board),
        pos.spec_halfmove_clock() <= u64::MAX,
        pos.spec_move_number() <= u64::MAX,
    ensures
        spec_parse_fen(pos.spec_fen(), empty) == Ok::<
            (Player, BoardState, u64, u64),
            crate::fen::FenError,
        >(
            (
                pos.current_player,
                pos.board,
                pos.spec_halfmove_clock() as u64,
                pos.spec_move_number() as u64,
            ),
        ),
{
    let board = pos.board;
    let t = pos.spec_fen();
    let ends = spec_ends(pos);
    lemma_clock_counts(pos.history, pos.start_clock as int);
    lemma_fields(pos, empty);
    let placed = spec_placement(t, 0, ends.0, 64, empty)->Ok_0;
    assert(spec_castle_field(t, ends.1 + 1, ends.2) == board.castle_memory);
    let read = BoardState {
        piece_state: placed.piece_state,
        castle_memory: board.castle_memory,
        en_passant_square: board.en_passant_square,
    };
    assert forall|q: Player, u: PieceType| #[trigger] read.spec_get(q, u) == board.spec_get(q, u) by {
        assert(read.spec_get(q, u) == placed.spec_get(q, u));
        assert forall|j: int| 0 <= j < 64 implies #[trigger] bit(placed.spec_get(q, u), j) == bit(
            board.spec_get(q, u),
            j,
        ) by {}
        lemma_bits_equal(placed.spec_get(q, u), board.spec_get(q, u));
    }
    lemma_board_equal(read, board);
}

/// A position that a text sets up is written as a text that sets it up
/// again: what is read from a text has a castling memory that holds
/// nothing but the rights it grants.
pub proof fn lemma_read_then_written_reads_alike(s: Seq<char>, empty: BoardState)
    requires
        is_empty_board(empty),
        spec_parse_fen(s, empty) is Ok,
    ensures
        ({
            let read = spec_parse_fen(s, empty)->Ok_0;
            let pos = Position {
                current_player: read.0,
                board: read.1,
                history: Seq::empty(),
                start_clock: read.2,
                start_number: read.3,
            };
            spec_parse_fen(pos.spec_fen(), empty) == spec_parse_fen(s, empty)
        }),
{
    let read = spec_parse_fen(s, empty)->Ok_0;
    let pos = Position {
        current_player: read.0,
        board: read.1,
        history: Seq::empty(),
        start_clock: read.2,
        start_number: read.3,
    };
    let e0 = spec_field_end(s, 0);
    let e1 = spec_field_end(s, e0 + 1);
    let e2 = spec_field_end(s, e1 + 1);
    assert(read.1.castle_memory == spec_castle_field(s, e1 + 1, e2));
    lemma_read_rights_plain(s, e1 + 1, e2, read.1);
    lemma_text_round_trip(pos, empty);
}

/// The placement text of a board is that of its bitboards.
proof fn lemma_plain_placement(board: BoardState, n: int, run: int, acc: Seq<char>)
    ensures
        spec_placement_text(spec_plain(board), n, run, acc) == spec_placement_text(board, n, run, acc),
    decreases n,
{
    if n > 0 {
        let j = n - 1;
        let plain = spec_plain(board);
        assert(forall|q: Player, t: PieceType| #[trigger]
            plain.spec_get(q, t) == board.spec_get(q, t));
        assert(plain.spec_kind_at(Player::PLAYER1, single(j)) == board.spec_kind_at(
            Player::PLAYER1,
            single(j),
        ));
        assert(plain.spec_kind_at(Player::PLAYER2, single(j)) == board.spec_kind_at(
            Player::PLAYER2,
            single(j),
        ));
        let here = board.spec_type_at(single(j));
        assert(plain.spec_type_at(single(j)) == here);
        let acc1 = match here {
            None => acc,
            Some(x) => acc + spec_run(run) + seq![spec_piece_letter(x.0, x.1)],
        };
        let run1 = match here {
            None => run + 1,
            Some(x) => 0,
        };
        if j % 8 == 0 {
            lemma_plain_placement(
                board,
                n - 1,
                0,
                acc1 + spec_run(run1) + if j != 0 {
                    seq!['/']
                } else {
                    Seq::<char>::empty()
                },
            );
        } else {
            lemma_plain_placement(board, n - 1, run1, acc1);
        }
    }
}

/// Reducing the castling memory to the rights it grants keeps the rights
/// and the text, and a position on which moves can be generated stays one.
pub proof fn lemma_plain_keeps(board: BoardState, p: Player)
    requires
        board.legal(p),
    ensures
        spec_plain(board).legal(p),
        castle_plain(spec_plain(board)),
        forall|q: Player, side: bool| #[trigger]
            has_right(spec_plain(board), q, side) == has_right(board, q, side),
        spec_castle_text(spec_plain(board)) == spec_castle_text(board),
{
    let a = if has_right(board, Player::PLAYER1, true) {
        0x9u64
    } else {
        0
    };
    let b = if has_right(board, Player::PLAYER2, true) {
        0x0900_0000_0000_0000u64
    } else {
        0
    };
    let c = if has_right(board, Player::PLAYER1, false) {
        0x88u64
    } else {
        0
    };
    let d = if has_right(board, Player::PLAYER2, false) {
        0x8800_0000_0000_0000u64
    } else {
        0
    };
    bv_rights(a, b, c, d);
    let plain = spec_plain(board);
    assert forall|q: Player, side: bool| #[trigger]
        has_right(plain, q, side) == has_right(board, q, side) by {
        match q {
            Player::PLAYER1 => {},
            Player::PLAYER2 => {},
        }
    }
    assert forall|q: Player| #[trigger] spec_rights(plain, q) == spec_rights(board, q) by {
        match q {
            Player::PLAYER1 => {},
            Player::PLAYER2 => {},
        }
        assert(spec_rights(plain, q) =~= spec_rights(board, q));
    }
    assert(forall|q: Player, t: PieceType| #[trigger] plain.spec_get(q, t) == board.spec_get(q, t));
    assert(plain.spec_all_occupancy() == board.spec_all_occupancy());
    assert(plain.castle_wf(Player::PLAYER1));
    assert(plain.castle_wf(Player::PLAYER2));
    assert(plain.disjoint());
    assert(plain.en_passant_wf(p)) by {
        assert(plain.free(sq(plain.en_passant_square)) == board.free(sq(board.en_passant_square)));
    }
    assert(plain.wf(p));
    let attacker = p;
    let victim = p.spec_other();
    let occ = board.spec_all_occupancy();
    let k = sq(board.spec_get(victim, PieceType::KING));
    assert forall|x: int| #[trigger]
        attacks_from(plain, attacker, occ, x, k) == attacks_from(board, attacker, occ, x, k) by {}
    if king_attacked(plain, victim) {
        let x = choose|x: int| #[trigger] attacks_from(plain, attacker, occ, x, k);
        assert(attacks_from(board, attacker, occ, x, k));
    }
    if uncovered_by_en_passant(plain, p) {
        let (x, d) = choose|x: int, d: Dir|
            d.dx() != 0 && d.dy() != 0 && #[trigger] shields(plain, p, passed_pawn(plain, p), x, d);
        assert(passed_pawn(plain, p) == passed_pawn(board, p));
        let f = passed_pawn(board, p);
        let t = choose|t: PieceType| slides(t, d) && #[trigger] bit(plain.spec_get(p.spec_other(), t), x);
        assert(bit(board.spec_get(p.spec_other(), t), x));
        assert(shields(board, p, f, x, d));
    }
}

/// Position text round trip, for every position on which moves can be
/// generated: its text sets up the position again, with the player to
/// move, every piece, the en-passant target and the two counters that the
/// text shows, and with the castling memory reduced to the rights it
/// grants.
pub proof fn lemma_text_sets_up(pos: Position, empty: BoardState)
    requires
        is_empty_board(empty),
        pos.board.legal(pos.current_player),
        pos.spec_halfmove_clock() <= u64::MAX,
        pos.spec_move_number() <= u64::MAX,
    ensures
        spec_parse_fen(pos.spec_fen(), empty) == Ok::<
            (Player, BoardState, u64, u64),
            crate::fen::FenError,
        >(
            (
                pos.current_player,
                spec_plain(pos.board),
                pos.spec_halfmove_clock() as u64,
                pos.spec_move_number() as u64,
            ),
        ),
{
    let plain = Position {
        current_player: pos.current_player,
        board: spec_plain(pos.board),
        history: pos.history,
        start_clock: pos.start_clock,
        start_number: pos.start_number,
    };
    lemma_plain_keeps(pos.board, pos.current_player);
    lemma_plain_placement(pos.board, 64, 0, Seq::<char>::empty());
    assert(plain.spec_fen() == pos.spec_fen());
    lemma_text_round_trip(plain, empty);
}

/// At the start of a game the castling memory holds the four rights and
/// nothing else.
pub proof fn lemma_start_plain(board: BoardState)
    requires
        is_start_board(board),
    ensures
        castle_plain(board),
        forall|q: Player, side: bool| #[trigger] has_right(board, q, side),
{
    bv_rights(0x9, 0x0900_0000_0000_0000, 0x88, 0x8800_0000_0000_0000);
    assert forall|q: Player, side: bool| #[trigger] has_right(board, q, side) by {
        match q {
            Player::PLAYER1 => {},
            Player::PLAYER2 => {},
        }
    }
}

/// A rook that is taken on its starting square takes its castling right
/// along, and no move brings a right back.
pub proof fn lemma_rights_spent(board: BoardState, player: Player, m: Move, q: Player, side: bool)
    ensures
        m.eaten_loc == (if side {
            kingside_rook(q)
        } else {
            queenside_rook(q)
        }) || m.from == (if side {
            kingside_rook(q)
        } else {
            queenside_rook(q)
        }) || m.from == king_place(q) ==> !has_right(board.spec_apply(player, m), q, side),
        has_right(board.spec_apply(player, m), q, side) ==> has_right(board, q, side),
{
    let rook = if side {
        kingside_rook(q)
    } else {
        queenside_rook(q)
    };
    lemma_memory_spent(board, player, m, rook);
    lemma_memory_spent(board, player, m, king_place(q));
}

/// How the counters go on with a move: the half-move clock starts again
/// at 0 with a move of a pawn and with a capture, and else grows by one;
/// the move number grows by one with each move of the second player.
pub proof fn lemma_counters_step(pos: Position, m: Move)
    ensures
        pos.spec_do_move(m).spec_halfmove_clock() == if m.start_type == PieceType::PAWN
            || m.eaten_loc != 0 {
            0
        } else {
            pos.spec_halfmove_clock() + 1
        },
        pos.spec_do_move(m).spec_move_number() == pos.spec_move_number() + if pos.current_player
            == Player::PLAYER2 {
            1int
        } else {
            0int
        },
{
    let after = pos.spec_do_move(m);
    assert(after.history.last().0 == m);
    assert(after.history.drop_last() =~= pos.history);
    assert(after.history.len() == pos.history.len() + 1);
}

/// The position that a text sets up, as far as the text says.
pub open spec fn spec_set_up(read: (Player, BoardState, u64, u64)) -> Position {
    Position {
        current_player: read.0,
        board: read.1,
        history: Seq::empty(),
        start_clock: read.2,
        start_number: read.3,
    }
}

/// The text of a position is kept: the position that it sets up is
/// written as the same text, letter for letter.
pub proof fn lemma_text_is_kept(pos: Position, empty: BoardState)
    requires
        is_empty_board(empty),
        pos.board.legal(pos.current_player),
        pos.spec_halfmove_clock() <= u64::MAX,
        pos.spec_move_number() <= u64::MAX,
    ensures
        spec_parse_fen(pos.spec_fen(), empty) is Ok,
        spec_set_up(spec_parse_fen(pos.spec_fen(), empty)->Ok_0).spec_fen() == pos.spec_fen(),
{
    lemma_text_sets_up(pos, empty);
    lemma_clock_counts(pos.history, pos.start_clock as int);
    lemma_plain_keeps(pos.board, pos.current_player);
    lemma_plain_placement(pos.board, 64, 0, Seq::<char>::empty());
    let again = spec_set_up(spec_parse_fen(pos.spec_fen(), empty)->Ok_0);
    assert(again.spec_halfmove_clock() == pos.spec_halfmove_clock());
    assert(again.spec_move_number() == pos.spec_move_number());
}

} // verus!
