//! Positions as text: six fields separated by single spaces — piece
//! placement from the highest square down, side to move, castling rights,
//! en-passant target, half-move clock and move number.
use vstd::prelude::*;
use crate::bit_help::{index, index_to_place};
use crate::bits::{
    bit, single, rest, lemma_rest, lemma_bit_or, lemma_bit_zero, lemma_bit_single, lemma_lowest,
    lemma_test_single, lemma_single_nonzero,
};
use crate::chess_impl::{BoardState, Chess, PieceType, Position, sq, lemma_holds, king_start};
use crate::legal_moves::{lemma_occupancy_bit, lemma_single_from_rest, lemma_no_common, lemma_common};
use crate::move_generation::{MoveTables};
use crate::bit_help::{distance, on_ray, sees, Dir};
use crate::move_generation::{attacks_as, attacks_from};
use crate::two_player_game::Player;

verus! {

/// Why a text is not a position.
#[derive(Debug, Clone, Copy, PartialEq, Eq, Structural)]
pub enum FenError {
    /// One of the first four fields is not there.
    MissingField,
    /// The placement holds a character that is no piece, digit or `/`.
    UnexpectedChar,
    /// The placement names more than 64 squares.
    TooManySquares,
    /// The side to move is neither `w` nor `b`.
    BadSide,
    /// The en-passant target is neither `-` nor a square.
    BadEnPassant,
    /// The half-move clock or the move number is there, but is no decimal
    /// numeral of at most 64 bits.
    BadCounter,
    /// The fields are read, but what they say is no position that a game
    /// can come to: a side without exactly one king, castling rights for a
    /// king that is not on its starting square, an en-passant target without
    /// the pawn that passed it, or the player who has just moved in check.
    IllegalPosition,
}

/// The owner and kind that a placement letter stands for.
pub open spec fn spec_piece_of(c: char) -> Option<(Player, PieceType)> {
    if c == 'p' {
        Some((Player::PLAYER2, PieceType::PAWN))
    } else if c == 'n' {
        Some((Player::PLAYER2, PieceType::KNIGHT))
    } else if c == 'b' {
        Some((Player::PLAYER2, PieceType::BISHOP))
    } else if c == 'r' {
        Some((Player::PLAYER2, PieceType::ROOK))
    } else if c == 'q' {
        Some((Player::PLAYER2, PieceType::QUEEN))
    } else if c == 'k' {
        Some((Player::PLAYER2, PieceType::KING))
    } else if c == 'P' {
        Some((Player::PLAYER1, PieceType::PAWN))
    } else if c == 'N' {
        Some((Player::PLAYER1, PieceType::KNIGHT))
    } else if c == 'B' {
        Some((Player::PLAYER1, PieceType::BISHOP))
    } else if c == 'R' {
        Some((Player::PLAYER1, PieceType::ROOK))
    } else if c == 'Q' {
        Some((Player::PLAYER1, PieceType::QUEEN))
    } else if c == 'K' {
        Some((Player::PLAYER1, PieceType::KING))
    } else {
        None
    }
}

/// The number of free squares that a placement digit stands for.
pub open spec fn spec_skip_of(c: char) -> Option<int> {
    if c == '1' {
        Some(1)
    } else if c == '2' {
        Some(2)
    } else if c == '3' {
        Some(3)
    } else if c == '4' {
        Some(4)
    } else if c == '5' {
        Some(5)
    } else if c == '6' {
        Some(6)
    } else if c == '7' {
        Some(7)
    } else if c == '8' {
        Some(8)
    } else {
        None
    }
}

/// The file coordinate that a file letter stands for: `h` is 0, `a` is 7.
pub open spec fn spec_file_of_letter(c: char) -> Option<int> {
    if c == 'h' {
        Some(0)
    } else if c == 'g' {
        Some(1)
    } else if c == 'f' {
        Some(2)
    } else if c == 'e' {
        Some(3)
    } else if c == 'd' {
        Some(4)
    } else if c == 'c' {
        Some(5)
    } else if c == 'b' {
        Some(6)
    } else if c == 'a' {
        Some(7)
    } else {
        None
    }
}

/// The board without pieces, castling memory or en-passant target.
pub open spec fn is_empty_board(b: BoardState) -> bool {
    &&& forall|p: Player, t: PieceType| #[trigger] b.spec_get(p, t) == 0
    &&& b.castle_memory == 0
    &&& b.en_passant_square == 0
}

/// Where the field that starts at `i` ends: at the next space, or at the
/// end of the text.
pub open spec fn spec_field_end(s: Seq<char>, i: int) -> int
    decreases s.len() - i,
{
    if i < 0 || i >= s.len() || s[i] == ' ' {
        i
    } else {
        spec_field_end(s, i + 1)
    }
}

/// Reading one character of the placement: `next` squares are left to fill,
/// from square `next - 1` down.
pub open spec fn spec_place_char(c: char, next: int, board: BoardState) -> Result<
    (int, BoardState),
    FenError,
> {
    if spec_piece_of(c) is Some {
        let piece = spec_piece_of(c)->0;
        if next <= 0 {
            Err(FenError::TooManySquares)
        } else {
            Ok(
                (
                    next - 1,
                    board.with(piece.0, piece.1, board.spec_get(piece.0, piece.1) | single(next - 1)),
                ),
            )
        }
    } else if spec_skip_of(c) is Some {
        if next < spec_skip_of(c)->0 {
            Err(FenError::TooManySquares)
        } else {
            Ok((next - spec_skip_of(c)->0, board))
        }
    } else if c == '/' {
        Ok((next, board))
    } else {
        Err(FenError::UnexpectedChar)
    }
}

/// Reading the placement characters from `i` up to `end`.
pub open spec fn spec_placement(s: Seq<char>, i: int, end: int, next: int, board: BoardState) -> Result<
    BoardState,
    FenError,
>
    decreases end - i,
{
    if i >= end {
        Ok(board)
    } else {
        match spec_place_char(s[i], next, board) {
            Err(e) => Err(e),
            Ok(x) => spec_placement(s, i + 1, end, x.0, x.1),
        }
    }
}

/// Whether the characters from `start` up to `end` hold `c`.
pub open spec fn spec_holds_char(s: Seq<char>, start: int, end: int, c: char) -> bool {
    exists|i: int| start <= i < end && #[trigger] s[i] == c
}

/// The castling memory that the rights field from `start` up to `end`
/// stands for: for each right the starting squares of its rook and king.
pub open spec fn spec_castle_field(s: Seq<char>, start: int, end: int) -> u64 {
    (if spec_holds_char(s, start, end, 'K') {
        0x9u64
    } else {
        0
    }) | (if spec_holds_char(s, start, end, 'k') {
        0x0900_0000_0000_0000u64
    } else {
        0
    }) | (if spec_holds_char(s, start, end, 'Q') {
        0x88u64
    } else {
        0
    }) | (if spec_holds_char(s, start, end, 'q') {
        0x8800_0000_0000_0000u64
    } else {
        0
    })
}

/// The side that the field from `start` up to `end` names.
pub open spec fn spec_side_field(s: Seq<char>, start: int, end: int) -> Result<Player, FenError> {
    if end - start == 1 && s[start] == 'w' {
        Ok(Player::PLAYER1)
    } else if end - start == 1 && s[start] == 'b' {
        Ok(Player::PLAYER2)
    } else {
        Err(FenError::BadSide)
    }
}

/// The en-passant target that the field from `start` up to `end` names:
/// none for `-`, else the square named by its first two characters.
pub open spec fn spec_en_passant_field(s: Seq<char>, start: int, end: int) -> Result<u64, FenError> {
    if end - start == 1 && s[start] == '-' {
        Ok(0)
    } else if end - start >= 2 && spec_file_of_letter(s[start]) is Some && spec_skip_of(s[start + 1])
        is Some {
        Ok(single((spec_skip_of(s[start + 1])->0 - 1) * 8 + spec_file_of_letter(s[start])->0))
    } else {
        Err(FenError::BadEnPassant)
    }
}

/// The value of a decimal digit.
pub open spec fn spec_digit_value(c: char) -> Option<int> {
    if c == '0' {
        Some(0)
    } else if c == '9' {
        Some(9)
    } else {
        spec_skip_of(c)
    }
}

/// Whether the characters from `start` up to `end` are decimal digits.
pub open spec fn spec_all_digits(s: Seq<char>, start: int, end: int) -> bool {
    forall|i: int| start <= i < end ==> (#[trigger] spec_digit_value(s[i])) is Some
}

/// The number that the digits from `start` up to `end` spell.
pub open spec fn spec_numeral(s: Seq<char>, start: int, end: int) -> int
    decreases end - start,
{
    if end <= start {
        0
    } else {
        spec_numeral(s, start, end - 1) * 10 + match spec_digit_value(s[end - 1]) {
            Some(d) => d,
            None => 0,
        }
    }
}

/// The counter that the field from `start` up to `end` holds: `absent`
/// where the text ends before the field, else the number that its digits
/// spell.
pub open spec fn spec_counter_field(s: Seq<char>, start: int, end: int, absent: u64) -> Result<
    u64,
    FenError,
> {
    if start > s.len() {
        Ok(absent)
    } else if start < end && spec_all_digits(s, start, end) && spec_numeral(s, start, end)
        <= u64::MAX {
        Ok(spec_numeral(s, start, end) as u64)
    } else {
        Err(FenError::BadCounter)
    }
}

/// What a position text says, with `empty` the board without pieces: who
/// moves, on what board, the half-move clock and the move number; or why
/// the text is no position. A text that ends after its fourth field has
/// the clock 0; one that ends after its fifth, the move number 1.
pub open spec fn spec_parse_fen(s: Seq<char>, empty: BoardState) -> Result<
    (Player, BoardState, u64, u64),
    FenError,
> {
    let e0 = spec_field_end(s, 0);
    let e1 = spec_field_end(s, e0 + 1);
    let e2 = spec_field_end(s, e1 + 1);
    let e3 = spec_field_end(s, e2 + 1);
    let e4 = spec_field_end(s, e3 + 1);
    let e5 = spec_field_end(s, e4 + 1);
    match spec_placement(s, 0, e0, 64, empty) {
        Err(e) => Err(e),
        Ok(placed) => if e0 >= s.len() {
            Err(FenError::MissingField)
        } else {
            match spec_side_field(s, e0 + 1, e1) {
                Err(e) => Err(e),
                Ok(side) => if e1 >= s.len() || e2 >= s.len() {
                    Err(FenError::MissingField)
                } else {
                    match spec_en_passant_field(s, e2 + 1, e3) {
                        Err(e) => Err(e),
                        Ok(target) => {
                            let board = BoardState {
                                piece_state: placed.piece_state,
                                castle_memory: spec_castle_field(s, e1 + 1, e2),
                                en_passant_square: target,
                            };
                            match spec_counter_field(s, e3 + 1, e4, 0) {
                                Err(e) => Err(e),
                                Ok(clock) => match spec_counter_field(s, e4 + 1, e5, 1) {
                                    Err(e) => Err(e),
                                    Ok(number) => if board.legal(side) {
                                        Ok((side, board, clock, number))
                                    } else {
                                        Err(FenError::IllegalPosition)
                                    },
                                },
                            }
                        },
                    }
                },
            }
        },
    }
}

fn piece_of(c: char) -> (r: Option<(Player, PieceType)>)
    ensures
        r == spec_piece_of(c),
{
    if c == 'p' {
        Some((Player::PLAYER2, PieceType::PAWN))
    } else if c == 'n' {
        Some((Player::PLAYER2, PieceType::KNIGHT))
    } else if c == 'b' {
        Some((Player::PLAYER2, PieceType::BISHOP))
    } else if c == 'r' {
        Some((Player::PLAYER2, PieceType::ROOK))
    } else if c == 'q' {
        Some((Player::PLAYER2, PieceType::QUEEN))
    } else if c == 'k' {
        Some((Player::PLAYER2, PieceType::KING))
    } else if c == 'P' {
        Some((Player::PLAYER1, PieceType::PAWN))
    } else if c == 'N' {
        Some((Player::PLAYER1, PieceType::KNIGHT))
    } else if c == 'B' {
        Some((Player::PLAYER1, PieceType::BISHOP))
    } else if c == 'R' {
        Some((Player::PLAYER1, PieceType::ROOK))
    } else if c == 'Q' {
        Some((Player::PLAYER1, PieceType::QUEEN))
    } else if c == 'K' {
        Some((Player::PLAYER1, PieceType::KING))
    } else {
        None
    }
}

fn skip_of(c: char) -> (r: Option<usize>)
    ensures
        r is Some == spec_skip_of(c) is Some,
        r is Some ==> r->0 == spec_skip_of(c)->0,
        r is Some ==> 1 <= r->0 <= 8,
{
    if c == '1' {
        Some(1)
    } else if c == '2' {
        Some(2)
    } else if c == '3' {
        Some(3)
    } else if c == '4' {
        Some(4)
    } else if c == '5' {
        Some(5)
    } else if c == '6' {
        Some(6)
    } else if c == '7' {
        Some(7)
    } else if c == '8' {
        Some(8)
    } else {
        None
    }
}

fn file_of_letter(c: char) -> (r: Option<usize>)
    ensures
        r is Some == spec_file_of_letter(c) is Some,
        r is Some ==> r->0 == spec_file_of_letter(c)->0,
        r is Some ==> r->0 <= 7,
{
    if c == 'h' {
        Some(0)
    } else if c == 'g' {
        Some(1)
    } else if c == 'f' {
        Some(2)
    } else if c == 'e' {
        Some(3)
    } else if c == 'd' {
        Some(4)
    } else if c == 'c' {
        Some(5)
    } else if c == 'b' {
        Some(6)
    } else if c == 'a' {
        Some(7)
    } else {
        None
    }
}

/// Where the field that starts at `start` ends.
fn digit_value(c: char) -> (r: Option<u64>)
    ensures
        r is Some == spec_digit_value(c) is Some,
        r is Some ==> r->0 == spec_digit_value(c)->0,
        r is Some ==> r->0 <= 9,
{
    if c == '0' {
        Some(0)
    } else if c == '9' {
        Some(9)
    } else {
        match skip_of(c) {
            Some(d) => Some(d as u64),
            None => None,
        }
    }
}

/// A numeral with more digits spells no smaller number.
proof fn lemma_numeral_grows(s: Seq<char>, start: int, mid: int, end: int)
    requires
        start <= mid <= end,
    ensures
        0 <= spec_numeral(s, start, mid) <= spec_numeral(s, start, end),
    decreases end - start,
{
    if mid < end {
        lemma_numeral_grows(s, start, mid, end - 1);
    } else if start < end {
        lemma_numeral_grows(s, start, start, end - 1);
    }
}

/// The counter in the field from `start` up to `end`, if it is one.
fn counter_of(fen: &str, start: usize, end: usize) -> (r: Option<u64>)
    requires
        start <= end <= fen@.len(),
    ensures
        match spec_counter_field(fen@, start as int, end as int, 0) {
            Ok(v) => r == Some(v),
            Err(e) => r is None,
        },
{
    if start >= end {
        return None;
    }
    let mut acc: u64 = 0;
    let mut i: usize = start;
    while i < end
        invariant
            start <= i <= end <= fen@.len(),
            spec_all_digits(fen@, start as int, i as int),
            acc == spec_numeral(fen@, start as int, i as int),
        decreases end - i,
    {
        let c = fen.get_char(i);
        match digit_value(c) {
            None => {
                return None;
            },
            Some(d) => {
                if acc > (u64::MAX - d) / 10 {
                    proof {
                        lemma_numeral_grows(fen@, start as int, i + 1, end as int);
                    }
                    return None;
                }
                acc = acc * 10 + d;
            },
        }
        i += 1;
    }
    Some(acc)
}

fn field_end(fen: &str, len: usize, start: usize) -> (r: usize)
    requires
        len == fen@.len(),
    ensures
        r == spec_field_end(fen@, start as int),
        start <= len ==> start <= r <= len,
        start > len ==> r == start,
{
    let mut i = start;
    while i < len && fen.get_char(i) != ' '
        invariant
            len == fen@.len(),
            start <= i,
            start <= len ==> i <= len,
            spec_field_end(fen@, start as int) == spec_field_end(fen@, i as int),
        decreases len - i,
    {
        i += 1;
    }
    i
}

/// Whether the characters from `start` up to `end` hold `c`.
fn holds_char(fen: &str, start: usize, end: usize, c: char) -> (r: bool)
    requires
        end <= fen@.len(),
    ensures
        r == spec_holds_char(fen@, start as int, end as int, c),
{
    let mut i = start;
    while i < end
        invariant
            end <= fen@.len(),
            start <= i,
            forall|k: int| start <= k < i && k < end ==> fen@[k] != c,
        decreases end - i,
    {
        if fen.get_char(i) == c {
            return true;
        }
        i += 1;
    }
    false
}

impl BoardState {
    /// The board without pieces.
    pub fn empty() -> (r: BoardState)
        ensures
            is_empty_board(r),
    {
        let r = BoardState { piece_state: [[0u64;6];2], castle_memory: 0, en_passant_square: 0 };
        proof {
            broadcast use vstd::array::group_array_axioms;

        }
        r
    }

    /// Whether no square holds two pieces.
    pub fn is_disjoint(&self) -> (r: bool)
        ensures
            r == self.disjoint(),
    {
        let kinds = PieceType::all();
        let players = [Player::PLAYER1, Player::PLAYER2];
        let mut seen: u64 = 0;
        let mut n: usize = 0;
        proof {
            assert forall|j: int| !#[trigger] bit(seen, j) by {
                lemma_bit_zero(j);
            }
        }
        while n < 12
            invariant
                n <= 12,
                forall|k: int| 0 <= k < 6 ==> (#[trigger] kinds@[k]).spec_ordinal() == k,
                players@ == seq![Player::PLAYER1, Player::PLAYER2],
                forall|j: int, p: Player, t: PieceType|
                    p.spec_ordinal() * 6 + t.spec_ordinal() < n && #[trigger] bit(
                        self.spec_get(p, t),
                        j,
                    ) ==> bit(seen, j),
                forall|j: int| #[trigger]
                    bit(seen, j) ==> exists|p: Player, t: PieceType|
                        p.spec_ordinal() * 6 + t.spec_ordinal() < n && #[trigger] bit(
                            self.spec_get(p, t),
                            j,
                        ),
                forall|j: int, p1: Player, t1: PieceType, p2: Player, t2: PieceType|
                    p1.spec_ordinal() * 6 + t1.spec_ordinal() < n && p2.spec_ordinal() * 6
                        + t2.spec_ordinal() < n && #[trigger] bit(self.spec_get(p1, t1), j)
                        && #[trigger] bit(self.spec_get(p2, t2), j) ==> p1 == p2 && t1 == t2,
            decreases 12 - n,
        {
            let p = players[n / 6];
            let t = kinds[n % 6];
            let x = self.get(p, t);
            assert(p.spec_ordinal() * 6 + t.spec_ordinal() == n);
            if seen & x != 0 {
                proof {
                    lemma_common(seen, x);
                    let j = choose|j: int| 0 <= j < 64 && bit(seen, j) && bit(x, j);
                    let w = choose|q: Player, u: PieceType|
                        q.spec_ordinal() * 6 + u.spec_ordinal() < n && #[trigger] bit(
                            self.spec_get(q, u),
                            j,
                        );
                    assert(bit(self.spec_get(w.0, w.1), j) && bit(self.spec_get(p, t), j));
                }
                return false;
            }
            let ghost before = seen;
            seen |= x;
            proof {
                lemma_no_common(before, x);
                assert forall|j: int| #[trigger] bit(seen, j) == (bit(before, j) || bit(x, j)) by {
                    lemma_bit_or(before, x, j);
                }
                assert forall|j: int| #[trigger] bit(seen, j) implies exists|q: Player, u: PieceType|
                    q.spec_ordinal() * 6 + u.spec_ordinal() < n + 1 && #[trigger] bit(
                        self.spec_get(q, u),
                        j,
                    ) by {
                    if bit(before, j) {
                        let w = choose|q: Player, u: PieceType|
                            q.spec_ordinal() * 6 + u.spec_ordinal() < n && #[trigger] bit(
                                self.spec_get(q, u),
                                j,
                            );
                        assert(bit(self.spec_get(w.0, w.1), j));
                    } else {
                        assert(bit(self.spec_get(p, t), j));
                    }
                }
                assert forall|j: int, p1: Player, t1: PieceType, p2: Player, t2: PieceType|
                    p1.spec_ordinal() * 6 + t1.spec_ordinal() < n + 1 && p2.spec_ordinal() * 6
                        + t2.spec_ordinal() < n + 1 && #[trigger] bit(self.spec_get(p1, t1), j)
                        && #[trigger] bit(self.spec_get(p2, t2), j) implies p1 == p2 && t1 == t2 by {
                    let n1 = p1.spec_ordinal() * 6 + t1.spec_ordinal();
                    let n2 = p2.spec_ordinal() * 6 + t2.spec_ordinal();
                    if n1 == n && n2 < n {
                        assert(bit(before, j));
                    }
                    if n2 == n && n1 < n {
                        assert(bit(before, j));
                    }
                }
            }
            n += 1;
        }
        true
    }

    /// Whether `player` has a piece on the one square of `place`.
    fn holds_place(&self, player: Player, place: u64) -> (r: bool)
        requires
            0 <= sq(place) < 64,
            place == single(sq(place)),
        ensures
            r == self.holds(player, sq(place)),
    {
        proof {
            lemma_occupancy_bit(*self, player, sq(place));
            lemma_test_single(self.spec_occupancy(player), sq(place));
        }
        self.occupancy(player) & place != 0
    }

    /// Whether the board is one that the rules of this crate keep
    /// well-formed, with `to_move` to move.
    pub fn is_wf(&self, to_move: Player) -> (r: bool)
        ensures
            r == self.wf(to_move),
    {
        if !self.is_disjoint() {
            return false;
        }
        let k1 = self.get(Player::PLAYER1, PieceType::KING);
        let k2 = self.get(Player::PLAYER2, PieceType::KING);
        if k1 == 0 || k2 == 0 {
            proof {
                vstd::std_specs::bits::axiom_u64_trailing_zeros(0);
            }
            return false;
        }
        proof {
            lemma_lowest(k1);
            lemma_lowest(k2);
            if rest(k1) == 0 {
                lemma_single_from_rest(k1);
            } else {
                lemma_single_nonzero(sq(k1));
                lemma_rest(k1);
                if k1 == single(sq(k1)) {
                    assert forall|j: int| !#[trigger] bit(rest(k1), j) by {
                        lemma_bit_single(sq(k1), j);
                    }
                    crate::bits::lemma_no_members(rest(k1));
                }
            }
            if rest(k2) == 0 {
                lemma_single_from_rest(k2);
            } else {
                lemma_single_nonzero(sq(k2));
                lemma_rest(k2);
                if k2 == single(sq(k2)) {
                    assert forall|j: int| !#[trigger] bit(rest(k2), j) by {
                        lemma_bit_single(sq(k2), j);
                    }
                    crate::bits::lemma_no_members(rest(k2));
                }
            }
        }
        if k1 & (k1 - 1) != 0 || k2 & (k2 - 1) != 0 {
            return false;
        }
        if self.castle_memory & king_start(Player::PLAYER1) != 0 && k1 != king_start(Player::PLAYER1) {
            return false;
        }
        if self.castle_memory & king_start(Player::PLAYER2) != 0 && k2 != king_start(Player::PLAYER2) {
            return false;
        }
        let ep = self.en_passant_square;
        if ep != 0 {
            proof {
                lemma_lowest(ep);
                if rest(ep) == 0 {
                    lemma_single_from_rest(ep);
                } else {
                    lemma_single_nonzero(sq(ep));
                    lemma_rest(ep);
                    if ep == single(sq(ep)) {
                        assert forall|j: int| !#[trigger] bit(rest(ep), j) by {
                            lemma_bit_single(sq(ep), j);
                        }
                        crate::bits::lemma_no_members(rest(ep));
                    }
                }
            }
            if ep & (ep - 1) != 0 {
                return false;
            }
            let e = index(ep);
            let mover = to_move.other();
            let (rank, beyond): (usize, usize) = match mover {
                Player::PLAYER1 => (2, e + 8),
                Player::PLAYER2 => (5, if e >= 8 {
                    e - 8
                } else {
                    0
                }),
            };
            if e / 8 != rank {
                return false;
            }
            if self.holds_place(Player::PLAYER1, ep) || self.holds_place(Player::PLAYER2, ep) {
                return false;
            }
            proof {
                lemma_test_single(self.spec_get(mover, PieceType::PAWN), beyond as int);
            }
            if self.get(mover, PieceType::PAWN) & index_to_place(beyond) == 0 {
                return false;
            }
        }
        true
    }
}

/// The board without pieces, castling memory or en-passant target.
pub open spec fn spec_empty_board() -> BoardState {
    choose|b: BoardState| is_empty_board(b)
}

/// The board on which a game starts: each side's pieces on its first two
/// ranks, every castling right, no en-passant target.
pub open spec fn is_start_board(b: BoardState) -> bool {
    &&& b.spec_get(Player::PLAYER1, PieceType::PAWN) == 0xff00
    &&& b.spec_get(Player::PLAYER1, PieceType::KNIGHT) == 0x42
    &&& b.spec_get(Player::PLAYER1, PieceType::BISHOP) == 0x24
    &&& b.spec_get(Player::PLAYER1, PieceType::ROOK) == 0x81
    &&& b.spec_get(Player::PLAYER1, PieceType::QUEEN) == 0x10
    &&& b.spec_get(Player::PLAYER1, PieceType::KING) == 0x08
    &&& b.spec_get(Player::PLAYER2, PieceType::PAWN) == 0x00ff_0000_0000_0000
    &&& b.spec_get(Player::PLAYER2, PieceType::KNIGHT) == 0x4200_0000_0000_0000
    &&& b.spec_get(Player::PLAYER2, PieceType::BISHOP) == 0x2400_0000_0000_0000
    &&& b.spec_get(Player::PLAYER2, PieceType::ROOK) == 0x8100_0000_0000_0000
    &&& b.spec_get(Player::PLAYER2, PieceType::QUEEN) == 0x1000_0000_0000_0000
    &&& b.spec_get(Player::PLAYER2, PieceType::KING) == 0x0800_0000_0000_0000
    &&& b.castle_memory == 0x8900_0000_0000_0089
    &&& b.en_passant_square == 0
}

proof fn bv_start_bits(j: u64)
    by (bit_vector)
    requires
        j < 64,
    ensures
        ((0xff00u64 >> j) & 1 == 1) == (8 <= j < 16),
        ((0x42u64 >> j) & 1 == 1) == (j == 1 || j == 6),
        ((0x24u64 >> j) & 1 == 1) == (j == 2 || j == 5),
        ((0x81u64 >> j) & 1 == 1) == (j == 0 || j == 7),
        ((0x10u64 >> j) & 1 == 1) == (j == 4),
        ((0x08u64 >> j) & 1 == 1) == (j == 3),
        ((0x00ff_0000_0000_0000u64 >> j) & 1 == 1) == (48 <= j < 56),
        ((0x4200_0000_0000_0000u64 >> j) & 1 == 1) == (j == 57 || j == 62),
        ((0x2400_0000_0000_0000u64 >> j) & 1 == 1) == (j == 58 || j == 61),
        ((0x8100_0000_0000_0000u64 >> j) & 1 == 1) == (j == 56 || j == 63),
        ((0x1000_0000_0000_0000u64 >> j) & 1 == 1) == (j == 60),
        ((0x0800_0000_0000_0000u64 >> j) & 1 == 1) == (j == 59),
{
}

/// The starting board is well-formed with the first player to move.
pub proof fn lemma_start_wf(b: BoardState)
    requires
        is_start_board(b),
    ensures
        b.wf(Player::PLAYER1),
{
    crate::chess_impl::lemma_castle_squares();
    assert forall|j: int, p1: Player, t1: PieceType, p2: Player, t2: PieceType| #[trigger]
        bit(b.spec_get(p1, t1), j) && #[trigger] bit(b.spec_get(p2, t2), j) implies p1 == p2 && t1
        == t2 by {
        bv_start_bits(j as u64);
    }
}

/// At the start the second player's king stands behind its pawns, out of
/// reach of every piece of the first player.
pub proof fn lemma_start_legal(b: BoardState)
    requires
        is_start_board(b),
    ensures
        b.legal(Player::PLAYER1),
{
    lemma_start_wf(b);
    crate::chess_impl::lemma_castle_squares();
    let occ = b.spec_all_occupancy();
    let k = 59int;
    assert(sq(b.spec_get(Player::PLAYER2, PieceType::KING)) == 59);
    assert forall|s: int| !#[trigger] attacks_from(b, Player::PLAYER1, occ, s, k) by {
        if 0 <= s < 64 {
            bv_start_bits(s as u64);
        }
        assert forall|t: PieceType| !attacks_as(b, t, Player::PLAYER1, occ, s, k) by {
            if bit(b.spec_get(Player::PLAYER1, t), s) {
                assert(0 <= s < 16);
                lemma_start_blocked(b, s, Dir::North);
                lemma_start_blocked(b, s, Dir::South);
                lemma_start_blocked(b, s, Dir::East);
                lemma_start_blocked(b, s, Dir::West);
                lemma_start_blocked(b, s, Dir::NorthEast);
                lemma_start_blocked(b, s, Dir::NorthWest);
                lemma_start_blocked(b, s, Dir::SouthEast);
                lemma_start_blocked(b, s, Dir::SouthWest);
            }
        }
    }
}

/// At the start nothing on the first two ranks sees the square of the
/// second player's king: the pawns of the seventh rank stand in every line.
proof fn lemma_start_blocked(b: BoardState, s: int, d: Dir)
    requires
        is_start_board(b),
        0 <= s < 16,
    ensures
        !sees(s, b.spec_all_occupancy(), d, 59),
{
    let occ = b.spec_all_occupancy();
    if on_ray(s, d, 59) {
        // The square of the line on the rank of the second player's pawns.
        let m = 59 - d.delta();
        assert(on_ray(s, d, m));
        assert(distance(s, m) < distance(s, 59));
        bv_start_bits(m as u64);
        lemma_occupancy_bit(b, Player::PLAYER2, m);
        assert(bit(b.spec_get(Player::PLAYER2, PieceType::PAWN), m));
        lemma_holds(b, Player::PLAYER2, m);
        assert(bit(occ, m));
    }
}

impl<'a> Chess<'a> {
    /// A game at its start, with the first player to move.
    pub fn new(tables: &'a MoveTables) -> (r: Chess<'a>)
        ensures
            tables.wf() ==> r.wf(),
            is_start_board(r.board),
            r.current_player == Player::PLAYER1,
            r.history@.len() == 0,
            r.start_clock == 0,
            r.start_number == 1,
            r.tables == tables,
    {
        let mut chess = Chess {
            tables,
            current_player: Player::PLAYER1,
            board: BoardState::empty(),
            history: Vec::new(),
            start_clock: 0,
            start_number: 1,
        };
        chess.setup_new_game();
        chess
    }

    /// Puts the game back to its start.
    pub fn setup_new_game(&mut self)
        ensures
            old(self).tables.wf() ==> final(self).wf(),
            is_start_board(final(self).board),
            final(self).current_player == Player::PLAYER1,
            final(self).history@.len() == 0,
            final(self).start_clock == 0,
            final(self).start_number == 1,
            final(self).tables == old(self).tables,
    {
        self.history.clear();
        self.start_clock = 0;
        self.start_number = 1;
        self.current_player = Player::PLAYER1;
        self.board = BoardState {
            piece_state: [
                [0xff00, 0x42, 0x24, 0x81, 0x10, 0x08],
                [
                    0x00ff_0000_0000_0000,
                    0x4200_0000_0000_0000,
                    0x2400_0000_0000_0000,
                    0x8100_0000_0000_0000,
                    0x1000_0000_0000_0000,
                    0x0800_0000_0000_0000,
                ],
            ],
            castle_memory: 0x8900_0000_0000_0089,
            en_passant_square: 0,
        };
        proof {
            lemma_start_legal(self.board);
        }
    }

    /// Whether the position is one on which moves can be generated and
    /// made.
    pub fn is_wf(&self) -> (r: bool)
        requires
            self.tables.wf(),
        ensures
            r == self.wf(),
    {
        self.is_legal()
    }

    /// Sets the position up from its text. On an error the game is left as
    /// it was.
    pub fn setup_fen_string(&mut self, fen: &str) -> (r: Result<(), FenError>)
        requires
            old(self).tables.wf(),
        ensures
            final(self).tables == old(self).tables,
            match spec_parse_fen(fen@, spec_empty_board()) {
                Ok(parsed) => r is Ok && final(self)@ == (Position {
                    current_player: parsed.0,
                    board: parsed.1,
                    history: Seq::empty(),
                    start_clock: parsed.2,
                    start_number: parsed.3,
                }) && final(self).wf(),
                Err(e) => r == Err::<(), FenError>(e) && final(self)@ == old(self)@,
            },
    {
        let len = fen.unicode_len();
        let e0 = field_end(fen, len, 0);
        let mut board = BoardState::empty();
        proof {
            crate::chess_impl::lemma_board_equal(board, spec_empty_board());
        }
        let mut next: usize = 64;
        let mut i: usize = 0;
        while i < e0
            invariant
                i <= e0 <= len,
                len == fen@.len(),
                next <= 64,
                spec_placement(fen@, 0, e0 as int, 64, spec_empty_board()) == spec_placement(
                    fen@,
                    i as int,
                    e0 as int,
                    next as int,
                    board,
                ),
                e0 == spec_field_end(fen@, 0),
            decreases e0 - i,
        {
            let c = fen.get_char(i);
            match piece_of(c) {
                Some((p, t)) => {
                    if next == 0 {
                        return Err(FenError::TooManySquares);
                    }
                    next -= 1;
                    let place = index_to_place(next);
                    *board.get_mut(p, t) |= place;
                },
                None => {
                    match skip_of(c) {
                        Some(d) => {
                            if next < d {
                                return Err(FenError::TooManySquares);
                            }
                            next -= d;
                        },
                        None => {
                            if c != '/' {
                                return Err(FenError::UnexpectedChar);
                            }
                        },
                    }
                },
            }
            i += 1;
        }
        if e0 >= len {
            return Err(FenError::MissingField);
        }
        let e1 = field_end(fen, len, e0 + 1);
        let side = if e1 - (e0 + 1) == 1 && fen.get_char(e0 + 1) == 'w' {
            Player::PLAYER1
        } else if e1 - (e0 + 1) == 1 && fen.get_char(e0 + 1) == 'b' {
            Player::PLAYER2
        } else {
            return Err(FenError::BadSide);
        };
        if e1 >= len {
            return Err(FenError::MissingField);
        }
        let e2 = field_end(fen, len, e1 + 1);
        if e2 >= len {
            return Err(FenError::MissingField);
        }
        let castle: u64 = (if holds_char(fen, e1 + 1, e2, 'K') {
            0x9u64
        } else {
            0
        }) | (if holds_char(fen, e1 + 1, e2, 'k') {
            0x0900_0000_0000_0000u64
        } else {
            0
        }) | (if holds_char(fen, e1 + 1, e2, 'Q') {
            0x88u64
        } else {
            0
        }) | (if holds_char(fen, e1 + 1, e2, 'q') {
            0x8800_0000_0000_0000u64
        } else {
            0
        });
        let e3 = field_end(fen, len, e2 + 1);
        let target: u64 = if e3 - (e2 + 1) == 1 && fen.get_char(e2 + 1) == '-' {
            0
        } else if e3 - (e2 + 1) >= 2 {
            match file_of_letter(fen.get_char(e2 + 1)) {
                Some(x) => match skip_of(fen.get_char(e2 + 2)) {
                    Some(y) => index_to_place((y - 1) * 8 + x),
                    None => {
                        return Err(FenError::BadEnPassant);
                    },
                },
                None => {
                    return Err(FenError::BadEnPassant);
                },
            }
        } else {
            return Err(FenError::BadEnPassant);
        };
        board.castle_memory = castle;
        board.en_passant_square = target;
        let mut clock: u64 = 0;
        let mut number: u64 = 1;
        if e3 < len {
            let e4 = field_end(fen, len, e3 + 1);
            match counter_of(fen, e3 + 1, e4) {
                Some(v) => {
                    clock = v;
                },
                None => {
                    return Err(FenError::BadCounter);
                },
            }
            if e4 < len {
                let e5 = field_end(fen, len, e4 + 1);
                match counter_of(fen, e4 + 1, e5) {
                    Some(v) => {
                        number = v;
                    },
                    None => {
                        return Err(FenError::BadCounter);
                    },
                }
            }
        }
        let probe = Chess {
            tables: self.tables,
            current_player: side,
            board,
            history: Vec::new(),
            start_clock: clock,
            start_number: number,
        };
        if !probe.is_legal() {
            return Err(FenError::IllegalPosition);
        }
        self.history.clear();
        self.board = board;
        self.current_player = side;
        self.start_clock = clock;
        self.start_number = number;
        proof {
            assert(self.history@ =~= Seq::empty());
        }
        Ok(())
    }
}

} // verus!
