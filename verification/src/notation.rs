//! Squares, moves and boards as text.
use vstd::prelude::*;
use crate::bit_help::{coord_to_index, file_of, index_to_place, place_to_coord, rank_of};
use crate::bits::{single};
use crate::chess_impl::{
    BoardState, Chess, Move, PieceType, Position, sq, king_place, kingside_rook, queenside_rook,
    king_start, kingside_rook_start, queenside_rook_start,
};
use crate::chess_impl::lemma_holds;
use crate::bits::{bit, lemma_single_index};
use crate::move_generation::{forward, pawn_attack};
use crate::bit_help::is_step;
use crate::legal_moves::{all_fit, spec_possible_moves};
use crate::bits::lemma_single_nonzero;
use crate::two_player_game::Player;

verus! {

/// The letter of the file with coordinate `x`: `h` for 0, `a` for 7.
pub open spec fn spec_file_letter(x: int) -> char {
    if x == 0 {
        'h'
    } else if x == 1 {
        'g'
    } else if x == 2 {
        'f'
    } else if x == 3 {
        'e'
    } else if x == 4 {
        'd'
    } else if x == 5 {
        'c'
    } else if x == 6 {
        'b'
    } else {
        'a'
    }
}

/// The decimal digit `d`.
pub open spec fn spec_digit(d: int) -> char {
    if d == 0 {
        '0'
    } else if d == 1 {
        '1'
    } else if d == 2 {
        '2'
    } else if d == 3 {
        '3'
    } else if d == 4 {
        '4'
    } else if d == 5 {
        '5'
    } else if d == 6 {
        '6'
    } else if d == 7 {
        '7'
    } else if d == 8 {
        '8'
    } else {
        '9'
    }
}

/// The lower-case letter of a piece kind.
pub open spec fn spec_kind_letter(t: PieceType) -> char {
    match t {
        PieceType::PAWN => 'p',
        PieceType::KNIGHT => 'n',
        PieceType::BISHOP => 'b',
        PieceType::ROOK => 'r',
        PieceType::QUEEN => 'q',
        PieceType::KING => 'k',
    }
}

/// The letter of a piece: upper case for the first player, lower case for
/// the second.
pub open spec fn spec_piece_letter(p: Player, t: PieceType) -> char {
    match p {
        Player::PLAYER2 => spec_kind_letter(t),
        Player::PLAYER1 => match t {
            PieceType::PAWN => 'P',
            PieceType::KNIGHT => 'N',
            PieceType::BISHOP => 'B',
            PieceType::ROOK => 'R',
            PieceType::QUEEN => 'Q',
            PieceType::KING => 'K',
        },
    }
}

/// The decimal numeral of `n`.
pub open spec fn spec_decimal(n: int) -> Seq<char>
    decreases n,
{
    if n < 10 {
        seq![spec_digit(n)]
    } else {
        spec_decimal(n / 10).push(spec_digit(n % 10))
    }
}

/// A coordinate as the numeral that the serialized form of a move shows:
/// one digit, or `-1` for none.
pub open spec fn spec_coordinate(v: int) -> Seq<char> {
    if v < 0 {
        seq!['-', '1']
    } else {
        seq![spec_digit(v)]
    }
}

/// The name of the lowest square of `place`: file letter and rank digit.
pub open spec fn spec_place_letters(place: u64) -> Seq<char> {
    seq![spec_file_letter(file_of(sq(place))), spec_digit(rank_of(sq(place)) + 1)]
}

pub fn file_letter(x: usize) -> (r: &'static str)
    requires
        x < 8,
    ensures
        r@ == seq![spec_file_letter(x as int)],
{
    proof {
        reveal_strlit("h");
        reveal_strlit("g");
        reveal_strlit("f");
        reveal_strlit("e");
        reveal_strlit("d");
        reveal_strlit("c");
        reveal_strlit("b");
        reveal_strlit("a");
    }
    let r = if x == 0 {
        "h"
    } else if x == 1 {
        "g"
    } else if x == 2 {
        "f"
    } else if x == 3 {
        "e"
    } else if x == 4 {
        "d"
    } else if x == 5 {
        "c"
    } else if x == 6 {
        "b"
    } else {
        "a"
    };
    assert(r@ =~= seq![spec_file_letter(x as int)]);
    r
}

pub fn digit(d: usize) -> (r: &'static str)
    requires
        d < 10,
    ensures
        r@ == seq![spec_digit(d as int)],
{
    proof {
        reveal_strlit("0");
        reveal_strlit("1");
        reveal_strlit("2");
        reveal_strlit("3");
        reveal_strlit("4");
        reveal_strlit("5");
        reveal_strlit("6");
        reveal_strlit("7");
        reveal_strlit("8");
        reveal_strlit("9");
    }
    let r = if d == 0 {
        "0"
    } else if d == 1 {
        "1"
    } else if d == 2 {
        "2"
    } else if d == 3 {
        "3"
    } else if d == 4 {
        "4"
    } else if d == 5 {
        "5"
    } else if d == 6 {
        "6"
    } else if d == 7 {
        "7"
    } else if d == 8 {
        "8"
    } else {
        "9"
    };
    assert(r@ =~= seq![spec_digit(d as int)]);
    r
}

pub fn kind_letter(t: PieceType) -> (r: &'static str)
    ensures
        r@ == seq![spec_kind_letter(t)],
{
    proof {
        reveal_strlit("p");
        reveal_strlit("n");
        reveal_strlit("b");
        reveal_strlit("r");
        reveal_strlit("q");
        reveal_strlit("k");
    }
    let r = match t {
        PieceType::PAWN => "p",
        PieceType::KNIGHT => "n",
        PieceType::BISHOP => "b",
        PieceType::ROOK => "r",
        PieceType::QUEEN => "q",
        PieceType::KING => "k",
    };
    assert(r@ =~= seq![spec_kind_letter(t)]);
    r
}

pub fn piece_letter(p: Player, t: PieceType) -> (r: &'static str)
    ensures
        r@ == seq![spec_piece_letter(p, t)],
{
    proof {
        reveal_strlit("P");
        reveal_strlit("N");
        reveal_strlit("B");
        reveal_strlit("R");
        reveal_strlit("Q");
        reveal_strlit("K");
    }
    match p {
        Player::PLAYER2 => kind_letter(t),
        Player::PLAYER1 => {
            let r = match t {
                PieceType::PAWN => "P",
                PieceType::KNIGHT => "N",
                PieceType::BISHOP => "B",
                PieceType::ROOK => "R",
                PieceType::QUEEN => "Q",
                PieceType::KING => "K",
            };
            assert(r@ =~= seq![spec_piece_letter(p, t)]);
            r
        },
    }
}

/// Appends the decimal numeral of `n`.
pub fn push_decimal(res: &mut String, n: u128)
    ensures
        final(res)@ == old(res)@ + spec_decimal(n as int),
    decreases n,
{
    if n >= 10 {
        push_decimal(res, n / 10);
    }
    res.append(digit((n % 10) as usize));
    proof {
        if n >= 10 {
            assert(final(res)@ =~= old(res)@ + spec_decimal(n as int));
        } else {
            assert(final(res)@ =~= old(res)@ + spec_decimal(n as int));
        }
    }
}

/// Appends a coordinate between -1 and 9.
fn push_coordinate(res: &mut String, v: i32)
    requires
        -1 <= v <= 9,
    ensures
        final(res)@ == old(res)@ + spec_coordinate(v as int),
{
    if v < 0 {
        proof {
            reveal_strlit("-1");
        }
        res.append("-1");
        assert(final(res)@ =~= old(res)@ + spec_coordinate(v as int));
    } else {
        res.append(digit(v as usize));
    }
}

/// The name of the lowest square of `place`.
pub fn place_to_letters(place: u64) -> (r: String)
    requires
        place != 0,
    ensures
        r@ == spec_place_letters(place),
{
    let (x, y) = place_to_coord(place);
    let mut res = String::new();
    res.append(file_letter(x as usize));
    res.append(digit((y + 1) as usize));
    assert(res@ =~= spec_place_letters(place));
    res
}

impl Move {
    /// The move as a player writes it: the squares it leaves and reaches,
    /// and the letter of the new piece where a pawn is promoted.
    pub open spec fn spec_to_string(self) -> Seq<char> {
        spec_place_letters(self.from) + spec_place_letters(self.to) + if self.start_type
            != self.end_type {
            seq![spec_kind_letter(self.end_type)]
        } else {
            Seq::<char>::empty()
        }
    }

    /// The move as a front end exchanges it: the file and rank coordinates
    /// of the squares it leaves and reaches and of the square where it
    /// takes (-1 and -1 where it takes nothing), and the number of the
    /// piece kind it ends as, separated by single spaces.
    pub open spec fn spec_serialize(self) -> Seq<char> {
        let f = sq(self.from);
        let t = sq(self.to);
        let e = sq(self.eaten_loc);
        let taken = self.eaten_loc != 0;
        spec_coordinate(file_of(f)) + seq![' '] + spec_coordinate(rank_of(f)) + seq![' ']
            + spec_coordinate(file_of(t)) + seq![' '] + spec_coordinate(rank_of(t)) + seq![' ']
            + spec_coordinate(
            if taken {
                file_of(e)
            } else {
                -1
            },
        ) + seq![' '] + spec_coordinate(
            if taken {
                rank_of(e)
            } else {
                -1
            },
        ) + seq![' '] + spec_coordinate(self.end_type.spec_ordinal())
    }

    pub fn to_string(&self) -> (r: String)
        requires
            self.from != 0,
            self.to != 0,
        ensures
            r@ == self.spec_to_string(),
    {
        let mut res: String = String::new();
        let from = place_to_letters(self.from);
        let to = place_to_letters(self.to);
        res.append(from.as_str());
        res.append(to.as_str());
        if self.start_type != self.end_type {
            res.append(kind_letter(self.end_type));
        }
        assert(res@ =~= self.spec_to_string());
        res
    }

    pub fn serialize(&self) -> (r: String)
        ensures
            r@ == self.spec_serialize(),
    {
        proof {
            reveal_strlit(" ");
        }
        let f = place_to_coord(self.from);
        let t = place_to_coord(self.to);
        let eaten = if self.eaten_loc != 0 {
            place_to_coord(self.eaten_loc)
        } else {
            (-1, -1)
        };
        let end_type = self.end_type.ordinal();
        let mut res = String::new();
        push_coordinate(&mut res, f.0);
        res.append(" ");
        push_coordinate(&mut res, f.1);
        res.append(" ");
        push_coordinate(&mut res, t.0);
        res.append(" ");
        push_coordinate(&mut res, t.1);
        res.append(" ");
        push_coordinate(&mut res, eaten.0);
        res.append(" ");
        push_coordinate(&mut res, eaten.1);
        res.append(" ");
        push_coordinate(&mut res, end_type as i32);
        assert(res@ =~= self.spec_serialize());
        res
    }
}

/// The numeral of a run of free squares; nothing for no run.
pub open spec fn spec_run(run: int) -> Seq<char> {
    if run != 0 {
        seq![spec_digit(run)]
    } else {
        Seq::<char>::empty()
    }
}

/// `acc` followed by the placement text of the squares below `n`, from the
/// highest down, `run` free squares of the rank of square `n - 1` having
/// been passed: a letter for each piece, a digit for each run of free
/// squares, `/` between ranks.
pub open spec fn spec_placement_text(board: BoardState, n: int, run: int, acc: Seq<char>) -> Seq<char>
    decreases n,
{
    if n <= 0 {
        acc
    } else {
        let j = n - 1;
        let here = board.spec_type_at(single(j));
        let acc1 = match here {
            None => acc,
            Some(x) => acc + spec_run(run) + seq![spec_piece_letter(x.0, x.1)],
        };
        let run1 = match here {
            None => run + 1,
            Some(x) => 0,
        };
        if j % 8 == 0 {
            spec_placement_text(
                board,
                n - 1,
                0,
                acc1 + spec_run(run1) + if j != 0 {
                    seq!['/']
                } else {
                    Seq::<char>::empty()
                },
            )
        } else {
            spec_placement_text(board, n - 1, run1, acc1)
        }
    }
}

/// The castling rights of one player: `k` for the king's side and `q` for
/// the queen's, as far as the king and that rook keep their memory.
pub open spec fn spec_rights(board: BoardState, p: Player) -> Seq<char> {
    if board.castle_memory & king_place(p) != 0 {
        (if board.castle_memory & kingside_rook(p) != 0 {
            seq![spec_piece_letter(p, PieceType::KING)]
        } else {
            Seq::<char>::empty()
        }) + (if board.castle_memory & queenside_rook(p) != 0 {
            seq![spec_piece_letter(p, PieceType::QUEEN)]
        } else {
            Seq::<char>::empty()
        })
    } else {
        Seq::<char>::empty()
    }
}

/// The castling field: the first player's rights, then the second's; `-`
/// for none.
pub open spec fn spec_castle_text(board: BoardState) -> Seq<char> {
    let rights = spec_rights(board, Player::PLAYER1) + spec_rights(board, Player::PLAYER2);
    if rights.len() == 0 {
        seq!['-']
    } else {
        rights
    }
}

/// The half-move clock after the moves of `history`: the number of moves
/// since the last one that moved a pawn or took a piece, counted on from
/// `first` where there was none.
pub open spec fn spec_clock(history: Seq<(Move, u64, u64)>, first: int) -> int
    decreases history.len(),
{
    if history.len() == 0 {
        first
    } else {
        let m = history.last().0;
        if m.start_type == PieceType::PAWN || m.eaten_loc != 0 {
            0
        } else {
            spec_clock(history.drop_last(), first) + 1
        }
    }
}

impl Position {
    /// The half-move clock: the number of moves since a pawn moved or a
    /// piece was taken.
    pub open spec fn spec_halfmove_clock(self) -> int {
        spec_clock(self.history, self.start_clock as int)
    }

    /// The number of the move that is being made: it grows with each move
    /// of the second player.
    pub open spec fn spec_move_number(self) -> int {
        self.start_number + if self.current_player == Player::PLAYER1 {
            (self.history.len() + 1) / 2
        } else {
            self.history.len() / 2
        }
    }

    /// The position as text: placement, side to move, castling rights,
    /// en-passant target, half-move clock and move number.
    pub open spec fn spec_fen(self) -> Seq<char> {
        spec_placement_text(self.board, 64, 0, Seq::<char>::empty()) + (if self.current_player
            == Player::PLAYER1 {
            seq![' ', 'w', ' ']
        } else {
            seq![' ', 'b', ' ']
        }) + spec_castle_text(self.board) + seq![' '] + (if self.board.en_passant_square != 0 {
            spec_place_letters(self.board.en_passant_square)
        } else {
            seq!['-']
        }) + seq![' '] + spec_decimal(self.spec_halfmove_clock()) + seq![' '] + spec_decimal(
            self.spec_move_number(),
        )
    }
}

/// The cell in column `col` and row `row` of the picture of a board: every
/// other column is blank, the board has a frame of `-` two rows and two
/// cells wide, and a free square shows as `.`.
pub open spec fn spec_cell(board: BoardState, col: int, row: int) -> char {
    let x = col - 4;
    let y = row - 2;
    if x % 2 != 0 {
        ' '
    } else if y < 0 || y >= 8 || x < 0 || x / 2 >= 8 {
        '-'
    } else {
        match board.spec_type_at(single(y * 8 + x / 2)) {
            Some(found) => spec_piece_letter(found.0, found.1),
            None => '.',
        }
    }
}

/// `acc` followed by the cells from number `c` on, row by row, each row of
/// 24 cells ended by a line feed.
pub open spec fn spec_picture(board: BoardState, c: int, acc: Seq<char>) -> Seq<char>
    decreases 288 - c,
{
    if c >= 288 || c < 0 {
        acc
    } else {
        let with_cell = acc.push(spec_cell(board, c % 24, c / 24));
        spec_picture(
            board,
            c + 1,
            if c % 24 == 23 {
                with_cell.push('\n')
            } else {
                with_cell
            },
        )
    }
}

/// `acc` followed by the pieces on the squares from number `k` on, file by
/// file from coordinate 0 and within a file rank by rank from coordinate 0,
/// each with its coordinates, owner and kind.
pub open spec fn spec_pieces(board: BoardState, k: int, acc: Seq<(i32, i32, Player, PieceType)>) -> Seq<
    (i32, i32, Player, PieceType),
>
    decreases 64 - k,
{
    if k >= 64 || k < 0 {
        acc
    } else {
        spec_pieces(
            board,
            k + 1,
            match board.spec_type_at(single((k % 8) * 8 + k / 8)) {
                Some(found) => acc.push(((k / 8) as i32, (k % 8) as i32, found.0, found.1)),
                None => acc,
            },
        )
    }
}

impl<'a> Chess<'a> {
    /// The half-move clock.
    pub fn get_halfmove_clock(&self) -> (r: u128)
        ensures
            r == self@.spec_halfmove_clock(),
    {
        let mut clock: u128 = self.start_clock as u128;
        let mut i: usize = 0;
        proof {
            assert(self.history@.take(0) =~= Seq::empty());
        }
        while i < self.history.len()
            invariant
                i <= self.history.len(),
                clock == spec_clock(self.history@.take(i as int), self.start_clock as int),
                clock <= self.start_clock + i,
            decreases self.history.len() - i,
        {
            let m = self.history[i].0;
            proof {
                assert(self.history@.take(i + 1).drop_last() =~= self.history@.take(i as int));
                assert(self.history@.take(i + 1).last() == self.history@[i as int]);
            }
            if m.start_type == PieceType::PAWN || m.eaten_loc != 0 {
                clock = 0;
            } else {
                clock = clock + 1;
            }
            i += 1;
        }
        proof {
            assert(self.history@.take(self.history.len() as int) =~= self.history@);
        }
        clock
    }

    /// The number of the move that is being made.
    pub fn get_move_number(&self) -> (r: u128)
        ensures
            r == self@.spec_move_number(),
    {
        let len: u128 = self.history.len() as u128;
        let made: u128 = if self.current_player == Player::PLAYER1 {
            (len + 1) / 2
        } else {
            len / 2
        };
        self.start_number as u128 + made
    }

    /// The position as text.
    pub fn get_fen_string(&self) -> (r: String)
        ensures
            r@ == self@.spec_fen(),
    {
        proof {
            reveal_strlit("/");
            reveal_strlit(" w ");
            reveal_strlit(" b ");
            reveal_strlit("-");
            reveal_strlit(" ");
        }
        let mut res = String::new();

        // Pieces
        let mut n: usize = 64;
        let mut empty: usize = 0;
        while n > 0
            invariant
                n <= 64,
                empty <= (64 - n) % 8,
                spec_placement_text(self.board, 64, 0, Seq::<char>::empty()) == spec_placement_text(
                    self.board,
                    n as int,
                    empty as int,
                    res@,
                ),
            decreases n,
        {
            let ghost before = res@;
            let j = n - 1;
            match self.board.type_at(index_to_place(j)) {
                None => {
                    empty += 1
                },
                Some(found) => {
                    if empty != 0 {
                        res.append(digit(empty));
                        empty = 0;
                    }
                    res.append(piece_letter(found.0, found.1));
                },
            }
            let ghost placed = res@;
            if j % 8 == 0 {
                if empty != 0 {
                    res.append(digit(empty));
                    empty = 0;
                }
                if j != 0 {
                    res.append("/");
                }
            }
            proof {
                reveal_strlit("/");
                assert(seq!['/'] =~= "/"@);
            }
            n -= 1;
        }
        // Next player

        res.append(
            if self.current_player == Player::PLAYER1 {
                " w "
            } else {
                " b "
            },
        );

        // Castle rights
        let mut castle_part = String::new();
        let players = [Player::PLAYER1, Player::PLAYER2];
        let mut i: usize = 0;
        while i < 2
            invariant
                i <= 2,
                players@ == seq![Player::PLAYER1, Player::PLAYER2],
                castle_part@ == if i == 0 {
                    Seq::<char>::empty()
                } else if i == 1 {
                    spec_rights(self.board, Player::PLAYER1)
                } else {
                    spec_rights(self.board, Player::PLAYER1) + spec_rights(
                        self.board,
                        Player::PLAYER2,
                    )
                },
            decreases 2 - i,
        {
            let p = players[i];
            let ghost before = castle_part@;
            if self.board.castle_memory & king_start(p) != 0 {
                if self.board.castle_memory & kingside_rook_start(p) != 0 {
                    castle_part.append(piece_letter(p, PieceType::KING));
                }
                if self.board.castle_memory & queenside_rook_start(p) != 0 {
                    castle_part.append(piece_letter(p, PieceType::QUEEN));
                }
            }
            assert(castle_part@ =~= before + spec_rights(self.board, p));
            assert(Seq::<char>::empty() + spec_rights(self.board, p) =~= spec_rights(self.board, p));
            i += 1;
        }
        if castle_part.as_str().unicode_len() == 0 {
            castle_part.append("-");
        }
        res.append(castle_part.as_str());
        res.append(" ");

        // en passant
        if self.board.en_passant_square != 0 {
            let target = place_to_letters(self.board.en_passant_square);
            res.append(target.as_str());
        } else {
            res.append("-");
        }
        res.append(" ");
        push_decimal(&mut res, self.get_halfmove_clock());
        res.append(" ");
        push_decimal(&mut res, self.get_move_number());
        proof {
            assert(seq!['-'] =~= "-"@);
            assert(seq![' '] =~= " "@);
            assert(seq![' ', 'w', ' '] =~= " w "@);
            assert(seq![' ', 'b', ' '] =~= " b "@);
            assert(res@ =~= self@.spec_fen());
        }
        res
    }

    /// The pieces on the board with their coordinates, file by file.
    pub fn all_pieces(&self) -> (r: Vec<(i32, i32, Player, PieceType)>)
        ensures
            r@ == spec_pieces(self.board, 0, Seq::empty()),
    {
        let mut res: Vec<(i32, i32, Player, PieceType)> = Vec::new();
        let mut k: usize = 0;
        while k < 64
            invariant
                k <= 64,
                spec_pieces(self.board, 0, Seq::empty()) == spec_pieces(self.board, k as int, res@),
            decreases 64 - k,
        {
            let x = (k / 8) as i32;
            let y = (k % 8) as i32;
            let here = self.board.type_at(index_to_place(coord_to_index((x, y))));
            if let Some((player, piece)) = here {
                res.push((x, y, player, piece))
            }
            k += 1;
        }
        res
    }

    /// A picture of the board, one line for each row.
    pub fn draw(&self) -> (r: String)
        ensures
            r@ == spec_picture(self.board, 0, Seq::empty()),
    {
        proof {
            reveal_strlit(" ");
            reveal_strlit("-");
            reveal_strlit(".");
            reveal_strlit("\n");
        }
        let mut res = String::new();
        let mut c: usize = 0;
        while c < 288
            invariant
                c <= 288,
                spec_picture(self.board, 0, Seq::empty()) == spec_picture(self.board, c as int, res@),
            decreases 288 - c,
        {
            let ghost before = res@;
            let col = c % 24;
            let row = c / 24;
            if col % 2 != 0 {
                res.append(" ");
            } else if row < 2 || row >= 10 || col < 4 || (col - 4) / 2 >= 8 {
                res.append("-")
            } else {
                match self.board.type_at(index_to_place((row - 2) * 8 + (col - 4) / 2)) {
                    Some(found) => {
                        res.append(piece_letter(found.0, found.1));
                    },
                    None => {
                        res.append(".");
                    },
                }
            }
            proof {
                reveal_strlit(" ");
                reveal_strlit("-");
                reveal_strlit(".");
                assert(seq![' '] =~= " "@);
                assert(seq!['-'] =~= "-"@);
                assert(seq!['.'] =~= "."@);
                assert(res@ =~= before.push(spec_cell(self.board, col as int, row as int)));
            }
            if col == 23 {
                res.append("\n");
                proof {
                    reveal_strlit("\n");
                    assert(seq!['\n'] =~= "\n"@);
                    assert(res@ =~= before.push(spec_cell(self.board, col as int, row as int)).push(
                        '\n',
                    ));
                }
            }
            c += 1;
        }
        res
    }
}

/// A coordinate can be read back from the front of a text.
proof fn lemma_coordinate_prefix(v1: int, v2: int, r1: Seq<char>, r2: Seq<char>)
    requires
        -1 <= v1 <= 9,
        -1 <= v2 <= 9,
        spec_coordinate(v1) + seq![' '] + r1 == spec_coordinate(v2) + seq![' '] + r2,
    ensures
        v1 == v2,
        r1 == r2,
{
    let s1 = spec_coordinate(v1) + seq![' '] + r1;
    let s2 = spec_coordinate(v2) + seq![' '] + r2;
    assert(s1[0] == s2[0]);
    assert(s1[0] == spec_coordinate(v1)[0]);
    assert(s2[0] == spec_coordinate(v2)[0]);
    assert(v1 == v2);
    let n = spec_coordinate(v1).len() + 1;
    assert(r1 =~= s1.subrange(n as int, s1.len() as int));
    assert(r2 =~= s2.subrange(n as int, s2.len() as int));
}

/// Two squares with the same coordinates are the same square.
proof fn lemma_same_square(a: u64, b: u64)
    requires
        0 <= sq(a) < 64 && a == single(sq(a)),
        0 <= sq(b) < 64 && b == single(sq(b)),
        file_of(sq(a)) == file_of(sq(b)),
        rank_of(sq(a)) == rank_of(sq(b)),
    ensures
        a == b,
{
}

/// On one board, what a fitting move takes follows from where it goes and
/// what moves.
proof fn lemma_takes_determined(b: BoardState, p: Player, m1: Move, m2: Move)
    requires
        b.wf(p),
        b.fits(p, m1),
        b.fits(p, m2),
        m1.from == m2.from,
        m1.to == m2.to,
    ensures
        m1.start_type == m2.start_type,
        m1.eaten_loc == m2.eaten_loc,
        m1.eaten_type == m2.eaten_type,
{
    let other = p.spec_other();
    let fi = sq(m1.from);
    let ti = sq(m1.to);
    lemma_holds(b, other, ti);
    lemma_holds(b, p, fi);
    assert(m1.start_type == m2.start_type);
    if m1.start_type == PieceType::PAWN {
        let d = forward(p);
        assert(pawn_attack(p, fi, ti) ==> !is_step(fi, d, 1, ti) && !is_step(fi, d, 2, ti));
    }
    if m1.eaten_loc != 0 {
        lemma_single_index(sq(m1.eaten_loc));
    }
    if m2.eaten_loc != 0 {
        lemma_single_index(sq(m2.eaten_loc));
    }
}

/// The text of the coordinates of `v` from number `k` on, with a single
/// space after each but the last.
pub open spec fn spec_joined(v: Seq<int>, k: int) -> Seq<char>
    decreases 6 - k,
{
    if k >= 6 {
        spec_coordinate(v[6])
    } else {
        spec_coordinate(v[k]) + seq![' '] + spec_joined(v, k + 1)
    }
}

/// Coordinates can be read back from their text.
proof fn lemma_joined_tells_apart(a: Seq<int>, c: Seq<int>, k: int)
    requires
        0 <= k <= 6,
        a.len() == 7,
        c.len() == 7,
        forall|j: int| 0 <= j < 7 ==> -1 <= #[trigger] a[j] <= 9,
        forall|j: int| 0 <= j < 7 ==> -1 <= #[trigger] c[j] <= 9,
        spec_joined(a, k) == spec_joined(c, k),
    ensures
        forall|j: int| k <= j < 7 ==> a[j] == c[j],
    decreases 6 - k,
{
    if k < 6 {
        lemma_coordinate_prefix(a[k], c[k], spec_joined(a, k + 1), spec_joined(c, k + 1));
        lemma_joined_tells_apart(a, c, k + 1);
    } else {
        let x = spec_coordinate(a[6]);
        let y = spec_coordinate(c[6]);
        assert(x == spec_joined(a, 6) && y == spec_joined(c, 6));
        assert(x[0] == y[0]);
        assert(-1 <= a[6] <= 9 && -1 <= c[6] <= 9);
        assert(a[6] == c[6]);
    }
}

/// The serialized form is the text of its seven numbers.
proof fn lemma_serialize_joined(m: Move)
    ensures
        m.spec_serialize() == spec_joined(m.spec_fields(), 0),
{
    let v = m.spec_fields();
    let sp = seq![' '];
    let p0 = spec_coordinate(v[0]) + sp;
    let p1 = p0 + spec_coordinate(v[1]) + sp;
    let p2 = p1 + spec_coordinate(v[2]) + sp;
    let p3 = p2 + spec_coordinate(v[3]) + sp;
    let p4 = p3 + spec_coordinate(v[4]) + sp;
    let p5 = p4 + spec_coordinate(v[5]) + sp;
    assert(m.spec_serialize() =~= p5 + spec_joined(v, 6));
    assert(p5 + spec_joined(v, 6) =~= p4 + spec_joined(v, 5));
    assert(p4 + spec_joined(v, 5) =~= p3 + spec_joined(v, 4));
    assert(p3 + spec_joined(v, 4) =~= p2 + spec_joined(v, 3));
    assert(p2 + spec_joined(v, 3) =~= p1 + spec_joined(v, 2));
    assert(p1 + spec_joined(v, 2) =~= p0 + spec_joined(v, 1));
    assert(p0 + spec_joined(v, 1) =~= spec_joined(v, 0));
}

/// The serialized form tells the moves of a position apart: two moves that
/// fit one board and have the same serialized form are the same move.
pub proof fn lemma_serialize_tells_apart(b: BoardState, p: Player, m1: Move, m2: Move)
    requires
        b.wf(p),
        b.fits(p, m1),
        b.fits(p, m2),
        m1.spec_serialize() == m2.spec_serialize(),
    ensures
        m1 == m2,
{
    lemma_serialize_fields(m1);
    lemma_serialize_fields(m2);
    lemma_serialize_joined(m1);
    lemma_serialize_joined(m2);
    lemma_joined_tells_apart(m1.spec_fields(), m2.spec_fields(), 0);
    let a = m1.spec_fields();
    let c = m2.spec_fields();
    assert(a[0] == c[0] && a[1] == c[1] && a[2] == c[2] && a[3] == c[3] && a[6] == c[6]);
    lemma_same_square(m1.from, m2.from);
    lemma_same_square(m1.to, m2.to);
    lemma_takes_determined(b, p, m1, m2);
    assert(m1.end_type == m2.end_type);
}

impl Move {
    /// The seven numbers of the serialized form.
    pub open spec fn spec_fields(self) -> Seq<int> {
        let f = sq(self.from);
        let t = sq(self.to);
        let e = sq(self.eaten_loc);
        let taken = self.eaten_loc != 0;
        seq![
            file_of(f),
            rank_of(f),
            file_of(t),
            rank_of(t),
            if taken {
                file_of(e)
            } else {
                -1
            },
            if taken {
                rank_of(e)
            } else {
                -1
            },
            self.end_type.spec_ordinal(),
        ]
    }
}

/// The numbers of the serialized form are coordinates.
proof fn lemma_serialize_fields(m: Move)
    ensures
        forall|k: int| 0 <= k < 7 ==> -1 <= #[trigger] m.spec_fields()[k] <= 9,
        m.spec_fields().len() == 7,
{
    vstd::std_specs::bits::axiom_u64_trailing_zeros(m.from);
    vstd::std_specs::bits::axiom_u64_trailing_zeros(m.to);
    vstd::std_specs::bits::axiom_u64_trailing_zeros(m.eaten_loc);
}

/// The written form tells the moves of a position apart: two moves that fit
/// one board and are written the same are the same move.
pub proof fn lemma_to_string_tells_apart(b: BoardState, p: Player, m1: Move, m2: Move)
    requires
        b.wf(p),
        b.fits(p, m1),
        b.fits(p, m2),
        m1.spec_to_string() == m2.spec_to_string(),
    ensures
        m1 == m2,
{
    let s1 = m1.spec_to_string();
    let s2 = m2.spec_to_string();
    assert(s1[0] == s2[0] && s1[1] == s2[1] && s1[2] == s2[2] && s1[3] == s2[3]);
    assert(s1[0] == spec_file_letter(file_of(sq(m1.from))));
    assert(s1[1] == spec_digit(rank_of(sq(m1.from)) + 1));
    assert(s1[2] == spec_file_letter(file_of(sq(m1.to))));
    assert(s1[3] == spec_digit(rank_of(sq(m1.to)) + 1));
    assert(s2[0] == spec_file_letter(file_of(sq(m2.from))));
    assert(s2[1] == spec_digit(rank_of(sq(m2.from)) + 1));
    assert(s2[2] == spec_file_letter(file_of(sq(m2.to))));
    assert(s2[3] == spec_digit(rank_of(sq(m2.to)) + 1));
    lemma_same_square(m1.from, m2.from);
    lemma_same_square(m1.to, m2.to);
    lemma_takes_determined(b, p, m1, m2);
    assert(s1.len() == s2.len());
    if m1.start_type != m1.end_type {
        assert(s1[4] == s2[4]);
        assert(s1[4] == spec_kind_letter(m1.end_type));
        assert(s2[4] == spec_kind_letter(m2.end_type));
    }
}

/// Whether two texts are the same.
pub fn same_text(a: &str, b: &str) -> (r: bool)
    ensures
        r == (a@ == b@),
{
    let n = a.unicode_len();
    if b.unicode_len() != n {
        return false;
    }
    let mut i: usize = 0;
    while i < n
        invariant
            i <= n,
            n == a@.len(),
            n == b@.len(),
            forall|k: int| 0 <= k < i ==> a@[k] == b@[k],
        decreases n - i,
    {
        if a.get_char(i) != b.get_char(i) {
            return false;
        }
        i += 1;
    }
    proof {
        assert(a@ =~= b@);
    }
    true
}

impl Move {
    /// The move as text, in the serialized form or as a player writes it.
    pub open spec fn spec_text(self, serialized: bool) -> Seq<char> {
        if serialized {
            self.spec_serialize()
        } else {
            self.spec_to_string()
        }
    }
}

impl<'a> Chess<'a> {
    /// The move of the player to move that has the text `text`; none where
    /// no move has it.
    pub fn find_move(&self, text: &str, serialized: bool) -> (r: Option<Move>)
        requires
            self.wf(),
        ensures
            match r {
                Some(m) => spec_possible_moves(self.board, self.current_player).contains(m) && text@
                    == m.spec_text(serialized),
                None => forall|k: int|
                    0 <= k < spec_possible_moves(self.board, self.current_player).len() ==> text@ != (
                    #[trigger] spec_possible_moves(self.board, self.current_player)[k]).spec_text(
                        serialized,
                    ),
            },
    {
        let moves = self.possible_moves();
        let mut k: usize = 0;
        while k < moves.len()
            invariant
                k <= moves.len(),
                moves@ == spec_possible_moves(self.board, self.current_player),
                all_fit(self.board, self.current_player, moves@),
                forall|j: int| 0 <= j < k ==> text@ != (#[trigger] moves@[j]).spec_text(serialized),
            decreases moves.len() - k,
        {
            let m = moves[k];
            proof {
                assert(self.board.fits(self.current_player, moves@[k as int]));
                lemma_single_nonzero(sq(m.from));
                lemma_single_nonzero(sq(m.to));
            }
            let written = if serialized {
                m.serialize()
            } else {
                m.to_string()
            };
            if same_text(written.as_str(), text) {
                return Some(m);
            }
            k += 1;
        }
        None
    }
}

} // verus!
