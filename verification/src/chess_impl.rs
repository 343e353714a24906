//! The position: piece kinds, the twelve bitboards with castling memory and
//! en-passant target, moves, and the rules that apply and take back a move.
use vstd::prelude::*;
use vstd::array::spec_array_update;
use vstd::std_specs::bits::{u64_trailing_zeros};
use crate::bit_help::{
    Dir, abs_diff, coord_to_index, file_of, index, index_to_place, is_step, place_to_coord, rank_of,
};
use crate::bits::{
    bit, single, lemma_bit_single, lemma_bit_zero, lemma_bits_equal, lemma_single_index,
    lemma_single_nonzero,
};
use crate::move_generation::{
    MoveTables, forward, king_step, pawn_attack, pawn_start_rank, spec_moves,
};
use crate::two_player_game::Player;

verus! {

#[derive(Copy, Clone, PartialEq, Eq, Hash, Debug, Structural)]
pub enum PieceType {
    PAWN,
    KNIGHT,
    BISHOP,
    ROOK,
    QUEEN,
    KING,
}

impl PieceType {
    /// Position of `self` in tables indexed by piece kind.
    pub open spec fn spec_ordinal(self) -> int {
        match self {
            PieceType::PAWN => 0,
            PieceType::KNIGHT => 1,
            PieceType::BISHOP => 2,
            PieceType::ROOK => 3,
            PieceType::QUEEN => 4,
            PieceType::KING => 5,
        }
    }

    /// The piece kind at position `n`, if there is one.
    pub open spec fn spec_from_ordinal(n: int) -> Option<PieceType> {
        if n == 0 {
            Some(PieceType::PAWN)
        } else if n == 1 {
            Some(PieceType::KNIGHT)
        } else if n == 2 {
            Some(PieceType::BISHOP)
        } else if n == 3 {
            Some(PieceType::ROOK)
        } else if n == 4 {
            Some(PieceType::QUEEN)
        } else if n == 5 {
            Some(PieceType::KING)
        } else {
            None
        }
    }

    /// The six piece kinds in table order.
    pub fn all() -> (r: [PieceType; 6])
        ensures
            forall|k: int| 0 <= k < 6 ==> (#[trigger] r@[k]).spec_ordinal() == k,
    {
        [
            PieceType::PAWN,
            PieceType::KNIGHT,
            PieceType::BISHOP,
            PieceType::ROOK,
            PieceType::QUEEN,
            PieceType::KING,
        ]
    }

    pub fn ordinal(&self) -> (r: usize)
        ensures
            r == self.spec_ordinal(),
            r < 6,
    {
        match *self {
            PieceType::PAWN => 0,
            PieceType::KNIGHT => 1,
            PieceType::BISHOP => 2,
            PieceType::ROOK => 3,
            PieceType::QUEEN => 4,
            PieceType::KING => 5,
        }
    }

    /// The piece kind at position `value`; the number itself where there is
    /// none.
    pub fn try_from(value: usize) -> (r: Result<PieceType, usize>)
        ensures
            r == match PieceType::spec_from_ordinal(value as int) {
                Some(p) => Ok::<PieceType, usize>(p),
                None => Err::<PieceType, usize>(value),
            },
    {
        match value {
            0 => Ok(PieceType::PAWN),
            1 => Ok(PieceType::KNIGHT),
            2 => Ok(PieceType::BISHOP),
            3 => Ok(PieceType::ROOK),
            4 => Ok(PieceType::QUEEN),
            5 => Ok(PieceType::KING),
            _ => Err(value),
        }
    }
}

impl Player {
    /// A direction as this player sees it: the second player's view is the
    /// board's, the first player's is turned round.
    pub open spec fn spec_dir(self, dir: Dir) -> Dir {
        match self {
            Player::PLAYER2 => dir,
            Player::PLAYER1 => dir.spec_flip(),
        }
    }

    pub fn dir(&self, dir: Dir) -> (r: Dir)
        ensures
            r == self.spec_dir(dir),
    {
        match *self {
            Player::PLAYER2 => dir,
            Player::PLAYER1 => dir.flip(),
        }
    }
}

/// The king's starting square, by player.
pub open spec fn king_place(p: Player) -> u64 {
    match p {
        Player::PLAYER1 => 0x8,
        Player::PLAYER2 => 0x0800_0000_0000_0000,
    }
}

/// The king-side rook's starting square, by player.
pub open spec fn kingside_rook(p: Player) -> u64 {
    match p {
        Player::PLAYER1 => 0x1,
        Player::PLAYER2 => 0x0100_0000_0000_0000,
    }
}

/// The queen-side rook's starting square, by player.
pub open spec fn queenside_rook(p: Player) -> u64 {
    match p {
        Player::PLAYER1 => 0x80,
        Player::PLAYER2 => 0x8000_0000_0000_0000,
    }
}

pub fn king_start(p: Player) -> (r: u64)
    ensures
        r == king_place(p),
{
    match p {
        Player::PLAYER1 => 0x8,
        Player::PLAYER2 => 0x0800_0000_0000_0000,
    }
}

pub fn kingside_rook_start(p: Player) -> (r: u64)
    ensures
        r == kingside_rook(p),
{
    match p {
        Player::PLAYER1 => 0x1,
        Player::PLAYER2 => 0x0100_0000_0000_0000,
    }
}

pub fn queenside_rook_start(p: Player) -> (r: u64)
    ensures
        r == queenside_rook(p),
{
    match p {
        Player::PLAYER1 => 0x80,
        Player::PLAYER2 => 0x8000_0000_0000_0000,
    }
}

/// The twelve bitboards, the castling memory and the en-passant target.
///
/// The first player's pieces start on the low squares. The lowest square is
/// h1, and squares run along a rank before they run up the board.
#[derive(Clone, Copy, Debug)]
pub struct BoardState {
    /// One bitboard per player and piece kind.
    pub piece_state: [[u64; 6]; 2],
    /// Starting squares of kings and rooks whose piece has not moved yet.
    pub castle_memory: u64,
    /// The square a pawn has just passed over; 0 where there is none.
    pub en_passant_square: u64,
}

impl BoardState {
    /// The bitboard of `player`'s pieces of kind `piece_type`.
    pub open spec fn spec_get(&self, player: Player, piece_type: PieceType) -> u64 {
        self.piece_state[player.spec_ordinal()][piece_type.spec_ordinal()]
    }

    /// The squares that hold a piece of `player`.
    pub open spec fn spec_occupancy(&self, player: Player) -> u64 {
        self.spec_get(player, PieceType::PAWN) | self.spec_get(player, PieceType::KNIGHT)
            | self.spec_get(player, PieceType::BISHOP) | self.spec_get(player, PieceType::ROOK)
            | self.spec_get(player, PieceType::QUEEN) | self.spec_get(player, PieceType::KING)
    }

    /// The squares that hold a piece.
    pub open spec fn spec_all_occupancy(&self) -> u64 {
        self.spec_occupancy(Player::PLAYER1) | self.spec_occupancy(Player::PLAYER2)
    }

    /// The kind of `player`'s piece that shares a square with `place`, the
    /// lowest kind where there are several.
    pub open spec fn spec_kind_at(&self, player: Player, place: u64) -> Option<PieceType> {
        if self.spec_get(player, PieceType::PAWN) & place != 0 {
            Some(PieceType::PAWN)
        } else if self.spec_get(player, PieceType::KNIGHT) & place != 0 {
            Some(PieceType::KNIGHT)
        } else if self.spec_get(player, PieceType::BISHOP) & place != 0 {
            Some(PieceType::BISHOP)
        } else if self.spec_get(player, PieceType::ROOK) & place != 0 {
            Some(PieceType::ROOK)
        } else if self.spec_get(player, PieceType::QUEEN) & place != 0 {
            Some(PieceType::QUEEN)
        } else if self.spec_get(player, PieceType::KING) & place != 0 {
            Some(PieceType::KING)
        } else {
            None
        }
    }

    /// The owner and kind of the piece that shares a square with `place`,
    /// the first player's before the second's.
    pub open spec fn spec_type_at(&self, place: u64) -> Option<(Player, PieceType)> {
        match self.spec_kind_at(Player::PLAYER1, place) {
            Some(t) => Some((Player::PLAYER1, t)),
            None => match self.spec_kind_at(Player::PLAYER2, place) {
                Some(t) => Some((Player::PLAYER2, t)),
                None => None,
            },
        }
    }

    fn kind_at(&self, player: Player, place: u64) -> (r: Option<PieceType>)
        ensures
            r == self.spec_kind_at(player, place),
    {
        let kinds = PieceType::all();
        proof {
            lemma_kinds(kinds);
        }
        let mut t: usize = 0;
        while t < 6
            invariant
                t <= 6,
                kinds@ == seq![
                    PieceType::PAWN,
                    PieceType::KNIGHT,
                    PieceType::BISHOP,
                    PieceType::ROOK,
                    PieceType::QUEEN,
                    PieceType::KING,
                ],
                forall|k: int| 0 <= k < t ==> self.spec_get(player, #[trigger] kinds@[k]) & place == 0,
            decreases 6 - t,
        {
            let piece_type = kinds[t];
            if self.get(player, piece_type) & place != 0 {
                return Some(piece_type);
            }
            t += 1;
        }
        assert(self.spec_get(player, kinds@[0]) & place == 0);
        assert(self.spec_get(player, kinds@[1]) & place == 0);
        assert(self.spec_get(player, kinds@[2]) & place == 0);
        assert(self.spec_get(player, kinds@[3]) & place == 0);
        assert(self.spec_get(player, kinds@[4]) & place == 0);
        assert(self.spec_get(player, kinds@[5]) & place == 0);
        None
    }

    pub fn type_at(&self, place: u64) -> (r: Option<(Player, PieceType)>)
        ensures
            r == self.spec_type_at(place),
    {
        match self.kind_at(Player::PLAYER1, place) {
            Some(t) => Some((Player::PLAYER1, t)),
            None => match self.kind_at(Player::PLAYER2, place) {
                Some(t) => Some((Player::PLAYER2, t)),
                None => None,
            },
        }
    }

    pub fn get(&self, player: Player, piece_type: PieceType) -> (r: u64)
        ensures
            r == self.spec_get(player, piece_type),
    {
        self.piece_state[player.ordinal()][piece_type.ordinal()]
    }

    pub fn get_mut(&mut self, player: Player, piece_type: PieceType) -> (r: &mut u64)
        ensures
            *r == old(self).spec_get(player, piece_type),
            *final(self) == old(self).with(player, piece_type, *final(r)),
    {
        &mut self.piece_state[player.ordinal()][piece_type.ordinal()]
    }

    /// `self` with the bitboard of `player` and `piece_type` replaced.
    pub open spec fn with(self, player: Player, piece_type: PieceType, v: u64) -> BoardState {
        BoardState {
            piece_state: spec_array_update(
                self.piece_state,
                player.spec_ordinal(),
                spec_array_update(
                    self.piece_state[player.spec_ordinal()],
                    piece_type.spec_ordinal(),
                    v,
                ),
            ),
            ..self
        }
    }

    /// `self` after a piece of `player` and `piece_type` has left `from`
    /// and come to `to`.
    pub open spec fn spec_move_piece(
        self,
        player: Player,
        piece_type: PieceType,
        from: u64,
        to: u64,
    ) -> BoardState {
        self.with(player, piece_type, (self.spec_get(player, piece_type) & !from) | to)
    }

    pub fn move_piece(&mut self, player: Player, piece_type: PieceType, from: u64, to: u64)
        ensures
            *final(self) == old(self).spec_move_piece(player, piece_type, from, to),
    {
        let piece_state = self.get_mut(player, piece_type);
        *piece_state &= !from;
        *piece_state |= to;
    }

    pub fn all_occupancy(&self) -> (r: u64)
        ensures
            r == self.spec_all_occupancy(),
    {
        return self.occupancy(Player::PLAYER1) | self.occupancy(Player::PLAYER2);
    }

    pub fn occupancy(&self, player: Player) -> (r: u64)
        ensures
            r == self.spec_occupancy(player),
    {
        let row = &self.piece_state[player.ordinal()];
        row[0] | row[1] | row[2] | row[3] | row[4] | row[5]
    }
}

proof fn lemma_kinds(kinds: [PieceType; 6])
    requires
        forall|k: int| 0 <= k < 6 ==> (#[trigger] kinds@[k]).spec_ordinal() == k,
    ensures
        kinds@ == seq![
            PieceType::PAWN,
            PieceType::KNIGHT,
            PieceType::BISHOP,
            PieceType::ROOK,
            PieceType::QUEEN,
            PieceType::KING,
        ],
{
    assert(kinds@[0].spec_ordinal() == 0);
    assert(kinds@[1].spec_ordinal() == 1);
    assert(kinds@[2].spec_ordinal() == 2);
    assert(kinds@[3].spec_ordinal() == 3);
    assert(kinds@[4].spec_ordinal() == 4);
    assert(kinds@[5].spec_ordinal() == 5);
    assert(kinds@ =~= seq![
        PieceType::PAWN,
        PieceType::KNIGHT,
        PieceType::BISHOP,
        PieceType::ROOK,
        PieceType::QUEEN,
        PieceType::KING,
    ]);
}


/// A move: where from, where to, what moves, what it becomes, and what is
/// taken where. Castling and en-passant are read off these when the move is
/// applied.
#[derive(Debug, Clone, Copy, PartialEq, Eq, Hash, Structural)]
pub struct Move {
    pub from: u64,
    pub to: u64,
    pub start_type: PieceType,
    /// Differs from `start_type` on promotion only.
    pub end_type: PieceType,
    pub eaten_type: PieceType,
    /// The square of the piece taken; 0 where nothing is taken.
    pub eaten_loc: u64,
}

/// Index of the lowest member of `place`.
pub open spec fn sq(place: u64) -> int {
    u64_trailing_zeros(place) as int
}

/// Both kings' starting squares.
pub open spec fn king_places() -> u64 {
    0x0800_0000_0000_0008
}

/// From the square on which a castling king lands, the squares that the
/// rook leaves and reaches.
pub open spec fn spec_castle_rook_move(king_end_location: u64) -> Option<(u64, u64)> {
    let x = sq(king_end_location);
    if x == 1 {
        Some((single(0), single(2)))
    } else if x == 5 {
        Some((single(7), single(4)))
    } else if x == 61 {
        Some((single(63), single(60)))
    } else if x == 57 {
        Some((single(56), single(58)))
    } else {
        None
    }
}

impl Move {
    /// A number that tells moves apart: the squares and kinds of the move,
    /// eight bits each.
    pub open spec fn spec_hash(self) -> u64 {
        (u64_trailing_zeros(self.from) as u64) | (u64_trailing_zeros(self.to) as u64) << 8 | (
        self.start_type.spec_ordinal() as u64) << 16 | (self.end_type.spec_ordinal() as u64) << 24 | (
        self.eaten_type.spec_ordinal() as u64) << 32 | (u64_trailing_zeros(self.eaten_loc) as u64)
            << 40
    }

    pub fn hash(&self) -> (r: u64)
        ensures
            r == self.spec_hash(),
    {
        self.from.trailing_zeros() as u64 | (self.to.trailing_zeros() as u64) << 8 | (
        self.start_type.ordinal() as u64) << 16 | (self.end_type.ordinal() as u64) << 24 | (
        self.eaten_type.ordinal() as u64) << 32 | (self.eaten_loc.trailing_zeros() as u64) << 40
    }

    /// Whether the move is read as castling: a king leaves a king's starting
    /// square by two files.
    pub open spec fn is_castle(self) -> bool {
        self.start_type == PieceType::KING && self.from & king_places() != 0 && abs_diff(
            file_of(sq(self.from)),
            file_of(sq(self.to)),
        ) == 2
    }

    /// Whether the move is read as a pawn's double step.
    pub open spec fn is_double_push(self) -> bool {
        self.start_type == PieceType::PAWN && abs_diff(rank_of(sq(self.from)), rank_of(sq(self.to)))
            == 2
    }

    /// The square passed over by a double step.
    pub open spec fn passed_square(self) -> u64 {
        single(((rank_of(sq(self.from)) + rank_of(sq(self.to))) / 2) * 8 + file_of(sq(self.from)))
    }

    /// Whether the move can be taken back without further knowledge: where
    /// it reads as castling, the king has landed on a castling square.
    pub open spec fn shape_ok(self) -> bool {
        self.is_castle() ==> spec_castle_rook_move(self.to) is Some
    }
}

impl BoardState {
    /// The board after `player` has made the move `m`.
    #[verifier::opaque]
    pub open spec fn spec_apply(self, player: Player, m: Move) -> BoardState {
        let other = player.spec_other();
        let b1 = self.with(player, m.start_type, self.spec_get(player, m.start_type) & !m.from);
        let b2 = b1.with(player, m.end_type, b1.spec_get(player, m.end_type) | m.to);
        let b3 = b2.with(other, m.eaten_type, b2.spec_get(other, m.eaten_type) & !m.eaten_loc);
        let b4 = if m.is_castle() {
            let rook = spec_castle_rook_move(m.to)->0;
            b3.spec_move_piece(player, PieceType::ROOK, rook.0, rook.1)
        } else {
            b3
        };
        BoardState {
            piece_state: b4.piece_state,
            castle_memory: self.castle_memory & !m.from & !m.eaten_loc,
            en_passant_square: if m.is_double_push() {
                m.passed_square()
            } else {
                0
            },
        }
    }

    /// The board before `player` made the move `m`, with the castling
    /// memory and en-passant target that were recorded then.
    #[verifier::opaque]
    pub open spec fn spec_unapply(self, player: Player, m: Move, castle: u64, en_passant: u64) -> BoardState {
        let other = player.spec_other();
        let c1 = self.with(player, m.end_type, self.spec_get(player, m.end_type) & !m.to);
        let c2 = c1.with(player, m.start_type, c1.spec_get(player, m.start_type) | m.from);
        let c3 = c2.with(other, m.eaten_type, c2.spec_get(other, m.eaten_type) | m.eaten_loc);
        let c4 = if m.is_castle() {
            let rook = spec_castle_rook_move(m.to)->0;
            c3.spec_move_piece(player, PieceType::ROOK, rook.1, rook.0)
        } else {
            c3
        };
        BoardState { piece_state: c4.piece_state, castle_memory: castle, en_passant_square: en_passant }
    }
}

/// Reading a bitboard after one has been replaced.
pub broadcast proof fn lemma_with_get(
    b: BoardState,
    p: Player,
    t: PieceType,
    v: u64,
    q: Player,
    u: PieceType,
)
    ensures
        #[trigger] b.with(p, t, v).spec_get(q, u) == if p == q && t == u {
            v
        } else {
            b.spec_get(q, u)
        },
        b.with(p, t, v).castle_memory == b.castle_memory,
        b.with(p, t, v).en_passant_square == b.en_passant_square,
{
    broadcast use vstd::array::group_array_axioms;

}

/// Two boards with the same twelve bitboards, castling memory and
/// en-passant target are the same board.
pub proof fn lemma_board_equal(a: BoardState, b: BoardState)
    requires
        forall|p: Player, t: PieceType| #[trigger] a.spec_get(p, t) == b.spec_get(p, t),
        a.castle_memory == b.castle_memory,
        a.en_passant_square == b.en_passant_square,
    ensures
        a == b,
{
    broadcast use vstd::array::group_array_axioms;

    assert forall|i: int| 0 <= i < 2 implies a.piece_state[i] == b.piece_state[i] by {
        let p = if i == 0 {
            Player::PLAYER1
        } else {
            Player::PLAYER2
        };
        assert(a.spec_get(p, PieceType::PAWN) == b.spec_get(p, PieceType::PAWN));
        assert(a.spec_get(p, PieceType::KNIGHT) == b.spec_get(p, PieceType::KNIGHT));
        assert(a.spec_get(p, PieceType::BISHOP) == b.spec_get(p, PieceType::BISHOP));
        assert(a.spec_get(p, PieceType::ROOK) == b.spec_get(p, PieceType::ROOK));
        assert(a.spec_get(p, PieceType::QUEEN) == b.spec_get(p, PieceType::QUEEN));
        assert(a.spec_get(p, PieceType::KING) == b.spec_get(p, PieceType::KING));
        assert(a.piece_state[i] =~= b.piece_state[i]);
    }
    assert(a.piece_state =~= b.piece_state);
}

impl BoardState {
    /// No square holds two pieces.
    pub open spec fn disjoint(self) -> bool {
        forall|j: int, p1: Player, t1: PieceType, p2: Player, t2: PieceType|
            #[trigger] bit(self.spec_get(p1, t1), j) && #[trigger] bit(self.spec_get(p2, t2), j) ==> p1
                == p2 && t1 == t2
    }

    /// Whether `player` has a piece on square `j`.
    pub open spec fn holds(self, player: Player, j: int) -> bool {
        bit(self.spec_get(player, PieceType::PAWN), j) || bit(
            self.spec_get(player, PieceType::KNIGHT),
            j,
        ) || bit(self.spec_get(player, PieceType::BISHOP), j) || bit(
            self.spec_get(player, PieceType::ROOK),
            j,
        ) || bit(self.spec_get(player, PieceType::QUEEN), j) || bit(
            self.spec_get(player, PieceType::KING),
            j,
        )
    }

    /// Whether square `j` is free.
    pub open spec fn free(self, j: int) -> bool {
        !self.holds(Player::PLAYER1, j) && !self.holds(Player::PLAYER2, j)
    }

    /// The en-passant target is empty, or one free square on the rank that
    /// the opponent of `to_move` passes with a double step, with that
    /// opponent's pawn just beyond it.
    pub open spec fn en_passant_wf(self, to_move: Player) -> bool {
        let mover = to_move.spec_other();
        let e = sq(self.en_passant_square);
        self.en_passant_square != 0 ==> {
            &&& 0 <= e < 64
            &&& self.en_passant_square == single(e)
            &&& rank_of(e) == pawn_start_rank(mover) + forward(mover).dy()
            &&& self.free(e)
            &&& bit(self.spec_get(mover, PieceType::PAWN), e + forward(mover).delta())
        }
    }

    /// A king that still has its castling memory stands on its starting
    /// square.
    pub open spec fn castle_wf(self, p: Player) -> bool {
        self.castle_memory & king_place(p) != 0 ==> self.spec_get(p, PieceType::KING) == king_place(
            p,
        )
    }

    /// Whether `player` has exactly one king.
    pub open spec fn one_king(self, p: Player) -> bool {
        let k = self.spec_get(p, PieceType::KING);
        0 <= sq(k) < 64 && k == single(sq(k))
    }

    /// What the rules of this module keep true of a board on which
    /// `to_move` moves next.
    pub open spec fn wf(self, to_move: Player) -> bool {
        &&& self.disjoint()
        &&& self.one_king(Player::PLAYER1)
        &&& self.one_king(Player::PLAYER2)
        &&& self.castle_wf(Player::PLAYER1)
        &&& self.castle_wf(Player::PLAYER2)
        &&& self.en_passant_wf(to_move)
    }

    /// Whether `m` takes nothing and lands on a free square, or takes the
    /// opponent's piece that it names: the one on the landing square, or,
    /// for a pawn that moves onto the en-passant target, the pawn beyond it.
    /// A king is never taken. A move that takes nothing names the pawn as
    /// the kind it takes.
    pub open spec fn capture_fits(self, player: Player, m: Move) -> bool {
        let other = player.spec_other();
        let ti = sq(m.to);
        let ei = sq(m.eaten_loc);
        if m.eaten_loc == 0 {
            !self.holds(other, ti) && m.eaten_type == PieceType::PAWN
        } else {
            &&& 0 <= ei < 64
            &&& m.eaten_loc == single(ei)
            &&& bit(self.spec_get(other, m.eaten_type), ei)
            &&& m.eaten_type != PieceType::KING
            &&& ei == ti || {
                &&& m.start_type == PieceType::PAWN
                &&& m.end_type == PieceType::PAWN
                &&& m.eaten_type == PieceType::PAWN
                &&& m.to == self.en_passant_square
                &&& !self.holds(other, ti)
                &&& ei == ti + forward(other).delta()
                &&& pawn_attack(player, sq(m.from), ti)
            }
        }
    }

    /// Whether a king's move `m` is one step, or castling with the rook in
    /// place and the rook's landing square free.
    pub open spec fn king_fits(self, player: Player, m: Move) -> bool {
        let fi = sq(m.from);
        let ti = sq(m.to);
        king_step(fi, ti) || {
            &&& m.from == king_place(player)
            &&& m.eaten_loc == 0
            &&& (ti == fi - 2 && bit(self.spec_get(player, PieceType::ROOK), fi - 3) && self.free(
                fi - 1,
            )) || (ti == fi + 2 && bit(self.spec_get(player, PieceType::ROOK), fi + 4) && self.free(
                fi + 1,
            ))
        }
    }

    /// Whether a pawn's move `m` is one step ahead, a double step from the
    /// starting rank over a free square, or a capture diagonally ahead.
    pub open spec fn pawn_fits(self, player: Player, m: Move) -> bool {
        let fi = sq(m.from);
        let ti = sq(m.to);
        let d = forward(player);
        ||| is_step(fi, d, 1, ti) && m.eaten_loc == 0
        ||| rank_of(fi) == pawn_start_rank(player) && is_step(fi, d, 2, ti) && self.free(
            fi + d.delta(),
        ) && m.eaten_loc == 0 && m.end_type == PieceType::PAWN
        ||| pawn_attack(player, fi, ti) && m.eaten_loc != 0
    }

    /// Whether `player` can make the move `m` on this board by the way the
    /// pieces move: the piece is there, the landing square is not the
    /// player's own, what is taken is there, and the piece moves as its kind
    /// does. Whether the move exposes the king is not part of it, nor, for
    /// castling, whether the king passes an attacked square.
    pub open spec fn fits(self, player: Player, m: Move) -> bool {
        let fi = sq(m.from);
        let ti = sq(m.to);
        &&& 0 <= fi < 64
        &&& m.from == single(fi)
        &&& bit(self.spec_get(player, m.start_type), fi)
        &&& 0 <= ti < 64
        &&& m.to == single(ti)
        &&& !self.holds(player, ti)
        &&& m.end_type == m.start_type || (m.start_type == PieceType::PAWN && m.end_type
            != PieceType::PAWN && m.end_type != PieceType::KING)
        &&& self.capture_fits(player, m)
        &&& m.start_type == PieceType::KING ==> self.king_fits(player, m)
        &&& m.start_type == PieceType::PAWN ==> self.pawn_fits(player, m)
        &&& m.start_type != PieceType::KING && m.start_type != PieceType::PAWN ==> bit(
            spec_moves(fi, player, m.start_type, self.spec_all_occupancy()),
            ti,
        )
    }

    /// Membership in a bitboard of the board after `player` has made a
    /// fitting move `m`.
    pub open spec fn applied_bit(self, player: Player, m: Move, q: Player, t: PieceType, j: int) -> bool {
        let fi = sq(m.from);
        let ti = sq(m.to);
        let was = bit(self.spec_get(q, t), j);
        if q == player {
            if t == PieceType::ROOK && m.is_castle() {
                if ti == fi - 2 {
                    (was && j != fi - 3) || j == fi - 1
                } else {
                    (was && j != fi + 4) || j == fi + 1
                }
            } else {
                (was && !(t == m.start_type && j == fi)) || (t == m.end_type && j == ti)
            }
        } else {
            was && !(t == m.eaten_type && m.eaten_loc != 0 && j == sq(m.eaten_loc))
        }
    }
}

/// A fitting move has a shape that can be applied and taken back.
pub proof fn lemma_fits_shape(b: BoardState, player: Player, m: Move)
    requires
        b.wf(player),
        b.fits(player, m),
    ensures
        m.shape_ok(),
        m.is_castle() <==> m.start_type == PieceType::KING && !king_step(sq(m.from), sq(m.to)),
        m.is_castle() ==> spec_castle_rook_move(m.to) == Some(
            if sq(m.to) == sq(m.from) - 2 {
                (single(sq(m.from) - 3), single(sq(m.from) - 1))
            } else {
                (single(sq(m.from) + 4), single(sq(m.from) + 1))
            },
        ),
{
    let fi = sq(m.from);
    let ti = sq(m.to);
    lemma_single_index(3);
    lemma_single_index(59);
    bv_king_places(0);
    assert(king_place(Player::PLAYER1) == single(3));
    assert(king_place(Player::PLAYER2) == single(59));
    if m.start_type == PieceType::KING {
        let k = b.spec_get(player, PieceType::KING);
        assert(bit(k, fi));
        assert(k == single(sq(k)));
        lemma_bit_single(sq(k), fi);
        assert(k == m.from);
        if m.from & king_places() != 0 {
            bv_king_places(m.from);
        }
        if m.from == king_place(player) {
            bv_king_places(m.from);
        }
    }
}

/// The starting squares of kings and rooks, as squares.
pub proof fn lemma_castle_squares()
    ensures
        king_place(Player::PLAYER1) == single(3),
        king_place(Player::PLAYER2) == single(59),
        kingside_rook(Player::PLAYER1) == single(0),
        kingside_rook(Player::PLAYER2) == single(56),
        queenside_rook(Player::PLAYER1) == single(7),
        queenside_rook(Player::PLAYER2) == single(63),
        sq(king_place(Player::PLAYER1)) == 3,
        sq(king_place(Player::PLAYER2)) == 59,
        sq(kingside_rook(Player::PLAYER1)) == 0,
        sq(kingside_rook(Player::PLAYER2)) == 56,
        sq(queenside_rook(Player::PLAYER1)) == 7,
        sq(queenside_rook(Player::PLAYER2)) == 63,
{
    bv_king_places(0);
    lemma_single_index(0);
    lemma_single_index(3);
    lemma_single_index(7);
    lemma_single_index(56);
    lemma_single_index(59);
    lemma_single_index(63);
}

proof fn bv_king_places(x: u64)
    by (bit_vector)
    ensures
        x & 0x0800_0000_0000_0008 != 0 && (x & ((x - 1) as u64) == 0) ==> x == 0x8 || x
            == 0x0800_0000_0000_0000,
        x == 0x8 || x == 0x0800_0000_0000_0000 ==> x & 0x0800_0000_0000_0008 != 0,
        0x8u64 == 1u64 << 3,
        0x0800_0000_0000_0000u64 == 1u64 << 59,
        0x1u64 == 1u64 << 0,
        0x80u64 == 1u64 << 7,
        0x0100_0000_0000_0000u64 == 1u64 << 56,
        0x8000_0000_0000_0000u64 == 1u64 << 63,
{
}

/// What each bitboard holds after a fitting move.
pub proof fn lemma_apply_bits(b: BoardState, player: Player, m: Move, q: Player, t: PieceType, j: int)
    requires
        b.wf(player),
        b.fits(player, m),
    ensures
        bit(b.spec_apply(player, m).spec_get(q, t), j) == b.applied_bit(player, m, q, t, j),
{
    broadcast use crate::bits::group_bits, lemma_with_get;

    reveal(BoardState::spec_apply);
    lemma_fits_shape(b, player, m);
    let fi = sq(m.from);
    let ti = sq(m.to);
    let other = player.spec_other();
    let b1 = b.with(player, m.start_type, b.spec_get(player, m.start_type) & !m.from);
    let b2 = b1.with(player, m.end_type, b1.spec_get(player, m.end_type) | m.to);
    let b3 = b2.with(other, m.eaten_type, b2.spec_get(other, m.eaten_type) & !m.eaten_loc);
    assert(bit(b1.spec_get(q, t), j) == (bit(b.spec_get(q, t), j) && !(q == player && t
        == m.start_type && j == fi)));
    assert(bit(b2.spec_get(q, t), j) == (bit(b1.spec_get(q, t), j) || (q == player && t
        == m.end_type && j == ti)));
    if m.eaten_loc != 0 {
        assert(bit(m.eaten_loc, j) == (j == sq(m.eaten_loc)));
    }
    assert(bit(b3.spec_get(q, t), j) == (bit(b2.spec_get(q, t), j) && !(q == other && t
        == m.eaten_type && m.eaten_loc != 0 && j == sq(m.eaten_loc))));
    if m.is_castle() {
        let rook = spec_castle_rook_move(m.to)->0;
        let b4 = b3.spec_move_piece(player, PieceType::ROOK, rook.0, rook.1);
        if ti == fi - 2 {
            assert(bit(rook.0, j) == (j == fi - 3));
            assert(bit(rook.1, j) == (j == fi - 1));
        } else {
            assert(bit(rook.0, j) == (j == fi + 4));
            assert(bit(rook.1, j) == (j == fi + 1));
        }
        assert(b.spec_apply(player, m).spec_get(q, t) == b4.spec_get(q, t));
    } else {
        assert(b.spec_apply(player, m).spec_get(q, t) == b3.spec_get(q, t));
    }
}

/// A fitting move on a well-formed board leaves a well-formed board for the
/// opponent to move on.
pub proof fn lemma_apply_wf(b: BoardState, player: Player, m: Move)
    requires
        b.wf(player),
        b.fits(player, m),
    ensures
        b.spec_apply(player, m).wf(player.spec_other()),
{
    reveal(BoardState::spec_apply);
    let a = b.spec_apply(player, m);
    let other = player.spec_other();
    let fi = sq(m.from);
    let ti = sq(m.to);
    lemma_fits_shape(b, player, m);
    assert forall|j: int, q: Player, t: PieceType| #[trigger]
        bit(a.spec_get(q, t), j) == b.applied_bit(player, m, q, t, j) by {
        lemma_apply_bits(b, player, m, q, t, j);
    }
    assert(a.disjoint()) by {
        assert forall|j: int, p1: Player, t1: PieceType, p2: Player, t2: PieceType| #[trigger]
            bit(a.spec_get(p1, t1), j) && #[trigger] bit(a.spec_get(p2, t2), j) implies p1 == p2
            && t1 == t2 by {
            lemma_holds(b, player, j);
            lemma_holds(b, other, j);
        }
    }
    assert(a.one_king(player) && a.one_king(other) && a.castle_wf(player) && a.castle_wf(other)) by {
        lemma_kings_after(b, player, m);
    }
    assert(a.en_passant_wf(other)) by {
        if m.is_double_push() {
            let e = (rank_of(fi) + rank_of(ti)) / 2 * 8 + file_of(fi);
            let d = forward(player);
            assert(e == fi + d.delta());
            lemma_single_index(e);
            lemma_single_nonzero(e);
            lemma_holds(a, player, e);
            lemma_holds(a, other, e);
            lemma_holds(b, player, e);
            lemma_holds(b, other, e);
            assert(a.free(e));
            assert(bit(a.spec_get(player, PieceType::PAWN), ti));
        }
    }
}

/// `holds` in terms of every kind.
pub proof fn lemma_holds(b: BoardState, p: Player, j: int)
    ensures
        b.holds(p, j) <==> exists|t: PieceType| #[trigger] bit(b.spec_get(p, t), j),
        forall|t: PieceType| #[trigger] bit(b.spec_get(p, t), j) ==> b.holds(p, j),
{
    assert forall|t: PieceType| #[trigger] bit(b.spec_get(p, t), j) implies b.holds(p, j) by {
        match t {
            PieceType::PAWN => {},
            PieceType::KNIGHT => {},
            PieceType::BISHOP => {},
            PieceType::ROOK => {},
            PieceType::QUEEN => {},
            PieceType::KING => {},
        }
    }
    if b.holds(p, j) {
        if bit(b.spec_get(p, PieceType::PAWN), j) {
        } else if bit(b.spec_get(p, PieceType::KNIGHT), j) {
        } else if bit(b.spec_get(p, PieceType::BISHOP), j) {
        } else if bit(b.spec_get(p, PieceType::ROOK), j) {
        } else if bit(b.spec_get(p, PieceType::QUEEN), j) {
        } else {
            assert(bit(b.spec_get(p, PieceType::KING), j));
        }
    }
}

/// After a fitting move each side still has its one king, and a king with
/// castling memory still stands on its starting square.
proof fn lemma_kings_after(b: BoardState, player: Player, m: Move)
    requires
        b.wf(player),
        b.fits(player, m),
    ensures
        b.spec_apply(player, m).one_king(player),
        b.spec_apply(player, m).one_king(player.spec_other()),
        b.spec_apply(player, m).castle_wf(player),
        b.spec_apply(player, m).castle_wf(player.spec_other()),
{
    reveal(BoardState::spec_apply);
    let a = b.spec_apply(player, m);
    let other = player.spec_other();
    let fi = sq(m.from);
    let ti = sq(m.to);
    lemma_fits_shape(b, player, m);
    assert forall|j: int, q: Player| #[trigger]
        bit(a.spec_get(q, PieceType::KING), j) == b.applied_bit(
            player,
            m,
            q,
            PieceType::KING,
            j,
        ) by {
        lemma_apply_bits(b, player, m, q, PieceType::KING, j);
    }
    // The opponent's king is untouched.
    let ek = b.spec_get(other, PieceType::KING);
    assert forall|j: int| 0 <= j < 64 implies #[trigger] bit(a.spec_get(other, PieceType::KING), j)
        == bit(ek, j) by {}
    lemma_bits_equal(a.spec_get(other, PieceType::KING), ek);
    // The mover's king stays, or goes to the landing square.
    let k = b.spec_get(player, PieceType::KING);
    let ki = sq(k);
    if m.start_type == PieceType::KING {
        lemma_bit_single(ki, fi);
        assert(fi == ki);
        assert forall|j: int| 0 <= j < 64 implies #[trigger] bit(
            a.spec_get(player, PieceType::KING),
            j,
        ) == bit(single(ti), j) by {
            lemma_bit_single(ki, j);
            lemma_bit_single(ti, j);
        }
        lemma_bits_equal(a.spec_get(player, PieceType::KING), single(ti));
        lemma_single_index(ti);
        bv_clear(b.castle_memory, m.from, m.eaten_loc);
        assert(a.castle_memory & m.from == 0);
        assert(k == m.from);
    } else {
        assert forall|j: int| 0 <= j < 64 implies #[trigger] bit(
            a.spec_get(player, PieceType::KING),
            j,
        ) == bit(k, j) by {
            lemma_holds(b, player, j);
        }
        lemma_bits_equal(a.spec_get(player, PieceType::KING), k);
    }
    assert(a.castle_memory == b.castle_memory & !m.from & !m.eaten_loc);
    bv_clear_test(b.castle_memory, m.from, m.eaten_loc, king_place(Player::PLAYER1));
    bv_clear_test(b.castle_memory, m.from, m.eaten_loc, king_place(Player::PLAYER2));
}

/// Where the mover's king stands after a fitting move.
pub proof fn lemma_king_after(b: BoardState, player: Player, m: Move)
    requires
        b.wf(player),
        b.fits(player, m),
    ensures
        b.spec_apply(player, m).spec_get(player, PieceType::KING) == if m.start_type
            == PieceType::KING {
            m.to
        } else {
            b.spec_get(player, PieceType::KING)
        },
        0 <= sq(b.spec_get(player, PieceType::KING)) < 64,
        b.spec_get(player, PieceType::KING) == single(sq(b.spec_get(player, PieceType::KING))),
        b.spec_apply(player, m).spec_get(player.spec_other(), PieceType::KING) == b.spec_get(
            player.spec_other(),
            PieceType::KING,
        ),
{
    let a = b.spec_apply(player, m);
    let other = player.spec_other();
    let fi = sq(m.from);
    let ti = sq(m.to);
    let k = b.spec_get(player, PieceType::KING);
    let ki = sq(k);
    let ek = b.spec_get(other, PieceType::KING);
    assert forall|j: int, q: Player| 0 <= j < 64 implies #[trigger] bit(
        a.spec_get(q, PieceType::KING),
        j,
    ) == b.applied_bit(player, m, q, PieceType::KING, j) by {
        lemma_apply_bits(b, player, m, q, PieceType::KING, j);
    }
    assert forall|j: int| 0 <= j < 64 implies #[trigger] bit(a.spec_get(other, PieceType::KING), j)
        == bit(ek, j) by {}
    lemma_bits_equal(a.spec_get(other, PieceType::KING), ek);
    if m.start_type == PieceType::KING {
        lemma_bit_single(ki, fi);
        assert forall|j: int| 0 <= j < 64 implies #[trigger] bit(
            a.spec_get(player, PieceType::KING),
            j,
        ) == bit(single(ti), j) by {
            lemma_bit_single(ki, j);
            lemma_bit_single(ti, j);
        }
        lemma_bits_equal(a.spec_get(player, PieceType::KING), single(ti));
    } else {
        assert forall|j: int| 0 <= j < 64 implies #[trigger] bit(
            a.spec_get(player, PieceType::KING),
            j,
        ) == bit(k, j) by {
            lemma_holds(b, player, j);
        }
        lemma_bits_equal(a.spec_get(player, PieceType::KING), k);
    }
}

proof fn bv_clear(c: u64, f: u64, e: u64)
    by (bit_vector)
    ensures
        (c & !f & !e) & f == 0,
        (c & !f & !e) & e == 0,
{
}

proof fn bv_clear_test(c: u64, f: u64, e: u64, k: u64)
    by (bit_vector)
    ensures
        (c & !f & !e) & k != 0 ==> c & k != 0,
        f == k ==> (c & !f & !e) & k == 0,
{
}

/// A move spends the castling memory of the square it leaves and of the
/// square on which it takes a piece, and no move brings memory back.
pub proof fn lemma_memory_spent(b: BoardState, player: Player, m: Move, k: u64)
    ensures
        b.spec_apply(player, m).castle_memory & m.from == 0,
        b.spec_apply(player, m).castle_memory & m.eaten_loc == 0,
        b.spec_apply(player, m).castle_memory & k != 0 ==> b.castle_memory & k != 0,
{
    reveal(BoardState::spec_apply);
    bv_clear(b.castle_memory, m.from, m.eaten_loc);
    bv_clear_test(b.castle_memory, m.from, m.eaten_loc, k);
}

/// Taking back a fitting move gives back the board it was made on, bit for
/// bit, with the castling memory and en-passant target recorded then.
pub proof fn lemma_unapply_apply(b: BoardState, player: Player, m: Move)
    requires
        b.wf(player),
        b.fits(player, m),
    ensures
        b.spec_apply(player, m).spec_unapply(player, m, b.castle_memory, b.en_passant_square) == b,
{
    broadcast use lemma_with_get;

    reveal(BoardState::spec_unapply);
    lemma_fits_shape(b, player, m);
    let a = b.spec_apply(player, m);
    let u = a.spec_unapply(player, m, b.castle_memory, b.en_passant_square);
    let other = player.spec_other();
    let fi = sq(m.from);
    let ti = sq(m.to);
    assert forall|q: Player, t: PieceType| #[trigger] u.spec_get(q, t) == b.spec_get(q, t) by {
        assert forall|j: int| 0 <= j < 64 implies #[trigger] bit(u.spec_get(q, t), j) == bit(
            b.spec_get(q, t),
            j,
        ) by {
            lemma_apply_bits(b, player, m, q, t, j);
            lemma_unapply_bits(a, player, m, b.castle_memory, b.en_passant_square, q, t, j);
            lemma_holds(b, player, j);
            lemma_holds(b, other, j);
            if m.eaten_loc != 0 {
                lemma_bit_single(sq(m.eaten_loc), j);
            } else {
                lemma_bit_zero(j);
            }
            if m.is_castle() {
                if ti == fi - 2 {
                    lemma_bit_single(fi - 3, j);
                    lemma_bit_single(fi - 1, j);
                } else {
                    lemma_bit_single(fi + 4, j);
                    lemma_bit_single(fi + 1, j);
                }
                lemma_holds(b, player, fi - 1);
                lemma_holds(b, player, fi + 1);
            }
        }
        lemma_bits_equal(u.spec_get(q, t), b.spec_get(q, t));
    }
    lemma_board_equal(u, b);
}

/// What each bitboard holds after a move is taken back.
proof fn lemma_unapply_bits(
    a: BoardState,
    player: Player,
    m: Move,
    castle: u64,
    en_passant: u64,
    q: Player,
    t: PieceType,
    j: int,
)
    requires
        0 <= sq(m.from) < 64,
        m.from == single(sq(m.from)),
        0 <= sq(m.to) < 64,
        m.to == single(sq(m.to)),
        m.is_castle() ==> spec_castle_rook_move(m.to) is Some && m.start_type == m.end_type,
    ensures
        bit(a.spec_unapply(player, m, castle, en_passant).spec_get(q, t), j) == {
            let was = bit(a.spec_get(q, t), j);
            let rook = spec_castle_rook_move(m.to)->0;
            if q == player {
                if t == PieceType::ROOK && m.is_castle() {
                    (was && !bit(rook.1, j)) || bit(rook.0, j)
                } else {
                    (was && !(t == m.end_type && j == sq(m.to))) || (t == m.start_type && j == sq(
                        m.from,
                    ))
                }
            } else {
                was || (t == m.eaten_type && bit(m.eaten_loc, j))
            }
        },
{
    broadcast use crate::bits::group_bits, lemma_with_get;

    reveal(BoardState::spec_unapply);
    let other = player.spec_other();
    let c1 = a.with(player, m.end_type, a.spec_get(player, m.end_type) & !m.to);
    let c2 = c1.with(player, m.start_type, c1.spec_get(player, m.start_type) | m.from);
    let c3 = c2.with(other, m.eaten_type, c2.spec_get(other, m.eaten_type) | m.eaten_loc);
    assert(bit(c1.spec_get(q, t), j) == (bit(a.spec_get(q, t), j) && !(q == player && t
        == m.end_type && j == sq(m.to))));
    assert(bit(c2.spec_get(q, t), j) == (bit(c1.spec_get(q, t), j) || (q == player && t
        == m.start_type && j == sq(m.from))));
    assert(bit(c3.spec_get(q, t), j) == (bit(c2.spec_get(q, t), j) || (q == other && t
        == m.eaten_type && bit(m.eaten_loc, j))));
    if m.is_castle() {
        let rook = spec_castle_rook_move(m.to)->0;
        let c4 = c3.spec_move_piece(player, PieceType::ROOK, rook.1, rook.0);
        assert(a.spec_unapply(player, m, castle, en_passant).spec_get(q, t) == c4.spec_get(q, t));
    } else {
        assert(a.spec_unapply(player, m, castle, en_passant).spec_get(q, t) == c3.spec_get(q, t));
    }
}

/// What a game is at one moment: who is to move, the board, and the moves
/// made so far, each with the castling memory and en-passant target from
/// before it.
pub struct Position {
    pub current_player: Player,
    pub board: BoardState,
    pub history: Seq<(Move, u64, u64)>,
    /// The half-move clock with which the position was set up.
    pub start_clock: u64,
    /// The number of the move with which the position was set up.
    pub start_number: u64,
}

impl Position {
    /// The position after the player to move has made the move `m`.
    pub open spec fn spec_do_move(self, m: Move) -> Position {
        Position {
            current_player: self.current_player.spec_other(),
            board: self.board.spec_apply(self.current_player, m),
            history: self.history.push(
                (m, self.board.castle_memory, self.board.en_passant_square),
            ),
            start_clock: self.start_clock,
            start_number: self.start_number,
        }
    }

    /// Whether a move can be taken back.
    pub open spec fn can_undo(self) -> bool {
        self.history.len() > 0 && self.history.last().0.shape_ok()
    }

    /// The position with the last move taken back.
    pub open spec fn spec_undo_move(self) -> Position {
        let last = self.history.last();
        Position {
            current_player: self.current_player.spec_other(),
            board: self.board.spec_unapply(self.current_player.spec_other(), last.0, last.1, last.2),
            history: self.history.drop_last(),
            start_clock: self.start_clock,
            start_number: self.start_number,
        }
    }
}

/// Apply/undo round trip: a fitting move made on a well-formed position and
/// then taken back leaves the position as it was, bit for bit: the twelve
/// bitboards, the castling memory, the en-passant target, the player to
/// move and the history.
pub proof fn lemma_do_undo(pos: Position, m: Move)
    requires
        pos.board.wf(pos.current_player),
        pos.board.fits(pos.current_player, m),
    ensures
        pos.spec_do_move(m).can_undo(),
        pos.spec_do_move(m).spec_undo_move() == pos,
        pos.spec_do_move(m).board.wf(pos.current_player.spec_other()),
{
    lemma_fits_shape(pos.board, pos.current_player, m);
    lemma_unapply_apply(pos.board, pos.current_player, m);
    lemma_apply_wf(pos.board, pos.current_player, m);
    let after = pos.spec_do_move(m);
    assert(after.history.last() == (m, pos.board.castle_memory, pos.board.en_passant_square));
    assert(after.history.drop_last() =~= pos.history);
}

/// A game of chess: the position, and the attack tables it consults.
#[derive(Clone)]
pub struct Chess<'a> {
    pub tables: &'a MoveTables,
    pub current_player: Player,
    pub board: BoardState,
    pub history: Vec<(Move, u64, u64)>,
    /// The half-move clock with which the position was set up.
    pub start_clock: u64,
    /// The number of the move with which the position was set up.
    pub start_number: u64,
}

impl<'a> View for Chess<'a> {
    type V = Position;

    open spec fn view(&self) -> Position {
        Position {
            current_player: self.current_player,
            board: self.board,
            history: self.history@,
            start_clock: self.start_clock,
            start_number: self.start_number,
        }
    }
}

impl<'a> Chess<'a> {
    pub fn get_game_len(&self) -> (r: usize)
        ensures
            r == self@.history.len(),
    {
        self.history.len()
    }

    /// From the square on which a castling king lands, the squares that the
    /// rook leaves and reaches.
    pub fn castle_rook_move(king_end_location: u64) -> (r: (u64, u64))
        requires
            spec_castle_rook_move(king_end_location) is Some,
        ensures
            Some(r) == spec_castle_rook_move(king_end_location),
    {
        let x = index(king_end_location);
        let (from_index, to_index): (usize, usize) = if x == 1 {
            (0, 2)
        } else if x == 5 {
            (7, 4)
        } else if x == 61 {
            (63, 60)
        } else {
            (56, 58)
        };
        (index_to_place(from_index), index_to_place(to_index))
    }

    pub fn current_player(&self) -> (r: Player)
        ensures
            r == self@.current_player,
    {
        return self.current_player;
    }

    /// Makes the move `play` for the player to move.
    pub fn do_move(&mut self, play: Move)
        requires
            play.shape_ok(),
        ensures
            final(self)@ == old(self)@.spec_do_move(play),
            final(self).tables == old(self).tables,
    {
        proof {
            reveal(BoardState::spec_apply);
        }
        let prev_castle = self.board.castle_memory;
        let prev_en_passant = self.board.en_passant_square;
        let player = self.current_player;
        let other = self.current_player.other();

        *self.board.get_mut(player, play.start_type) &= !play.from;
        *self.board.get_mut(player, play.end_type) |= play.to;

        *self.board.get_mut(other, play.eaten_type) &= !play.eaten_loc;

        // Castle
        if play.start_type == PieceType::KING && play.from & 0x0800_0000_0000_0008 != 0 {
            let (from_x, _) = place_to_coord(play.from);
            let (to_x, _) = place_to_coord(play.to);
            if from_x - to_x == 2 || to_x - from_x == 2 {
                let (from_index, to_index) = Chess::castle_rook_move(play.to);
                self.board.move_piece(player, PieceType::ROOK, from_index, to_index);
            }
        }
        // En passant

        self.board.en_passant_square = 0;
        if play.start_type == PieceType::PAWN {
            let (from_x, from_y) = place_to_coord(play.from);
            let (_, to_y) = place_to_coord(play.to);
            if from_y - to_y == 2 || to_y - from_y == 2 {
                self.board.en_passant_square = index_to_place(
                    coord_to_index((from_x, (from_y + to_y) / 2)),
                );
            }
        }
        self.board.castle_memory = self.board.castle_memory & !play.from & !play.eaten_loc;
        self.current_player = other;

        self.history.push((play, prev_castle, prev_en_passant));
        proof {
            assert(self@.history =~= old(self)@.history.push((play, prev_castle, prev_en_passant)));
        }
    }

    /// Takes the last move back and returns it.
    pub fn undo_move(&mut self) -> (play: Move)
        requires
            old(self)@.can_undo(),
        ensures
            final(self)@ == old(self)@.spec_undo_move(),
            play == old(self)@.history.last().0,
            final(self).tables == old(self).tables,
    {
        proof {
            reveal(BoardState::spec_unapply);
        }
        let (play, castle_memory, en_passant_square) = self.history.pop().unwrap();

        self.current_player = self.current_player.other();
        let player = self.current_player;
        let other = self.current_player.other();

        *self.board.get_mut(player, play.end_type) &= !play.to;
        *self.board.get_mut(player, play.start_type) |= play.from;

        *self.board.get_mut(other, play.eaten_type) |= play.eaten_loc;

        // Castle
        if play.start_type == PieceType::KING && play.from & 0x0800_0000_0000_0008 != 0 {
            let (from_x, _) = place_to_coord(play.from);
            let (to_x, _) = place_to_coord(play.to);
            if from_x - to_x == 2 || to_x - from_x == 2 {
                let (from_index, to_index) = Chess::castle_rook_move(play.to);
                self.board.move_piece(player, PieceType::ROOK, to_index, from_index);
            }
        }
        self.board.castle_memory = castle_memory;
        self.board.en_passant_square = en_passant_square;

        play
    }
}

} // verus!
