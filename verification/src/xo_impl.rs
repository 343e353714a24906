//! Noughts and crosses, the smallest game of the two-player kind.
use vstd::prelude::*;
use crate::two_player_game::{Game, GameState, Player, Scored};

verus! {

/// What a square holds: a cross, a nought, or nothing.
#[derive(Eq, PartialEq, Copy, Clone, Debug, Hash, Structural)]
pub enum Square {
    X,
    O,
    E,
}

/// Bounds beyond every score of this game.
pub const XO_MAX_INFINITY: i32 = 100;

pub const XO_MIN_INFINITY: i32 = -100;

pub const XO_MAX_SCORE: i32 = 1;

pub const XO_NEUTRAL_SCORE: i32 = 0;

pub const XO_MIN_SCORE: i32 = -1;

/// The board of nine squares, row by row, whose turn it is, and the squares
/// taken so far.
#[derive(Debug)]
pub struct Xo {
    pub history: Vec<usize>,
    pub state: [Square; 9],
    pub cur_player: Square,
}

/// The other mark.
pub open spec fn spec_flip(s: Square) -> Square {
    if s == Square::X {
        Square::O
    } else {
        Square::X
    }
}

/// Whether the three squares `start`, `start + step` and `start + 2 * step`
/// hold the same mark.
pub open spec fn spec_line_filled(state: Seq<Square>, start: int, step: int) -> bool {
    state[start] != Square::E && state[start + step] == state[start] && state[start + 2 * step]
        == state[start]
}

/// The player whose mark `s` is; the first player's is the cross.
pub open spec fn spec_winner(s: Square) -> GameState {
    if s == Square::X {
        GameState::PLAYER1WIN
    } else {
        GameState::PLAYER2WIN
    }
}

/// The state of the game: won by the owner of the first filled line among
/// first column, first row, second column, second row, third column, third
/// row, main diagonal and other diagonal; a tie on a full board without
/// one; else still played.
pub open spec fn spec_game_state(state: Seq<Square>) -> GameState {
    if spec_line_filled(state, 0, 3) {
        spec_winner(state[0])
    } else if spec_line_filled(state, 0, 1) {
        spec_winner(state[0])
    } else if spec_line_filled(state, 1, 3) {
        spec_winner(state[1])
    } else if spec_line_filled(state, 3, 1) {
        spec_winner(state[3])
    } else if spec_line_filled(state, 2, 3) {
        spec_winner(state[2])
    } else if spec_line_filled(state, 6, 1) {
        spec_winner(state[6])
    } else if spec_line_filled(state, 0, 4) {
        spec_winner(state[0])
    } else if spec_line_filled(state, 2, 2) {
        spec_winner(state[2])
    } else if forall|i: int| 0 <= i < 9 ==> #[trigger] state[i] != Square::E {
        GameState::TIE
    } else {
        GameState::PLAYING
    }
}

/// Whether `moves` lists the free squares among the first `n`, lowest
/// first.
pub open spec fn lists_free(state: Seq<Square>, n: int, moves: Seq<usize>) -> bool {
    &&& forall|k: int| 0 <= k < moves.len() ==> 0 <= #[trigger] moves[k] < n && state[moves[k] as int]
        == Square::E
    &&& forall|k: int, l: int| 0 <= k < l < moves.len() ==> moves[k] < moves[l]
    &&& forall|i: int| 0 <= i < n && state[i] == Square::E ==> moves.contains(i as usize)
}

impl Xo {
    /// Every square taken so far is a square of the board.
    pub open spec fn wf(&self) -> bool {
        forall|k: int| 0 <= k < self.history@.len() ==> #[trigger] self.history@[k] < 9
    }

    fn flip_player(&mut self)
        ensures
            final(self).cur_player == spec_flip(old(self).cur_player),
            final(self).state == old(self).state,
            final(self).history == old(self).history,
    {
        self.cur_player = if self.cur_player == Square::X {
            Square::O
        } else {
            Square::X
        };
    }

    fn line_filled(&self, start: usize, step: usize) -> (r: bool)
        requires
            start + 2 * step < 9,
        ensures
            r == spec_line_filled(self.state@, start as int, step as int),
    {
        return self.state[start] != Square::E && self.state[start + step] == self.state[start]
            && self.state[start + 2 * step] == self.state[start]
    }

    /// An empty board with the cross to move.
    pub fn new_game() -> (r: Xo)
        ensures
            r.wf(),
            r.history@.len() == 0,
            r.cur_player == Square::X,
            forall|i: int| 0 <= i < 9 ==> #[trigger] r.state@[i] == Square::E,
    {
        Xo { history: Vec::new(), state: [Square::E;9], cur_player: Square::X }
    }

    /// Clears the board.
    pub fn setup_new_game(&mut self)
        ensures
            final(self).wf(),
            final(self).history@.len() == 0,
            final(self).cur_player == Square::X,
            forall|i: int| 0 <= i < 9 ==> #[trigger] final(self).state@[i] == Square::E,
    {
        self.history.clear();
        self.state = [Square::E;9];
        self.cur_player = Square::X;
    }
}

impl Game for Xo {
    type T = usize;

    open spec fn playable(&self) -> bool {
        true
    }

    open spec fn accepts(&self, play: usize) -> bool {
        play < 9 && self.wf()
    }

    open spec fn can_take_back(&self) -> bool {
        self.history@.len() > 0 && self.wf()
    }

    fn current_player(&self) -> (r: Player)
        ensures
            r == if self.cur_player == Square::X {
                Player::PLAYER1
            } else {
                Player::PLAYER2
            },
    {
        if self.cur_player == Square::X {
            Player::PLAYER1
        } else {
            Player::PLAYER2
        }
    }

    fn possible_moves(&self) -> (r: Vec<usize>)
        ensures
            lists_free(self.state@, 9, r@),
    {
        let mut possible: Vec<usize> = Vec::new();
        let mut i: usize = 0;
        while i < 9
            invariant
                i <= 9,
                lists_free(self.state@, i as int, possible@),
            decreases 9 - i,
        {
            if self.state[i] == Square::E {
                let ghost before = possible@;
                possible.push(i);
                proof {
                    assert forall|j: int| 0 <= j < i + 1 && self.state@[j] == Square::E implies possible@.contains(
                        j as usize,
                    ) by {
                        if j < i {
                            assert(before.contains(j as usize));
                            let k = choose|k: int| 0 <= k < before.len() && before[k] == j as usize;
                            assert(possible@[k] == j as usize);
                        } else {
                            assert(possible@[possible@.len() - 1] == i);
                        }
                    }
                }
            }
            i += 1;
        }
        possible
    }

    fn do_move(&mut self, play: usize)
        ensures
            final(self).state@ == old(self).state@.update(play as int, old(self).cur_player),
            final(self).cur_player == spec_flip(old(self).cur_player),
            final(self).history@ == old(self).history@.push(play),
            final(self).wf(),
    {
        self.state[play] = self.cur_player;
        self.flip_player();
        self.history.push(play);
    }

    fn undo_move(&mut self) -> (last: usize)
        ensures
            last == old(self).history@.last(),
            final(self).state@ == old(self).state@.update(last as int, Square::E),
            final(self).cur_player == spec_flip(old(self).cur_player),
            final(self).history@ == old(self).history@.drop_last(),
            final(self).wf(),
    {
        let last = self.history.pop().unwrap();
        self.state[last] = Square::E;
        self.flip_player();
        last
    }

    fn game_state(&self) -> (r: GameState)
        ensures
            r == spec_game_state(self.state@),
    {
        let mut i: usize = 0;
        while i < 3
            invariant
                i <= 3,
                i >= 1 ==> !spec_line_filled(self.state@, 0, 3) && !spec_line_filled(self.state@, 0, 1),
                i >= 2 ==> !spec_line_filled(self.state@, 1, 3) && !spec_line_filled(self.state@, 3, 1),
                i >= 3 ==> !spec_line_filled(self.state@, 2, 3) && !spec_line_filled(self.state@, 6, 1),
            decreases 3 - i,
        {
            // Columns
            if self.line_filled(i, 3) {
                return winner(self.state[i]);
            }
            // Rows

            if self.line_filled(i * 3, 1) {
                return winner(self.state[i * 3]);
            }
            i += 1;
        }
        // Main diagonal
        if self.line_filled(0, 4) {
            return winner(self.state[0]);
        }
        // Other diagonal

        if self.line_filled(2, 2) {
            return winner(self.state[2]);
        }
        let mut k: usize = 0;
        while k < 9
            invariant
                k <= 9,
                !spec_line_filled(self.state@, 0, 3),
                !spec_line_filled(self.state@, 0, 1),
                !spec_line_filled(self.state@, 1, 3),
                !spec_line_filled(self.state@, 3, 1),
                !spec_line_filled(self.state@, 2, 3),
                !spec_line_filled(self.state@, 6, 1),
                !spec_line_filled(self.state@, 0, 4),
                !spec_line_filled(self.state@, 2, 2),
                forall|j: int| 0 <= j < k ==> #[trigger] self.state@[j] != Square::E,
            decreases 9 - k,
        {
            if self.state[k] == Square::E {
                return GameState::PLAYING;
            }
            k += 1;
        }
        GameState::TIE
    }
}

fn winner(s: Square) -> (r: GameState)
    ensures
        r == spec_winner(s),
{
    if s == Square::X {
        GameState::PLAYER1WIN
    } else {
        GameState::PLAYER2WIN
    }
}

impl Scored for Xo {
    /// 1 where the first player has won, -1 where the second has, else 0.
    fn get_score(&self) -> (r: i32)
        ensures
            r == match spec_game_state(self.state@) {
                GameState::PLAYER1WIN => 1i32,
                GameState::PLAYER2WIN => -1i32,
                GameState::TIE => 0i32,
                GameState::PLAYING => 0i32,
            },
    {
        match self.game_state() {
            GameState::PLAYER1WIN => XO_MAX_SCORE,
            GameState::PLAYER2WIN => XO_MIN_SCORE,
            GameState::TIE => XO_NEUTRAL_SCORE,
            GameState::PLAYING => XO_NEUTRAL_SCORE,
        }
    }
}

} // verus!
