//! The two sides of a game and the states a game can be in.
use vstd::prelude::*;

verus! {

#[derive(Eq, PartialEq, Clone, Copy, Debug, Structural)]
pub enum Player {
    PLAYER1,
    PLAYER2,
}

#[derive(Eq, PartialEq, Clone, Copy, Debug, Structural)]
pub enum GameState {
    PLAYER1WIN,
    PLAYER2WIN,
    TIE,
    PLAYING,
}

impl Player {
    /// The opponent of `self`.
    pub open spec fn spec_other(self) -> Player {
        match self {
            Player::PLAYER1 => Player::PLAYER2,
            Player::PLAYER2 => Player::PLAYER1,
        }
    }

    /// The position of `self` in tables indexed by player: 0 or 1.
    pub open spec fn spec_ordinal(self) -> int {
        match self {
            Player::PLAYER1 => 0,
            Player::PLAYER2 => 1,
        }
    }

    pub fn other(&self) -> (r: Player)
        ensures
            r == self.spec_other(),
            r != *self,
    {
        match *self {
            Player::PLAYER1 => Player::PLAYER2,
            Player::PLAYER2 => Player::PLAYER1,
        }
    }

    pub fn ordinal(&self) -> (r: usize)
        ensures
            r == self.spec_ordinal(),
            r < 2,
    {
        match *self {
            Player::PLAYER1 => 0,
            Player::PLAYER2 => 1,
        }
    }
}

/// A game for two players who move in turn.
pub trait Game {
    /// A move of the game.
    type T;

    /// Whether the game is in a state in which its moves can be listed.
    spec fn playable(&self) -> bool;

    /// Whether `play` can be made in the state the game is in.
    spec fn accepts(&self, play: Self::T) -> bool;

    /// Whether there is a move to take back.
    spec fn can_take_back(&self) -> bool;

    fn current_player(&self) -> Player;

    /// The moves that the player to move can make.
    fn possible_moves(&self) -> Vec<Self::T>
        requires
            self.playable(),
    ;

    /// Makes the move `play`.
    fn do_move(&mut self, play: Self::T)
        requires
            old(self).accepts(play),
    ;

    /// Takes the last move back and returns it.
    fn undo_move(&mut self) -> Self::T
        requires
            old(self).can_take_back(),
    ;

    /// Whether the game goes on, and who has won it if not.
    fn game_state(&self) -> GameState
        requires
            self.playable(),
    ;
}

/// A game whose states have a score: positive favours the first player,
/// negative the second.
pub trait Scored {
    fn get_score(&self) -> i32;
}

} // verus!
