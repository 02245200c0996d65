//! The plain data of a game: players, stones, game states, win conditions,
//! move errors, and group handles.

use vstd::prelude::*;

verus! {

/// One of the two players. Black moves first.
#[derive(Clone, Copy, Debug, PartialEq, Eq, Structural)]
pub enum Player {
    Black,
    White,
}

impl Player {
    /// The other player, for specifications.
    pub open spec fn spec_flip(self) -> Player {
        match self {
            Player::Black => Player::White,
            Player::White => Player::Black,
        }
    }

    /// The other player.
    pub fn flip(&self) -> (r: Self)
        ensures
            r == self.spec_flip(),
    {
        match self {
            Player::Black => Player::White,
            Player::White => Player::Black,
        }
    }
}

/// A stable handle to a group of stones. Handles survive merges: a merged
/// handle keeps resolving, through the forwarding table, to the group that
/// absorbed it.
#[derive(Clone, Copy, Debug, PartialEq, Eq, Structural)]
pub struct GroupId(pub usize);

/// A placed stone: its owner and the handle of the group it was last known
/// to belong to (possibly superseded; resolve with `find`).
#[derive(Clone, Copy, Debug, PartialEq, Eq, Structural)]
pub struct Stone {
    pub owner: Player,
    pub group_id: GroupId,
}

/// The three ways to win.
#[derive(Clone, Copy, Debug, PartialEq, Eq, Structural)]
pub enum WinCon {
    /// Connect two of the six board corners with one group.
    Bridge,
    /// Connect three of the six board edges with one group.
    Fork,
    /// Close a cycle of stones around at least one cell.
    Ring,
}

/// Where the game stands. `Win` and `Draw` are terminal: a board in either
/// state rejects every further move.
#[derive(Clone, Copy, Debug, PartialEq, Eq, Structural)]
pub enum GameState {
    Win(Player, WinCon),
    Draw,
    Ongoing,
}

/// Why a move was rejected. A rejected move leaves the board unchanged.
#[derive(Clone, Copy, Debug, PartialEq, Eq, Structural)]
pub enum MoveError {
    /// The coordinate lies outside the board.
    OutOfBounds,
    /// The cell already holds a stone.
    CellOccupied,
    /// The game has already ended in a win or a draw.
    GameOver,
}

} // verus!
