use vstd::prelude::*;

verus! {

/// A cell of the hexagonal grid, in axial coordinates.
#[derive(Clone, Copy, PartialEq, Eq, Structural, Hash, Debug)]
pub struct Position {
    pub q: i32,
    pub r: i32,
}

/// The kinds of pieces in the game.
#[derive(Clone, Copy, PartialEq, Eq, Structural, Hash, Debug)]
pub enum PieceKind {
    Bee,
    Spider,
    Beetle,
    Grasshopper,
    Ant,
}

/// The two players.
#[derive(Clone, Copy, PartialEq, Eq, Structural, Hash, Debug)]
pub enum Player {
    White,
    Black,
}

/// A piece on the board or in a player's hand.
#[derive(Clone, Copy, PartialEq, Eq, Structural, Debug)]
pub struct Piece {
    pub kind: PieceKind,
    pub owner: Player,
}

/// How a game ended.
#[derive(Clone, Copy, PartialEq, Eq, Structural, Debug)]
pub enum GameResult {
    Win(Player),
    Draw,
}

/// A turn: either a piece from the hand is placed, or a piece on the board moves.
#[derive(Clone, Copy, PartialEq, Eq, Structural, Debug)]
pub enum Move {
    Place { kind: PieceKind, at: Position },
    Move { from: Position, to: Position },
}

/// The player who moves after `p`.
pub open spec fn spec_other(p: Player) -> Player {
    match p {
        Player::White => Player::Black,
        Player::Black => Player::White,
    }
}

/// The player who moves after `p`.
pub fn other_player(p: Player) -> (res: Player)
    ensures
        res == spec_other(p),
{
    if p == Player::White {
        Player::Black
    } else {
        Player::White
    }
}

} // verus!
