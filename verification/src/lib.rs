//! Rules engine for the board game Hive: the board of stacked pieces, the
//! placement and movement rules of each piece, and the game state that moves
//! are applied to.

pub mod types;
pub mod hex;
pub mod board;
pub mod reach;
pub mod rules;
pub mod moves;
pub mod game;
pub mod render;
pub mod laws;
pub mod census;

pub use types::{GameResult, Move, Piece, PieceKind, Player, Position, other_player};
pub use hex::{neighbors, flanking_positions, contains_position};
pub use board::Board;
pub use reach::connected_positions;
pub use rules::{is_occupied, stack_height, adjacent_to_opponent, is_on_hive, can_slide, can_place,
    preserves_hive, legal_placements};
pub use moves::{bee_moves, ant_moves, spider_moves, beetle_moves, legal_moves};
pub use game::{GameState, Hand, apply_move, is_game_over, is_surrounded, initial_game_state};
pub use render::piece_symbol;
