//! Othello on an 8×8 board: the rules engine and a fixed-depth look-ahead
//! search, with every function proved against its contract.

pub mod board;
pub mod rules;
pub mod score;
pub mod moves;
pub mod game;
pub mod minmax;

pub use board::{Board, Colour, Square, BOARD_SIZE};
pub use game::{
    do_move, do_move_essentials, game_information, init_game, player_turn, undo, BoardEssentials,
    Game, GameInformation, AI_COLOUR, WHITE_IS_STARTING,
};
pub use minmax::{get_for_whoever_best_move, DEPTH};
pub use moves::{get_all_possible_moves, insert_square_possible_moves};
pub use score::get_winner;
