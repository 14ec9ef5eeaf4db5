//! Move tables for the dice game "shut the box", built from exhaustive enumeration of boards and
//! randomised self-play.
pub mod board;
pub mod board_roll;
pub mod game_node;
pub mod game_state;
pub mod pieces;
pub mod playing;
mod random;
pub mod roll;
pub mod text;
pub mod weights;

pub use board::{get_board, get_boards, get_rand_board, Board};
pub use board_roll::{get_rolls, BoardRoll, BoardRollError, DiceRoll};
pub use game_node::GameNode;
pub use game_state::GameState;
pub use playing::{run_game, score_pair, simulate, Choice, Games, Result};
pub use roll::Roll;
pub use weights::{compute, play_games, reduce, update_weights, Weight, WeightTable};
