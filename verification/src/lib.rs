//! Judging and instance tools for a grid puzzle in which a worker carries and
//! rolls ores into the holes of their kind.
//!
//! - `board`: instances, answers and actions;
//! - `text`: tokens, decimal numbers and strings;
//! - `parse`: reading instances and answers, writing instances;
//! - `sim`: replaying answers under the rules;
//! - `reach`: reachability on the grid;
//! - `draw`: the board as SVG;
//! - `gen`: random instances;
//! - `minmax`: updating a value with a smaller or larger one.
#![allow(non_snake_case)]

pub mod board;
pub mod draw;
pub mod gen;
pub mod minmax;
pub mod parse;
pub mod reach;
pub mod sim;
pub mod text;

pub use board::{Action, Input, Output};
pub use draw::{board_picture, draw_board, Shape, SvgPiece};
pub use gen::{gen_a, gen_b_attempt, gen_c};
pub use minmax::SetMinMax;
pub use parse::{parse_input, parse_output, read, read_char, try_parse_input};
pub use sim::{can_replay, compute_score_details, get_max_turn, simulate, SimError, SimOutcome};
