//! The core of a mine-clearing puzzle played in a terminal: the board and
//! its clicks, the best-times ledger, and the state of the application
//! around them.

pub mod animation;
pub mod board;
pub mod cascade;
pub mod chance;
pub mod chord;
pub mod circle;
pub mod clicks;
pub mod clock;
pub mod difficulty;
pub mod flood;
pub mod game;
pub mod generate;
pub mod grid;
pub mod layout;
pub mod ledger;
pub mod mapper;
pub mod parse;
pub mod phase;
pub mod region;
pub mod render;
pub mod rules;
pub mod score;
pub mod sizes;
pub mod sweep;
pub mod tile;
pub mod walker;

pub use board::Board;
pub use difficulty::Difficulty;
pub use game::{handle_keys, handle_mouse, render, App};
pub use ledger::{read_leaderboard, write_leaderboard};
pub use parse::parse_line;
pub use phase::Phase;
pub use score::Score;
pub use tile::{Tile, TileState};
pub use walker::do_around;
