//! Two turn-based grid games behind a uniform interaction contract:
//! a cooperative mine-clearing game and a two-player disc-capture game,
//! plus a cooperative wrapper that counts each actor's moves and narrates
//! the outcome when a game ends.

pub mod counting;
pub mod game;
pub mod grid_game;
pub mod text;
pub mod mine_field;
pub mod minesweeper;
pub mod othello;
pub mod othello_game;
pub mod coop_game;
