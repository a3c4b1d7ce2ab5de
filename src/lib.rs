//! Round bookkeeping and scoring for a trick-taking game in which each
//! player bids for the number of tricks they expect to win by picking coins.

pub mod game;

pub use game::{Game, GameView, Player, PlayerView};
