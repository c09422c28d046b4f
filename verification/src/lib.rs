//! A two-player tile game of 34 faces: the analysis of hands (how fourteen
//! tiles form winning shapes, which scoring patterns they hold, what they
//! are worth), a computer player, and the game itself with its seats,
//! turns and rooms, and the lobby that the rooms stand in.

pub mod backtrack;
pub mod bot;
pub mod client;
pub mod fu;
pub mod game;
pub mod game_set;
pub mod hand;
pub mod lobby;
pub mod order;
pub mod protocol;
pub mod random;
pub mod room;
pub mod score;
pub mod search;
pub mod table;
pub mod tiles;
pub mod yaku;
