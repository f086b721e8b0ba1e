//! The folder tree of a game, the non-empty vectors of its combat, and the
//! names of its saved games.

pub mod foldertree;
pub mod nonempty;
pub mod saved_games;
