//! Epeletii: the rules of multiplayer Ibani Scrabble.
//!
//! The board and its premium squares, the Ibani tile distribution, the
//! dictionary's word normalisation, the game state machine with its move
//! validation and scoring, the bot's move search, the decisions a session
//! takes on the players' messages, the account checks, and the conversion
//! of a game to and from its stored snapshot.

pub mod text;
pub mod tiles;
pub mod board;
pub mod protocol;
pub mod dictionary;
pub mod random;
pub mod game;
pub mod draw;
pub mod rack;
pub mod placement;
pub mod scoring;
pub mod play;
pub mod persistence;
pub mod bot;
pub mod session;
pub mod account;
pub mod turns;
