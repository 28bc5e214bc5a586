//! A generic engine for turn-based, perfect-information, N-player games.
//!
//! The engine is split into a game abstraction (an immutable-snapshot state
//! model driven by a swappable rules object) and a multiplayer minimax search
//! with pruning. Scores are utility shares: every score vector assigns each
//! player a non-negative number of shares, and the shares of one vector add
//! up to [`game_elements::SCORE_UNIT`] — except in the search's documented
//! fallback for an ongoing position with no legal move, which scores an
//! all-zero vector.

pub mod eval;
pub mod game;
pub mod game_elements;
pub mod game_spec;
pub mod go;
pub mod opt;
pub mod othello;
pub mod push_up_four;
pub mod pushupfour;
pub mod scripted;
pub mod user_game;
