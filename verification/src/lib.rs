//! Rules engine for the board game Go: stone placement, connected-group
//! tracking, liberty accounting, capture resolution and the suicide check,
//! wrapped in a turn-based game-state machine.

pub mod board;
pub mod game;
pub mod input;
