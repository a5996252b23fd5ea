//! Endgame analysis for Nine Men's Morris: a compact board, its symmetries,
//! the move generators and the retrograde solver built on them.
pub mod game;
