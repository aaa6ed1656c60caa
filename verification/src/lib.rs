//! Verified core of a sliding "15-puzzle": board representation, legal-move
//! computation, move application, solved-state detection, and randomized
//! scrambling that only ever walks legal moves out of the solved layout.

pub mod board;
mod rng;
