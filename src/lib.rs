//! Board connectivity and casino resolution for a tile-placement casino game.
//!
//! The board is a set of six blocks, each a grid three lots wide. Built tiles
//! that share a casino and touch orthogonally form a casino group; the player
//! holding the highest die in a group is its boss, and ties between players
//! are settled by rolling the tied dice again.
pub mod board;
pub mod casino;
mod grid;
mod dice;
pub mod laws;
