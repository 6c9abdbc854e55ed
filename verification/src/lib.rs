//! Core of a grid-based maze puzzle.
//!
//! The library builds a square maze whose walls are seeded from caller-supplied
//! random bits, places a key and a door so that the key is provably reachable
//! from the start without passing through the door, carves corridors that are
//! wider than a single file, and enforces the movement, collision, win and
//! level-progression rules as the player explores.
//!
//! Randomness and wall-clock time enter only as plain values (bit vectors,
//! coordinate draws, tick counts) supplied by the embedding front end, so every
//! rule of the game is stated and proved here.

pub mod cell;
pub mod grid;
pub mod reach;
pub mod carve;
pub mod layout;
pub mod game;
