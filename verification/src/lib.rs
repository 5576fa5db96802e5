//! A single-player word-guessing game engine.
//!
//! A round shows the player a definition drawn from a dictionary; the player
//! must type the matching word before the round timer runs out. Correct
//! guesses score points and advance to the next word; wrong guesses, skips
//! and timeouts consume health. The game ends when health is exhausted.
//!
//! The crate is organised leaves first: `format` holds the byte-level
//! dictionary document codec, `text` the guess normalisation rules,
//! `dictionary` the loaded word list, `clock` and `select` the injectable
//! time source and word selector, and `engine` the session state machine.

pub mod clock;
pub mod dictionary;
pub mod engine;
pub mod format;
pub mod select;
pub mod text;
