//! A terminal word-guessing game library.
//!
//! The heart of the library is the guess scorer in [`game_logic`]: a guess is
//! compared with a hidden target word character by character, and each position
//! receives a verdict (correctly placed, misplaced, or absent), with duplicate
//! letters sharing a single per-character credit budget. Around it stand the
//! input validator in [`user_input`], the word-list organiser in
//! [`data_loader`], and the per-turn decision logic of the guess loop in
//! [`cli`]; reading lines, colors and the terminal stay with the program that
//! uses the library.

pub mod cli;
pub mod data_loader;
pub mod game_logic;
pub mod text;
pub mod user_input;
