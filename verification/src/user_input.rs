//! User input handling: normalising and checking one line of raw text.

pub mod format_and_check;
