//! A reversible codec that turns a sequence of non-negative integers into a
//! short, shuffled, human-presentable string and back.
//!
//! The codec is parameterized by a character alphabet, a minimum output
//! length, and a blocklist of forbidden output substrings.

pub mod blocklist;
pub mod chars;
pub mod codec;
pub mod error;
pub mod laws;
pub mod numeral;
pub mod shuffle;
pub mod utils;
