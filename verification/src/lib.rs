//! Morse-code word-list analysis.
//!
//! The library encodes words into International Morse Code through a fixed
//! 26-letter substitution table, builds a dictionary of `(word, code)` pairs
//! from newline-delimited text, and answers a handful of analytical questions
//! over that dictionary: aggregate dot/dash counts, the most frequently
//! repeated code, codes containing long dash runs, words whose code balances
//! dots and dashes, and words whose code is a palindrome.

pub mod analyses;
pub mod dictionary;
pub mod encoding;
pub mod laws;
