//! Frequency of occurrence of characters, words or lines in text.

pub mod errors;
pub mod freqs;
pub mod histogram;
pub mod sources;
pub mod opts;
pub mod split;
