//! Gesture typing: recognising the word that a finger path traced over a
//! virtual keyboard spells.
//!
//! Coordinates are fixed-point integers in the frame of the keyboard layout.
//! Distances are the Euclidean distance rounded down to an integer, and the
//! value `u64::MAX` stands for an infinite distance.
pub mod geometry;
pub mod dtw;
pub mod top_k;
pub mod layout;
pub mod word_path;
pub mod dictionary;
pub mod recognize;
