//! Word-search puzzle generation: a rectangular grid into which dictionary
//! words are woven along the eight compass directions, leaving exactly as many
//! empty cells as the hidden message has letters.

pub mod random;
pub mod direction;
pub mod grid;
pub mod text;
pub mod board;
pub mod layout;
pub mod dictionary;
pub mod generator;
pub mod puzzle;
pub mod laws;
