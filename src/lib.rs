//! Seeded, reversible scrambling of an image's blocks.
//!
//! The keystream of `cipher::Arc4` drives a generator of dyadic fractions in
//! `[0, 1)` (`prng::Prng`), which drives a shuffle of a sequence and its exact
//! inverse (module `shuffle`). Module `scramble` splits a canvas into regions
//! of equal blocks and plans, for each region, which block is copied where.
pub mod cipher;
pub mod prng;
pub mod shuffle;
pub mod scramble;

pub use crate::scramble::{scramble, unscramble, BlockSize, Mode, Rect};
