//! A colour-sorting puzzle: a gradient between two random colours is shown
//! with its inner cells shuffled, and the player swaps cells pairwise until
//! the gradient is back in order.
//!
//! The crate holds the rules of the game only. Drawing the cells and reading
//! the player's clicks is left to the program around it.

pub mod color;
pub mod gradient;
pub mod puzzle;
pub mod random;
