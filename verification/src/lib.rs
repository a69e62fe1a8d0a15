//! A piece-based model of the 3x3x3 twisty puzzle, and a compiler from the
//! permutation a scramble leaves behind to one masked-shift transform of a
//! 128-bit packed state.

pub mod bits;
pub mod bulk;
pub mod cube;
pub mod cycles;
pub mod laws;
pub mod moves;
pub mod position;
pub mod transposition;
