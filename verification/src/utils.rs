//! The shared data structures: the alignment matrix and what is derived
//! from it.

pub mod alignment;
pub mod blocks;
pub mod diversity;
pub mod operation;
pub mod revcomp;
pub mod seqcount;
pub mod tsd;
pub mod windows;
