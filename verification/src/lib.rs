//! Analysis of multiple-sequence alignments of nucleotide sequences, in
//! support of transposable-element characterisation: consensus calling,
//! conserved-block detection and trimming, sliding-window nucleotide
//! diversity, and discovery of target-site-duplication candidates.
//!
//! The functions state what they compute over mathematical models of
//! their arguments (sequences, multisets, maps), and Verus proves that
//! they compute it, without overflow and without panics. Two functions
//! are taken on trust: the pairwise aligner of the crate `bio` and the
//! UTF-8 check of the standard library, each behind one wrapper.
//!
//! Fractions are kept as pairs of counts; no floating-point number
//! occurs.

pub mod con;
pub mod div;
pub mod dot;
pub mod tir;
pub mod tsd;
pub mod ttc;
pub mod utils;
