//! Pairwise sequence alignment: global (Needleman-Wunsch) and local
//! (Smith-Waterman) alignment under a linear match/mismatch/gap scoring
//! scheme, with contracts that pin down the dynamic-programming matrix,
//! the traceback and the alignments it produces.

/// Letter type definition and utilities.
pub mod letter;

/// Score type definition and utilities.
pub mod score;

/// Utilities implementing an alignment matrix API.
pub mod matrix;

/// Global alignment implementation via Needleman-Wunsch.
pub mod global;

/// Local alignment implementation via Smith-Waterman.
pub mod local;
