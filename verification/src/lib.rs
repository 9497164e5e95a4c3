//! Dynamic-programming comparison of symbol sequences: longest common
//! subsequence, global (Needleman-Wunsch) and local (Smith-Waterman)
//! alignment, and the Hamming distance.
//!
//! Each builder fills a score grid and a parallel traceback grid over the
//! two input sequences; a reconstructor walks the traceback grid backward
//! and yields the optimal subsequence or alignment strings.

pub mod matrix;
pub mod lcs;
pub mod global;
pub mod local;
pub mod hamming;
