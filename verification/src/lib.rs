//! Succinct indexing of character sequences: a rank/select bit vector and a
//! wavelet tree built on top of it.

pub mod bit_vector;
pub mod coded_text;
pub mod codex;
pub mod counting;
pub mod failure;
pub mod laws;
pub mod partition;
pub mod wavelet_tree;
