//! Consensus peaks from genomic peak calls.
//!
//! Raw peaks are grouped into bins of overlapping or adjacent regions, and each bin is
//! reduced to consensus peaks by one of three algorithms: the iterative summit-proximity
//! clustering of [`peaks::gipfelkreuzer`], the plain extent merge of [`peaks::simple`], and
//! the fixed-radius windows of [`peaks::harmoniser`].
pub mod algorithm;
pub mod error;
pub mod input;
pub mod ordering;
pub mod output;
pub mod peaks;
pub mod text;
