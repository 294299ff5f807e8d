//! Pairwise sequence alignment: global and local dynamic-programming
//! alignment that reports every optimal alignment, with its proofs.

pub mod aligners;
pub mod alignment;
pub mod config;
pub mod laws;
pub mod matrices;
pub mod output;
pub mod tables;
pub mod scoring;

pub use aligners::{Aligner, GlobalAligner, LocalAligner};
pub use alignment::{AlignedPair, AlignmentResult, Arrows, Cell, DPMatrix, TracebackPath, TracebackStep};
pub use matrices::{BuiltinMatrix, MatrixData};
pub use scoring::{AlignmentError, ScoringConfig, SubstitutionScorer};
