//! Probe design over DNA sequences: k-mer tiling and scoring, region and
//! quality filters, core-segment selection in reference graphs, and the
//! decision logic of off-target screening.

use vstd::prelude::*;

pub mod text;
pub mod seq;
pub mod kmer;
pub mod probes;
pub mod error;
pub mod cli;
pub mod graph;
pub mod offtarget;
pub mod annotation;

verus! {

/// The k-mers tiled from one region, before any scoring.
pub struct FilteredKmers {
    pub gene: String,
    pub start: u64,
    pub end: u64,
    /// Each distinct k-mer with the offsets at which it starts.
    pub kmers: Vec<(String, Vec<usize>)>,
    pub strand: String,
}

} // verus!
