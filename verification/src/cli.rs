use vstd::prelude::*;

verus! {

/// How the two per-window averages are combined into one value.
#[derive(Debug, Clone, Copy, PartialEq, Eq, Structural)]
pub enum Mode {
    /// Emit `treatment_avg - control_avg`.
    Diff,
    /// Emit `treatment_avg / control_avg`.
    Ratio,
}

/// The run configuration: the two indexed pileup paths, the chromosome-length
/// table, the window size in bases, and the comparison mode.
#[derive(Debug)]
pub struct Args {
    /// Treatment bgzipped pileup, indexed for coordinate queries.
    pub treatment: String,
    /// Control bgzipped pileup, indexed for coordinate queries.
    pub control: String,
    /// Chromosome lengths in TSV format with chrom and length columns.
    pub lengths_chrom: String,
    /// Window size to aggregate over.
    pub window: usize,
    /// Mode to compare by.
    pub mode: Mode,
}

} // verus!
