//! Re-estimation of taxonomic abundance from a metagenomic classifier's
//! hierarchical report: a taxonomy tree with lowest-common-ancestor queries,
//! a report-tree builder that repairs rank gaps, a sliding-window majority
//! read classifier, and a Bayesian read redistributor.

pub mod classify;
pub mod digits;
pub mod kraken;
pub mod taxonomy;
pub mod text;
