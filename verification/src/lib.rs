//! Read-supported refinement of the boundaries of a tandem-repeat locus.
//!
//! Given the alignments of long reads around a candidate locus, the crate
//! decides how far the stretch that differs from the reference reaches beyond
//! the locus on either side.
//!
//! - [`locus`] pads a locus to the region over which evidence is collected.
//! - [`cigar`] describes what the operations of one read add to the coverage
//!   and alteration counts of the positions of a region.
//! - [`profile`] counts the reads of one sample into a profile, all at once or
//!   read by read.
//! - [`consensus`] tallies the profiles of all samples and turns mean
//!   alteration fractions into an ordinal signal.
//! - [`extend`] searches the signal outwards from the locus, with windows of
//!   decreasing length, for the first flanks that look like reference.
//! - [`binary64`] orders the real-valued quantities that the callers compute.
//! - [`cli`] holds the parameters of a run.
//!
//! Everything here works on integers. Means of fractions and the posterior of
//! a window are computed by the caller and handed over as binary64 patterns,
//! which the crate only ever compares.

pub mod binary64;
pub mod cigar;
pub mod cli;
pub mod consensus;
pub mod extend;
pub mod locus;
pub mod profile;
