//! Loci and the padded regions over which evidence is collected.

use vstd::prelude::*;
use vstd::string::StringExecFns;

verus! {

/// A candidate interval on a chromosome, 0-based and half-open.
#[derive(Debug, Clone)]
pub struct Locus {
    pub chrom: String,
    pub start: i64,
    pub end: i64,
}

/// A locus padded on both sides, the interval whose alignments are read.
#[derive(Debug, Clone)]
pub struct Region {
    pub chrom: String,
    pub start: i64,
    pub end: i64,
}

/// Why a locus has no padded region.
#[derive(Debug, Clone, Copy, PartialEq, Eq)]
pub enum RegionError {
    /// Fewer than `radius` positions lie between the chromosome start and the locus.
    TooCloseToStart,
}

impl RegionError {
    /// The words of the error.
    pub open spec fn text(&self) -> Seq<char> {
        "Locus too close to chromosome start"@
    }

    /// The error in words.
    pub fn message(&self) -> (words: String)
        ensures
            words@ == self.text(),
    {
        String::from_str("Locus too close to chromosome start")
    }
}

impl Locus {
    /// The interval does not end before it starts.
    pub open spec fn wf(&self) -> bool {
        self.start <= self.end
    }

    /// Number of positions of the locus.
    pub open spec fn span(&self) -> int {
        self.end - self.start
    }
}

impl Region {
    /// Number of positions of the region.
    pub open spec fn span(&self) -> int {
        self.end - self.start
    }

    /// The region of `locus` for padding `radius`.
    pub open spec fn pads(&self, locus: &Locus, radius: u32) -> bool {
        &&& self.chrom@ == locus.chrom@
        &&& self.start == locus.start - radius
        &&& self.end == locus.end + radius
    }
}

/// Pads `locus` by `radius` positions on both sides.
///
/// There is no region when the locus starts fewer than `radius` positions
/// into the chromosome.
pub fn extend_region(locus: &Locus, radius: u32) -> (out: Result<Region, RegionError>)
    requires
        locus.start >= radius ==> locus.end + radius <= i64::MAX,
    ensures
        locus.start < radius <==> out is Err,
        out matches Err(e) ==> e == RegionError::TooCloseToStart,
        out matches Ok(region) ==> {
            &&& region.pads(locus, radius)
            &&& 0 <= region.start
            &&& region.span() == locus.span() + 2 * radius
        },
{
    let radius: i64 = radius as i64;
    if locus.start < radius {
        Err(RegionError::TooCloseToStart)
    } else {
        Ok(Region { chrom: locus.chrom.clone(), start: locus.start - radius, end: locus.end + radius })
    }
}

} // verus!
