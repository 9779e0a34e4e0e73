//! What the samples of one locus tell together: the mean depth, the number of
//! supporting samples, and the ordinal signal of the mean alteration fractions.

use vstd::prelude::*;
use crate::binary64::{at_most, below, le, lt};
use crate::locus::Region;
use crate::profile::{fails_at, failure_of, get_profile, is_first_failure, strong_reads, total, Alignment, Prof, ProfileError, MIN_STRONG_READS};

verus! {

/// Number of ordinal levels of the signal.
pub const LEVELS: u8 = 6;

/// One tenth, as the nearest binary64 number.
pub const TENTH: u64 = 0x3FB9_9999_9999_999A;

/// One quarter.
pub const QUARTER: u64 = 0x3FD0_0000_0000_0000;

/// Three quarters.
pub const THREE_QUARTERS: u64 = 0x3FE8_0000_0000_0000;

/// One and a half.
pub const THREE_HALVES: u64 = 0x3FF8_0000_0000_0000;

/// Five.
pub const FIVE: u64 = 0x4014_0000_0000_0000;

/// The consensus depth of a locus that is processed lies between these, inclusive.
pub const MIN_MEAN_DEPTH: u32 = 5;

pub const MAX_MEAN_DEPTH: u32 = 150;

/// The level of an alteration fraction: 0 up to one tenth, then 1 below a
/// quarter, 2 below three quarters, 3 below one and a half, 4 below five, and 5
/// from five on. A pattern that encodes no number has level 5.
pub open spec fn level(v: u64) -> u8 {
    if le(v, TENTH) {
        0
    } else if lt(v, QUARTER) {
        1
    } else if lt(v, THREE_QUARTERS) {
        2
    } else if lt(v, THREE_HALVES) {
        3
    } else if lt(v, FIVE) {
        4
    } else {
        5
    }
}

/// The signal of a sequence of alteration fractions.
pub open spec fn signal(vals: Seq<u64>) -> Seq<u8> {
    Seq::new(vals.len(), |i: int| level(vals[i]))
}

/// Every code is one of the levels.
pub open spec fn is_signal(codes: Seq<u8>) -> bool {
    forall|i: int| 0 <= i < codes.len() ==> codes[i] < LEVELS
}

fn level_of(v: u64) -> (code: u8)
    ensures
        code == level(v),
{
    if at_most(v, TENTH) {
        0
    } else if below(v, QUARTER) {
        1
    } else if below(v, THREE_QUARTERS) {
        2
    } else if below(v, THREE_HALVES) {
        3
    } else if below(v, FIVE) {
        4
    } else {
        5
    }
}

/// Maps each alteration fraction, given as a binary64 pattern, to its level.
pub fn discretize(vals: &[u64]) -> (codes: Vec<u8>)
    ensures
        codes@ == signal(vals@),
        is_signal(codes@),
{
    let n: usize = vals.len();
    let mut codes: Vec<u8> = Vec::new();
    let mut i: usize = 0;
    while i < n
        invariant
            i <= n,
            n == vals@.len(),
            codes@.len() == i,
            forall|j: int| 0 <= j < i ==> codes@[j] == level(vals@[j]),
        decreases n - i,
    {
        codes.push(level_of(vals[i]));
        i += 1;
    }
    assert(codes@ =~= signal(vals@));
    codes
}

/// Every fraction has exactly one level, and it is one of the six.
pub proof fn lemma_level_total(v: u64)
    ensures
        level(v) < LEVELS,
{
}

/// A larger fraction never has a smaller level.
pub proof fn lemma_level_monotone(a: u64, b: u64)
    requires
        le(a, b),
    ensures
        level(a) <= level(b),
{
}

/// The integer side of the consensus of a locus: over how many positions and
/// samples it was taken, the coverage summed over all of them, and how many
/// samples support an alteration.
#[derive(Debug, Clone, Copy, PartialEq, Eq)]
pub struct Tally {
    pub positions: usize,
    pub samples: u32,
    pub coverage: u128,
    pub support: u32,
}

impl Tally {
    /// No sample can have covered a position more than 2^32 - 1 times, and
    /// only samples that were counted can support.
    pub open spec fn wf(&self) -> bool {
        &&& self.coverage <= self.samples * (self.positions * u32::MAX)
        &&& self.support <= self.samples
    }

    /// The mean depth over all samples and positions lies in the band in which
    /// a locus is processed. It does not when there is no sample or no position.
    pub open spec fn depth_in_band(&self) -> bool {
        &&& self.samples > 0
        &&& self.positions > 0
        &&& MIN_MEAN_DEPTH * (self.samples * self.positions) <= self.coverage
        &&& self.coverage <= MAX_MEAN_DEPTH * (self.samples * self.positions)
    }

    /// The tally of no samples over `positions` positions.
    pub fn new(positions: usize) -> (tally: Tally)
        ensures
            tally == (Tally { positions, samples: 0, coverage: 0, support: 0 }),
            tally.wf(),
    {
        Tally { positions, samples: 0, coverage: 0, support: 0 }
    }

    /// Counts one more sample. The sample supports an alteration when enough
    /// of its reads show one (`any_alt`) and its own mean depth reaches
    /// `MIN_MEAN_DEPTH`.
    pub fn add_sample(&mut self, prof: &Prof, any_alt: bool)
        requires
            old(self).wf(),
            old(self).samples < u32::MAX,
            prof.covs@.len() == old(self).positions,
        ensures
            final(self).wf(),
            final(self).positions == old(self).positions,
            final(self).samples == old(self).samples + 1,
            final(self).coverage == old(self).coverage + total(prof.covs@),
            final(self).support == old(self).support + (if any_alt && prof.has_depth(MIN_MEAN_DEPTH) { 1int } else { 0int }),
    {
        let sum: u128 = prof.coverage();
        let supports: bool = any_alt && prof.depth_at_least(MIN_MEAN_DEPTH);
        proof {
            let step = self.positions * u32::MAX;
            assert((self.samples + 1) * step == self.samples * step + step) by (nonlinear_arith);
            assert((self.samples + 1) * step <= 0xFFFF_FFFF * (0xFFFF_FFFF_FFFF_FFFF * 0xFFFF_FFFF)) by (nonlinear_arith)
                requires
                    0 <= self.samples + 1 <= 0xFFFF_FFFF,
                    0 <= step <= 0xFFFF_FFFF_FFFF_FFFF * 0xFFFF_FFFF,
            ;
        }
        self.coverage = self.coverage + sum;
        self.samples = self.samples + 1;
        if supports {
            self.support = self.support + 1;
        }
    }

    /// Tells whether the mean depth lies in the band in which a locus is processed.
    pub fn mean_depth_in_band(&self) -> (ok: bool)
        ensures
            ok == self.depth_in_band(),
    {
        if self.samples == 0 || self.positions == 0 {
            return false;
        }
        assert(self.samples * self.positions <= 0xFFFF_FFFE_FFFF_FFFF_0000_0001) by (nonlinear_arith)
            requires
                0 <= self.samples <= 0xFFFF_FFFF,
                0 <= self.positions <= 0xFFFF_FFFF_FFFF_FFFF,
        ;
        let cells: u128 = self.samples as u128 * self.positions as u128;
        assert(MIN_MEAN_DEPTH * cells <= MAX_MEAN_DEPTH * cells <= u128::MAX) by (nonlinear_arith)
            requires
                MIN_MEAN_DEPTH == 5,
                MAX_MEAN_DEPTH == 150,
                0 <= cells <= 0xFFFF_FFFE_FFFF_FFFF_0000_0001,
        ;
        MIN_MEAN_DEPTH as u128 * cells <= self.coverage && self.coverage <= MAX_MEAN_DEPTH as u128 * cells
    }
}

/// A sample supports an alteration when at least `MIN_STRONG_READS` of its
/// retained reads carry strong evidence and its mean depth reaches `MIN_MEAN_DEPTH`.
pub open spec fn sample_supports(reads: Seq<Alignment>, prof: Prof, start: int, end: int) -> bool {
    strong_reads(reads, start, end, reads.len() as int) >= MIN_STRONG_READS && prof.has_depth(MIN_MEAN_DEPTH)
}

/// Coverage of the first `n` profiles, summed over all positions.
pub open spec fn coverage_sum(profs: Seq<Prof>, n: int) -> int
    decreases n,
{
    if n <= 0 {
        0
    } else {
        coverage_sum(profs, n - 1) + total(profs[n - 1].covs@)
    }
}

/// Number of the first `n` samples that support an alteration.
pub open spec fn supporters(samples: Seq<Vec<Alignment>>, profs: Seq<Prof>, start: int, end: int, n: int) -> int
    decreases n,
{
    if n <= 0 {
        0
    } else {
        supporters(samples, profs, start, end, n - 1) + (if sample_supports(samples[n - 1]@, profs[n - 1], start, end) {
            1int
        } else {
            0int
        })
    }
}

/// No read of the sample fails its profile.
pub open spec fn sample_is_sound(reads: Seq<Alignment>, start: int, end: int) -> bool {
    forall|k: int| 0 <= k < reads.len() ==> !fails_at(reads, start, end, k)
}

/// Builds the profile of every sample over `region` and tallies them.
///
/// The reads of each sample stand in the order in which they were fetched.
/// Either every sample has a profile, or the locus has none: the first sample
/// whose profile fails fails them all, with its error.
pub fn aggregate_samples(samples: &Vec<Vec<Alignment>>, region: &Region) -> (out: Result<(Vec<Prof>, Tally), ProfileError>)
    requires
        region.start <= region.end,
        region.end - region.start <= usize::MAX,
        samples@.len() <= u32::MAX,
    ensures
        out matches Ok((profs, tally)) ==> {
            &&& profs@.len() == samples@.len()
            &&& forall|s: int| 0 <= s < samples@.len() ==> sample_is_sound(#[trigger] samples@[s]@, region.start as int, region.end as int)
            &&& forall|s: int| 0 <= s < samples@.len() ==> (#[trigger] profs@[s]).is_profile_of(samples@[s]@, region.start as int, region.end as int)
            &&& tally.wf()
            &&& tally.positions == region.span()
            &&& tally.samples == samples@.len()
            &&& tally.coverage == coverage_sum(profs@, samples@.len() as int)
            &&& tally.support == supporters(samples@, profs@, region.start as int, region.end as int, samples@.len() as int)
        },
        out matches Err(e) ==> exists|s: int, k: int| {
            &&& 0 <= s < samples@.len()
            &&& #[trigger] is_first_failure(samples@[s]@, region.start as int, region.end as int, k)
            &&& e == failure_of(samples@[s]@, region.start as int, region.end as int, k)
            &&& forall|t: int| 0 <= t < s ==> sample_is_sound(#[trigger] samples@[t]@, region.start as int, region.end as int)
        },
{
    let ghost start = region.start as int;
    let ghost end = region.end as int;
    let positions: usize = (region.end as i128 - region.start as i128) as usize;
    let n: usize = samples.len();
    let mut tally = Tally::new(positions);
    let mut profs: Vec<Prof> = Vec::new();
    let mut s: usize = 0;
    while s < n
        invariant
            s <= n,
            n == samples@.len(),
            n <= u32::MAX,
            start == region.start,
            end == region.end,
            start <= end,
            positions == end - start,
            profs@.len() == s,
            forall|t: int| 0 <= t < s ==> sample_is_sound(#[trigger] samples@[t]@, start, end),
            forall|t: int| 0 <= t < s ==> (#[trigger] profs@[t]).is_profile_of(samples@[t]@, start, end),
            tally.wf(),
            tally.positions == positions,
            tally.samples == s,
            tally.coverage == coverage_sum(profs@, s as int),
            tally.support == supporters(samples@, profs@, start, end, s as int),
        decreases n - s,
    {
        let ghost before = profs@;
        match get_profile(&samples[s], region) {
            Err(e) => {
                return Err(e);
            },
            Ok((prof, any_alt)) => {
                tally.add_sample(&prof, any_alt);
                profs.push(prof);
            },
        }
        proof {
            lemma_sums_ignore_later_profiles(samples@, before, profs@, start, end, s as int);
        }
        s += 1;
    }
    Ok((profs, tally))
}

/// The sums over the first `n` profiles are those of any sequence that begins with the same `n`.
proof fn lemma_sums_ignore_later_profiles(samples: Seq<Vec<Alignment>>, a: Seq<Prof>, b: Seq<Prof>, start: int, end: int, n: int)
    requires
        n <= a.len(),
        n <= b.len(),
        forall|t: int| 0 <= t < n ==> a[t] == b[t],
    ensures
        coverage_sum(a, n) == coverage_sum(b, n),
        supporters(samples, a, start, end, n) == supporters(samples, b, start, end, n),
    decreases n,
{
    if n > 0 {
        lemma_sums_ignore_later_profiles(samples, a, b, start, end, n - 1);
    }
}

} // verus!
