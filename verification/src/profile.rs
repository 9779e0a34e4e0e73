//! Per-position coverage and alteration counts of one sample over a region.

use vstd::prelude::*;
use vstd::string::StringExecFns;
use crate::cigar::{alt_gain, cov_gain, cursor, get_ref_len, halts, lemma_gain_bounds, lemma_gain_monotone, lemma_walk_end, lemma_walk_end_first, op_alt, op_cov, strong_within, Cigar, CigarOp, STRONG_OVERLAP};
use crate::locus::Region;

verus! {

/// Why no profile could be built.
#[derive(Debug, Clone, Copy, PartialEq, Eq)]
pub enum ProfileError {
    /// More reads overlap the region than a profile is built from.
    HighDepth,
    /// A read carries a hard clip, a pad or a reference skip inside the region.
    /// This is a broken promise of whoever supplied the reads, not a property of the locus.
    UnexpectedOp,
}

impl ProfileError {
    /// The words of the error.
    pub open spec fn text(&self) -> Seq<char> {
        match self {
            ProfileError::HighDepth => "High depth"@,
            ProfileError::UnexpectedOp => "Unexpected operation"@,
        }
    }

    /// The error in words.
    pub fn message(&self) -> (words: String)
        ensures
            words@ == self.text(),
    {
        match self {
            ProfileError::HighDepth => String::from_str("High depth"),
            ProfileError::UnexpectedOp => String::from_str("Unexpected operation"),
        }
    }
}

/// Adds one to `v[lo .. lo + len]`.
fn bump_covs(v: &mut Vec<u32>, lo: usize, len: usize)
    requires
        lo + len <= old(v)@.len(),
        forall|i: int| lo <= i < lo + len ==> old(v)@[i] < u32::MAX,
    ensures
        final(v)@.len() == old(v)@.len(),
        forall|i: int| 0 <= i < old(v)@.len() ==> final(v)@[i] == old(v)@[i] + (if lo <= i < lo + len { 1int } else { 0int }),
{
    let mut j: usize = 0;
    while j < len
        invariant
            j <= len,
            lo + len <= v.len(),
            v@.len() == old(v)@.len(),
            forall|i: int| lo <= i < lo + len ==> old(v)@[i] < u32::MAX,
            forall|i: int| 0 <= i < old(v)@.len() ==> v@[i] == old(v)@[i] + (if lo <= i < lo + j { 1int } else { 0int }),
        decreases len - j,
    {
        let cur: u32 = v[lo + j];
        v.set(lo + j, cur + 1);
        j += 1;
    }
}

/// Adds one to `v[lo .. lo + len]`.
fn bump_alts(v: &mut Vec<u128>, lo: usize, len: usize)
    requires
        lo + len <= old(v)@.len(),
        forall|i: int| lo <= i < lo + len ==> old(v)@[i] < u128::MAX,
    ensures
        final(v)@.len() == old(v)@.len(),
        forall|i: int| 0 <= i < old(v)@.len() ==> final(v)@[i] == old(v)@[i] + (if lo <= i < lo + len { 1int } else { 0int }),
{
    let mut j: usize = 0;
    while j < len
        invariant
            j <= len,
            lo + len <= v.len(),
            v@.len() == old(v)@.len(),
            forall|i: int| lo <= i < lo + len ==> old(v)@[i] < u128::MAX,
            forall|i: int| 0 <= i < old(v)@.len() ==> v@[i] == old(v)@[i] + (if lo <= i < lo + j { 1int } else { 0int }),
        decreases len - j,
    {
        let cur: u128 = v[lo + j];
        v.set(lo + j, cur + 1);
        j += 1;
    }
}

/// Adds the evidence of one read to the coverage and alteration counts of a region.
///
/// The operations of the read are walked in order. Those that lie wholly
/// before the region are passed over; the walk ends at the first one that
/// begins at or after the region's end. A match adds one to the coverage of each position it
/// overlaps; a mismatch or deletion adds one to both counts of each such
/// position; an insertion adds its length, and a soft clip one, to the
/// alteration count of its anchor.
///
/// The result tells whether the read carries strong alteration evidence.
/// A hard clip, a pad or a reference skip inside the region ends the walk with
/// `UnexpectedOp`; the counts then hold what the operations before it added.
pub fn update_profs(rec: &Cigar, covs: &mut Vec<u32>, alts: &mut Vec<u128>, region: &Region) -> (out: Result<bool, ProfileError>)
    requires
        region.start <= region.end,
        old(covs)@.len() == region.end - region.start,
        old(alts)@.len() == old(covs)@.len(),
        forall|i: int| 0 <= i < old(covs)@.len() ==> old(covs)@[i] + #[trigger] rec.coverage_at(region.start as int, region.end as int, i) <= u32::MAX,
        forall|i: int| 0 <= i < old(alts)@.len() ==> old(alts)@[i] + #[trigger] rec.alteration_at(region.start as int, region.end as int, i) <= u128::MAX,
    ensures
        final(covs)@.len() == old(covs)@.len(),
        final(alts)@.len() == old(alts)@.len(),
        forall|i: int| 0 <= i < old(covs)@.len() ==> final(covs)@[i] == old(covs)@[i] + rec.coverage_at(region.start as int, region.end as int, i),
        forall|i: int| 0 <= i < old(alts)@.len() ==> final(alts)@[i] == old(alts)@[i] + rec.alteration_at(region.start as int, region.end as int, i),
        rec.is_malformed(region.start as int, region.end as int) <==> out is Err,
        out matches Err(e) ==> e == ProfileError::UnexpectedOp,
        out matches Ok(strong) ==> strong == rec.is_strong(region.start as int, region.end as int),
{
    let start: i128 = region.start as i128;
    let end: i128 = region.end as i128;
    let ghost ops = rec.ops@;
    let ghost origin = rec.ref_pos as int;
    let ghost walked = rec.walked(start as int, end as int);
    let n: usize = rec.ops.len();
    let positions: usize = covs.len();
    let mut ref_pos: i128 = rec.ref_pos as i128;
    let mut any_alt: bool = false;
    let mut k: usize = 0;
    proof {
        lemma_walk_end_first(ops, origin, start as int, end as int, 0);
    }
    while k < n
        invariant
            k <= n,
            n == ops.len(),
            ops == rec.ops@,
            origin == rec.ref_pos,
            start == region.start,
            end == region.end,
            start <= end,
            walked == rec.walked(start as int, end as int),
            k <= walked <= n,
            ref_pos == cursor(ops, origin, k as int),
            origin <= ref_pos <= origin + k * 0xFFFF_FFFF,
            forall|j: int| 0 <= j < k ==> !halts(ops[j], #[trigger] cursor(ops, origin, j), start as int, end as int),
            covs@.len() == old(covs)@.len(),
            alts@.len() == old(alts)@.len(),
            covs@.len() == end - start,
            covs@.len() == positions,
            alts@.len() == covs@.len(),
            forall|i: int| 0 <= i < covs@.len() ==> covs@[i] == old(covs)@[i] + cov_gain(ops, origin, start as int, end as int, k as int, i),
            forall|i: int| 0 <= i < alts@.len() ==> alts@[i] == old(alts)@[i] + alt_gain(ops, origin, start as int, end as int, k as int, i),
            forall|i: int| 0 <= i < covs@.len() ==> old(covs)@[i] + #[trigger] rec.coverage_at(start as int, end as int, i) <= u32::MAX,
            forall|i: int| 0 <= i < alts@.len() ==> old(alts)@[i] + #[trigger] rec.alteration_at(start as int, end as int, i) <= u128::MAX,
            any_alt == strong_within(ops, origin, start as int, end as int, k as int),
        decreases n - k,
    {
        let op: CigarOp = rec.ops[k];
        let op_len: i128 = get_ref_len(&op) as i128;
        let ghost pos = ref_pos as int;
        let before: bool = if op_len == 0 { ref_pos < start } else { ref_pos + op_len <= start };
        if !before {
            if ref_pos >= end {
                proof {
                    lemma_walk_end(ops, origin, start as int, end as int, 0, k as int);
                }
                return Ok(any_alt);
            }
            let clipped_start: i128 = if ref_pos >= start { ref_pos } else { start };
            let clipped_end: i128 = if ref_pos + op_len <= end { ref_pos + op_len } else { end };
            let clipped_len: usize = (clipped_end - clipped_start) as usize;
            let index: usize = (clipped_start - start) as usize;
            proof {
                // What this operation adds is part of what the whole walk adds, so it fits.
                if !op.is_unexpected() {
                    if walked <= k {
                        lemma_walk_end_first(ops, origin, start as int, end as int, 0);
                    }
                    assert forall|i: int| 0 <= i < covs@.len() implies #[trigger] covs@[i] + op_cov(op, pos, start as int, end as int, i) <= u32::MAX by {
                        lemma_gain_monotone(ops, origin, start as int, end as int, k + 1, walked, i);
                        assert(old(covs)@[i] + rec.coverage_at(start as int, end as int, i) <= u32::MAX);
                    }
                    assert forall|i: int| 0 <= i < alts@.len() implies #[trigger] alts@[i] + op_alt(op, pos, start as int, end as int, i) <= u128::MAX by {
                        lemma_gain_monotone(ops, origin, start as int, end as int, k + 1, walked, i);
                        assert(old(alts)@[i] + rec.alteration_at(start as int, end as int, i) <= u128::MAX);
                    }
                }
            }
            match op {
                CigarOp::Match(_) | CigarOp::Equal(_) => {
                    bump_covs(covs, index, clipped_len);
                },
                CigarOp::Diff(_) | CigarOp::Del(_) => {
                    bump_covs(covs, index, clipped_len);
                    bump_alts(alts, index, clipped_len);
                    any_alt = any_alt || clipped_len >= STRONG_OVERLAP;
                },
                CigarOp::Ins(len) => {
                    let cur: u128 = alts[index];
                    alts.set(index, cur + len as u128);
                    any_alt = any_alt || clipped_len >= STRONG_OVERLAP;
                },
                CigarOp::SoftClip(_) => {
                    let cur: u128 = alts[index];
                    alts.set(index, cur + 1);
                },
                CigarOp::HardClip(_) | CigarOp::Pad(_) | CigarOp::RefSkip(_) => {
                    proof {
                        lemma_walk_end(ops, origin, start as int, end as int, 0, k as int);
                    }
                    return Err(ProfileError::UnexpectedOp);
                },
            }
        }
        proof {
            if walked <= k {
                lemma_walk_end_first(ops, origin, start as int, end as int, 0);
            }
        }
        ref_pos = ref_pos + op_len;
        k += 1;
    }
    proof {
        lemma_walk_end(ops, origin, start as int, end as int, 0, k as int);
    }
    Ok(any_alt)
}

/// Reads mapped with less confidence than this are left out of a profile.
pub const MIN_MAPQ: u8 = 50;

/// A read kept for the profile at this position or later among those of the region is one too many.
pub const MAX_DEPTH: usize = 200;

/// A sample shows strong alteration when at least this many of its reads do.
pub const MIN_STRONG_READS: usize = 3;

/// No read can add more than this to the alteration count of a position:
/// the largest operation length times the largest number of operations.
const ALT_STEP: u128 = 0xFFFF_FFFE_FFFF_FFFF_0000_0001;

/// What the profile builder reads of one aligned read.
#[derive(Debug, Clone, PartialEq)]
pub struct Alignment {
    pub mapq: u8,
    pub secondary: bool,
    pub supplementary: bool,
    pub cigar: Cigar,
}

/// The evidence of one sample over a region: for each position, how many reads
/// cover it and how many alterations they show there.
#[derive(Debug, Clone, PartialEq)]
pub struct Prof {
    pub alts: Vec<u128>,
    pub covs: Vec<u32>,
}

impl Alignment {
    /// A primary alignment that is mapped confidently enough.
    pub open spec fn is_retained(&self) -> bool {
        !self.secondary && !self.supplementary && self.mapq >= MIN_MAPQ
    }

    /// Tells whether the read takes part in a profile.
    pub fn retained(&self) -> (kept: bool)
        ensures
            kept == self.is_retained(),
    {
        !(self.secondary || self.supplementary || self.mapq < MIN_MAPQ)
    }
}

/// Coverage that the retained ones of the first `n` reads add to region position `i`.
pub open spec fn reads_cov(reads: Seq<Alignment>, start: int, end: int, n: int, i: int) -> int
    decreases n,
{
    if n <= 0 {
        0
    } else {
        reads_cov(reads, start, end, n - 1, i) + (if reads[n - 1].is_retained() {
            reads[n - 1].cigar.coverage_at(start, end, i)
        } else {
            0
        })
    }
}

/// Alteration count that the retained ones of the first `n` reads add to region position `i`.
pub open spec fn reads_alt(reads: Seq<Alignment>, start: int, end: int, n: int, i: int) -> int
    decreases n,
{
    if n <= 0 {
        0
    } else {
        reads_alt(reads, start, end, n - 1, i) + (if reads[n - 1].is_retained() {
            reads[n - 1].cigar.alteration_at(start, end, i)
        } else {
            0
        })
    }
}

/// Number of retained reads among the first `n` that carry strong alteration evidence.
pub open spec fn strong_reads(reads: Seq<Alignment>, start: int, end: int, n: int) -> int
    decreases n,
{
    if n <= 0 {
        0
    } else {
        strong_reads(reads, start, end, n - 1) + (if reads[n - 1].is_retained() && reads[n - 1].cigar.is_strong(start, end) {
            1int
        } else {
            0int
        })
    }
}

/// Read `k` is retained and either malformed or one too many.
pub open spec fn fails_at(reads: Seq<Alignment>, start: int, end: int, k: int) -> bool {
    reads[k].is_retained() && (reads[k].cigar.is_malformed(start, end) || k >= MAX_DEPTH)
}

/// The error that the failing read `k` gives: a malformed read counts before the depth.
pub open spec fn failure_of(reads: Seq<Alignment>, start: int, end: int, k: int) -> ProfileError {
    if reads[k].cigar.is_malformed(start, end) {
        ProfileError::UnexpectedOp
    } else {
        ProfileError::HighDepth
    }
}

/// Sum of the coverage of all positions.
pub open spec fn total(covs: Seq<u32>) -> int
    decreases covs.len(),
{
    if covs.len() == 0 {
        0
    } else {
        total(covs.drop_last()) + covs.last()
    }
}

/// Read `k` is the first at which the profile fails.
pub open spec fn is_first_failure(reads: Seq<Alignment>, start: int, end: int, k: int) -> bool {
    &&& 0 <= k < reads.len()
    &&& fails_at(reads, start, end, k)
    &&& forall|j: int| 0 <= j < k ==> !fails_at(reads, start, end, j)
}

impl Prof {
    /// The mean coverage of a position is at least `depth`. No depth is reached over no positions.
    pub open spec fn has_depth(&self, depth: u32) -> bool {
        self.covs@.len() > 0 && total(self.covs@) >= depth * self.covs@.len()
    }

    /// Sum of the coverage of all positions: the mean depth times the number of positions.
    pub fn coverage(&self) -> (sum: u128)
        ensures
            sum == total(self.covs@),
            sum <= self.covs@.len() * u32::MAX,
    {
        let n: usize = self.covs.len();
        let mut sum: u128 = 0;
        let mut i: usize = 0;
        while i < n
            invariant
                i <= n,
                n == self.covs@.len(),
                sum == total(self.covs@.take(i as int)),
                sum <= i * u32::MAX,
            decreases n - i,
        {
            assert(self.covs@.take(i + 1).drop_last() =~= self.covs@.take(i as int));
            sum = sum + self.covs[i] as u128;
            i += 1;
        }
        assert(self.covs@.take(n as int) =~= self.covs@);
        sum
    }

    /// Tells whether the mean coverage of a position is at least `depth`.
    pub fn depth_at_least(&self, depth: u32) -> (reached: bool)
        ensures
            reached == self.has_depth(depth),
    {
        let n: usize = self.covs.len();
        let sum: u128 = self.coverage();
        assert(depth * n <= 0xFFFF_FFFF * 0xFFFF_FFFF_FFFF_FFFF) by (nonlinear_arith)
            requires
                0 <= depth <= 0xFFFF_FFFF,
                0 <= n <= 0xFFFF_FFFF_FFFF_FFFF,
        ;
        n > 0 && sum >= depth as u128 * n as u128
    }

    /// The profile is that of `reads` over `[start, end)`.
    pub open spec fn is_profile_of(&self, reads: Seq<Alignment>, start: int, end: int) -> bool {
        &&& self.covs@.len() == end - start
        &&& self.alts@.len() == end - start
        &&& forall|i: int| 0 <= i < end - start ==> self.covs@[i] == reads_cov(reads, start, end, reads.len() as int, i)
        &&& forall|i: int| 0 <= i < end - start ==> self.alts@[i] == reads_alt(reads, start, end, reads.len() as int, i)
    }
}

/// The outcome of a profile over `reads`: the profile and its flag when no read
/// fails, the error of the first failing read otherwise.
pub open spec fn is_outcome_of(out: Result<(Prof, bool), ProfileError>, reads: Seq<Alignment>, start: int, end: int) -> bool {
    match out {
        Ok((prof, any_alt)) => {
            &&& forall|k: int| 0 <= k < reads.len() ==> !fails_at(reads, start, end, k)
            &&& prof.is_profile_of(reads, start, end)
            &&& any_alt == (strong_reads(reads, start, end, reads.len() as int) >= MIN_STRONG_READS)
        },
        Err(e) => exists|k: int| #[trigger] is_first_failure(reads, start, end, k) && e == failure_of(reads, start, end, k),
    }
}

/// A profile in the making: it takes the reads of one sample one by one, in the
/// order in which they are fetched, and stops taking them at the first that fails.
pub struct ProfileBuilder {
    region: Region,
    covs: Vec<u32>,
    alts: Vec<u128>,
    /// Number of reads taken, counted up to `MAX_DEPTH`.
    seen: usize,
    /// Number of retained reads taken that carry strong evidence.
    strong: usize,
    failed: Option<ProfileError>,
    reads: Ghost<Seq<Alignment>>,
}

impl ProfileBuilder {
    /// The reads taken so far, the failing one included.
    pub closed spec fn reads(&self) -> Seq<Alignment> {
        self.reads@
    }

    /// First position and end of the region that is profiled.
    pub closed spec fn bounds(&self) -> (int, int) {
        (self.region.start as int, self.region.end as int)
    }

    /// The error of the read that failed, if one did.
    pub closed spec fn failure(&self) -> Option<ProfileError> {
        self.failed
    }

    /// The counts are those of the reads taken, unless one failed, and then
    /// the failure is that of the last read taken.
    pub closed spec fn wf(&self) -> bool {
        let start = self.region.start as int;
        let end = self.region.end as int;
        let n = self.reads@.len() as int;
        &&& start <= end
        &&& self.covs@.len() == end - start
        &&& self.alts@.len() == end - start
        &&& match self.failed {
            Some(e) => is_first_failure(self.reads@, start, end, n - 1) && e == failure_of(self.reads@, start, end, n - 1),
            None => {
                &&& forall|k: int| 0 <= k < n ==> !fails_at(self.reads@, start, end, k)
                &&& forall|i: int| 0 <= i < end - start ==> self.covs@[i] == reads_cov(self.reads@, start, end, n, i)
                &&& forall|i: int| 0 <= i < end - start ==> self.alts@[i] == reads_alt(self.reads@, start, end, n, i)
                &&& forall|i: int| 0 <= i < end - start ==> self.covs@[i] <= self.seen && self.alts@[i] <= self.seen * ALT_STEP
                &&& self.strong == strong_reads(self.reads@, start, end, n)
                &&& self.strong <= self.seen
                &&& self.seen == (if n < MAX_DEPTH { n } else { MAX_DEPTH as int })
            },
        }
    }

    /// A builder that has taken no read.
    pub fn new(region: &Region) -> (builder: ProfileBuilder)
        requires
            region.start <= region.end,
            region.end - region.start <= usize::MAX,
        ensures
            builder.wf(),
            builder.reads() == Seq::<Alignment>::empty(),
            builder.bounds() == (region.start as int, region.end as int),
            builder.failure() is None,
    {
        let prof_len: usize = (region.end as i128 - region.start as i128) as usize;
        ProfileBuilder {
            region: Region { chrom: region.chrom.clone(), start: region.start, end: region.end },
            covs: vec![0u32; prof_len],
            alts: vec![0u128; prof_len],
            seen: 0,
            strong: 0,
            failed: None,
            reads: Ghost(Seq::empty()),
        }
    }

    /// Takes the next read.
    ///
    /// A secondary or supplementary alignment or one mapped with a quality
    /// below `MIN_MAPQ` is passed over. A retained read adds its evidence to
    /// the counts. It fails the profile when it is malformed (`UnexpectedOp`)
    /// or, if not, when `MAX_DEPTH` reads or more were taken before it
    /// (`HighDepth`). Once a read has failed, no further read is taken and
    /// the same error is given again.
    pub fn push(&mut self, read: &Alignment) -> (out: Result<(), ProfileError>)
        requires
            old(self).wf(),
        ensures
            final(self).wf(),
            final(self).bounds() == old(self).bounds(),
            old(self).failure() matches Some(e) ==> out == Err::<(), ProfileError>(e) && final(self).reads() == old(self).reads()
                && final(self).failure() == old(self).failure(),
            old(self).failure() is None ==> {
                &&& final(self).reads() == old(self).reads().push(*read)
                &&& out is Err <==> fails_at(final(self).reads(), old(self).bounds().0, old(self).bounds().1, old(self).reads().len() as int)
                &&& out matches Err(e) ==> {
                    &&& is_first_failure(final(self).reads(), old(self).bounds().0, old(self).bounds().1, old(self).reads().len() as int)
                    &&& e == failure_of(final(self).reads(), old(self).bounds().0, old(self).bounds().1, old(self).reads().len() as int)
                    &&& final(self).failure() == Some(e)
                }
                &&& out is Ok ==> final(self).failure() is None
            },
    {
        match self.failed {
            Some(e) => {
                return Err(e);
            },
            None => {},
        }
        let ghost start = self.region.start as int;
        let ghost end = self.region.end as int;
        let ghost before = self.reads@;
        let ghost n = before.len() as int;
        let ghost after = before.push(*read);
        let ghost covs_before = self.covs@;
        let ghost alts_before = self.alts@;
        proof {
            assert(after[n] == *read);
            assert forall|j: int| 0 <= j < n implies !fails_at(after, start, end, j) by {
                assert(after[j] == before[j]);
                assert(!fails_at(before, start, end, j));
            }
            lemma_strong_reads_prefix(before, after, start, end, n);
            assert forall|i: int| 0 <= i < end - start implies reads_cov(after, start, end, n, i) == reads_cov(before, start, end, n, i)
                && reads_alt(after, start, end, n, i) == reads_alt(before, start, end, n, i) by {
                lemma_counts_prefix(before, after, start, end, n, i);
            }
            assert forall|i: int| 0 <= i < end - start implies
                reads_cov(after, start, end, n + 1, i) == covs_before[i] + (if read.is_retained() { read.cigar.coverage_at(start, end, i) } else { 0 })
                && reads_alt(after, start, end, n + 1, i) == alts_before[i] + (if read.is_retained() { read.cigar.alteration_at(start, end, i) } else { 0 }) by {
                assert(reads_cov(after, start, end, n, i) == reads_cov(before, start, end, n, i));
                assert(reads_alt(after, start, end, n, i) == reads_alt(before, start, end, n, i));
            }
            assert(strong_reads(after, start, end, n + 1) == strong_reads(before, start, end, n)
                + (if read.is_retained() && read.cigar.is_strong(start, end) { 1int } else { 0int }));
        }
        self.reads = Ghost(after);
        if read.retained() {
            let n_ops: usize = read.cigar.ops.len();
            proof {
                lemma_walk_end_first(read.cigar.ops@, read.cigar.ref_pos as int, start, end, 0);
                assert(read.cigar.walked(start, end) * 0xFFFF_FFFF <= n_ops * 0xFFFF_FFFF <= ALT_STEP);
                assert forall|i: int| 0 <= i < end - start implies
                    self.covs@[i] + #[trigger] read.cigar.coverage_at(start, end, i) <= u32::MAX by {
                    lemma_gain_bounds(read.cigar.ops@, read.cigar.ref_pos as int, start, end, read.cigar.walked(start, end), i);
                }
                assert forall|i: int| 0 <= i < end - start implies
                    self.alts@[i] + #[trigger] read.cigar.alteration_at(start, end, i) <= u128::MAX by {
                    lemma_gain_bounds(read.cigar.ops@, read.cigar.ref_pos as int, start, end, read.cigar.walked(start, end), i);
                }
            }
            match update_profs(&read.cigar, &mut self.covs, &mut self.alts, &self.region) {
                Err(e) => {
                    self.failed = Some(e);
                    assert(fails_at(after, start, end, n));
                    assert(is_first_failure(after, start, end, n));
                    return Err(e);
                },
                Ok(any_alt) => {
                    if any_alt {
                        self.strong = self.strong + 1;
                    }
                },
            }
            if self.seen >= MAX_DEPTH {
                self.failed = Some(ProfileError::HighDepth);
                assert(fails_at(after, start, end, n));
                assert(is_first_failure(after, start, end, n));
                return Err(ProfileError::HighDepth);
            }
            proof {
                assert forall|i: int| 0 <= i < end - start implies self.covs@[i] <= self.seen + 1 && self.alts@[i] <= (self.seen + 1) * ALT_STEP by {
                    lemma_gain_bounds(read.cigar.ops@, read.cigar.ref_pos as int, start, end, read.cigar.walked(start, end), i);
                    assert(self.covs@[i] == covs_before[i] + read.cigar.coverage_at(start, end, i));
                    assert(self.alts@[i] == alts_before[i] + read.cigar.alteration_at(start, end, i));
                }
            }
        }
        if self.seen < MAX_DEPTH {
            self.seen = self.seen + 1;
        }
        assert(!fails_at(after, start, end, n));
        Ok(())
    }

    /// Ends the profile: the counts of the reads taken, with the flag that tells
    /// whether at least `MIN_STRONG_READS` of the retained ones carry strong
    /// alteration evidence, or the error of the read that failed.
    pub fn finish(self) -> (out: Result<(Prof, bool), ProfileError>)
        requires
            self.wf(),
        ensures
            is_outcome_of(out, self.reads(), self.bounds().0, self.bounds().1),
            out is Err <==> self.failure() is Some,
            out matches Ok((prof, _)) ==> prof.covs@.len() == self.bounds().1 - self.bounds().0 && prof.alts@.len() == prof.covs@.len(),
    {
        match self.failed {
            Some(e) => Err(e),
            None => Ok((Prof { alts: self.alts, covs: self.covs }, self.strong >= MIN_STRONG_READS)),
        }
    }
}

/// Builds the profile of one sample from the reads that overlap `region`, in the
/// order in which they were fetched.
///
/// Secondary and supplementary alignments and reads mapped with a quality below
/// `MIN_MAPQ` are left out. The result is the profile together with the flag
/// that tells whether at least `MIN_STRONG_READS` of the retained reads carry
/// strong alteration evidence.
///
/// It fails at the first retained read that is malformed (`UnexpectedOp`) or
/// that stands at position `MAX_DEPTH` or later among the reads (`HighDepth`).
pub fn get_profile(reads: &Vec<Alignment>, region: &Region) -> (out: Result<(Prof, bool), ProfileError>)
    requires
        region.start <= region.end,
        region.end - region.start <= usize::MAX,
    ensures
        is_outcome_of(out, reads@, region.start as int, region.end as int),
        out matches Ok((prof, _)) ==> prof.covs@.len() == region.span() && prof.alts@.len() == region.span(),
{
    let ghost start = region.start as int;
    let ghost end = region.end as int;
    let mut builder = ProfileBuilder::new(region);
    let n: usize = reads.len();
    let mut index: usize = 0;
    while index < n
        invariant
            index <= n,
            n == reads@.len(),
            start == region.start,
            end == region.end,
            builder.wf(),
            builder.failure() is None,
            builder.bounds() == (start, end),
            builder.reads() == reads@.take(index as int),
        decreases n - index,
    {
        assert(reads@.take(index as int).push(reads@[index as int]) =~= reads@.take(index + 1));
        match builder.push(&reads[index]) {
            Err(e) => {
                assert forall|j: int| 0 <= j <= index implies fails_at(reads@, start, end, j) == fails_at(reads@.take(index + 1), start, end, j) by {
                    assert(reads@.take(index + 1)[j] == reads@[j]);
                }
                assert(is_first_failure(reads@, start, end, index as int));
                assert(e == failure_of(reads@, start, end, index as int));
                return Err(e);
            },
            Ok(()) => {},
        }
        index += 1;
    }
    assert(reads@.take(n as int) =~= reads@);
    builder.finish()
}

/// The counts of the first `n` reads are those of any sequence that begins with the same `n` reads.
proof fn lemma_counts_prefix(a: Seq<Alignment>, b: Seq<Alignment>, start: int, end: int, n: int, i: int)
    requires
        n <= a.len(),
        n <= b.len(),
        forall|k: int| 0 <= k < n ==> a[k] == b[k],
    ensures
        reads_cov(a, start, end, n, i) == reads_cov(b, start, end, n, i),
        reads_alt(a, start, end, n, i) == reads_alt(b, start, end, n, i),
    decreases n,
{
    if n > 0 {
        lemma_counts_prefix(a, b, start, end, n - 1, i);
    }
}

/// The strong reads among the first `n` are those of any sequence that begins with the same `n` reads.
proof fn lemma_strong_reads_prefix(a: Seq<Alignment>, b: Seq<Alignment>, start: int, end: int, n: int)
    requires
        n <= a.len(),
        n <= b.len(),
        forall|k: int| 0 <= k < n ==> a[k] == b[k],
    ensures
        strong_reads(a, start, end, n) == strong_reads(b, start, end, n),
    decreases n,
{
    if n > 0 {
        lemma_strong_reads_prefix(a, b, start, end, n - 1);
    }
}

/// Every profile holds one coverage and one alteration count for each position of its region.
pub proof fn lemma_profile_lengths(reads: Seq<Alignment>, start: int, end: int, prof: Prof)
    requires
        prof.is_profile_of(reads, start, end),
    ensures
        prof.alts@.len() == prof.covs@.len(),
        prof.covs@.len() == end - start,
{
}

/// Two profiles of the same reads over the same region hold the same counts.
pub proof fn lemma_profile_deterministic(reads: Seq<Alignment>, start: int, end: int, first: Prof, second: Prof)
    requires
        first.is_profile_of(reads, start, end),
        second.is_profile_of(reads, start, end),
    ensures
        first.covs@ == second.covs@,
        first.alts@ == second.alts@,
{
    assert(first.covs@ =~= second.covs@);
    assert(first.alts@ =~= second.alts@);
}

/// A profile fails at one read only, and so with one error.
pub proof fn lemma_failure_deterministic(reads: Seq<Alignment>, start: int, end: int, j: int, k: int)
    requires
        is_first_failure(reads, start, end, j),
        is_first_failure(reads, start, end, k),
    ensures
        j == k,
{
}

} // verus!
