//! Alignment operations of one read and the walk of a read over a region.

use vstd::prelude::*;

verus! {

/// One alignment operation with its length.
#[derive(Debug, Clone, Copy, PartialEq, Eq)]
pub enum CigarOp {
    Match(u32),
    Ins(u32),
    Del(u32),
    RefSkip(u32),
    SoftClip(u32),
    HardClip(u32),
    Pad(u32),
    Equal(u32),
    Diff(u32),
}

/// The alignment of one read: where it starts on the reference, and its operations in order.
#[derive(Debug, Clone, PartialEq)]
pub struct Cigar {
    pub ref_pos: i64,
    pub ops: Vec<CigarOp>,
}

/// Operations that overlap at least this many region positions are strong evidence.
pub const STRONG_OVERLAP: usize = 5;

impl CigarOp {
    /// Number of reference positions that the operation consumes.
    pub open spec fn ref_len(self) -> int {
        match self {
            CigarOp::Match(n) | CigarOp::RefSkip(n) | CigarOp::Del(n) | CigarOp::Equal(n) | CigarOp::Diff(n) => n as int,
            CigarOp::Ins(_) | CigarOp::SoftClip(_) | CigarOp::HardClip(_) | CigarOp::Pad(_) => 0,
        }
    }

    /// Operations that no read handed to the profile builder may carry inside the region.
    pub open spec fn is_unexpected(self) -> bool {
        self is HardClip || self is Pad || self is RefSkip
    }

    /// Operations that add to the coverage of the positions they overlap.
    pub open spec fn is_covering(self) -> bool {
        self is Match || self is Equal || self is Diff || self is Del
    }

    /// Operations that add to the alteration count of every position they overlap.
    pub open spec fn is_altering(self) -> bool {
        self is Diff || self is Del
    }
}

/// Number of reference positions that `op` consumes.
pub fn get_ref_len(op: &CigarOp) -> (len: i64)
    ensures
        len == op.ref_len(),
        0 <= len <= u32::MAX,
{
    match op {
        CigarOp::Match(len) | CigarOp::RefSkip(len) | CigarOp::Del(len) | CigarOp::Equal(len) | CigarOp::Diff(len) => *len as i64,
        CigarOp::Ins(_) | CigarOp::SoftClip(_) | CigarOp::HardClip(_) | CigarOp::Pad(_) => 0,
    }
}

/// Reference coordinate at which operation `k` begins: the read's start plus
/// the reference lengths of the operations before it.
pub open spec fn cursor(ops: Seq<CigarOp>, ref_pos: int, k: int) -> int
    decreases k,
{
    if k <= 0 {
        ref_pos
    } else {
        cursor(ops, ref_pos, k - 1) + ops[k - 1].ref_len()
    }
}

/// The operation, beginning at `pos`, lies wholly before the region: it ends at
/// or before the first position of the region or, where it consumes no
/// reference, is anchored before that position. The first position itself is
/// inside the region.
pub open spec fn lies_before(op: CigarOp, pos: int, start: int) -> bool {
    if op.ref_len() == 0 {
        pos < start
    } else {
        pos + op.ref_len() <= start
    }
}

/// First reference position of the part of the operation inside the region.
pub open spec fn clip_lo(pos: int, start: int) -> int {
    if pos >= start { pos } else { start }
}

/// End (exclusive) of the part of the operation inside the region.
pub open spec fn clip_hi(op: CigarOp, pos: int, end: int) -> int {
    if pos + op.ref_len() <= end { pos + op.ref_len() } else { end }
}

/// Number of region positions that the operation overlaps.
pub open spec fn overlap(op: CigarOp, pos: int, start: int, end: int) -> int {
    clip_hi(op, pos, end) - clip_lo(pos, start)
}

/// The walk over a read ends at an operation that is not before the region and
/// either begins at or after the region's end, or is of an unexpected kind.
pub open spec fn halts(op: CigarOp, pos: int, start: int, end: int) -> bool {
    !lies_before(op, pos, start) && (pos >= end || op.is_unexpected())
}

/// Index of the first operation at or after `from` at which the walk ends, or the
/// number of operations when it ends at none.
pub open spec fn walk_end(ops: Seq<CigarOp>, ref_pos: int, start: int, end: int, from: int) -> int
    decreases ops.len() - from,
{
    if from >= ops.len() {
        ops.len() as int
    } else if halts(ops[from], cursor(ops, ref_pos, from), start, end) {
        from
    } else {
        walk_end(ops, ref_pos, start, end, from + 1)
    }
}

/// What an operation beginning at `pos` adds to the coverage of region position `i`.
pub open spec fn op_cov(op: CigarOp, pos: int, start: int, end: int, i: int) -> int {
    if !lies_before(op, pos, start) && op.is_covering() && clip_lo(pos, start) <= start + i < clip_hi(op, pos, end) {
        1
    } else {
        0
    }
}

/// What an operation beginning at `pos` adds to the alteration count of region position `i`:
/// one for each overlapped position of a mismatch or deletion, the whole length of an
/// insertion at its anchor, one for a soft clip at its anchor.
pub open spec fn op_alt(op: CigarOp, pos: int, start: int, end: int, i: int) -> int {
    if lies_before(op, pos, start) {
        0
    } else {
        match op {
            CigarOp::Diff(_) | CigarOp::Del(_) => if clip_lo(pos, start) <= start + i < clip_hi(op, pos, end) { 1 } else { 0 },
            CigarOp::Ins(n) => if pos == start + i && pos < end { n as int } else { 0 },
            CigarOp::SoftClip(_) => if pos == start + i && pos < end { 1 } else { 0 },
            _ => 0,
        }
    }
}

/// A mismatch, deletion or insertion that overlaps at least `STRONG_OVERLAP` region positions.
/// An insertion consumes no reference and so overlaps none: only mismatches and
/// deletions ever are strong.
pub open spec fn op_strong(op: CigarOp, pos: int, start: int, end: int) -> bool {
    &&& !lies_before(op, pos, start)
    &&& (op.is_altering() || op is Ins)
    &&& overlap(op, pos, start, end) >= STRONG_OVERLAP
}

/// Coverage that the first `n` operations add to region position `i`.
pub open spec fn cov_gain(ops: Seq<CigarOp>, ref_pos: int, start: int, end: int, n: int, i: int) -> int
    decreases n,
{
    if n <= 0 {
        0
    } else {
        cov_gain(ops, ref_pos, start, end, n - 1, i) + op_cov(ops[n - 1], cursor(ops, ref_pos, n - 1), start, end, i)
    }
}

/// Alteration count that the first `n` operations add to region position `i`.
pub open spec fn alt_gain(ops: Seq<CigarOp>, ref_pos: int, start: int, end: int, n: int, i: int) -> int
    decreases n,
{
    if n <= 0 {
        0
    } else {
        alt_gain(ops, ref_pos, start, end, n - 1, i) + op_alt(ops[n - 1], cursor(ops, ref_pos, n - 1), start, end, i)
    }
}

/// One of the first `n` operations is strong evidence.
pub open spec fn strong_within(ops: Seq<CigarOp>, ref_pos: int, start: int, end: int, n: int) -> bool
    decreases n,
{
    if n <= 0 {
        false
    } else {
        strong_within(ops, ref_pos, start, end, n - 1) || op_strong(ops[n - 1], cursor(ops, ref_pos, n - 1), start, end)
    }
}

impl Cigar {
    /// Number of operations that the walk over `[start, end)` passes before it ends.
    pub open spec fn walked(&self, start: int, end: int) -> int {
        walk_end(self.ops@, self.ref_pos as int, start, end, 0)
    }

    /// The walk ends at an unexpected operation inside the region.
    pub open spec fn is_malformed(&self, start: int, end: int) -> bool {
        let e = self.walked(start, end);
        e < self.ops@.len() && cursor(self.ops@, self.ref_pos as int, e) < end
    }

    /// Coverage that the read adds to region position `i`.
    pub open spec fn coverage_at(&self, start: int, end: int, i: int) -> int {
        cov_gain(self.ops@, self.ref_pos as int, start, end, self.walked(start, end), i)
    }

    /// Alteration count that the read adds to region position `i`.
    pub open spec fn alteration_at(&self, start: int, end: int, i: int) -> int {
        alt_gain(self.ops@, self.ref_pos as int, start, end, self.walked(start, end), i)
    }

    /// The read carries strong alteration evidence inside the region.
    pub open spec fn is_strong(&self, start: int, end: int) -> bool {
        strong_within(self.ops@, self.ref_pos as int, start, end, self.walked(start, end))
    }
}

/// The walk from `from` ends at `k` when no operation in between ends it and
/// `k` does, or the operations run out at `k`.
pub proof fn lemma_walk_end(ops: Seq<CigarOp>, ref_pos: int, start: int, end: int, from: int, k: int)
    requires
        0 <= from <= k <= ops.len(),
        forall|j: int| from <= j < k ==> !halts(ops[j], #[trigger] cursor(ops, ref_pos, j), start, end),
        k == ops.len() || halts(ops[k], cursor(ops, ref_pos, k), start, end),
    ensures
        walk_end(ops, ref_pos, start, end, from) == k,
    decreases k - from,
{
    if from < k {
        lemma_walk_end(ops, ref_pos, start, end, from + 1, k);
    }
}

/// No operation before the end of the walk ends it, and the walk ends within the read.
pub proof fn lemma_walk_end_first(ops: Seq<CigarOp>, ref_pos: int, start: int, end: int, from: int)
    requires
        0 <= from <= ops.len(),
    ensures
        from <= walk_end(ops, ref_pos, start, end, from) <= ops.len(),
        forall|j: int| from <= j < walk_end(ops, ref_pos, start, end, from) ==> !halts(ops[j], #[trigger] cursor(ops, ref_pos, j), start, end),
        walk_end(ops, ref_pos, start, end, from) < ops.len() ==> halts(
            ops[walk_end(ops, ref_pos, start, end, from)],
            cursor(ops, ref_pos, walk_end(ops, ref_pos, start, end, from)),
            start,
            end,
        ),
    decreases ops.len() - from,
{
    if from < ops.len() && !halts(ops[from], cursor(ops, ref_pos, from), start, end) {
        lemma_walk_end_first(ops, ref_pos, start, end, from + 1);
    }
}

/// Operations only ever add to the counts: more operations, no smaller gain.
pub proof fn lemma_gain_monotone(ops: Seq<CigarOp>, ref_pos: int, start: int, end: int, n: int, m: int, i: int)
    requires
        0 <= n <= m,
    ensures
        0 <= cov_gain(ops, ref_pos, start, end, n, i) <= cov_gain(ops, ref_pos, start, end, m, i),
        0 <= alt_gain(ops, ref_pos, start, end, n, i) <= alt_gain(ops, ref_pos, start, end, m, i),
    decreases m,
{
    if n < m {
        lemma_gain_monotone(ops, ref_pos, start, end, n, m - 1, i);
    } else if n > 0 {
        lemma_gain_monotone(ops, ref_pos, start, end, n - 1, m - 1, i);
    }
}

/// The cursor never moves backwards, and each operation moves it by less than 2^32.
pub proof fn lemma_cursor_bounds(ops: Seq<CigarOp>, ref_pos: int, n: int, m: int)
    requires
        0 <= n <= m,
    ensures
        cursor(ops, ref_pos, n) <= cursor(ops, ref_pos, m) <= cursor(ops, ref_pos, n) + (m - n) * 0xFFFF_FFFF,
    decreases m,
{
    if n < m {
        lemma_cursor_bounds(ops, ref_pos, n, m - 1);
    }
}

/// A read covers each position at most once, and adds less than 2^32 alterations
/// for each of its operations.
pub proof fn lemma_gain_bounds(ops: Seq<CigarOp>, ref_pos: int, start: int, end: int, n: int, i: int)
    requires
        0 <= n,
    ensures
        0 <= cov_gain(ops, ref_pos, start, end, n, i) <= 1,
        cov_gain(ops, ref_pos, start, end, n, i) == 1 ==> start + i < cursor(ops, ref_pos, n),
        0 <= alt_gain(ops, ref_pos, start, end, n, i) <= n * 0xFFFF_FFFF,
    decreases n,
{
    if n > 0 {
        lemma_gain_bounds(ops, ref_pos, start, end, n - 1, i);
        lemma_cursor_bounds(ops, ref_pos, n - 1, n);
    }
}

} // verus!
