//! Outward search for the flanks at which the signal looks like reference again.

use vstd::prelude::*;
use vstd::slice::slice_subrange;
use crate::binary64::{at_most, le};
use crate::consensus::{discretize, is_signal, level, signal, Tally, LEVELS};
use crate::locus::Locus;

verus! {

/// The pattern of one half: a window is reference-like when the posterior of
/// the reference model is at least this.
pub const POSTERIOR_FLOOR: u64 = 0x3FE0_0000_0000_0000;

/// The posterior `p` is at least one half.
pub open spec fn accepts(p: u64) -> bool {
    le(POSTERIOR_FLOOR, p)
}

/// The posterior that `assess` may give for the window `w` is at least one half.
pub open spec fn ref_like<C: Fn(&[u8]) -> u64>(assess: &C, w: Seq<u8>) -> bool {
    exists|s: &[u8], p: u64| s@ == w && #[trigger] assess.ensures((s,), p) && accepts(p)
}

/// Whatever posteriors `assess` may give for one window, they agree on which
/// side of one half they lie.
pub open spec fn decisive<C: Fn(&[u8]) -> u64>(assess: &C) -> bool {
    forall|s: &[u8], t: &[u8], p: u64, q: u64|
        s@ == t@ && #[trigger] assess.ensures((s,), p) && #[trigger] assess.ensures((t,), q) ==> accepts(p) == accepts(q)
}

/// The window holds `len` codes, each of which occurs in `alts`.
pub open spec fn drawn_from(w: Seq<u8>, alts: Seq<u8>, len: int) -> bool {
    w.len() == len && forall|i: int| 0 <= i < w.len() ==> alts.contains(#[trigger] w[i])
}

/// The `len` codes from position `p` on, the last of them first: the window
/// left of a boundary at `p + len`, read from the boundary outwards.
pub open spec fn left_window(alts: Seq<u8>, p: int, len: int) -> Seq<u8> {
    alts.subrange(p, p + len).reverse()
}

/// The `len` codes from position `p` on: the window right of a boundary at `p`,
/// read from the boundary outwards.
pub open spec fn right_window(alts: Seq<u8>, p: int, len: int) -> Seq<u8> {
    alts.subrange(p, p + len)
}

/// Copies the window left of `p + len`, nearest code first.
pub fn reversed_window(alts: &[u8], p: usize, len: usize) -> (w: Vec<u8>)
    requires
        p + len <= alts@.len(),
    ensures
        w@ == left_window(alts@, p as int, len as int),
{
    let mut w: Vec<u8> = Vec::new();
    let mut j: usize = len;
    while j > 0
        invariant
            j <= len,
            p + len <= alts.len(),
            w@.len() == len - j,
            forall|i: int| 0 <= i < w@.len() ==> w@[i] == alts@[p + len - 1 - i],
        decreases j,
    {
        j -= 1;
        w.push(alts[p + j]);
    }
    assert(w@ =~= left_window(alts@, p as int, len as int));
    w
}

/// Asks for the posterior of one window and tells whether it is at least one half.
fn judge<C: Fn(&[u8]) -> u64>(assess: &C, w: &[u8]) -> (ok: bool)
    requires
        decisive(assess),
        assess.requires((w,)),
    ensures
        ok == ref_like(assess, w@),
{
    let p: u64 = assess(w);
    at_most(POSTERIOR_FLOOR, p)
}

/// The position at which the left scan from `p` stops: the largest position
/// in `1 ..= p` whose left window is reference-like, or zero when there is none.
pub open spec fn left_scan<C: Fn(&[u8]) -> u64>(assess: &C, alts: Seq<u8>, len: int, p: int) -> int
    decreases p,
{
    if p <= 0 {
        0
    } else if ref_like(assess, left_window(alts, p, len)) {
        p
    } else {
        left_scan(assess, alts, len, p - 1)
    }
}

/// The position at which the right scan from `p` stops: the smallest position
/// in `p ..= alts.len() - len` whose right window is reference-like, or a
/// position past `alts.len() - len` when there is none.
pub open spec fn right_scan<C: Fn(&[u8]) -> u64>(assess: &C, alts: Seq<u8>, len: int, p: int) -> int
    decreases alts.len() - len - p + 1,
{
    if p > alts.len() - len {
        p
    } else if ref_like(assess, right_window(alts, p, len)) {
        p
    } else {
        right_scan(assess, alts, len, p + 1)
    }
}

/// One pass with windows of `len` codes around `span`.
///
/// The left scan starts `len` positions left of the span and moves left, the
/// right scan starts at the right end of the span and moves right. Each stops
/// at the first reference-like window. The new span reaches from the right
/// end of the accepted left window to the start of the accepted right window.
/// There is none when a scan finds no such window before it runs off the signal.
pub open spec fn flanks<C: Fn(&[u8]) -> u64>(assess: &C, alts: Seq<u8>, span: (int, int), len: int) -> Option<(int, int)> {
    let left = left_scan(assess, alts, len, span.0 - len);
    let right = right_scan(assess, alts, len, span.1);
    if left <= 0 || right > alts.len() - len {
        None
    } else {
        Some((left + len, right))
    }
}

/// A span as integers.
pub open spec fn span_of(span: (i64, i64)) -> (int, int) {
    (span.0 as int, span.1 as int)
}

/// Widens `span` to the nearest flanking windows of `window_len` codes that
/// `assess` judges reference-like, or tells that there are none.
///
/// `assess` gives the posterior of the reference model for a window whose
/// first code is the one nearest to the span, as a binary64 pattern.
pub fn extend_to_ref_flanks<C: Fn(&[u8]) -> u64>(alts: &[u8], span: (i64, i64), window_len: i64, assess: &C) -> (out: Option<(i64, i64)>)
    requires
        0 <= span.0 <= span.1 <= alts@.len() <= i64::MAX,
        0 <= window_len,
        decisive(assess),
        forall|s: &[u8]| drawn_from(s@, alts@, window_len as int) ==> assess.requires((s,)),
    ensures
        out is Some <==> flanks(assess, alts@, span_of(span), window_len as int) is Some,
        out matches Some(wider) ==> {
            &&& flanks(assess, alts@, span_of(span), window_len as int) == Some(span_of(wider))
            &&& window_len < wider.0 <= span.0
            &&& span.1 <= wider.1 <= alts@.len() - window_len
        },
{
    let ghost len = window_len as int;
    let total: usize = alts.len();
    let mut lf_pos: i64 = span.0 - window_len;
    let mut found: bool = false;
    while lf_pos > 0 && !found
        invariant
            0 <= span.0 <= span.1 <= alts@.len() <= i64::MAX,
            len == window_len,
            0 <= len,
            total == alts@.len(),
            decisive(assess),
            forall|s: &[u8]| drawn_from(s@, alts@, window_len as int) ==> assess.requires((s,)),
            lf_pos <= span.0 - len,
            found ==> lf_pos > 0 && ref_like(assess, left_window(alts@, lf_pos as int, len)),
            left_scan(assess, alts@, len, span.0 - len) == left_scan(assess, alts@, len, lf_pos as int),
        decreases lf_pos + (if found { 0int } else { 1int }),
    {
        let window = reversed_window(alts, lf_pos as usize, window_len as usize);
        assert(drawn_from(window@, alts@, len)) by {
            assert forall|i: int| 0 <= i < window@.len() implies alts@.contains(#[trigger] window@[i]) by {
                assert(window@[i] == alts@[lf_pos + len - 1 - i]);
            }
        }
        if judge(assess, window.as_slice()) {
            found = true;
        } else {
            lf_pos -= 1;
        }
    }
    if !found {
        return None;
    }
    let limit: i128 = total as i128 - window_len as i128;
    let mut rf_pos: i128 = span.1 as i128;
    let mut found: bool = false;
    while rf_pos <= limit && !found
        invariant
            0 <= span.0 <= span.1 <= alts@.len() <= i64::MAX,
            len == window_len,
            0 <= len,
            total == alts@.len(),
            limit == alts@.len() - len,
            decisive(assess),
            forall|s: &[u8]| drawn_from(s@, alts@, window_len as int) ==> assess.requires((s,)),
            span.1 <= rf_pos <= alts@.len() + 1,
            found ==> rf_pos <= limit && ref_like(assess, right_window(alts@, rf_pos as int, len)),
            right_scan(assess, alts@, len, span.1 as int) == right_scan(assess, alts@, len, rf_pos as int),
        decreases limit - rf_pos + (if found { 0int } else { 1int }),
    {
        let window: &[u8] = slice_subrange(alts, rf_pos as usize, (rf_pos + window_len as i128) as usize);
        assert(drawn_from(window@, alts@, len)) by {
            assert forall|i: int| 0 <= i < window@.len() implies alts@.contains(#[trigger] window@[i]) by {
                assert(window@[i] == alts@[rf_pos + i]);
            }
        }
        if judge(assess, window) {
            found = true;
        } else {
            rf_pos += 1;
        }
    }
    if !found {
        return None;
    }
    Some((lf_pos + window_len, rf_pos as i64))
}

/// Window lengths of the four passes, coarsest first.
pub const COARSE_WINDOW: i64 = 150;

pub const MEDIUM_WINDOW: i64 = 50;

pub const FINE_WINDOW: i64 = 25;

pub const FINEST_WINDOW: i64 = 10;

/// Number of passes.
pub const PASSES: usize = 4;

/// Window length of pass `k`, counted from one.
pub open spec fn pass_window(k: int) -> int {
    if k <= 1 {
        COARSE_WINDOW as int
    } else if k == 2 {
        MEDIUM_WINDOW as int
    } else if k == 3 {
        FINE_WINDOW as int
    } else {
        FINEST_WINDOW as int
    }
}

/// A window length of one of the passes.
pub open spec fn is_pass_window(len: int) -> bool {
    exists|k: int| 1 <= k <= PASSES && len == #[trigger] pass_window(k)
}

/// The span after the first `k` passes, each on the span that the pass before
/// it gave. There is none as soon as one pass gives none.
pub open spec fn after_passes<C: Fn(&[u8]) -> u64>(assess: &C, alts: Seq<u8>, span: (int, int), k: int) -> Option<(int, int)>
    decreases k,
{
    if k <= 0 {
        Some(span)
    } else {
        match after_passes(assess, alts, span, k - 1) {
            Some(s) => flanks(assess, alts, s, pass_window(k)),
            None => None,
        }
    }
}

/// Where the locus lies in the signal of its padded region.
pub open spec fn core_span(locus: &Locus, radius: u32) -> (int, int) {
    (radius as int, radius + locus.span())
}

/// The boundary offsets of a locus: how far the affected span reaches beyond
/// the locus to the left and to the right, and how many samples support an
/// alteration.
///
/// There are none when the locus is too close to the chromosome start for its
/// padding, when the mean depth of the samples lies outside the band, or when
/// one of the passes finds no flank.
pub open spec fn boundary_offsets<C: Fn(&[u8]) -> u64>(
    assess: &C,
    locus: &Locus,
    radius: u32,
    tally: &Tally,
    alts: Seq<u64>,
) -> Option<(int, int, int)> {
    if locus.start < radius || !tally.depth_in_band() {
        None
    } else {
        match after_passes(assess, signal(alts), core_span(locus, radius), PASSES as int) {
            Some(span) => Some((radius - span.0, span.1 - (radius + locus.span()), tally.support as int)),
            None => None,
        }
    }
}

/// Offsets as integers.
pub open spec fn offsets_of(out: Option<(i64, i64, i64)>) -> Option<(int, int, int)> {
    match out {
        Some(found) => Some((found.0 as int, found.1 as int, found.2 as int)),
        None => None,
    }
}

/// Decides the boundary offsets of `locus` from the consensus of its samples.
///
/// `tally` holds the integer side of the consensus, `alts` the mean alteration
/// fraction of each position of the padded region as a binary64 pattern, and
/// `assess` gives the posterior of the reference model for a window.
pub fn get_extension_offsets<C: Fn(&[u8]) -> u64>(
    locus: &Locus,
    radius: u32,
    tally: &Tally,
    alts: &[u64],
    assess: &C,
) -> (out: Option<(i64, i64, i64)>)
    requires
        locus.start >= radius ==> locus.wf() && locus.end + radius <= i64::MAX && alts@.len() == locus.span() + 2 * radius,
        decisive(assess),
        forall|s: &[u8]| is_pass_window(s@.len() as int) && is_signal(s@) ==> assess.requires((s,)),
    ensures
        offsets_of(out) == boundary_offsets(assess, locus, radius, tally, alts@),
        locus.start < radius ==> out is None,
        !tally.depth_in_band() ==> out is None,
        out matches Some(found) ==> 0 <= found.0 < radius - FINEST_WINDOW && 0 <= found.1 && found.2 == tally.support,
{
    let radius: i64 = radius as i64;
    if locus.start < radius {
        return None;
    }
    if !tally.mean_depth_in_band() {
        return None;
    }
    let codes = discretize(alts);
    let codes: &[u8] = codes.as_slice();
    proof {
        assert forall|s: &[u8], k: int| 1 <= k <= PASSES && drawn_from(s@, codes@, pass_window(k)) implies assess.requires((s,)) by {
            assert forall|i: int| 0 <= i < s@.len() implies s@[i] < LEVELS by {
                assert(codes@.contains(s@[i]));
            }
        }
        assert(pass_window(1) == COARSE_WINDOW && pass_window(2) == MEDIUM_WINDOW && pass_window(3) == FINE_WINDOW && pass_window(4) == FINEST_WINDOW);
        reveal_with_fuel(after_passes, 5);
    }
    let core: (i64, i64) = (radius, radius + (locus.end - locus.start));
    let span = match extend_to_ref_flanks(codes, core, COARSE_WINDOW, assess) {
        Some(span) => span,
        None => { return None; },
    };
    let span = match extend_to_ref_flanks(codes, span, MEDIUM_WINDOW, assess) {
        Some(span) => span,
        None => { return None; },
    };
    let span = match extend_to_ref_flanks(codes, span, FINE_WINDOW, assess) {
        Some(span) => span,
        None => { return None; },
    };
    let span = match extend_to_ref_flanks(codes, span, FINEST_WINDOW, assess) {
        Some(span) => span,
        None => { return None; },
    };
    let lf_offset: i64 = radius - span.0;
    let rf_offset: i64 = span.1 - (radius + (locus.end - locus.start));
    Some((lf_offset, rf_offset, tally.support as i64))
}

/// The left scan stops at the largest reference-like position at or below its
/// start, and never at zero or below.
pub proof fn lemma_left_scan<C: Fn(&[u8]) -> u64>(assess: &C, alts: Seq<u8>, len: int, p: int)
    ensures
        0 <= left_scan(assess, alts, len, p),
        left_scan(assess, alts, len, p) > 0 ==> left_scan(assess, alts, len, p) <= p && ref_like(
            assess,
            left_window(alts, left_scan(assess, alts, len, p), len),
        ),
        forall|q: int| left_scan(assess, alts, len, p) < q <= p && 0 < q ==> !ref_like(assess, #[trigger] left_window(alts, q, len)),
    decreases p,
{
    if p > 0 && !ref_like(assess, left_window(alts, p, len)) {
        lemma_left_scan(assess, alts, len, p - 1);
    }
}

/// The right scan stops at the smallest reference-like position at or above
/// its start at which a window still fits, or past the last such position.
pub proof fn lemma_right_scan<C: Fn(&[u8]) -> u64>(assess: &C, alts: Seq<u8>, len: int, p: int)
    ensures
        p <= right_scan(assess, alts, len, p),
        right_scan(assess, alts, len, p) <= alts.len() - len ==> ref_like(
            assess,
            right_window(alts, right_scan(assess, alts, len, p), len),
        ),
        forall|q: int| p <= q < right_scan(assess, alts, len, p) && q <= alts.len() - len ==> !ref_like(assess, #[trigger] right_window(alts, q, len)),
    decreases alts.len() - len - p + 1,
{
    if p <= alts.len() - len && !ref_like(assess, right_window(alts, p, len)) {
        lemma_right_scan(assess, alts, len, p + 1);
    }
}

/// A pass never shrinks the span: its left end does not move right, its right
/// end does not move left.
pub proof fn lemma_flanks_never_shrink<C: Fn(&[u8]) -> u64>(assess: &C, alts: Seq<u8>, span: (int, int), len: int)
    ensures
        flanks(assess, alts, span, len) matches Some(wider) ==> wider.0 <= span.0 && span.1 <= wider.1,
{
    lemma_left_scan(assess, alts, len, span.0 - len);
    lemma_right_scan(assess, alts, len, span.1);
}

/// Over the passes the span only ever grows: after each pass it holds the
/// span that the pass began with, and so the span that the first pass began with.
pub proof fn lemma_passes_never_shrink<C: Fn(&[u8]) -> u64>(assess: &C, alts: Seq<u8>, span: (int, int), k: int)
    requires
        1 <= k,
    ensures
        after_passes(assess, alts, span, k) matches Some(after) ==> {
            &&& after_passes(assess, alts, span, k - 1) matches Some(before)
            &&& after.0 <= before.0 <= span.0
            &&& span.1 <= before.1 <= after.1
        },
    decreases k,
{
    if k > 1 {
        lemma_passes_never_shrink(assess, alts, span, k - 1);
    }
    match after_passes(assess, alts, span, k - 1) {
        Some(before) => {
            lemma_flanks_never_shrink(assess, alts, before, pass_window(k));
        },
        None => {},
    }
}

/// Where the first window on either side is reference-like, the pass leaves
/// the span as it is.
pub proof fn lemma_reference_flanks_keep_span<C: Fn(&[u8]) -> u64>(assess: &C, alts: Seq<u8>, span: (int, int), len: int)
    requires
        0 < span.0 - len,
        span.1 <= alts.len() - len,
        ref_like(assess, left_window(alts, span.0 - len, len)),
        ref_like(assess, right_window(alts, span.1, len)),
    ensures
        flanks(assess, alts, span, len) == Some(span),
{
}

/// The window of `len` codes that are all zero: plain reference.
pub open spec fn zeros(len: int) -> Seq<u8> {
    Seq::new(len as nat, |i: int| 0u8)
}

/// On a signal that is zero throughout, a pass whose windows fit on both sides
/// leaves the span as it is, if only the window of zeros is reference-like:
/// both scans accept the first window they try.
pub proof fn lemma_pure_reference_keeps_span<C: Fn(&[u8]) -> u64>(assess: &C, alts: Seq<u8>, span: (int, int), len: int)
    requires
        forall|i: int| 0 <= i < alts.len() ==> alts[i] == 0,
        0 <= len < span.0 <= span.1,
        span.1 + len <= alts.len(),
        ref_like(assess, zeros(len)),
    ensures
        flanks(assess, alts, span, len) == Some(span),
{
    assert(left_window(alts, span.0 - len, len) =~= zeros(len));
    assert(right_window(alts, span.1, len) =~= zeros(len));
    lemma_reference_flanks_keep_span(assess, alts, span, len);
}

/// A locus whose consensus shows no alteration anywhere in its padded region
/// has both offsets zero, if only the windows of zeros of the four passes are
/// reference-like and the padding leaves room for the coarsest of them.
pub proof fn lemma_pure_reference_has_no_offsets<C: Fn(&[u8]) -> u64>(
    assess: &C,
    locus: &Locus,
    radius: u32,
    tally: &Tally,
    alts: Seq<u64>,
)
    requires
        locus.wf(),
        locus.start >= radius,
        radius > COARSE_WINDOW,
        tally.depth_in_band(),
        alts.len() == locus.span() + 2 * radius,
        forall|i: int| 0 <= i < alts.len() ==> level(alts[i]) == 0,
        forall|k: int| 1 <= k <= PASSES ==> ref_like(assess, zeros(#[trigger] pass_window(k))),
    ensures
        boundary_offsets(assess, locus, radius, tally, alts) == Some((0int, 0int, tally.support as int)),
{
    let codes = signal(alts);
    let core = core_span(locus, radius);
    assert(after_passes(assess, codes, core, 0) == Some(core));
    assert forall|i: int| 0 <= i < codes.len() implies codes[i] == 0 by {
        assert(codes[i] == level(alts[i]));
    }
    assert(pass_window(1) == COARSE_WINDOW && pass_window(2) == MEDIUM_WINDOW && pass_window(3) == FINE_WINDOW && pass_window(4) == FINEST_WINDOW);
    lemma_pure_reference_keeps_span(assess, codes, core, pass_window(1));
    lemma_pure_reference_keeps_span(assess, codes, core, pass_window(2));
    lemma_pure_reference_keeps_span(assess, codes, core, pass_window(3));
    lemma_pure_reference_keeps_span(assess, codes, core, pass_window(4));
    assert(after_passes(assess, codes, core, 1) == Some(core));
    assert(after_passes(assess, codes, core, 2) == Some(core));
    assert(after_passes(assess, codes, core, 3) == Some(core));
    assert(after_passes(assess, codes, core, 4) == Some(core));
}

/// Where no window left of the span is reference-like, the left scan reaches
/// the start of the signal and the pass gives no span.
pub proof fn lemma_no_left_flank<C: Fn(&[u8]) -> u64>(assess: &C, alts: Seq<u8>, span: (int, int), len: int)
    requires
        forall|q: int| 0 < q <= span.0 - len ==> !ref_like(assess, #[trigger] left_window(alts, q, len)),
    ensures
        flanks(assess, alts, span, len) is None,
{
    lemma_left_scan(assess, alts, len, span.0 - len);
}

/// Where no window right of the span is reference-like, the right scan runs
/// off the end of the signal and the pass gives no span.
pub proof fn lemma_no_right_flank<C: Fn(&[u8]) -> u64>(assess: &C, alts: Seq<u8>, span: (int, int), len: int)
    requires
        forall|q: int| span.1 <= q <= alts.len() - len ==> !ref_like(assess, #[trigger] right_window(alts, q, len)),
    ensures
        flanks(assess, alts, span, len) is None,
{
    lemma_right_scan(assess, alts, len, span.1);
}

/// A pass that gives no span leaves none to the passes after it.
pub proof fn lemma_failed_pass_fails_all<C: Fn(&[u8]) -> u64>(assess: &C, alts: Seq<u8>, span: (int, int), j: int, k: int)
    requires
        j <= k,
        after_passes(assess, alts, span, j) is None,
    ensures
        after_passes(assess, alts, span, k) is None,
    decreases k - j,
{
    if j < k {
        lemma_failed_pass_fails_all(assess, alts, span, j, k - 1);
    }
}

/// The offsets are decided by the locus, the padding, the consensus and the
/// judgements of the classifier: two results for the same of these are the same.
pub proof fn lemma_offsets_deterministic<C: Fn(&[u8]) -> u64>(
    assess: &C,
    locus: &Locus,
    radius: u32,
    tally: &Tally,
    alts: Seq<u64>,
    first: Option<(i64, i64, i64)>,
    second: Option<(i64, i64, i64)>,
)
    requires
        offsets_of(first) == boundary_offsets(assess, locus, radius, tally, alts),
        offsets_of(second) == boundary_offsets(assess, locus, radius, tally, alts),
    ensures
        first == second,
{
}

/// Two classifiers that judge every window alike give the same flanks.
pub proof fn lemma_flanks_depend_on_judgements<C: Fn(&[u8]) -> u64, D: Fn(&[u8]) -> u64>(
    assess: &C,
    other: &D,
    alts: Seq<u8>,
    span: (int, int),
    len: int,
)
    requires
        forall|w: Seq<u8>| ref_like(assess, w) == ref_like(other, w),
    ensures
        flanks(assess, alts, span, len) == flanks(other, alts, span, len),
{
    lemma_scans_depend_on_judgements(assess, other, alts, len, span.0 - len, span.1);
}

proof fn lemma_scans_depend_on_judgements<C: Fn(&[u8]) -> u64, D: Fn(&[u8]) -> u64>(
    assess: &C,
    other: &D,
    alts: Seq<u8>,
    len: int,
    left: int,
    right: int,
)
    requires
        forall|w: Seq<u8>| ref_like(assess, w) == ref_like(other, w),
    ensures
        left_scan(assess, alts, len, left) == left_scan(other, alts, len, left),
        right_scan(assess, alts, len, right) == right_scan(other, alts, len, right),
    decreases (if left > 0 { left } else { 0 }) + (if right <= alts.len() - len { alts.len() - len - right + 1 } else { 0 }),
{
    if left > 0 {
        lemma_scans_depend_on_judgements(assess, other, alts, len, left - 1, right);
    } else if right <= alts.len() - len {
        lemma_scans_depend_on_judgements(assess, other, alts, len, left, right + 1);
    }
}

} // verus!
