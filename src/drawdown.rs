//! Drawdown episodes of a fixed-point growth path.
//!
//! A single left-to-right pass keeps the running peak, the lowest value since
//! that peak, and where the current fall started. When a value rises above the
//! peak, a fall that went deeper than the threshold is reported. A fall that is
//! still open at the end of the path is not reported.

use vstd::prelude::*;
use crate::growth::{
    BASIS_POINTS, GROWTH_UNIT, cum_returns, growth_path, fits_i64, lemma_growth_path_len,
    lemma_growth_path_rising, path_values,
};

verus! {

/// A period in which the path fell below a peak and later rose above it again.
/// Its magnitude is `trough / peak - 1`, a fraction at most zero.
#[derive(Clone, Copy, Debug, PartialEq, Eq, Structural)]
pub struct DrawdownEpisode {
    /// Position just after the peak that the fall is measured from.
    pub start: usize,
    /// Position of the first value above that peak.
    pub end: usize,
    /// The lowest value between the peak and `end`.
    pub trough: i64,
    /// The peak.
    pub peak: i64,
}

/// Why a drawdown query was refused.
#[derive(Clone, Copy, Debug, PartialEq, Eq, Structural)]
pub enum DrawdownError {
    /// The threshold is positive, or the growth path leaves the range of `i64`.
    InvalidInput,
}

/// `trough / peak - 1 < threshold_bp / BASIS_POINTS`, for a positive `peak`.
pub open spec fn deeper_than(trough: int, peak: int, threshold_bp: int) -> bool {
    (trough - peak) * BASIS_POINTS < threshold_bp * peak
}

/// What the scan knows after reading a prefix of the path.
pub struct ScanState {
    pub peak: i64,
    pub trough: i64,
    pub start: usize,
    pub episodes: Seq<DrawdownEpisode>,
}

/// The scan before it reads anything: peak and trough at the unit.
pub open spec fn scan_start() -> ScanState {
    ScanState { peak: GROWTH_UNIT, trough: GROWTH_UNIT, start: 0, episodes: Seq::empty() }
}

/// The scan after it reads value `v` at position `i`.
pub open spec fn scan_step(s: ScanState, i: int, v: i64, threshold_bp: int) -> ScanState {
    if v > s.peak {
        let closed = DrawdownEpisode { start: s.start, end: i as usize, trough: s.trough, peak: s.peak };
        let episodes = if s.trough < s.peak && deeper_than(s.trough as int, s.peak as int, threshold_bp) {
            s.episodes.push(closed)
        } else {
            s.episodes
        };
        ScanState { peak: v, trough: v, start: (i + 1) as usize, episodes }
    } else if v < s.trough {
        ScanState { trough: v, ..s }
    } else {
        s
    }
}

/// The scan after it reads the first `n` values of `path`.
pub open spec fn scan_prefix(path: Seq<i64>, threshold_bp: int, n: nat) -> ScanState
    decreases n,
{
    if n == 0 {
        scan_start()
    } else {
        scan_step(scan_prefix(path, threshold_bp, (n - 1) as nat), n - 1, path[n - 1], threshold_bp)
    }
}

/// The episodes of `path` deeper than `threshold_bp` basis points, in time order.
pub open spec fn drawdowns(path: Seq<i64>, threshold_bp: int) -> Seq<DrawdownEpisode> {
    scan_prefix(path, threshold_bp, path.len()).episodes
}

/// An episode is well formed within a path of `len` values: it ends after it
/// starts, inside the path, and its trough lies below a positive peak.
pub open spec fn episode_well_formed(e: DrawdownEpisode, len: int, threshold_bp: int) -> bool {
    &&& e.start <= e.end < len
    &&& 0 < e.peak
    &&& e.trough < e.peak
    &&& deeper_than(e.trough as int, e.peak as int, threshold_bp)
}

/// Episodes do not overlap and come in time order.
pub open spec fn episodes_ordered(eps: Seq<DrawdownEpisode>) -> bool {
    forall|k: int| 0 <= k < eps.len() - 1 ==> #[trigger] eps[k].end < eps[k + 1].start
}

/// What holds of the scan after any prefix of `n` values.
pub open spec fn scan_invariant(s: ScanState, n: int, threshold_bp: int) -> bool {
    &&& GROWTH_UNIT <= s.peak
    &&& s.trough <= s.peak
    &&& s.start <= n
    &&& forall|k: int| 0 <= k < s.episodes.len() ==> episode_well_formed(#[trigger] s.episodes[k], n, threshold_bp)
    &&& episodes_ordered(s.episodes)
    &&& s.episodes.len() > 0 ==> s.episodes.last().end < s.start
}

proof fn lemma_scan_invariant(path: Seq<i64>, threshold_bp: int, n: nat)
    requires
        n <= path.len(),
        path.len() <= usize::MAX,
    ensures
        scan_invariant(scan_prefix(path, threshold_bp, n), n as int, threshold_bp),
    decreases n,
{
    if n > 0 {
        lemma_scan_invariant(path, threshold_bp, (n - 1) as nat);
        let s = scan_prefix(path, threshold_bp, (n - 1) as nat);
        let t = scan_prefix(path, threshold_bp, n);
        let v = path[n - 1];
        if v > s.peak {
            assert forall|k: int| 0 <= k < t.episodes.len() implies episode_well_formed(
                #[trigger] t.episodes[k],
                n as int,
                threshold_bp,
            ) by {
                if k < s.episodes.len() {
                    assert(t.episodes[k] == s.episodes[k]);
                }
            }
            assert forall|k: int| 0 <= k < t.episodes.len() - 1 implies #[trigger] t.episodes[k].end
                < t.episodes[k + 1].start by {
                if k + 1 < s.episodes.len() {
                    assert(t.episodes[k] == s.episodes[k]);
                    assert(t.episodes[k + 1] == s.episodes[k + 1]);
                }
            }
        }
    }
}

/// Every reported episode lies inside the path, ends after it starts, has a
/// negative magnitude strictly deeper than the threshold, and the episodes
/// come in time order without overlapping.
pub proof fn lemma_drawdowns_well_formed(path: Seq<i64>, threshold_bp: int)
    requires
        path.len() <= usize::MAX,
    ensures
        forall|k: int| 0 <= k < drawdowns(path, threshold_bp).len() ==> episode_well_formed(
            #[trigger] drawdowns(path, threshold_bp)[k],
            path.len() as int,
            threshold_bp,
        ),
        episodes_ordered(drawdowns(path, threshold_bp)),
{
    lemma_scan_invariant(path, threshold_bp, path.len());
}

/// A path that starts at or above the unit and never falls has no drawdown
/// episodes, whatever the threshold.
pub proof fn lemma_rising_path_no_drawdowns(path: Seq<i64>, threshold_bp: int)
    requires
        path.len() > 0 ==> path[0] >= GROWTH_UNIT,
        forall|i: int, j: int| 0 <= i <= j < path.len() ==> path[i] <= path[j],
    ensures
        drawdowns(path, threshold_bp).len() == 0,
{
    lemma_rising_prefix(path, threshold_bp, path.len());
}

proof fn lemma_rising_prefix(path: Seq<i64>, threshold_bp: int, n: nat)
    requires
        n <= path.len(),
        path.len() > 0 ==> path[0] >= GROWTH_UNIT,
        forall|i: int, j: int| 0 <= i <= j < path.len() ==> path[i] <= path[j],
    ensures
        scan_prefix(path, threshold_bp, n).trough == scan_prefix(path, threshold_bp, n).peak,
        scan_prefix(path, threshold_bp, n).episodes.len() == 0,
        n == 0 ==> scan_prefix(path, threshold_bp, n).peak == GROWTH_UNIT,
        n > 0 ==> scan_prefix(path, threshold_bp, n).peak == path[n - 1],
    decreases n,
{
    if n > 0 {
        lemma_rising_prefix(path, threshold_bp, (n - 1) as nat);
        if n >= 2 {
            assert(path[n - 2] <= path[n - 1]);
        }
    }
}

/// `trough / peak - 1 < threshold_bp / BASIS_POINTS`, computed exactly.
fn is_deeper_than(trough: i64, peak: i64, threshold_bp: i64) -> (r: bool)
    ensures
        r == deeper_than(trough as int, peak as int, threshold_bp as int),
{
    let fall: i128 = trough as i128 - peak as i128;
    assert(-0x1_0000_0000_0000_0000 <= fall <= 0x1_0000_0000_0000_0000);
    assert(-0x10_0000_0000_0000_0000_0000 <= fall * 10_000 <= 0x10_0000_0000_0000_0000_0000) by (nonlinear_arith)
        requires
            -0x1_0000_0000_0000_0000 <= fall <= 0x1_0000_0000_0000_0000,
    ;
    let t: i128 = threshold_bp as i128;
    let p: i128 = peak as i128;
    assert(-0x4000_0000_0000_0000_0000_0000_0000_0000 <= t * p <= 0x4000_0000_0000_0000_0000_0000_0000_0000) by (nonlinear_arith)
        requires
            -0x8000_0000_0000_0000 <= t <= 0x7fff_ffff_ffff_ffff,
            -0x8000_0000_0000_0000 <= p <= 0x7fff_ffff_ffff_ffff,
    ;
    fall * (BASIS_POINTS as i128) < t * p
}

/// Scans a growth path (fixed point, `GROWTH_UNIT` is 1.0) and returns every
/// drawdown episode whose magnitude is strictly below `threshold_bp` basis
/// points, in time order. The running peak starts at the unit.
pub fn scan_drawdowns(path: &Vec<i64>, threshold_bp: i64) -> (episodes: Vec<DrawdownEpisode>)
    ensures
        episodes@ == drawdowns(path@, threshold_bp as int),
{
    let mut peak: i64 = GROWTH_UNIT;
    let mut trough: i64 = GROWTH_UNIT;
    let mut start: usize = 0;
    let mut res: Vec<DrawdownEpisode> = Vec::new();
    let mut i: usize = 0;
    while i < path.len()
        invariant
            0 <= i <= path.len(),
            scan_prefix(path@, threshold_bp as int, i as nat) == (ScanState {
                peak,
                trough,
                start,
                episodes: res@,
            }),
        decreases path.len() - i,
    {
        let v = path[i];
        if v > peak {
            // While a fall is open the peak stays put, so its worst point is
            // the trough itself.
            if trough < peak && is_deeper_than(trough, peak, threshold_bp) {
                res.push(DrawdownEpisode { start, end: i, trough, peak });
            }
            peak = v;
            trough = v;
            start = i + 1;
        } else if v < trough {
            trough = v;
        }
        i = i + 1;
    }
    res
}

/// The growth path of `rets` as `i64` values.
pub open spec fn growth_path_i64(rets: Seq<i64>) -> Seq<i64> {
    growth_path(rets).map_values(|x: int| x as i64)
}

/// Every drawdown of the growth path of `rets` (basis points) deeper than
/// `threshold_bp` (basis points, at most zero). Refused when the threshold is
/// positive or the growth path leaves `i64`.
pub fn max_dd_threshold_position(rets: &Vec<i64>, threshold_bp: i64) -> (out: Result<
    Vec<DrawdownEpisode>,
    DrawdownError,
>)
    ensures
        out is Err <==> (threshold_bp > 0 || !fits_i64(growth_path(rets@))),
        out matches Ok(eps) ==> eps@ == drawdowns(growth_path_i64(rets@), threshold_bp as int),
{
    if threshold_bp > 0 {
        return Err(DrawdownError::InvalidInput);
    }
    match cum_returns(rets) {
        Some(path) => {
            proof {
                assert(path@ =~= growth_path_i64(rets@)) by {
                    assert forall|k: int| 0 <= k < path@.len() implies path@[k] == growth_path_i64(
                        rets@,
                    )[k] by {
                        assert(path_values(path@)[k] == path@[k] as int);
                    }
                }
            }
            Ok(scan_drawdowns(&path, threshold_bp))
        },
        None => Err(DrawdownError::InvalidInput),
    }
}

/// Returns that are never negative give a path with no drawdown episode, at
/// any threshold.
pub proof fn lemma_nonnegative_returns_no_drawdowns(rets: Seq<i64>, threshold_bp: int)
    requires
        forall|k: int| 0 <= k < rets.len() ==> #[trigger] rets[k] >= 0,
        fits_i64(growth_path(rets)),
    ensures
        drawdowns(growth_path_i64(rets), threshold_bp).len() == 0,
{
    lemma_growth_path_rising(rets);
    lemma_growth_path_len(rets);
    let path = growth_path_i64(rets);
    assert forall|i: int, j: int| 0 <= i <= j < path.len() implies path[i] <= path[j] by {
        assert(growth_path(rets)[i] <= growth_path(rets)[j]);
    }
    lemma_rising_path_no_drawdowns(path, threshold_bp);
}

} // verus!
