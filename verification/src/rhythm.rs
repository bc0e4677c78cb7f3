//! Rhythm in an energy envelope: gaps between onsets, and the periods at which
//! the envelope's autocorrelation peaks, strongest first.

use vstd::prelude::*;

use crate::energy::{detect_peaks, is_peak, lemma_peak_frames, lemma_peak_frames_spacing, peak_frames};
use crate::order::{first_maximum, lemma_leader, leader, Level};

verus! {

/// Encoding of 0.1: an autocorrelation peak must exceed it to count as a
/// rhythm.
pub const RHYTHM_STRENGTH_FLOOR_BITS: u64 = 0x3FB9_9999_9999_999Au64;

/// Encoding of 1e-15: a rhythmic spectrum whose strongest bin does not reach
/// it has no dominant rhythm.
pub const SPECTRUM_FLOOR_BITS: u64 = 0x3CD2_03AF_9EE7_5616u64;

/// Differences between consecutive entries of `p`; empty when `p` has fewer
/// than two entries.
pub open spec fn gaps(p: Seq<usize>) -> Seq<int> {
    Seq::new(if p.len() < 2 { 0 } else { (p.len() - 1) as nat }, |j: int| p[j + 1] - p[j])
}

/// Gap `j` is the distance from entry `j` to entry `j + 1`, and there is one
/// gap fewer than entries (none for fewer than two).
pub proof fn lemma_gaps(p: Seq<usize>)
    ensures
        gaps(p).len() == (if p.len() < 2 { 0 } else { p.len() - 1 }),
        forall|j: int| 0 <= j < gaps(p).len() ==> #[trigger] gaps(p)[j] == p[j + 1] - p[j],
{
}

/// Sum of a sequence of integers.
pub open spec fn total(s: Seq<int>) -> int
    decreases s.len(),
{
    if s.len() == 0 {
        0
    } else {
        total(s.drop_last()) + s.last()
    }
}

/// The intervals between consecutive onsets add up to the span from the
/// first onset to the last.
pub proof fn lemma_gaps_total(p: Seq<usize>)
    requires
        p.len() >= 2,
    ensures
        total(gaps(p)) == p.last() - p[0],
    decreases p.len(),
{
    let g = gaps(p);
    assert(g.last() == p.last() - p[p.len() - 2]);
    if p.len() == 2 {
        assert(g.drop_last() =~= Seq::<int>::empty());
        assert(total(g.drop_last()) == 0);
    } else {
        lemma_gaps_total(p.drop_last());
        assert(g.drop_last() =~= gaps(p.drop_last()));
    }
    assert(total(g) == total(g.drop_last()) + g.last());
}

/// Number of frames between each onset (energy peak above `threshold`) and
/// the next.
pub fn inter_onset_intervals(levels: &Vec<Level>, threshold: Level) -> (intervals: Vec<usize>)
    ensures
        intervals.len() == gaps(peak_frames(levels@, threshold)).len(),
        forall|j: int|
            0 <= j < intervals.len() ==> #[trigger] intervals@[j] == gaps(
                peak_frames(levels@, threshold),
            )[j],
        forall|j: int| 0 <= j < intervals.len() ==> #[trigger] intervals@[j] >= 2,
        intervals.len() == (if peak_frames(levels@, threshold).len() < 2 {
            0
        } else {
            peak_frames(levels@, threshold).len() - 1
        }),
        forall|j: int|
            0 <= j < intervals.len() ==> #[trigger] intervals@[j] == peak_frames(levels@, threshold)[j
                + 1] - peak_frames(levels@, threshold)[j],
{
    let _n = levels.len();
    let peaks = detect_peaks(levels, threshold);
    let mut intervals: Vec<usize> = Vec::new();
    if peaks.len() < 2 {
        return intervals;
    }
    proof {
        lemma_peak_frames_spacing(levels@, threshold);
    }
    let ghost p = peaks@;
    let mut j: usize = 0;
    while j + 1 < peaks.len()
        invariant
            p == peaks@,
            p == peak_frames(levels@, threshold),
            peaks.len() >= 2,
            j + 1 <= peaks.len(),
            intervals.len() == j,
            forall|i: int| 0 <= i < j ==> #[trigger] intervals@[i] == p[i + 1] - p[i],
            forall|a: int, b: int| 0 <= a < b < p.len() ==> #[trigger] p[a] + 2 <= #[trigger] p[b],
        decreases peaks.len() - j,
    {
        assert(peaks@[j as int] + 2 <= peaks@[j + 1]);
        intervals.push(peaks[j + 1] - peaks[j]);
        j = j + 1;
    }
    intervals
}

/// Lag `a` comes before lag `b` in a strength-ordered list: its correlation
/// is strictly greater, or equal with the shorter lag first.
pub open spec fn stronger_first(acf: Seq<Level>, a: usize, b: usize) -> bool {
    acf[a as int].above(acf[b as int]) || (acf[a as int] == acf[b as int] && a < b)
}

/// Lag is a rhythmic period: an autocorrelation peak above 0.1 within
/// `min_period..max_period`.
pub open spec fn is_rhythm_period(acf: Seq<Level>, min_period: usize, max_period: usize, lag: int) -> bool {
    &&& is_peak(acf, Level::of_bits(RHYTHM_STRENGTH_FLOOR_BITS), lag)
    &&& min_period <= lag < max_period
}

/// Inserting a lag that comes after every listed lag, just before the first
/// listed lag it is strictly stronger than, keeps the list ordered by
/// strength.
proof fn lemma_insert_by_strength(acf: Seq<Level>, floor: Level, old: Seq<usize>, pos: int, p: usize)
    requires
        0 <= pos <= old.len(),
        p < acf.len(),
        acf[p as int].above(floor),
        forall|i: int| 0 <= i < old.len() ==> #[trigger] old[i] < p,
        forall|i: int| 0 <= i < old.len() ==> acf[#[trigger] old[i] as int].above(floor),
        forall|a: int, b: int| 0 <= a < b < old.len() ==> stronger_first(acf, #[trigger] old[a], #[trigger] old[b]),
        forall|i: int| 0 <= i < pos ==> !acf[p as int].above(acf[#[trigger] old[i] as int]),
        pos < old.len() ==> acf[p as int].above(acf[old[pos] as int]),
    ensures
        forall|a: int, b: int|
            0 <= a < b < old.insert(pos, p).len() ==> stronger_first(
                acf,
                #[trigger] old.insert(pos, p)[a],
                #[trigger] old.insert(pos, p)[b],
            ),
{
    old.insert_ensures(pos, p);
    let np = old.insert(pos, p);
    assert forall|a: int, b: int| 0 <= a < b < np.len() implies stronger_first(acf, #[trigger] np[a], #[trigger] np[b]) by {
        if b < pos {
            assert(np[a] == old[a] && np[b] == old[b]);
        } else if b == pos {
            assert(np[a] == old[a]);
            assert(!acf[p as int].above(acf[old[a] as int]));
            assert(acf[old[a] as int].above(floor));
            assert(old[a] < p);
        } else if a == pos {
            assert(np[b] == old[b - 1]);
            if b - 1 > pos {
                assert(stronger_first(acf, old[pos], old[b - 1]));
            }
        } else if a < pos {
            assert(np[a] == old[a] && np[b] == old[b - 1]);
        } else {
            assert(np[a] == old[a - 1] && np[b] == old[b - 1]);
        }
    }
}

/// A lag is a rhythmic period exactly when it lies in the period range, has
/// a neighbour on each side, its correlation lies strictly above both
/// neighbours and above 0.1; no other lag's correlation matters.
pub proof fn lemma_rhythm_period(acf: Seq<Level>, min_period: usize, max_period: usize, lag: int)
    ensures
        is_rhythm_period(acf, min_period, max_period, lag) <==> (min_period <= lag < max_period && 1
            <= lag && lag + 1 < acf.len() && acf[lag].above(acf[lag - 1]) && acf[lag].above(
            acf[lag + 1],
        ) && acf[lag].above(Level::of_bits(0x3FB9_9999_9999_999Au64))),
{
}

/// Lags listed strongest first are ordered by strictly decreasing
/// correlation, equal correlations by increasing lag.
pub proof fn lemma_stronger_first(acf: Seq<Level>, a: usize, b: usize)
    ensures
        stronger_first(acf, a, b) <==> (acf[a as int].above(acf[b as int]) || (acf[a as int]
            == acf[b as int] && a < b)),
{
}

/// Rhythmic periods found in an autocorrelation sequence, strongest first.
///
/// A lag is reported when it lies in `min_period..max_period`, its
/// correlation is a strict local maximum and exceeds 0.1. The lags come in
/// decreasing order of correlation; lags of equal correlation keep increasing
/// order.
pub fn detect_rhythm(acf: &Vec<Level>, min_period: usize, max_period: usize) -> (periods: Vec<usize>)
    ensures
        forall|j: int|
            0 <= j < periods.len() ==> is_rhythm_period(acf@, min_period, max_period, #[trigger] periods@[j] as int),
        forall|lag: int| #[trigger] is_rhythm_period(acf@, min_period, max_period, lag) ==> periods@.contains(lag as usize),
        forall|j: int, k: int|
            0 <= j < k < periods.len() ==> stronger_first(acf@, #[trigger] periods@[j], #[trigger] periods@[k]),
        forall|j: int|
            0 <= j < periods.len() ==> {
                let lag = #[trigger] periods@[j] as int;
                &&& min_period <= lag < max_period
                &&& 1 <= lag && lag + 1 < acf.len()
                &&& acf@[lag].above(acf@[lag - 1])
                &&& acf@[lag].above(acf@[lag + 1])
                &&& acf@[lag].above(Level::of_bits(0x3FB9_9999_9999_999Au64))
            },
        forall|lag: int|
            min_period <= lag < max_period && 1 <= lag && lag + 1 < acf.len() && #[trigger] acf@[lag].above(
                acf@[lag - 1],
            ) && acf@[lag].above(acf@[lag + 1]) && acf@[lag].above(
                Level::of_bits(0x3FB9_9999_9999_999Au64),
            ) ==> periods@.contains(lag as usize),
        forall|j: int, k: int|
            0 <= j < k < periods.len() ==> acf@[#[trigger] periods@[j] as int].above(
                acf@[#[trigger] periods@[k] as int],
            ) || (acf@[periods@[j] as int] == acf@[periods@[k] as int] && periods@[j] < periods@[k]),
{
    let floor = Level::from_bits(RHYTHM_STRENGTH_FLOOR_BITS);
    let _n = acf.len();
    let peaks = detect_peaks(acf, floor);
    proof {
        lemma_peak_frames(acf@, floor);
    }
    let mut periods: Vec<usize> = Vec::new();
    let mut j: usize = 0;
    while j < peaks.len()
        invariant
            floor == Level::of_bits(RHYTHM_STRENGTH_FLOOR_BITS),
            peaks@ == peak_frames(acf@, floor),
            j <= peaks.len(),
            forall|m: int| 0 <= m < peaks.len() ==> is_peak(acf@, floor, #[trigger] peaks@[m] as int),
            forall|m: int, k: int| 0 <= m < k < peaks.len() ==> #[trigger] peaks@[m] < #[trigger] peaks@[k],
            forall|i: int| #[trigger] is_peak(acf@, floor, i) ==> peaks@.contains(i as usize),
            forall|i: int|
                0 <= i < periods.len() ==> is_rhythm_period(acf@, min_period, max_period, #[trigger] periods@[i] as int)
                    && peaks@.subrange(0, j as int).contains(periods@[i]),
            forall|m: int|
                0 <= m < j && min_period <= #[trigger] peaks@[m] < max_period ==> periods@.contains(peaks@[m]),
            forall|a: int, b: int|
                0 <= a < b < periods.len() ==> stronger_first(acf@, #[trigger] periods@[a], #[trigger] periods@[b]),
        decreases peaks.len() - j,
    {
        let p = peaks[j];
        if min_period <= p && p < max_period {
            assert(is_peak(acf@, floor, p as int));
            let mut pos: usize = 0;
            while pos < periods.len() && !acf[p].exceeds(&acf[periods[pos]])
                invariant
                    p < acf.len(),
                    pos <= periods.len(),
                    forall|i: int| 0 <= i < pos ==> !acf@[p as int].above(acf@[#[trigger] periods@[i] as int]),
                    forall|i: int| 0 <= i < periods.len() ==> #[trigger] periods@[i] < acf.len(),
                decreases periods.len() - pos,
            {
                pos = pos + 1;
            }
            let ghost old_periods = periods@;
            proof {
                assert forall|i: int| 0 <= i < old_periods.len() implies old_periods[i] < p by {
                    let m = choose|m: int| 0 <= m < j && peaks@[m] == old_periods[i];
                    assert(peaks@[m] < peaks@[j as int]);
                }
            }
            periods.insert(pos, p);
            proof {
                old_periods.insert_ensures(pos as int, p);
                let np = periods@;
                assert(is_peak(acf@, floor, p as int));
                assert forall|i: int|
                    0 <= i < np.len() implies is_rhythm_period(acf@, min_period, max_period, #[trigger] np[i] as int)
                    && peaks@.subrange(0, j + 1).contains(np[i]) by {
                    if i < pos {
                        assert(np[i] == old_periods[i]);
                        let m = choose|m: int| 0 <= m < j && peaks@[m] == old_periods[i];
                        assert(peaks@.subrange(0, j + 1)[m] == np[i]);
                    } else if i == pos {
                        assert(peaks@.subrange(0, j + 1)[j as int] == np[i]);
                    } else {
                        assert(np[i] == old_periods[i - 1]);
                        let m = choose|m: int| 0 <= m < j && peaks@[m] == old_periods[i - 1];
                        assert(peaks@.subrange(0, j + 1)[m] == np[i]);
                    }
                }
                assert forall|m: int|
                    0 <= m < j + 1 && min_period <= #[trigger] peaks@[m] < max_period implies np.contains(peaks@[m]) by {
                    if m < j {
                        let i = choose|i: int| 0 <= i < old_periods.len() && old_periods[i] == peaks@[m];
                        if i < pos {
                            assert(np[i] == peaks@[m]);
                        } else {
                            assert(np[i + 1] == peaks@[m]);
                        }
                    } else {
                        assert(np[pos as int] == peaks@[m]);
                    }
                }
                lemma_insert_by_strength(acf@, floor, old_periods, pos as int, p);
            }
        } else {
            proof {
                assert forall|i: int| 0 <= i < periods.len() implies #[trigger] peaks@.subrange(0, j + 1).contains(periods@[i]) by {
                    let m = choose|m: int| 0 <= m < j && peaks@[m] == periods@[i];
                    assert(peaks@.subrange(0, j + 1)[m] == periods@[i]);
                }
            }
        }
        j = j + 1;
    }
    proof {
        assert forall|lag: int| #[trigger] is_rhythm_period(acf@, min_period, max_period, lag) implies periods@.contains(lag as usize) by {
            assert(peaks@.contains(lag as usize));
        }
        assert forall|lag: int|
            min_period <= lag < max_period && 1 <= lag && lag + 1 < acf.len() && #[trigger] acf@[lag].above(
                acf@[lag - 1],
            ) && acf@[lag].above(acf@[lag + 1]) && acf@[lag].above(
                Level::of_bits(0x3FB9_9999_9999_999Au64),
            ) implies periods@.contains(lag as usize) by {
            assert(is_rhythm_period(acf@, min_period, max_period, lag));
        }
    }
    periods
}

/// The bin of the rhythmic spectrum that holds its dominant rhythm, if any.
///
/// The DC bin 0 is skipped; among bins `1..`, the first greatest one is
/// chosen (an unordered bin is never chosen over another). A spectrum of
/// fewer than three bins, or one whose chosen bin lies below 1e-15, has no
/// dominant rhythm.
pub fn dominant_rhythm_bin(spectrum: &Vec<Level>) -> (bin: Option<usize>)
    ensures
        spectrum.len() < 3 ==> bin is None,
        spectrum.len() >= 3 ==> bin == ({
            let (k, best) = leader(spectrum@, 1, spectrum@[1], spectrum.len() as int);
            if Level::of_bits(SPECTRUM_FLOOR_BITS).above(best) {
                None
            } else {
                Some(k as usize)
            }
        }),
        bin matches Some(k) ==> 1 <= k < spectrum.len(),
        bin matches Some(k) ==> forall|i: int| 1 <= i < spectrum.len() ==> !#[trigger] spectrum@[i].above(spectrum@[k as int]),
        bin matches Some(k) ==> (k == 1 || spectrum@[k as int].above(spectrum@[1])),
        bin matches Some(k) ==> forall|i: int|
            1 <= i < k ==> (#[trigger] spectrum@[i] is Unordered || spectrum@[k as int].above(
                spectrum@[i],
            )),
        bin matches Some(k) ==> !Level::of_bits(0x3CD2_03AF_9EE7_5616u64).above(spectrum@[k as int]),
        (spectrum.len() >= 3 && bin is None) ==> (spectrum@[1] is Ordered && forall|i: int|
            1 <= i < spectrum.len() ==> (#[trigger] spectrum@[i] is Unordered || Level::of_bits(
                0x3CD2_03AF_9EE7_5616u64,
            ).above(spectrum@[i]))),
{
    if spectrum.len() < 3 {
        return None;
    }
    let (k, best) = first_maximum(spectrum, 1, spectrum[1]);
    proof {
        lemma_leader(spectrum@, 1, spectrum@[1], spectrum.len() as int);
    }
    let tiny = Level::from_bits(SPECTRUM_FLOOR_BITS);
    if tiny.exceeds(&best) {
        proof {
            assert forall|i: int|
                1 <= i < spectrum.len() implies (#[trigger] spectrum@[i] is Unordered || tiny.above(spectrum@[i])) by {
                assert(!spectrum@[i].above(best));
            }
        }
        None
    } else {
        Some(k)
    }
}

} // verus!
