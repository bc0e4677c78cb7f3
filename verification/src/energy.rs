//! Peaks of an energy envelope.

use vstd::prelude::*;

use crate::order::Level;
use crate::selection::{lemma_picked, picked};

verus! {

/// Frame `i` is a peak: a strict local maximum, with a neighbour on each
/// side, that lies strictly above `threshold`.
pub open spec fn is_peak(levels: Seq<Level>, threshold: Level, i: int) -> bool {
    &&& 1 <= i < levels.len() - 1
    &&& levels[i].above(levels[i - 1])
    &&& levels[i].above(levels[i + 1])
    &&& levels[i].above(threshold)
}

/// A frame is a peak exactly when it has a neighbour on each side and its
/// level lies strictly above both of them and above the threshold; nothing
/// about any other frame matters.
pub proof fn lemma_is_peak(levels: Seq<Level>, threshold: Level, i: int)
    ensures
        is_peak(levels, threshold, i) <==> (1 <= i && i + 1 < levels.len() && levels[i].above(
            levels[i - 1],
        ) && levels[i].above(levels[i + 1]) && levels[i].above(threshold)),
{
}

/// The test a peak passes, as a predicate on frames.
pub open spec fn peak_test(levels: Seq<Level>, threshold: Level) -> spec_fn(int) -> bool {
    |i: int| is_peak(levels, threshold, i)
}

/// All peaks of an envelope, in increasing order.
pub open spec fn peak_frames(levels: Seq<Level>, threshold: Level) -> Seq<usize> {
    picked(levels.len() as int, peak_test(levels, threshold))
}

/// The listed peaks are exactly the peaks of the envelope, each once, in
/// increasing order.
pub proof fn lemma_peak_frames(levels: Seq<Level>, threshold: Level)
    requires
        levels.len() <= usize::MAX,
    ensures
        forall|j: int|
            0 <= j < peak_frames(levels, threshold).len() ==> is_peak(
                levels,
                threshold,
                #[trigger] peak_frames(levels, threshold)[j] as int,
            ),
        forall|j: int, k: int|
            0 <= j < k < peak_frames(levels, threshold).len() ==> #[trigger] peak_frames(
                levels,
                threshold,
            )[j] < #[trigger] peak_frames(levels, threshold)[k],
        forall|i: int|
            #[trigger] is_peak(levels, threshold, i) ==> peak_frames(levels, threshold).contains(
                i as usize,
            ),
{
    let keep = peak_test(levels, threshold);
    lemma_picked(levels.len() as int, keep);
    assert forall|i: int| #[trigger] is_peak(levels, threshold, i) implies peak_frames(
        levels,
        threshold,
    ).contains(i as usize) by {
        assert(keep(i));
    }
}

/// Two neighbouring frames are never both peaks: a peak lies above the frame
/// after it, which therefore cannot lie above the peak.
pub proof fn lemma_peaks_apart(levels: Seq<Level>, threshold: Level, i: int)
    requires
        is_peak(levels, threshold, i),
    ensures
        !is_peak(levels, threshold, i + 1),
        !is_peak(levels, threshold, i - 1),
{
}

/// Consecutive peaks are at least two frames apart.
pub proof fn lemma_peak_frames_spacing(levels: Seq<Level>, threshold: Level)
    requires
        levels.len() <= usize::MAX,
    ensures
        forall|j: int, k: int|
            0 <= j < k < peak_frames(levels, threshold).len() ==> #[trigger] peak_frames(
                levels,
                threshold,
            )[j] + 2 <= #[trigger] peak_frames(levels, threshold)[k],
{
    let p = peak_frames(levels, threshold);
    lemma_peak_frames(levels, threshold);
    assert forall|j: int, k: int| 0 <= j < k < p.len() implies #[trigger] p[j] + 2 <= #[trigger] p[k] by {
        assert(p[j] < p[k]);
        lemma_peaks_apart(levels, threshold, p[j] as int);
        assert(is_peak(levels, threshold, p[k] as int));
    }
}

/// Frames that are local maxima strictly above `threshold`, in increasing
/// order.
///
/// Frame `i` is reported when `0 < i < levels.len() - 1` and its level lies
/// strictly above both neighbours and above the threshold; an unordered level
/// (NaN) lies above nothing and nothing lies above it.
pub fn detect_peaks(levels: &Vec<Level>, threshold: Level) -> (peaks: Vec<usize>)
    ensures
        peaks@ == peak_frames(levels@, threshold),
        forall|j: int| 0 <= j < peaks.len() ==> is_peak(levels@, threshold, #[trigger] peaks@[j] as int),
        forall|j: int, k: int| 0 <= j < k < peaks.len() ==> #[trigger] peaks@[j] < #[trigger] peaks@[k],
        forall|i: int| #[trigger] is_peak(levels@, threshold, i) ==> peaks@.contains(i as usize),
        forall|j: int|
            0 <= j < peaks.len() ==> {
                let i = #[trigger] peaks@[j] as int;
                &&& 1 <= i && i + 1 < levels.len()
                &&& levels@[i].above(levels@[i - 1])
                &&& levels@[i].above(levels@[i + 1])
                &&& levels@[i].above(threshold)
            },
        forall|i: int|
            1 <= i && i + 1 < levels.len() && #[trigger] levels@[i].above(levels@[i - 1])
                && levels@[i].above(levels@[i + 1]) && levels@[i].above(threshold)
                ==> peaks@.contains(i as usize),
{
    let n = levels.len();
    let ghost keep = peak_test(levels@, threshold);
    let mut peaks: Vec<usize> = Vec::new();
    proof {
        lemma_peak_frames(levels@, threshold);
    }
    if n < 3 {
        proof {
            let p = peak_frames(levels@, threshold);
            if p.len() > 0 {
                assert(is_peak(levels@, threshold, p[0] as int));
            }
            assert(p =~= peaks@);
        }
        return peaks;
    }
    let mut i: usize = 1;
    assert(picked(0, keep) =~= Seq::<usize>::empty());
    assert(!keep(0));
    assert(peaks@ =~= picked(1, keep));
    while i < n - 1
        invariant
            n == levels.len(),
            n >= 3,
            1 <= i <= n - 1,
            keep == peak_test(levels@, threshold),
            peaks@ == picked(i as int, keep),
        decreases n - i,
    {
        if levels[i].exceeds(&levels[i - 1]) && levels[i].exceeds(&levels[i + 1]) && levels[i].exceeds(
            &threshold,
        ) {
            assert(keep(i as int));
            peaks.push(i);
        } else {
            assert(!keep(i as int));
        }
        i = i + 1;
    }
    assert(!keep((n - 1) as int));
    proof {
        assert forall|i: int|
            1 <= i && i + 1 < levels.len() && #[trigger] levels@[i].above(levels@[i - 1])
                && levels@[i].above(levels@[i + 1]) && levels@[i].above(threshold)
            implies peaks@.contains(i as usize) by {
            assert(is_peak(levels@, threshold, i));
        }
    }
    peaks
}

} // verus!
