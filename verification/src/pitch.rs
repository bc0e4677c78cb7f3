//! Pitch tracking decisions: which lag of the autocorrelation gives the pitch
//! period, and which frames a moving average reads.

use vstd::prelude::*;

use crate::order::{first_maximum, lemma_leader, leader, Level};
use crate::selection::{lemma_picked, picked};

verus! {

/// Encoding of +0.0: a frame is voiced when its pitch lies above it.
pub const ZERO_BITS: u64 = 0u64;

/// Frame `i` is voiced: its pitch lies strictly above zero (an unvoiced
/// frame holds zero; a negative or NaN pitch is not voiced either).
pub open spec fn is_voiced(pitches: Seq<Level>, i: int) -> bool {
    0 <= i < pitches.len() && pitches[i].above(Level::of_bits(ZERO_BITS))
}

/// A frame is voiced exactly when its own pitch lies strictly above zero;
/// no other frame matters.
pub proof fn lemma_is_voiced(pitches: Seq<Level>, i: int)
    ensures
        is_voiced(pitches, i) <==> (0 <= i < pitches.len() && pitches[i].above(Level::of_bits(0u64))),
{
}

/// The voicing test as a predicate on frames.
pub open spec fn voiced_test(pitches: Seq<Level>) -> spec_fn(int) -> bool {
    |i: int| is_voiced(pitches, i)
}

/// The voiced frames of a contour, in increasing order.
pub open spec fn voiced(pitches: Seq<Level>) -> Seq<usize> {
    picked(pitches.len() as int, voiced_test(pitches))
}

/// The voiced frames of a contour, in increasing order.
///
/// Pitch statistics (mean, spread, range, slope, voicing ratio) and the
/// moving average are taken over these frames only.
pub fn voiced_frames(pitches: &Vec<Level>) -> (frames: Vec<usize>)
    ensures
        frames@ == voiced(pitches@),
        frames.len() <= pitches.len(),
        forall|j: int| 0 <= j < frames.len() ==> is_voiced(pitches@, #[trigger] frames@[j] as int),
        forall|j: int, k: int| 0 <= j < k < frames.len() ==> #[trigger] frames@[j] < #[trigger] frames@[k],
        forall|i: int| #[trigger] is_voiced(pitches@, i) ==> frames@.contains(i as usize),
        forall|j: int|
            0 <= j < frames.len() ==> #[trigger] frames@[j] < pitches.len() && pitches@[frames@[j] as int].above(
                Level::of_bits(0u64),
            ),
        forall|i: int|
            0 <= i < pitches.len() && #[trigger] pitches@[i].above(Level::of_bits(0u64)) ==> frames@.contains(
                i as usize,
            ),
{
    let n = pitches.len();
    let zero = Level::from_bits(ZERO_BITS);
    let ghost keep = voiced_test(pitches@);
    let mut frames: Vec<usize> = Vec::new();
    let mut i: usize = 0;
    while i < n
        invariant
            n == pitches.len(),
            i <= n,
            zero == Level::of_bits(ZERO_BITS),
            keep == voiced_test(pitches@),
            frames@ == picked(i as int, keep),
        decreases n - i,
    {
        if pitches[i].exceeds(&zero) {
            assert(keep(i as int));
            frames.push(i);
        } else {
            assert(!keep(i as int));
        }
        i = i + 1;
    }
    proof {
        lemma_picked(n as int, keep);
        assert forall|i: int| #[trigger] is_voiced(pitches@, i) implies frames@.contains(i as usize) by {
            assert(keep(i));
        }
        assert forall|i: int|
            0 <= i < pitches.len() && #[trigger] pitches@[i].above(Level::of_bits(0u64)) implies frames@.contains(
                i as usize,
            ) by {
            assert(is_voiced(pitches@, i));
        }
    }
    frames
}

/// Encoding of 0.2: a frame whose best normalized autocorrelation stays below
/// it is unvoiced.
pub const VOICING_FLOOR_BITS: u64 = 0x3FC9_9999_9999_999Au64;

/// Encoding of negative infinity, where the search for the best correlation
/// starts.
pub const NEG_INFINITY_BITS: u64 = 0xFFF0_0000_0000_0000u64;

/// The lag window `min_lag..=max_lag` can be searched in a frame of
/// `signal_len` samples: it is not empty and its last lag leaves at least one
/// sample pair.
pub open spec fn lag_window_usable(signal_len: nat, min_lag: nat, max_lag: nat) -> bool {
    min_lag < max_lag && max_lag < signal_len
}

/// Whether the lag window `min_lag..=max_lag` can be searched in a frame of
/// `signal_len` samples.
pub fn pitch_lag_window_usable(signal_len: usize, min_lag: usize, max_lag: usize) -> (usable: bool)
    ensures
        usable == lag_window_usable(signal_len as nat, min_lag as nat, max_lag as nat),
        usable == (min_lag < max_lag && max_lag < signal_len),
{
    !(min_lag >= max_lag || max_lag >= signal_len)
}

/// The lag chosen from the correlations: `correlations[i]` belongs to lag
/// `min_lag + i`; the first greatest correlation wins, starting from
/// negative infinity, and the frame is unvoiced (`None`) when it lies below
/// 0.2.
pub open spec fn chosen_lag(min_lag: nat, correlations: Seq<Level>) -> Option<usize> {
    let (i, best) = leader(
        correlations,
        0,
        Level::of_bits(NEG_INFINITY_BITS),
        correlations.len() as int,
    );
    if Level::of_bits(VOICING_FLOOR_BITS).above(best) {
        None
    } else {
        Some((min_lag + i) as usize)
    }
}

/// The chosen lag, said without the scan: it is `min_lag + i` for the first
/// index `i` holding the greatest correlation, provided that correlation is
/// above negative infinity and not below 0.2; there is no lag exactly when
/// every ordered correlation lies below 0.2.
pub proof fn lemma_chosen_lag(min_lag: nat, correlations: Seq<Level>)
    requires
        min_lag + correlations.len() <= usize::MAX,
    ensures
        chosen_lag(min_lag, correlations) matches Some(l) ==> {
            let i = l - min_lag;
            &&& 0 <= i < correlations.len()
            &&& correlations[i].above(Level::of_bits(0xFFF0_0000_0000_0000u64))
            &&& !Level::of_bits(0x3FC9_9999_9999_999Au64).above(correlations[i])
            &&& forall|k: int| 0 <= k < correlations.len() ==> !#[trigger] correlations[k].above(correlations[i])
            &&& forall|k: int| 0 <= k < i ==> (#[trigger] correlations[k] is Unordered || correlations[i].above(correlations[k]))
        },
        chosen_lag(min_lag, correlations) is None <==> forall|k: int|
            0 <= k < correlations.len() ==> (#[trigger] correlations[k] is Unordered || Level::of_bits(
                0x3FC9_9999_9999_999Au64,
            ).above(correlations[k])),
{
    let start = Level::of_bits(NEG_INFINITY_BITS);
    let voicing_floor = Level::of_bits(VOICING_FLOOR_BITS);
    lemma_leader(correlations, 0, start, correlations.len() as int);
    let (i, best) = leader(correlations, 0, start, correlations.len() as int);
    if voicing_floor.above(best) {
        assert forall|k: int|
            0 <= k < correlations.len() implies (#[trigger] correlations[k] is Unordered
            || voicing_floor.above(correlations[k])) by {
            assert(!correlations[k].above(best));
        }
    } else {
        if i == 0 && best == start {
            assert(voicing_floor.above(start));
        }
        if forall|k: int|
            0 <= k < correlations.len() ==> (#[trigger] correlations[k] is Unordered
                || voicing_floor.above(correlations[k])) {
            assert(voicing_floor.above(correlations[i]));
        }
    }
}

/// The pitch period, in samples, chosen by autocorrelation.
///
/// `correlations[i]` is the normalized autocorrelation of the frame at lag
/// `min_lag + i`. The lag with the first greatest correlation is the period;
/// when that correlation lies below 0.2 (or none is above negative infinity)
/// the frame is unvoiced and the result is `None`.
pub fn best_pitch_lag(min_lag: usize, correlations: &Vec<Level>) -> (lag: Option<usize>)
    requires
        min_lag + correlations.len() <= usize::MAX,
    ensures
        lag == chosen_lag(min_lag as nat, correlations@),
        lag matches Some(l) ==> min_lag <= l < min_lag + correlations.len(),
        lag matches Some(l) ==> !Level::of_bits(VOICING_FLOOR_BITS).above(correlations@[l - min_lag]),
        lag matches Some(l) ==> forall|i: int|
            0 <= i < correlations.len() ==> !#[trigger] correlations@[i].above(correlations@[l - min_lag]),
        lag matches Some(l) ==> correlations@[l - min_lag].above(
            Level::of_bits(0xFFF0_0000_0000_0000u64),
        ),
        lag matches Some(l) ==> !Level::of_bits(0x3FC9_9999_9999_999Au64).above(
            correlations@[l - min_lag],
        ),
        lag matches Some(l) ==> forall|i: int|
            0 <= i < l - min_lag ==> (#[trigger] correlations@[i] is Unordered || correlations@[l
                - min_lag].above(correlations@[i])),
        lag is None ==> forall|i: int|
            0 <= i < correlations.len() ==> (#[trigger] correlations@[i] is Unordered || Level::of_bits(
                0x3FC9_9999_9999_999Au64,
            ).above(correlations@[i])),
{
    let start = Level::from_bits(NEG_INFINITY_BITS);
    let (i, best) = first_maximum(correlations, 0, start);
    proof {
        lemma_leader(correlations@, 0, start, correlations.len() as int);
    }
    let voicing_floor = Level::from_bits(VOICING_FLOOR_BITS);
    if voicing_floor.exceeds(&best) {
        proof {
            assert forall|k: int|
                0 <= k < correlations.len() implies (#[trigger] correlations@[k] is Unordered
                || voicing_floor.above(correlations@[k])) by {
                assert(!correlations@[k].above(best));
            }
        }
        None
    } else {
        proof {
            if i == 0 && best == start {
                assert(Level::of_bits(VOICING_FLOOR_BITS).above(start));
            }
        }
        Some(min_lag + i)
    }
}

/// First frame and one past the last frame averaged at frame `i` by a moving
/// average over `window` frames: `window / 2` frames on each side, clipped to
/// the contour.
pub open spec fn window_bounds(i: nat, window: nat, len: nat) -> (int, int) {
    let half = window / 2;
    (
        if i >= half { i - half } else { 0 },
        if i + half + 1 <= len { (i + half + 1) as int } else { len as int },
    )
}

/// The window around frame `i` reaches `window / 2` frames back and
/// `window / 2` frames ahead, as far as the contour has them.
pub proof fn lemma_window_bounds(i: nat, window: nat, len: nat)
    requires
        i < len,
    ensures
        i - window_bounds(i, window, len).0 == (if i < window / 2 { i as int } else { window as int / 2 }),
        window_bounds(i, window, len).1 - (i + 1) == (if len - (i + 1) < window / 2 {
            len - (i + 1)
        } else {
            window as int / 2
        }),
{
}

/// Bounds of the moving-average window around frame `i` of a contour of
/// `len` frames.
pub fn smoothing_window(i: usize, window: usize, len: usize) -> (bounds: (usize, usize))
    requires
        i + window / 2 + 1 <= usize::MAX,
    ensures
        (bounds.0 as int, bounds.1 as int) == window_bounds(i as nat, window as nat, len as nat),
        i < len ==> bounds.0 <= i < bounds.1 <= len,
        bounds.1 - bounds.0 <= window / 2 * 2 + 1,
        bounds.0 == (if i >= window / 2 { i - window / 2 } else { 0 }),
        bounds.1 == (if i + window / 2 + 1 <= len { i + window / 2 + 1 } else { len as int }),
        i < len ==> i - bounds.0 == (if i < window / 2 { i as int } else { window as int / 2 }),
        i < len ==> bounds.1 - (i + 1) == (if len - (i + 1) < window / 2 {
            len - (i + 1)
        } else {
            window as int / 2
        }),
{
    let half = window / 2;
    let start = if i >= half { i - half } else { 0 };
    let end = if i + half + 1 <= len { i + half + 1 } else { len };
    (start, end)
}

} // verus!
