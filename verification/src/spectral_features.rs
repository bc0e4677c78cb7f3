//! Shape of the MFCC pipeline: the triangular mel filters over spectrum bins,
//! and the neighbouring frames that delta features difference.

use vstd::prelude::*;

verus! {

/// One bin read by a triangular filter, with weight
/// `numerator / denominator` (always between 0 and 1).
#[derive(Clone, Copy, Debug, PartialEq, Eq, Structural)]
pub struct FilterTap {
    pub bin: usize,
    pub numerator: usize,
    pub denominator: usize,
}

/// Taps of the triangle rising from bin `left` to bin `center` and falling to
/// bin `right`, over a spectrum of `num_bins` bins: bins `left..center` with
/// weight `(k - left) / (center - left)`, then bins `center..right` with
/// weight `(right - k) / (right - center)`, each part cut at `num_bins`.
pub open spec fn triangle(left: nat, center: nat, right: nat, num_bins: nat) -> Seq<FilterTap> {
    rising_taps(left, center, num_bins) + falling_taps(center, right, num_bins)
}

/// The rising side of a triangle: bins `left..center` below `num_bins`, with
/// weight `(k - left) / (center - left)`.
pub open spec fn rising_taps(left: nat, center: nat, num_bins: nat) -> Seq<FilterTap> {
    let end = if center < num_bins { center } else { num_bins };
    Seq::new(
        if end > left { (end - left) as nat } else { 0 },
        |j: int|
            FilterTap {
                bin: (left + j) as usize,
                numerator: j as usize,
                denominator: (center - left) as usize,
            },
    )
}

/// The falling side of a triangle: bins `center..right` below `num_bins`,
/// with weight `(right - k) / (right - center)`.
pub open spec fn falling_taps(center: nat, right: nat, num_bins: nat) -> Seq<FilterTap> {
    let end = if right < num_bins { right } else { num_bins };
    Seq::new(
        if end > center { (end - center) as nat } else { 0 },
        |j: int|
            FilterTap {
                bin: (center + j) as usize,
                numerator: (right - center - j) as usize,
                denominator: (right - center) as usize,
            },
    )
}

/// What a triangle reads, said without building it: for every bin `k` below
/// `num_bins`, a tap `(k, k - left, center - left)` when `left <= k < center`
/// and a tap `(k, right - k, right - center)` when `center <= k < right`
/// (each side independently of the other), nothing else, in increasing bin
/// order.
pub proof fn lemma_triangle(left: nat, center: nat, right: nat, num_bins: nat)
    requires
        left <= usize::MAX,
        center <= usize::MAX,
        right <= usize::MAX,
        num_bins <= usize::MAX,
    ensures
        forall|k: int|
            left <= k < center && k < num_bins ==> #[trigger] triangle(left, center, right, num_bins).contains(
                FilterTap {
                    bin: k as usize,
                    numerator: (k - left) as usize,
                    denominator: (center - left) as usize,
                },
            ),
        forall|k: int|
            center <= k < right && k < num_bins ==> #[trigger] triangle(left, center, right, num_bins).contains(
                FilterTap {
                    bin: k as usize,
                    numerator: (right - k) as usize,
                    denominator: (right - center) as usize,
                },
            ),
        forall|j: int|
            0 <= j < triangle(left, center, right, num_bins).len() ==> {
                let t = #[trigger] triangle(left, center, right, num_bins)[j];
                ||| (left <= t.bin < center && t.bin < num_bins && t == FilterTap {
                    bin: t.bin,
                    numerator: (t.bin - left) as usize,
                    denominator: (center - left) as usize,
                })
                ||| (center <= t.bin < right && t.bin < num_bins && t == FilterTap {
                    bin: t.bin,
                    numerator: (right - t.bin) as usize,
                    denominator: (right - center) as usize,
                })
            },
        forall|a: int, b: int|
            0 <= a < b < triangle(left, center, right, num_bins).len() ==> (#[trigger] triangle(
                left,
                center,
                right,
                num_bins,
            )[a]).bin < (#[trigger] triangle(left, center, right, num_bins)[b]).bin,
{
    let rise = rising_taps(left, center, num_bins);
    let fall = falling_taps(center, right, num_bins);
    let t = triangle(left, center, right, num_bins);
    assert forall|k: int| left <= k < center && k < num_bins implies #[trigger] t.contains(
        FilterTap {
            bin: k as usize,
            numerator: (k - left) as usize,
            denominator: (center - left) as usize,
        },
    ) by {
        assert(t[k - left] == rise[k - left]);
    }
    assert forall|k: int| center <= k < right && k < num_bins implies #[trigger] t.contains(
        FilterTap {
            bin: k as usize,
            numerator: (right - k) as usize,
            denominator: (right - center) as usize,
        },
    ) by {
        assert(t[rise.len() + (k - center)] == fall[k - center]);
    }
    assert forall|a: int, b: int| 0 <= a < b < t.len() implies (#[trigger] t[a]).bin < (#[trigger] t[b]).bin by {
        if b < rise.len() {
            assert(t[a] == rise[a] && t[b] == rise[b]);
        } else if a < rise.len() {
            assert(t[a] == rise[a] && t[b] == fall[b - rise.len()]);
        } else {
            assert(t[a] == fall[a - rise.len()] && t[b] == fall[b - rise.len()]);
        }
    }
    assert forall|j: int| 0 <= j < t.len() implies {
        let tap = #[trigger] t[j];
        ||| (left <= tap.bin < center && tap.bin < num_bins && tap == FilterTap {
            bin: tap.bin,
            numerator: (tap.bin - left) as usize,
            denominator: (center - left) as usize,
        })
        ||| (center <= tap.bin < right && tap.bin < num_bins && tap == FilterTap {
            bin: tap.bin,
            numerator: (right - tap.bin) as usize,
            denominator: (right - center) as usize,
        })
    } by {
        if j < rise.len() {
            assert(t[j] == rise[j]);
        } else {
            assert(t[j] == fall[j - rise.len()]);
        }
    }
}

/// A tap reads a bin of the spectrum with a weight in `[0, 1]`.
pub open spec fn tap_well_formed(tap: FilterTap, num_bins: nat) -> bool {
    &&& tap.bin < num_bins
    &&& 0 < tap.denominator
    &&& tap.numerator <= tap.denominator
}

/// Taps of one triangular filter.
fn triangle_taps(left: usize, center: usize, right: usize, num_bins: usize) -> (taps: Vec<FilterTap>)
    ensures
        taps@ == triangle(left as nat, center as nat, right as nat, num_bins as nat),
        forall|j: int| 0 <= j < taps.len() ==> tap_well_formed(#[trigger] taps@[j], num_bins as nat),
{
    let mut taps: Vec<FilterTap> = Vec::new();
    let rise_end = if center < num_bins { center } else { num_bins };
    let fall_end = if right < num_bins { right } else { num_bins };
    let ghost rising = rising_taps(left as nat, center as nat, num_bins as nat);
    let ghost falling = falling_taps(center as nat, right as nat, num_bins as nat);
    if rise_end > left {
        let mut k = left;
        while k < rise_end
            invariant
                left <= k <= rise_end,
                rise_end <= center,
                rise_end <= num_bins,
                rising == rising_taps(left as nat, center as nat, num_bins as nat),
                rise_end == (if center < num_bins { center } else { num_bins }),
                rising.len() == rise_end - left,
                taps.len() == k - left,
                taps@ == rising.subrange(0, taps.len() as int),
                forall|j: int| 0 <= j < taps.len() ==> tap_well_formed(#[trigger] taps@[j], num_bins as nat),
            decreases rise_end - k,
        {
            taps.push(FilterTap { bin: k, numerator: k - left, denominator: center - left });
            assert(taps@[k - left] == rising[k - left]);
            k = k + 1;
            assert(taps@ =~= rising.subrange(0, taps.len() as int));
        }
    }
    assert(taps@ =~= rising);
    let ghost base = taps.len();
    if fall_end > center {
        let mut k = center;
        while k < fall_end
            invariant
                center <= k <= fall_end,
                fall_end <= right,
                fall_end <= num_bins,
                base == rising.len(),
                falling == falling_taps(center as nat, right as nat, num_bins as nat),
                fall_end == (if right < num_bins { right } else { num_bins }),
                falling.len() == fall_end - center,
                taps.len() == base + (k - center),
                taps@ == rising + falling.subrange(0, k - center),
                forall|j: int| 0 <= j < taps.len() ==> tap_well_formed(#[trigger] taps@[j], num_bins as nat),
            decreases fall_end - k,
        {
            taps.push(FilterTap { bin: k, numerator: right - k, denominator: right - center });
            assert(taps@[base + (k - center)] == falling[k - center]);
            k = k + 1;
            assert(taps@ =~= rising + falling.subrange(0, k - center));
        }
        assert(falling.subrange(0, fall_end - center) =~= falling);
    }
    assert(taps@ =~= rising + falling);
    taps
}

/// Taps of every filter of a triangular filter bank.
///
/// Filter `i` rises from bin `bin_points[i]`, peaks at `bin_points[i + 1]`
/// and falls to `bin_points[i + 2]`; a filter's energy is the weighted sum
/// of the spectrum over its taps, in the order listed.
pub fn filter_taps(bin_points: &Vec<usize>, num_bins: usize) -> (filters: Vec<Vec<FilterTap>>)
    requires
        bin_points.len() >= 2,
    ensures
        filters.len() == bin_points.len() - 2,
        forall|i: int|
            0 <= i < filters.len() ==> #[trigger] filters@[i]@ == triangle(
                bin_points@[i] as nat,
                bin_points@[i + 1] as nat,
                bin_points@[i + 2] as nat,
                num_bins as nat,
            ),
        forall|i: int, j: int|
            0 <= i < filters.len() && 0 <= j < filters@[i].len() ==> tap_well_formed(
                #[trigger] filters@[i]@[j],
                num_bins as nat,
            ),
        forall|i: int, k: int|
            0 <= i < filters.len() && bin_points@[i] <= k < bin_points@[i + 1] && k < num_bins
                ==> #[trigger] filters@[i]@.contains(
                FilterTap {
                    bin: k as usize,
                    numerator: (k - bin_points@[i]) as usize,
                    denominator: (bin_points@[i + 1] - bin_points@[i]) as usize,
                },
            ),
        forall|i: int, k: int|
            0 <= i < filters.len() && bin_points@[i + 1] <= k < bin_points@[i + 2] && k < num_bins
                ==> #[trigger] filters@[i]@.contains(
                FilterTap {
                    bin: k as usize,
                    numerator: (bin_points@[i + 2] - k) as usize,
                    denominator: (bin_points@[i + 2] - bin_points@[i + 1]) as usize,
                },
            ),
        forall|i: int, j: int|
            0 <= i < filters.len() && 0 <= j < filters@[i].len() ==> {
                let t = #[trigger] filters@[i]@[j];
                let (l, c, r) = (bin_points@[i], bin_points@[i + 1], bin_points@[i + 2]);
                ||| (l <= t.bin < c && t.bin < num_bins && t.numerator == t.bin - l && t.denominator
                    == c - l)
                ||| (c <= t.bin < r && t.bin < num_bins && t.numerator == r - t.bin && t.denominator
                    == r - c)
            },
        forall|i: int, a: int, b: int|
            0 <= i < filters.len() && 0 <= a < b < filters@[i].len() ==> (#[trigger] filters@[i]@[a]).bin
                < (#[trigger] filters@[i]@[b]).bin,
{
    let num_filters = bin_points.len() - 2;
    let mut filters: Vec<Vec<FilterTap>> = Vec::new();
    let mut i: usize = 0;
    while i < num_filters
        invariant
            num_filters == bin_points.len() - 2,
            i <= num_filters,
            filters.len() == i,
            forall|f: int|
                0 <= f < i ==> #[trigger] filters@[f]@ == triangle(
                    bin_points@[f] as nat,
                    bin_points@[f + 1] as nat,
                    bin_points@[f + 2] as nat,
                    num_bins as nat,
                ),
            forall|f: int, j: int|
                0 <= f < i && 0 <= j < filters@[f].len() ==> tap_well_formed(
                    #[trigger] filters@[f]@[j],
                    num_bins as nat,
                ),
        decreases num_filters - i,
    {
        let taps = triangle_taps(bin_points[i], bin_points[i + 1], bin_points[i + 2], num_bins);
        filters.push(taps);
        i = i + 1;
    }
    proof {
        assert forall|f: int| #![trigger filters@[f]] 0 <= f < filters.len() implies {
            let l = bin_points@[f];
            let c = bin_points@[f + 1];
            let r = bin_points@[f + 2];
            &&& forall|k: int| l <= k < c && k < num_bins ==> #[trigger] filters@[f]@.contains(
                FilterTap { bin: k as usize, numerator: (k - l) as usize, denominator: (c - l) as usize },
            )
            &&& forall|k: int| c <= k < r && k < num_bins ==> #[trigger] filters@[f]@.contains(
                FilterTap { bin: k as usize, numerator: (r - k) as usize, denominator: (r - c) as usize },
            )
            &&& forall|j: int| 0 <= j < filters@[f].len() ==> {
                let t = #[trigger] filters@[f]@[j];
                ||| (l <= t.bin < c && t.bin < num_bins && t.numerator == t.bin - l && t.denominator == c - l)
                ||| (c <= t.bin < r && t.bin < num_bins && t.numerator == r - t.bin && t.denominator == r - c)
            }
            &&& forall|a: int, b: int| 0 <= a < b < filters@[f].len() ==> (#[trigger] filters@[f]@[a]).bin
                < (#[trigger] filters@[f]@[b]).bin
        } by {
            lemma_triangle(
                bin_points@[f] as nat,
                bin_points@[f + 1] as nat,
                bin_points@[f + 2] as nat,
                num_bins as nat,
            );
        }
    }
    filters
}

/// A delta over `n` frames on each side needs at least `2 * n + 1` frames;
/// with fewer, the delta features are a single row of zeros.
pub fn delta_window_fits(num_frames: usize, n: usize) -> (fits: bool)
    requires
        2 * n + 1 <= usize::MAX,
    ensures
        fits == (num_frames >= 2 * n + 1),
{
    num_frames >= 2 * n + 1
}

/// For frame `t` and each offset `i` in `1..=n`: the frames `i` before and
/// `i` after `t`, clamped to the first and last frame.
pub open spec fn delta_pairs(num_frames: nat, n: nat, t: nat) -> Seq<(usize, usize)> {
    Seq::new(
        n,
        |j: int|
            {
                let i = j + 1;
                (
                    (if t >= i { t - i } else { 0 }) as usize,
                    (if t + i <= num_frames - 1 { t + i } else { num_frames - 1 }) as usize,
                )
            },
    )
}

/// Frames differenced by the delta of frame `t`: entry `i - 1` holds the
/// earlier and later frame for offset `i`, for `i` in `1..=n`.
pub fn delta_neighbours(num_frames: usize, n: usize, t: usize) -> (pairs: Vec<(usize, usize)>)
    requires
        t < num_frames,
        t + n <= usize::MAX,
    ensures
        pairs@ == delta_pairs(num_frames as nat, n as nat, t as nat),
        pairs.len() == n,
        forall|j: int|
            0 <= j < n ==> #[trigger] pairs@[j] == (
                (if t >= j + 1 { t - j - 1 } else { 0 }) as usize,
                (if t + j + 1 <= num_frames - 1 { t + j + 1 } else { num_frames - 1 }) as usize,
            ),
        forall|j: int|
            0 <= j < pairs.len() ==> (#[trigger] pairs@[j]).0 <= t <= pairs@[j].1 < num_frames,
        forall|j: int|
            0 <= j < pairs.len() && n <= t && t + n < num_frames ==> #[trigger] pairs@[j] == (
                (t - j - 1) as usize,
                (t + j + 1) as usize,
            ),
{
    let mut pairs: Vec<(usize, usize)> = Vec::new();
    let ghost target = delta_pairs(num_frames as nat, n as nat, t as nat);
    let mut j: usize = 0;
    while j < n
        invariant
            t < num_frames,
            t + n <= usize::MAX,
            j <= n,
            pairs.len() == j,
            target.len() == n,
            target == delta_pairs(num_frames as nat, n as nat, t as nat),
            pairs@ == target.subrange(0, j as int),
        decreases n - j,
    {
        let i = j + 1;
        let prev = if t >= i { t - i } else { 0 };
        let next = if t + i <= num_frames - 1 { t + i } else { num_frames - 1 };
        pairs.push((prev, next));
        assert(pairs@[j as int] == target[j as int]);
        assert(pairs@ =~= target.subrange(0, i as int));
        j = i;
    }
    assert(pairs@ =~= target);
    pairs
}

} // verus!
