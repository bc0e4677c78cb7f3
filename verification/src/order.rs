//! Sample levels: the order of real-valued samples, held as plain integers.
//!
//! A sample enters the library by the 64 bits of its IEEE-754 binary64
//! encoding. Every decision the library makes about samples compares them,
//! so what it keeps of a sample is its place in the order of the reals: an
//! integer key that compares as the value does, or no key at all for a NaN,
//! which compares with nothing.

use vstd::prelude::*;

verus! {

/// Value of the sign bit of a binary64 encoding.
pub const SIGN_BIT: u64 = 0x8000_0000_0000_0000u64;

/// Encoding of positive infinity: the largest magnitude that is not a NaN.
pub const INFINITY_BITS: u64 = 0x7FF0_0000_0000_0000u64;

/// Magnitude bits of an encoding (all but the sign bit).
pub open spec fn magnitude(bits: u64) -> int {
    if bits >= SIGN_BIT { bits - SIGN_BIT } else { bits as int }
}

/// The encoding read as a sign-magnitude integer. For two encodings that are
/// not NaN, the real values they denote compare as these integers do
/// (both zeros map to 0).
pub open spec fn sign_magnitude(bits: u64) -> int {
    if bits >= SIGN_BIT { -magnitude(bits) } else { magnitude(bits) }
}

/// The encoding is a NaN: all exponent bits set and a nonzero fraction.
pub open spec fn is_nan_bits(bits: u64) -> bool {
    magnitude(bits) > INFINITY_BITS
}

/// Where a sample stands in the order of the reals.
#[derive(Clone, Copy, Debug, PartialEq, Eq, Structural)]
pub enum Level {
    /// A NaN: compares with nothing, not even itself.
    Unordered,
    /// An ordered value; keys compare as the values do.
    Ordered(u64),
}

impl Level {
    /// `self > other` as the values compare: false whenever either is unordered.
    pub open spec fn above(self, other: Level) -> bool {
        match (self, other) {
            (Level::Ordered(a), Level::Ordered(b)) => a > b,
            _ => false,
        }
    }

    /// The level of the binary64 value whose encoding is `bits`.
    pub open spec fn of_bits(bits: u64) -> Level {
        if is_nan_bits(bits) {
            Level::Unordered
        } else {
            Level::Ordered((sign_magnitude(bits) + SIGN_BIT) as u64)
        }
    }

    /// Whether `self` is strictly above `other`.
    pub fn exceeds(&self, other: &Level) -> (r: bool)
        ensures
            r == self.above(*other),
            r <==> (*self is Ordered && *other is Ordered && self->0 > other->0),
    {
        match (self, other) {
            (Level::Ordered(a), Level::Ordered(b)) => *a > *b,
            _ => false,
        }
    }

    /// The level of the binary64 value whose encoding is `bits`.
    pub fn from_bits(bits: u64) -> (r: Level)
        ensures
            r == Level::of_bits(bits),
            r is Unordered <==> is_nan_bits(bits),
            r matches Level::Ordered(k) ==> k == sign_magnitude(bits) + SIGN_BIT,
            r is Unordered <==> ((bits >= 0x8000_0000_0000_0000 && bits - 0x8000_0000_0000_0000
                > 0x7FF0_0000_0000_0000) || (bits < 0x8000_0000_0000_0000 && bits
                > 0x7FF0_0000_0000_0000)),
            r matches Level::Ordered(k) ==> (bits >= 0x8000_0000_0000_0000 ==> k
                == 0x8000_0000_0000_0000 - (bits - 0x8000_0000_0000_0000)),
            r matches Level::Ordered(k) ==> (bits < 0x8000_0000_0000_0000 ==> k
                == 0x8000_0000_0000_0000 + bits),
    {
        let mag: u64 = if bits >= SIGN_BIT { bits - SIGN_BIT } else { bits };
        if mag > INFINITY_BITS {
            Level::Unordered
        } else if bits >= SIGN_BIT {
            Level::Ordered(SIGN_BIT - mag)
        } else {
            Level::Ordered(SIGN_BIT + mag)
        }
    }
}

/// Scanning levels `first..n` from left to right, starting with `floor` as
/// the best level and `first` as its position, and moving to each level that
/// lies strictly above the best so far: the final position and level.
pub open spec fn leader(levels: Seq<Level>, first: int, floor: Level, n: int) -> (int, Level)
    decreases n - first,
{
    if n <= first {
        (first, floor)
    } else {
        let (i, best) = leader(levels, first, floor, n - 1);
        if levels[n - 1].above(best) {
            (n - 1, levels[n - 1])
        } else {
            (i, best)
        }
    }
}

/// What the scan ends on, said without the scan: the result stays at
/// `(first, floor)` unless it moves to a scanned level strictly above the
/// floor; no scanned level and not the floor lies above the result; every
/// ordered level scanned before the result's position lies strictly below it;
/// and an ordered floor gives an ordered result.
pub proof fn lemma_leader(levels: Seq<Level>, first: int, floor: Level, n: int)
    requires
        0 <= first <= n <= levels.len(),
    ensures
        first <= leader(levels, first, floor, n).0 < (if n > first { n } else { first + 1 }),
        (leader(levels, first, floor, n).0 == first && leader(levels, first, floor, n).1 == floor)
            || (leader(levels, first, floor, n).1 == levels[leader(levels, first, floor, n).0]
            && leader(levels, first, floor, n).1.above(floor)),
        forall|k: int|
            first <= k < n ==> !#[trigger] levels[k].above(leader(levels, first, floor, n).1),
        !floor.above(leader(levels, first, floor, n).1),
        forall|k: int|
            first <= k < leader(levels, first, floor, n).0 ==> (#[trigger] levels[k] is Unordered
                || leader(levels, first, floor, n).1.above(levels[k])),
        floor is Ordered ==> leader(levels, first, floor, n).1 is Ordered,
    decreases n - first,
{
    if n > first {
        lemma_leader(levels, first, floor, n - 1);
        let (i, best) = leader(levels, first, floor, n - 1);
        if levels[n - 1].above(best) {
            assert forall|k: int| first <= k < n implies !#[trigger] levels[k].above(levels[n - 1]) by {
                if k < n - 1 && levels[k].above(levels[n - 1]) {
                    lemma_above_strict(levels[k], levels[n - 1], best);
                }
            }
            if floor.above(levels[n - 1]) {
                lemma_above_strict(floor, levels[n - 1], best);
            }
            if best != floor {
                lemma_above_strict(levels[n - 1], best, floor);
            }
            assert forall|k: int| first <= k < n - 1 implies (#[trigger] levels[k] is Unordered
                || levels[n - 1].above(levels[k])) by {
                assert(!levels[k].above(best));
            }
        }
    }
}

/// Position of the first greatest level in `levels[first..]`, and that level,
/// where the scan starts from `floor` at position `first`: the result is
/// `(first, floor)` when no level lies above `floor`.
pub fn first_maximum(levels: &Vec<Level>, first: usize, floor: Level) -> (r: (usize, Level))
    requires
        first <= levels.len(),
    ensures
        (r.0 as int, r.1) == leader(levels@, first as int, floor, levels.len() as int),
        first <= r.0 < (if levels.len() > first { levels.len() as int } else { first + 1 }),
        (r.0 == first && r.1 == floor) || (r.1 == levels@[r.0 as int] && r.1.above(floor)),
        forall|k: int| first <= k < levels.len() ==> !#[trigger] levels@[k].above(r.1),
        !floor.above(r.1),
        forall|k: int| first <= k < r.0 ==> (#[trigger] levels@[k] is Unordered || r.1.above(levels@[k])),
        floor is Ordered ==> r.1 is Ordered,
{
    let n = levels.len();
    let mut best_index = first;
    let mut best = floor;
    let mut k = first;
    while k < n
        invariant
            n == levels.len(),
            first <= k <= n,
            (best_index as int, best) == leader(levels@, first as int, floor, k as int),
        decreases n - k,
    {
        if levels[k].exceeds(&best) {
            best_index = k;
            best = levels[k];
        }
        k = k + 1;
    }
    proof {
        lemma_leader(levels@, first as int, floor, n as int);
    }
    (best_index, best)
}

/// One level lies above another exactly when both are ordered and its key is
/// greater.
pub proof fn lemma_above_keys(a: Level, b: Level)
    ensures
        a.above(b) <==> (a is Ordered && b is Ordered && a->0 > b->0),
{
}

/// Levels order encodings as their sign-magnitude values, the order of the
/// reals they denote: one level is above another exactly when its value is
/// greater, and nothing is above or below a NaN.
pub proof fn lemma_level_order(a: u64, b: u64)
    ensures
        Level::of_bits(a).above(Level::of_bits(b)) <==> (!is_nan_bits(a) && !is_nan_bits(b)
            && sign_magnitude(a) > sign_magnitude(b)),
{
}

/// `above` is a strict order: irreflexive and transitive.
pub proof fn lemma_above_strict(a: Level, b: Level, c: Level)
    ensures
        !a.above(a),
        a.above(b) && b.above(c) ==> a.above(c),
        a.above(b) ==> !b.above(a),
{
}

} // verus!
