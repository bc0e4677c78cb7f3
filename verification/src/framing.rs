//! Cutting a signal into overlapping frames.
//!
//! A frame of `frame_length` samples starts every `frame_shift` samples, from
//! sample 0, for as long as the whole frame fits in the signal. Energy
//! envelopes, pitch contours and MFCC frames are all taken over these frames.

use vstd::prelude::*;

verus! {

/// Number of whole frames that fit in a signal of `signal_len` samples.
pub open spec fn frame_count(signal_len: nat, frame_length: nat, frame_shift: nat) -> nat
    recommends
        frame_shift > 0,
{
    if frame_length > signal_len {
        0
    } else {
        ((signal_len - frame_length) as nat / frame_shift + 1) as nat
    }
}

/// The framing terminates: either frames advance, or not even one fits.
pub open spec fn framing_terminates(signal_len: nat, frame_length: nat, frame_shift: nat) -> bool {
    frame_shift > 0 || frame_length > signal_len
}

/// First sample of every frame, in order.
///
/// Frame `k` starts at `k * frame_shift`; the frames listed are exactly those
/// that end within the signal.
pub fn frame_starts(signal_len: usize, frame_length: usize, frame_shift: usize) -> (starts: Vec<
    usize,
>)
    requires
        framing_terminates(signal_len as nat, frame_length as nat, frame_shift as nat),
    ensures
        starts.len() == frame_count(signal_len as nat, frame_length as nat, frame_shift as nat),
        forall|k: int| 0 <= k < starts.len() ==> #[trigger] starts@[k] == k * frame_shift,
        forall|k: int| 0 <= k < starts.len() ==> #[trigger] starts@[k] + frame_length <= signal_len,
        starts.len() == (if frame_length > signal_len {
            0
        } else {
            (signal_len - frame_length) as nat / frame_shift as nat + 1
        }),
        frame_shift > 0 ==> starts.len() * frame_shift + frame_length > signal_len,
{
    let mut starts: Vec<usize> = Vec::new();
    if frame_length > signal_len {
        return starts;
    }
    let last: usize = signal_len - frame_length;
    let mut start: usize = 0;
    assert(starts.len() == 0);
    assert(start == starts.len() * frame_shift) by (nonlinear_arith)
        requires
            starts.len() == 0,
            start == 0,
    ;
    loop
        invariant_except_break
            start == starts.len() * frame_shift,
        invariant
            frame_shift > 0 || frame_length > signal_len,
            last == signal_len - frame_length,
            start <= last,
            forall|k: int| 0 <= k < starts.len() ==> #[trigger] starts@[k] == k * frame_shift,
            forall|k: int| 0 <= k < starts.len() ==> #[trigger] starts@[k] + frame_length <= signal_len,
        ensures
            starts.len() == last as nat / frame_shift as nat + 1,
            starts.len() * frame_shift + frame_length > signal_len,
            forall|k: int| 0 <= k < starts.len() ==> #[trigger] starts@[k] == k * frame_shift,
            forall|k: int| 0 <= k < starts.len() ==> #[trigger] starts@[k] + frame_length <= signal_len,
        decreases last - start,
    {
        starts.push(start);
        let ghost n = starts.len();
        if last - start < frame_shift {
            assert(n * frame_shift + frame_length > signal_len) by (nonlinear_arith)
                requires
                    start == (n - 1) * frame_shift,
                    last - start < frame_shift,
                    last == signal_len - frame_length,
            ;
            proof {
                lemma_quotient_from_bounds(last as int, frame_shift as int, n - 1);
            }
            break;
        }
        assert(start + frame_shift == n * frame_shift) by (nonlinear_arith)
            requires
                start == (n - 1) * frame_shift,
        ;
        start = start + frame_shift;
    }
    starts
}

/// If `q * d <= x < q * d + d` then `x / d == q`.
proof fn lemma_quotient_from_bounds(x: int, d: int, q: int)
    requires
        d > 0,
        0 <= q,
        q * d <= x < q * d + d,
    ensures
        x / d == q,
{
    vstd::arithmetic::div_mod::lemma_fundamental_div_mod(x, d);
    let r = x / d;
    assert(r == q) by (nonlinear_arith)
        requires
            d > 0,
            x == d * r + x % d,
            0 <= x % d < d,
            q * d <= x < q * d + d,
    ;
}

/// Every frame counted lies inside the signal, and one more frame would not.
pub proof fn lemma_frames_inside(signal_len: nat, frame_length: nat, frame_shift: nat, k: nat)
    requires
        frame_shift > 0,
        k < frame_count(signal_len, frame_length, frame_shift),
    ensures
        k * frame_shift + frame_length <= signal_len,
        frame_count(signal_len, frame_length, frame_shift) * frame_shift + frame_length > signal_len,
{
    let last = (signal_len - frame_length) as nat;
    assert(k <= last / frame_shift);
    vstd::arithmetic::div_mod::lemma_fundamental_div_mod(last as int, frame_shift as int);
    assert(k * frame_shift <= last) by (nonlinear_arith)
        requires
            k <= last / frame_shift,
            frame_shift > 0,
            last == frame_shift * (last / frame_shift) + last % frame_shift,
            0 <= last % frame_shift,
    ;
    let c = frame_count(signal_len, frame_length, frame_shift);
    assert(c * frame_shift > last) by (nonlinear_arith)
        requires
            c == last / frame_shift + 1,
            frame_shift > 0,
            last == frame_shift * (last / frame_shift) + last % frame_shift,
            last % frame_shift < frame_shift,
    ;
}

} // verus!
