# spectral_prosody

Prosodic feature extraction (pitch contours, energy envelopes, rhythm,
MFCC-style spectral features) split in two:

- `src/` is the verified library, written in Verus. It holds every decision
  the feature extractors make that depends only on how samples compare and
  on frame and bin bookkeeping: framing a signal, peak picking, onset
  intervals, rhythmic period selection and ordering, dominant-bin and
  pitch-lag choice, voiced-frame selection, moving-average windows, delta
  neighbours and triangular mel filter taps. Samples enter it as levels
  (`order::Level`), integer keys built from the bits of a binary64 value that
  compare exactly as the values do, with NaN comparing with nothing.
- `app/` is the `f64` API built on it: the sample arithmetic (means, RMS,
  dB, regressions, DFT, DCT, mel scale conversions) that the verifier cannot
  hold, calling the library for every decision.

`tests/` exercises the library on concrete values.
