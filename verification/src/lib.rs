//! Index and ordering logic of prosodic feature extraction: how a signal is cut
//! into frames, which frames are local peaks, which autocorrelation lags form a
//! rhythm and in what order, and which bins a mel filter reads.

pub mod energy;
pub mod framing;
pub mod order;
pub mod pitch;
pub mod rhythm;
pub mod selection;
pub mod spectral_features;
