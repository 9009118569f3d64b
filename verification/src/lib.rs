//! Forward-error-correction coding: a convolutional encoder, a
//! maximum-likelihood Viterbi decoder, a turbo encoder built from two
//! convolutional encoders and an index interleaver, and a small classical
//! cipher collection at the boundary of the coding engine.

pub mod cipher;
pub mod convolutional;
pub mod errors;
pub mod turbo;
pub mod viterbi;
