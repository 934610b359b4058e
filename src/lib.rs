//! Galois-field GF(2^w) arithmetic and a systematic Reed-Solomon erasure encoder.
pub mod error;
pub mod galois_field;
pub mod matrix;
pub mod reed_solomon;
