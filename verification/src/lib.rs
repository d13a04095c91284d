//! Reed-Solomon erasure coding over binary extension fields, using the
//! additive FFT in the novel polynomial basis of Lin, Han and Chung
//! ("Novel Polynomial Basis and Its Application to Reed-Solomon Erasure
//! Codes", FOCS 2014).
//!
//! The engine works over two concrete fields, GF(2^16) and GF(2^8), whose
//! log/exp/skew tables are precomputed once into a [`field::Field`] value
//! and shared by immutable reference afterwards.

pub mod field;
pub mod transform;
pub mod tables;
pub mod codec;
pub mod engine;
