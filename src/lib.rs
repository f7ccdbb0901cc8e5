//! A plookup-style lookup argument: witness triples are recorded against a
//! fixed table, compressed by a random linear combination, padded to
//! FFT-friendly sizes and split into the sorted halves that feed the
//! grand-product accumulator.
pub mod field;
pub mod multiset;
pub mod table;
pub mod lookup;
pub mod multiset_equality;
