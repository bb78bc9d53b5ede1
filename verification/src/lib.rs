//! Recovery of hidden byte-string fragments from an oracle that corrupts a
//! known base sequence.
//!
//! The oracle draws from a shared xorshift128+-style generator to place a few
//! corruption symbols into a base sequence and to overlay one secret fragment
//! chosen from a small array. An attacker that shares the generator can
//! recover the generator's internal state from four observed draws, mirror
//! the stream, and steer the oracle into configurations that reveal every
//! fragment.
//!
//! The generator emits values in `[0, 1)` whose fraction is a 52-bit integer:
//! a draw with state `s` has the exact value `(s >> 12) / 2^52`. This crate
//! works on those 52-bit numerators directly, so every comparison and every
//! `floor(draw * n)` is exact integer arithmetic.

pub mod common;
pub mod divine;
pub mod random;
pub mod sim;
