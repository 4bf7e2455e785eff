//! Enumeration of the distinct period profiles of binary strings whose length
//! is a power of two.
//!
//! A width-`w` bit window has a rotation period: the smallest shift after
//! which the window, compared under a mask that shrinks with the shift,
//! reproduces itself. The profile of a width-`2^k` string lists the period of
//! its top `2^j`-bit window for every `j` from 1 to `k`. This crate computes
//! the set of profiles realised by all `2^(2^k)` strings, using a halving
//! strategy over blocks of strings that share their upper half.

pub mod indicator;
pub mod period;
pub mod profile_set;
pub mod profiles;

pub use period::cycle_len;
pub use profile_set::ProfileSet;
pub use profiles::all_cycles;

