//! A streaming implementation of SipHash with 64-bit and 128-bit outputs,
//! in the 1-3 and 2-4 round variants, verified against a mathematical model
//! of the algorithm.

pub mod sip128;
pub mod words;
