//! The preprocessing protocol: oblivious (programmable) pseudorandom
//! functions with an offline phase, and the set intersection built on them.

pub mod opprf;
pub mod oprf;
pub mod psi;
