//! Multi-party private set intersection with an offline/online split.

pub mod channel_utils;
pub mod cli_utils;
pub mod error;
pub mod field;
pub mod field_laws;
pub mod hash_utils;
pub mod preprocessed;
pub mod random;
pub mod set_utils;
pub mod solver;
pub mod vole;
