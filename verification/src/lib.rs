//! A finite state machine definition language: tokens in, a checked,
//! flattened machine plan out, plus the runtime dispatch rules that the
//! generated machines follow.

pub mod tokens;
pub mod model;
pub mod tree;
pub mod error;
pub mod coverage;
pub mod validate;
pub mod plan;
pub mod runtime;
pub mod expand;
pub mod parse;
