//! The raw argument type, shared with `builder`.

pub use crate::builder::arg::Arg;
