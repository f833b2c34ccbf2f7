//! The concrete samplers.
pub mod tail_free;
pub mod top_p;
