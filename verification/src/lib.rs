//! Token sampling filters over a sorted buffer of scored candidates.
//!
//! A [`types::LogitsBuffer`] holds `(token id, logit, probability)` entries
//! in descending order of logit, with a flag that tells whether the
//! probabilities are current. A [`types::Sampler`] shortens the buffer in
//! place; whatever it does, it leaves a prefix of what it was given.
//! [`samplers::top_p::SampleTopP`] cuts where the cumulative probability
//! reaches a target, [`samplers::tail_free::SampleTailFree`] where the
//! curvature of the probability curve has been used up.
//!
//! The arithmetic is abstracted by [`types::CanLogit`]. Every contract is
//! stated over the scalar's own operations, so it holds for any scalar
//! whose operations are functions of their arguments, rounding ones
//! included. [`fixed::Fixed`] is an exact scalar that makes the contracts
//! computable. [`configure`] lets tooling discover and change a sampler's
//! parameters.
pub mod configure;
pub mod fixed;
pub mod samplers;
pub mod types;
