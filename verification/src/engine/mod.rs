//! One token through the layers of a model.
//!
//! Float work is handed out piece by piece. What each piece gets to see, what becomes of its
//! outcome, and what is kept for the next token is fixed here.
//!
//! - [`formula`]: what a layer computes, as equations.
//! - [`jobs`]: the pieces of float work.
//! - [`progress`]: what operations, layers and all layers together make of a token.
//! - [`laws`]: what every operation keeps.
//! - [`step`]: running one token.

pub mod formula;
pub mod jobs;
pub mod laws;
pub mod progress;
pub mod step;

pub use jobs::{DeltaJob, Job};
