//! Vedette: the decision logic of a fast HTTP prober.
//!
//! Input lines become probe targets, targets become candidate URLs, a small
//! state machine decides which candidate to try next and when to give up, and
//! the pieces read from a response become one `ProbeResult` record.

pub mod text;
pub mod probe;
pub mod model;
pub mod response;
pub mod input;
pub mod config;
pub mod fetch;

pub use model::ProbeResult;
pub use probe::ProbeOptions;
