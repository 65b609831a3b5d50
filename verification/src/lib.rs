//! Cleanup of fork branches whose pull request has reached a terminal state.
//!
//! The library holds the decisions of a cleanup run: which pull-request states
//! count as cleanable, how lookups are handed out under a bound on the number
//! in flight, how their results are filtered and gathered into an ordered map
//! keyed by pull request, which entries are selected, and which branch names
//! are deleted. Talking to the hosting service and to the operator is left to
//! the caller, who feeds the outcomes back as events.

pub mod policy;
pub mod ordered;
pub mod reconciled;
pub mod resolver;
pub mod scheduler;
pub mod selection;
pub mod cleanup;
