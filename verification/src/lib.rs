//! Per-channel moderation gate: a policy store of blacklist and exception
//! entries keyed by `(channel, role)`, a pure allow/deny decision engine,
//! and the per-message interception logic that applies the decision.

pub mod engine;
pub mod interceptor;
pub mod notice;
pub mod store;
