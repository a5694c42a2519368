//! A frame-synchronous deferred task scheduler.
//!
//! Long-running background jobs are launched from a single-threaded
//! simulation loop, polled once per tick without blocking, and their
//! results are funneled back into shared world state at a single,
//! well-defined application point per tick.
//!
//! - [`ids`]: what it means for the identifier families to be
//!   duplicate-free, bounded and mutually disjoint.
//! - [`registry`]: globally addressable, read-only resource handles.
//! - [`world`]: the shared world state that batches mutate, and bulk
//!   removal of entities by screen tag.
//! - [`batch`]: deferred mutations, described as data and applied later.
//! - [`scheduler`]: the job handle table, the deferred mutation queue,
//!   and the per-tick poll/apply step.
//! - [`lifecycle`]: on-enter / on-exit hooks for a screen.
//! - [`laws`]: proved statements relating the pieces above.

pub mod ids;
pub mod registry;
pub mod world;
pub mod batch;
pub mod scheduler;
pub mod lifecycle;
pub mod laws;
