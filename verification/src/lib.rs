//! Behavior-oriented concurrency: behaviors that each ask for exclusive,
//! atomic access to a set of resources and are run once all of them are
//! free, without a lock taken by the caller and without deadlock.
//!
//! - `model`: the protocol as a transition system.
//! - `safety`: the invariant of the protocol, preserved by every step.
//! - `laws`: mutual exclusion, one order for all queues, first in first
//!   out, bodies run once.
//! - `progress`: freedom from deadlock.
//! - `request`, `order`: requests and the order in which they are presented.
//! - `scheduler`: the protocol as data and operations, step by step.
//! - `drive`: whole parts of the protocol in one go.
//! - `runtime`: resources with payloads, and behaviors run on a thread pool.

pub mod drive;
pub mod laws;
pub mod model;
pub mod order;
pub mod progress;
pub mod request;
pub mod runtime;
pub mod safety;
pub mod scheduler;
pub mod tally;

pub use request::{sort_requests, Request};
pub use runtime::{run_when, CownPtr, CownPtrs, Runtime};
pub use scheduler::{Action, Behavior, Scheduler, Stage, SubmitError};
