//! An in-process, callback-based task scheduler with a side control channel.
//!
//! The registry and its dispatcher are plain, verified data structures: they
//! decide which callbacks leave the store on each `execute`, which tasks stay
//! registered, and which running units are cancelled on `stop`. Spawning and
//! sleeping are left to the caller's runtime.
pub mod task;
pub mod scheduler;
pub mod channel;
pub mod effects;

pub use scheduler::Scheduler;
pub use task::Task;
pub use channel::Channel;
