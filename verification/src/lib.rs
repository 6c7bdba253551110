//! Context-interruption registry for a request scheduler.
//!
//! A scheduler asks, for each request it works on, whether the request has been aborted in the
//! meantime. Aborts come from elsewhere, often before or while the request arrives. The registry
//! keeps them, by prefix of the request's id, until they are acknowledged or too old.
//!
//! * [`InterruptController`] is the registry with its clock, for one owner.
//! * [`SharedInterruptController`] is the same behind a reader-writer lock, for many threads.
//! * [`registry`] is the registry as a machine that is told the time, and [`inner`] its table of
//!   registered aborts.
//! * [`state`] is the model in which the contracts are stated, [`meaning`] what each operation does
//!   in plain terms, and [`laws`] what the registry promises as a whole.
//! * [`calls`] tells operations apart, so that a call on a shared registry can say which one it
//!   performs.
pub mod calls;
pub mod clock;
pub mod controller;
pub mod inner;
pub mod laws;
pub mod meaning;
pub mod reason;
pub mod registry;
pub mod shared;
pub mod state;
pub mod stats;
pub mod text;

pub use controller::InterruptController;
pub use reason::AbortReason;
pub use shared::SharedInterruptController;
pub use state::AbortInfo;
pub use stats::Stats;
