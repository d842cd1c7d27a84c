//! Activity tracking core: a bounded event channel, the debouncer that turns
//! start/stop reports into a status stream, the log writer's state machine
//! over fixed-size binary records, and the tag interner.
pub mod config;
pub mod debounce;
pub mod heartbeat;
pub mod log;
pub mod queue;
pub mod session;
pub mod tags;
pub mod text;

pub use queue::{channel, Receiver, Sender};
