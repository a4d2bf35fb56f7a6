//! Core of a single-threaded mio worker: a message queue, a store of
//! upcoming timeouts, the state a worker context shares with its worker, and
//! the decisions the worker's event loop takes between polls.
pub mod context;
pub mod message;
pub mod timeout;
mod waker;
pub mod worker;

pub use context::{ContextState, ContextView};
pub use message::Messages;
pub use timeout::Timeouts;
pub use worker::{classify, Action, EventInfo, EventKind, Input, Phase, WorkerLoop, WAKER_TOKEN};
