//! Passive observation of the app-server protocol: which requests are
//! outstanding, which turns and commands are running, which threads are
//! loaded, and when the user last acted. Bytes are observed, never changed.
pub mod laws;
pub mod model;
pub mod observer;
pub mod wire;

pub use crate::protocol::observer::{Direction, ProtocolObserver, ProtocolSnapshot, ResumeAttempt};
