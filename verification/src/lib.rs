//! Transport supervision rules for a managed Codex app-server channel:
//! bootstrap command classification, protocol observation, reclamation and
//! file-descriptor policies.
pub mod clock;
pub mod fd_guard;
pub mod bytes;
pub mod protocol;
pub mod json;
pub mod text;
pub mod bootstrap;
pub mod reclaim;
pub mod number;
pub mod session;
pub mod takeover;
pub mod rpc;
pub mod supervisor;
pub mod marketplace;
pub mod process;
