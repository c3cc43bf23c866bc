//! Shared signals.
pub mod cancel;
pub mod flag;
pub(crate) mod guarded;
pub mod turn_log;
pub mod watch;

pub use cancel::CancellationToken;
