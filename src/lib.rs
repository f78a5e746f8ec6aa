//! Per-type statistics over a JSON Lines text: how many records carry each
//! `type`, and how many raw bytes those records take.

pub mod aggregate;
pub mod lines;
pub mod message;
pub mod stats;

pub use aggregate::group_messages;
pub use message::{InvalidMessageError, Message};
pub use stats::{GroupStats, Groups};
