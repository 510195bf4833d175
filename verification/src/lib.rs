//! Relay hub for collaborative editing: named rooms of sessions exchanging
//! opaque update messages, with bounded per-session outbound queues, eviction
//! of slow consumers, and idempotent membership maintenance.

pub mod args;
pub mod assets;
pub mod hub;
pub mod laws;
pub mod message;
pub mod registry;
pub mod room;
pub mod session;

pub use message::{Message, MessageView};
pub use room::{Room, RoomView};
pub use session::{Session, SessionView};
