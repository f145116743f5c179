//! Core of an embeddable, callback-driven TCP server: length-prefixed
//! framing over raw byte streams, a registry of live connections, and
//! deferred removal signaling. The surrounding application owns the
//! sockets and the poll loop; this crate owns and verifies the logic
//! that decides what those loops do.

pub mod client;
pub mod codec;
pub mod control;
pub mod custom_types;
pub mod registry;
pub mod sendbuf;

pub use client::Client;
pub use client::FeedOutcome;
pub use control::ControlQueue;
pub use custom_types::ChannelDataType;
pub use custom_types::Message;
pub use custom_types::MessageType;
pub use registry::Registry;
pub use sendbuf::SendBuffer;
pub use sendbuf::prepare_send;
