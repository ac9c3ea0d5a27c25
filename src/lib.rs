//! Session registry and broadcast coordinator of a real-time messaging hub.
//!
//! The hub hands each connecting client an identifier that no other active
//! client holds, forgets it on disconnect, and tells its caller to which
//! delivery handles a chat message is to be pushed: every registered client
//! but its sender.

pub mod entropy;
pub mod laws;
pub mod manager;
pub mod message;
pub mod probe;

pub use manager::{lists_exactly, ChatManager};
pub use message::{ChatMessage, Connect, Disconnect};
