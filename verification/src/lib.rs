//! Core of a small threaded chat system: the room and server protocol state
//! machine with its validation and fanout rules, and the client's tree
//! layout engine over an in-memory message store, with verified contracts.

pub mod blocks;
pub mod config;
pub mod ids;
pub mod input;
pub mod laws;
pub mod layout;
pub mod packets;
pub mod room;
pub mod runtime;
pub mod server;
pub mod store;
pub mod validate;
