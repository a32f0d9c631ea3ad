//! Session-multiplexed RPC substrate: the wire codec, identifier factories,
//! object tracking, event broadcasting, sessions and the settings service.
pub mod codec;
pub mod message;
pub mod ids;
pub mod tracker;
pub mod events;
pub mod json;
pub mod store;
pub mod protocol;
pub mod observers;
pub mod service;
pub mod session;
pub mod daemon;
pub mod contacts;
pub mod time;
pub mod cards;
