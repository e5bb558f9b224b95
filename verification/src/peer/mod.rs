//! BitTorrent peer wire protocol: connection management, handshaking, and message codec.

pub mod conn;
pub mod dial;
pub mod handshake;
pub mod id;
pub mod message;
pub mod metadata_exchange;
pub mod mse;
