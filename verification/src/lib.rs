//! stormdrain: the core of a BitTorrent client.
//!
//! The modules hold what a client computes and decides: file formats and wire
//! messages, the state of pieces and downloads, and the course of every
//! exchange with trackers, peers and the DHT. Sockets, files and clocks belong
//! to the program around it, which performs the actions that the state machines
//! here ask for and reports what came of them.

pub mod octets;
pub mod text;
pub mod random;
pub mod digest;
pub mod buffer;
pub mod error;
pub mod types;
pub mod bencode;
pub mod magnet;
pub mod metainfo;
pub mod piece_manager;
pub mod piece_download;
pub mod file_writer;
pub mod rate;
pub mod resume;
pub mod peer;
pub mod tracker;
pub mod dht;
pub mod announce;
pub mod peer_task;
pub mod download;
pub mod seed;

// Convenience re-exports.
pub use download::DownloadState;
pub use error::{Error, Result};
pub use metainfo::Metainfo;
