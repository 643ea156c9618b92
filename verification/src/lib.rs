//! Core of a leeching BitTorrent client: metainfo, tracker exchange, peer wire
//! protocol, piece bookkeeping and the decisions of the download coordinator.

pub mod bencode;
pub mod bitfield;
pub mod coordinator;
pub mod decimal;
pub mod digest;
pub mod endian;
pub mod error;
pub mod manager;
pub mod peer;
pub mod piece;
pub mod protocol;
pub mod swarm;
pub mod text;
pub mod torrent;
pub mod tracker;
