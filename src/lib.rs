//! A small BitTorrent client core: the bencode codec, the metainfo model and
//! its info-hash, the tracker announce protocol, the peer wire codec and the
//! state machine that downloads and verifies one piece.
pub mod bencode;
pub mod download;
pub mod error;
pub mod peer;
pub mod torrent;
pub mod tracker;
