//! A BitTorrent tracker client core: bencode, the metainfo model with its
//! info-hash, and the UDP tracker protocol, with every decision of the
//! protocol made by a state machine that performs no I/O.
pub mod bencode;
pub mod session;
pub mod torrent;
pub mod wire;
