//! A small BitTorrent toolkit: the bencode format, torrent metadata,
//! tracker responses and peer wire messages.

pub mod decimal;
pub mod bencode;
pub mod wrappers;
pub mod structs_enums;
pub mod torrent_reader;
pub mod tracker;
pub mod peers;
