//! The records that the client passes around, and the BitTorrent message
//! identifiers.
use vstd::prelude::*;

pub use crate::bencode::Bencode;

verus! {

/// What the client knows of a torrent it downloads.
#[derive(Debug, Clone)]
pub struct TorrentInfo {
    pub infohash: Vec<u8>,
    pub announce_list: Vec<String>,
    pub num_pieces: u64,
    pub downloaded: u64,
    pub size: u64,
    pub pieces: Vec<u8>,
    pub peer_id: String,
}

/// One tracker and what the client reports to it.
#[derive(Debug)]
pub struct Tracker {
    pub tracker_url: String,
    pub port: u16,
    pub infohash: Vec<u8>,
    pub size: u64,
    pub peerid: String,
    pub downloaded: u64,
    pub uploaded: u64,
    pub interval: u64,
}

/// Message identifiers of the peer wire protocol, and the usual block length.
#[derive(Debug, Clone, Copy, PartialEq, Eq, Structural)]
pub enum BittorrentConstants {
    Choke,
    Unchoke,
    Interested,
    NotInterested,
    Have,
    Bitfield,
    Request,
    Piece,
    Cancel,
    Port,
    BlockLength,
}

/// The number that stands for each constant: message ids 0 to 9, and a
/// block length of 16384 (2^14) bytes.
pub open spec fn code_of(c: BittorrentConstants) -> u32 {
    match c {
        BittorrentConstants::Choke => 0,
        BittorrentConstants::Unchoke => 1,
        BittorrentConstants::Interested => 2,
        BittorrentConstants::NotInterested => 3,
        BittorrentConstants::Have => 4,
        BittorrentConstants::Bitfield => 5,
        BittorrentConstants::Request => 6,
        BittorrentConstants::Piece => 7,
        BittorrentConstants::Cancel => 8,
        BittorrentConstants::Port => 9,
        BittorrentConstants::BlockLength => 16384,
    }
}

/// The message whose id is `value`, if any.
pub open spec fn message_of(value: u8) -> Option<BittorrentConstants> {
    if value == 0 {
        Some(BittorrentConstants::Choke)
    } else if value == 1 {
        Some(BittorrentConstants::Unchoke)
    } else if value == 2 {
        Some(BittorrentConstants::Interested)
    } else if value == 3 {
        Some(BittorrentConstants::NotInterested)
    } else if value == 4 {
        Some(BittorrentConstants::Have)
    } else if value == 5 {
        Some(BittorrentConstants::Bitfield)
    } else if value == 6 {
        Some(BittorrentConstants::Request)
    } else if value == 7 {
        Some(BittorrentConstants::Piece)
    } else if value == 8 {
        Some(BittorrentConstants::Cancel)
    } else if value == 9 {
        Some(BittorrentConstants::Port)
    } else {
        None
    }
}

impl BittorrentConstants {
    /// The number that stands for this constant.
    pub fn code(&self) -> (res: u32)
        ensures
            res == code_of(*self),
    {
        match self {
            BittorrentConstants::Choke => 0,
            BittorrentConstants::Unchoke => 1,
            BittorrentConstants::Interested => 2,
            BittorrentConstants::NotInterested => 3,
            BittorrentConstants::Have => 4,
            BittorrentConstants::Bitfield => 5,
            BittorrentConstants::Request => 6,
            BittorrentConstants::Piece => 7,
            BittorrentConstants::Cancel => 8,
            BittorrentConstants::Port => 9,
            BittorrentConstants::BlockLength => 16384,
        }
    }

    /// The message whose id is `value`; ids above 9 are refused.
    pub fn try_from(value: u8) -> (res: Result<BittorrentConstants, &'static str>)
        ensures
            match message_of(value) {
                Some(c) => res == Ok::<BittorrentConstants, &'static str>(c),
                None => res matches Err(m) && m@ == "Invalid value for BittorrentConstants"@,
            },
    {
        match value {
            0 => Ok(BittorrentConstants::Choke),
            1 => Ok(BittorrentConstants::Unchoke),
            2 => Ok(BittorrentConstants::Interested),
            3 => Ok(BittorrentConstants::NotInterested),
            4 => Ok(BittorrentConstants::Have),
            5 => Ok(BittorrentConstants::Bitfield),
            6 => Ok(BittorrentConstants::Request),
            7 => Ok(BittorrentConstants::Piece),
            8 => Ok(BittorrentConstants::Cancel),
            9 => Ok(BittorrentConstants::Port),
            _ => Err("Invalid value for BittorrentConstants"),
        }
    }
}

/// The ids fixed by the peer wire protocol: choke 0, unchoke 1,
/// interested 2, not interested 3, have 4, bitfield 5, request 6, piece 7,
/// cancel 8, port 9; and the usual block length, 2^14 bytes.
pub proof fn law_message_ids()
    ensures
        code_of(BittorrentConstants::Choke) == 0 && message_of(0) == Some(BittorrentConstants::Choke),
        code_of(BittorrentConstants::Unchoke) == 1 && message_of(1) == Some(BittorrentConstants::Unchoke),
        code_of(BittorrentConstants::Interested) == 2 && message_of(2) == Some(
            BittorrentConstants::Interested,
        ),
        code_of(BittorrentConstants::NotInterested) == 3 && message_of(3) == Some(
            BittorrentConstants::NotInterested,
        ),
        code_of(BittorrentConstants::Have) == 4 && message_of(4) == Some(BittorrentConstants::Have),
        code_of(BittorrentConstants::Bitfield) == 5 && message_of(5) == Some(BittorrentConstants::Bitfield),
        code_of(BittorrentConstants::Request) == 6 && message_of(6) == Some(BittorrentConstants::Request),
        code_of(BittorrentConstants::Piece) == 7 && message_of(7) == Some(BittorrentConstants::Piece),
        code_of(BittorrentConstants::Cancel) == 8 && message_of(8) == Some(BittorrentConstants::Cancel),
        code_of(BittorrentConstants::Port) == 9 && message_of(9) == Some(BittorrentConstants::Port),
        code_of(BittorrentConstants::BlockLength) == 16384,
        forall|v: u8| v > 9 ==> message_of(v) is None,
{
}

/// Reading back the id of a message gives the message, and every id that
/// reads as a message is that message's id.
pub proof fn law_message_id_roundtrip(c: BittorrentConstants, value: u8)
    ensures
        c != BittorrentConstants::BlockLength ==> message_of(code_of(c) as u8) == Some(c),
        message_of(value) matches Some(m) ==> code_of(m) == value as u32,
{
}

} // verus!
