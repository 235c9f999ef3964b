use bittorrent::peers::{handshake_packet, handshake_reply_valid, interested_message};
use bittorrent::structs_enums::{BittorrentConstants, TorrentInfo};

fn info() -> TorrentInfo {
    TorrentInfo {
        infohash: (1..=20).collect(),
        announce_list: Vec::new(),
        num_pieces: 3,
        downloaded: 0,
        size: 100,
        pieces: Vec::new(),
        peer_id: "RK01peer".to_string(),
    }
}

#[test]
fn handshake_layout() {
    let ti = info();
    let packet = handshake_packet(&ti);
    let width = std::mem::size_of::<usize>();
    let mut expected = vec![0u8; width - 1];
    expected.push(19);
    expected.extend_from_slice(b"Bittorrent Protocol");
    expected.extend_from_slice(&[0u8; 8]);
    expected.extend_from_slice(&ti.infohash);
    expected.extend_from_slice(b"RK01peer");
    assert_eq!(packet, expected);
}

#[test]
fn handshake_reply_checks() {
    let ti = info();
    let mut reply = vec![0u8; 68];
    assert!(!handshake_reply_valid(&reply, 40, &ti));
    let packet = handshake_packet(&ti);
    let n = packet.len().min(68);
    reply[..n].copy_from_slice(&packet[..n]);
    // The first two bytes are compared with the whole length prefix, which
    // is longer, so no reply passes.
    assert!(!handshake_reply_valid(&reply, 68, &ti));
}

#[test]
fn interested_message_bytes() {
    assert_eq!(interested_message(), vec![1, 2]);
}

#[test]
fn message_ids() {
    for v in 0u8..=9 {
        let c = BittorrentConstants::try_from(v).unwrap();
        assert_eq!(c.code(), v as u32);
    }
    assert_eq!(BittorrentConstants::try_from(2).unwrap(), BittorrentConstants::Interested);
    assert_eq!(BittorrentConstants::try_from(10).unwrap_err(), "Invalid value for BittorrentConstants");
    assert_eq!(BittorrentConstants::BlockLength.code(), 16384);
}
