use bittorrent::bencode::{encode_bencode, Bencode, BencodeDict};
use bittorrent::structs_enums::Tracker;
use bittorrent::tracker::{
    announce_url, candidate_ports, classify_announce, classify_scheme, parse_announce_response,
    parse_compact_peers, parse_http, select_port, PeerAddr, TrackerKind,
};

fn dict(entries: Vec<(&str, Bencode)>) -> BencodeDict {
    let mut d = BencodeDict::new();
    for (k, v) in entries {
        d.insert(k.to_string(), v);
    }
    d
}

fn tracker() -> Tracker {
    Tracker {
        tracker_url: "http://t.example/ann".to_string(),
        port: 6881,
        infohash: vec![0x12, 0xab, b'a', b' ', b'Z', b'9', b'~'],
        size: 4,
        peerid: "RK01abcdef".to_string(),
        downloaded: 10,
        uploaded: 0,
        interval: 7,
    }
}

fn peer(a: u8, b: u8, c: u8, d: u8, port: u16) -> PeerAddr {
    PeerAddr { ip: [a, b, c, d], port }
}

#[test]
fn compact_peers_take_whole_six_byte_groups() {
    let bytes = vec![1, 2, 3, 4, 0x1a, 0xe1, 5, 6, 7, 8, 0, 80, 9, 9];
    assert_eq!(parse_compact_peers(&bytes), vec![peer(1, 2, 3, 4, 6881), peer(5, 6, 7, 8, 80)]);
    assert!(parse_compact_peers(&vec![1, 2, 3, 4, 5]).is_empty());
}

#[test]
fn compact_response_sets_interval() {
    let body = encode_bencode(&Bencode::Dictionary(dict(vec![
        ("interval", Bencode::Integer(900)),
        ("peers", Bencode::String(vec![10, 0, 0, 1, 0x1a, 0xe2])),
    ])));
    let mut t = tracker();
    let peers = parse_announce_response(&body, &mut t).unwrap();
    assert_eq!(peers, vec![peer(10, 0, 0, 1, 6882)]);
    assert_eq!(t.interval, 900);
    assert_eq!(t.port, 6881);
}

fn peer_dict(ip: Vec<u8>, port: i64) -> Bencode {
    Bencode::Dictionary(dict(vec![("ip", Bencode::String(ip)), ("port", Bencode::Integer(port))]))
}

#[test]
fn dictionary_peers_are_read_in_order() {
    let body = encode_bencode(&Bencode::Dictionary(dict(vec![
        ("interval", Bencode::Integer(60)),
        (
            "peers",
            Bencode::List(vec![
                peer_dict(vec![1, 1, 1, 1], 1),
                Bencode::Integer(5),
                Bencode::Dictionary(dict(vec![("ip", Bencode::String(vec![2, 2, 2, 2]))])),
                peer_dict(vec![3, 3, 3, 3], 65535),
            ]),
        ),
    ])));
    let mut t = tracker();
    let peers = parse_announce_response(&body, &mut t).unwrap();
    assert_eq!(peers, vec![peer(1, 1, 1, 1, 1), peer(3, 3, 3, 3, 65535)]);
    assert_eq!(t.interval, 60);
}

#[test]
fn bad_dictionary_peer_is_an_error_after_the_interval_is_set() {
    let body = encode_bencode(&Bencode::Dictionary(dict(vec![
        ("interval", Bencode::Integer(30)),
        ("peers", Bencode::List(vec![peer_dict(vec![1, 1, 1, 1], 70000)])),
    ])));
    let mut t = tracker();
    assert_eq!(parse_announce_response(&body, &mut t).unwrap_err(), "Invalid IP length or port");
    assert_eq!(t.interval, 30);
    let body = encode_bencode(&Bencode::Dictionary(dict(vec![
        ("interval", Bencode::Integer(30)),
        ("peers", Bencode::List(vec![peer_dict(vec![1, 1, 1], 80)])),
    ])));
    assert_eq!(parse_announce_response(&body, &mut t).unwrap_err(), "Invalid IP length or port");
}

#[test]
fn response_errors() {
    let mut t = tracker();
    assert_eq!(parse_announce_response(b"x", &mut t).unwrap_err(), "Failed to decode bencode");
    assert_eq!(parse_announce_response(b"i1e", &mut t).unwrap_err(), "Decoded data is not a dictionary");
    assert_eq!(parse_announce_response(b"de", &mut t).unwrap_err(), "Missing or invalid 'interval'");
    assert_eq!(t.interval, 7);
    assert_eq!(
        parse_announce_response(b"d8:intervali-1ee", &mut t).unwrap_err(),
        "Missing or invalid 'peers' data"
    );
    assert_eq!(t.interval, u64::MAX);
}

#[test]
fn http_body_is_read_from_bytes() {
    let body = encode_bencode(&Bencode::Dictionary(dict(vec![
        ("interval", Bencode::Integer(120)),
        ("peers", Bencode::String(vec![127, 0, 0, 1, 0, 22])),
    ])));
    let mut t = tracker();
    let peers = parse_http(bytes::Bytes::from(body), &mut t).unwrap();
    assert_eq!(peers, vec![peer(127, 0, 0, 1, 22)]);
    assert_eq!(t.interval, 120);
}

#[test]
fn announce_url_carries_the_query() {
    assert_eq!(
        announce_url(&tracker()),
        "http://t.example/ann?info_hash=%12%ABa%20Z9%7E&peer_id=RK01abcdef&port=6881&uploaded=0&downloaded=10&left=-6&event=started&compact=1"
    );
    let mut t = tracker();
    t.size = 1000;
    t.downloaded = 1;
    t.uploaded = 55;
    t.infohash = Vec::new();
    assert_eq!(
        announce_url(&t),
        "http://t.example/ann?info_hash=&peer_id=RK01abcdef&port=6881&uploaded=55&downloaded=1&left=999&event=started&compact=1"
    );
}

#[test]
fn ports_tried_and_chosen() {
    let ports = candidate_ports();
    assert_eq!(ports, vec![6881, 6882, 6883, 6884, 6885, 6886, 6887, 6888, 6969]);
    let open = vec![false, true, false, false, true, false, false, false, false];
    assert_eq!(select_port(0, &ports, &open), 6885);
    assert_eq!(select_port(0, &ports, &vec![false; 9]), 0);
    assert_eq!(select_port(8080, &ports, &open), 8080);
}

#[test]
fn trackers_are_classified_by_scheme() {
    assert_eq!(classify_scheme(&"http".to_string(), Some(8080)), Some((TrackerKind::Http, 8080)));
    assert_eq!(classify_scheme(&"udp".to_string(), None), Some((TrackerKind::Udp, 0)));
    assert_eq!(classify_scheme(&"https".to_string(), Some(1)), None);
    assert_eq!(
        classify_announce("http://tracker.example.com:8080/announce"),
        Some((TrackerKind::Http, 8080))
    );
    assert_eq!(classify_announce("udp://tracker.example.org:6969"), Some((TrackerKind::Udp, 6969)));
    assert_eq!(classify_announce("http://tracker.example.com/announce"), Some((TrackerKind::Http, 0)));
    assert_eq!(classify_announce("http://tracker.example.com:80/announce"), Some((TrackerKind::Http, 0)));
    assert_eq!(classify_announce("https://secure.example/announce"), None);
    assert_eq!(classify_announce("not a url"), None);
}
