use bittorrent::bencode::{encode_bencode, Bencode, BencodeDict};
use bittorrent::torrent_reader::{parse_torrent_bytes, torrent_size_fits};
use sha1::Digest;

fn dict(entries: Vec<(&str, Bencode)>) -> BencodeDict {
    let mut d = BencodeDict::new();
    for (k, v) in entries {
        d.insert(k.to_string(), v);
    }
    d
}

fn text(s: &str) -> Bencode {
    Bencode::String(s.as_bytes().to_vec())
}

fn single_file_info() -> BencodeDict {
    dict(vec![
        ("name", text("file.bin")),
        ("piece length", Bencode::Integer(16384)),
        ("pieces", Bencode::String(vec![7u8; 40])),
        ("length", Bencode::Integer(100000)),
    ])
}

#[test]
fn reads_a_single_file_torrent() {
    let info = single_file_info();
    let info_bytes = encode_bencode(&Bencode::Dictionary(single_file_info()));
    let top = dict(vec![
        ("announce", text("http://tracker.one/announce")),
        (
            "announce-list",
            Bencode::List(vec![
                Bencode::List(vec![text("http://tracker.one/announce"), text("udp://tracker.two:80")]),
                Bencode::Integer(5),
                Bencode::List(vec![Bencode::Integer(1), text("udp://tracker.two:80"), text("http://three/")]),
            ]),
        ),
        ("info", Bencode::Dictionary(info)),
    ]);
    let bytes = encode_bencode(&Bencode::Dictionary(top));
    assert!(torrent_size_fits(&bytes));
    let t = parse_torrent_bytes(&bytes).unwrap();
    assert_eq!(t.infohash, sha1::Sha1::digest(&info_bytes).to_vec());
    assert_eq!(t.infohash.len(), 20);
    assert_eq!(
        t.announce_list,
        vec![
            "http://tracker.one/announce".to_string(),
            "udp://tracker.two:80".to_string(),
            "http://three/".to_string()
        ]
    );
    assert_eq!(t.piece_length, 16384);
    assert_eq!(t.size, 100000);
    assert_eq!(t.pieces, vec![7u8; 40]);
}

fn torrent_with_info(info: Bencode) -> Vec<u8> {
    encode_bencode(&Bencode::Dictionary(dict(vec![("info", info)])))
}

fn parse_err(bytes: &[u8]) -> String {
    match parse_torrent_bytes(bytes) {
        Err(e) => e,
        Ok(_) => panic!("parsed"),
    }
}

#[test]
fn sums_the_lengths_of_files() {
    let info = dict(vec![
        ("piece length", Bencode::Integer(4)),
        ("pieces", Bencode::String(vec![1u8; 20])),
        (
            "files",
            Bencode::List(vec![
                Bencode::Dictionary(dict(vec![("length", Bencode::Integer(10))])),
                Bencode::Integer(99),
                Bencode::Dictionary(dict(vec![("path", text("a"))])),
                Bencode::Dictionary(dict(vec![("length", Bencode::Integer(32))])),
            ]),
        ),
    ]);
    let bytes = torrent_with_info(Bencode::Dictionary(info));
    let t = parse_torrent_bytes(&bytes).unwrap();
    assert_eq!(t.size, 42);
    assert!(t.announce_list.is_empty());
}

#[test]
fn negative_lengths_wrap_as_u64() {
    let info = dict(vec![
        ("piece length", Bencode::Integer(-1)),
        ("pieces", Bencode::String(Vec::new())),
        ("length", Bencode::Integer(-2)),
    ]);
    let t = parse_torrent_bytes(&torrent_with_info(Bencode::Dictionary(info))).unwrap();
    assert_eq!(t.piece_length, u64::MAX);
    assert_eq!(t.size, u64::MAX - 1);
}

#[test]
fn a_size_that_overflows_is_reported() {
    let big = Bencode::Dictionary(dict(vec![("length", Bencode::Integer(i64::MAX))]));
    let big2 = Bencode::Dictionary(dict(vec![("length", Bencode::Integer(i64::MAX))]));
    let big3 = Bencode::Dictionary(dict(vec![("length", Bencode::Integer(i64::MAX))]));
    let info = dict(vec![
        ("piece length", Bencode::Integer(4)),
        ("pieces", Bencode::String(Vec::new())),
        ("files", Bencode::List(vec![big, big2, big3])),
    ]);
    let bytes = torrent_with_info(Bencode::Dictionary(info));
    assert!(!torrent_size_fits(&bytes));
    assert!(torrent_size_fits(b"i1e"));
}

#[test]
fn reports_each_problem() {
    assert_eq!(parse_err(b"i1e"), "Failed to decode torrent into a dictionary");
    assert_eq!(parse_err(b"d"), "Failed to decode torrent into a dictionary");
    assert_eq!(parse_err(b"de"), "Missing 'info' key");
    assert_eq!(parse_err(&torrent_with_info(Bencode::Integer(1))), "The 'info' key is not a dictionary");
    let no_piece_length = dict(vec![("pieces", Bencode::String(Vec::new()))]);
    assert_eq!(
        parse_err(&torrent_with_info(Bencode::Dictionary(no_piece_length))),
        "Missing or invalid 'piece length'"
    );
    let no_pieces = dict(vec![("piece length", Bencode::Integer(1))]);
    assert_eq!(parse_err(&torrent_with_info(Bencode::Dictionary(no_pieces))), "Missing or invalid 'pieces'");
    let no_size = dict(vec![
        ("piece length", Bencode::Integer(1)),
        ("pieces", Bencode::String(Vec::new())),
    ]);
    assert_eq!(
        parse_err(&torrent_with_info(Bencode::Dictionary(no_size))),
        "Missing 'length' or 'files' in 'info'"
    );
}

#[test]
fn reports_trackers_that_are_not_utf8() {
    let top = dict(vec![
        ("announce", Bencode::String(vec![0xff])),
        ("info", Bencode::Integer(1)),
    ]);
    assert_eq!(parse_err(&encode_bencode(&Bencode::Dictionary(top))), "Invalid UTF-8 in 'announce'");
    let top = dict(vec![
        ("announce-list", Bencode::List(vec![Bencode::List(vec![Bencode::String(vec![0xc3])])])),
        ("info", Bencode::Integer(1)),
    ]);
    assert_eq!(parse_err(&encode_bencode(&Bencode::Dictionary(top))), "Invalid UTF-8 in 'announce-list'");
}
