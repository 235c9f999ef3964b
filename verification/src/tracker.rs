//! Talking to trackers: the announce request, and what an announce
//! response says about the interval and the peers.
use vstd::prelude::*;
use vstd::string::StringExecFns;
use vstd::utf8::{decode_utf8, encode_utf8, encode_utf8_decode_utf8, is_ascii_chars, is_ascii_chars_encode_utf8};
use crate::bencode::{
    decode_value, decode_value_at, dict_lookup, lemma_values_of_index, value_of, values_of, Bencode,
    BencodeValue,
};
use crate::decimal::{decimal_digits, decimal_text, lemma_decimal_digits, push_decimal_u64};
use crate::structs_enums::Tracker;
use crate::wrappers::{
    bytes_contents, bytes_to_vec, parse_url_scheme_and_port, percent_encode_non_alphanumeric,
    str_from_utf8, url_scheme_and_port,
};

verus! {

/// An ASCII letter or digit.
pub open spec fn is_alphanumeric(b: u8) -> bool {
    (48 <= b <= 57) || (65 <= b <= 90) || (97 <= b <= 122)
}

/// The upper-case hexadecimal digit of `d` (below 16).
pub open spec fn hex_digit(d: u8) -> char {
    if d < 10 {
        (48 + d) as char
    } else {
        (55 + d) as char
    }
}

/// Percent-encoding of every byte that is not an ASCII letter or digit.
pub open spec fn percent_encoded(b: Seq<u8>) -> Seq<char>
    decreases b.len(),
{
    if b.len() == 0 {
        Seq::empty()
    } else {
        let x = b.last();
        let piece = if is_alphanumeric(x) {
            seq![x as char]
        } else {
            seq!['%', hex_digit(x / 16), hex_digit(x % 16)]
        };
        percent_encoded(b.drop_last()) + piece
    }
}

/// A peer's IPv4 address and port.
#[derive(Debug, Clone, Copy, PartialEq, Eq)]
pub struct PeerAddr {
    pub ip: [u8; 4],
    pub port: u16,
}

/// A peer as its address bytes and port.
pub open spec fn peer_view(p: PeerAddr) -> (Seq<u8>, u16) {
    (p.ip@, p.port)
}

/// A list of peers as address bytes and ports.
pub open spec fn peers_view(v: Seq<PeerAddr>) -> Seq<(Seq<u8>, u16)> {
    v.map_values(|p: PeerAddr| peer_view(p))
}

/// The peers of the compact form: every whole 6 bytes are 4 address bytes
/// and a big-endian port; a shorter tail is ignored.
pub open spec fn compact_peers(b: Seq<u8>) -> Seq<(Seq<u8>, u16)> {
    Seq::new(
        b.len() / 6,
        |k: int| (b.subrange(6 * k, 6 * k + 4), (b[6 * k + 4] as int * 256 + b[6 * k + 5] as int) as u16),
    )
}

/// Reads peers in the compact form.
pub fn parse_compact_peers(peers: &Vec<u8>) -> (res: Vec<PeerAddr>)
    ensures
        peers_view(res@) == compact_peers(peers@),
{
    let mut result: Vec<PeerAddr> = Vec::new();
    let mut i: usize = 0;
    let mut k: usize = 0;
    while peers.len() - i >= 6
        invariant
            i == 6 * k,
            i <= peers@.len(),
            peers_view(result@) == compact_peers(peers@).take(k as int),
            k <= peers@.len() / 6,
        decreases peers@.len() - i,
    {
        let ip: [u8; 4] = [peers[i], peers[i + 1], peers[i + 2], peers[i + 3]];
        let port: u16 = (peers[i + 4] as u16) * 256 + peers[i + 5] as u16;
        let ghost before = result@;
        result.push(PeerAddr { ip, port });
        proof {
            assert(ip@ =~= peers@.subrange(i as int, i + 4));
            assert(peers_view(result@) =~= peers_view(before).push(peer_view(PeerAddr { ip, port })));
            assert(compact_peers(peers@).take(k + 1) =~= compact_peers(peers@).take(k as int).push(
                compact_peers(peers@)[k as int],
            ));
        }
        i = i + 6;
        k = k + 1;
    }
    assert(compact_peers(peers@).take(k as int) =~= compact_peers(peers@));
    result
}

/// The peers of the dictionary form: each dictionary with a byte-string
/// `ip` and an integer `port`; `None` where an `ip` is not 4 bytes or a
/// `port` is not in 0..=65535. Other items are passed over.
pub open spec fn dict_peers(items: Seq<BencodeValue>) -> Option<Seq<(Seq<u8>, u16)>>
    decreases items.len(),
{
    if items.len() == 0 {
        Some(Seq::empty())
    } else {
        let rest = dict_peers(items.drop_first());
        match items[0] {
            BencodeValue::Dict(pd) => match (dict_lookup(pd, "ip"@), dict_lookup(pd, "port"@)) {
                (Some(BencodeValue::Bytes(ip)), Some(BencodeValue::Int(port))) => if ip.len() == 4 && 0
                    <= port <= 65535 {
                    match rest {
                        Some(r) => Some(seq![(ip, port as u16)] + r),
                        None => None,
                    }
                } else {
                    None
                },
                _ => rest,
            },
            _ => rest,
        }
    }
}

/// What an announce response says: the interval it sets (where it got that
/// far), and its peers or the message of the problem found.
pub open spec fn announce_response(body: Seq<u8>) -> (Option<u64>, Result<Seq<(Seq<u8>, u16)>, Seq<char>>) {
    match decode_value_at(body, 0).0 {
        Err(_) => (None, Err("Failed to decode bencode"@)),
        Ok(BencodeValue::Dict(d)) => match dict_lookup(d, "interval"@) {
            Some(BencodeValue::Int(i)) => (
                Some(i as u64),
                match dict_lookup(d, "peers"@) {
                    Some(BencodeValue::Bytes(p)) => Ok(compact_peers(p)),
                    Some(BencodeValue::List(items)) => match dict_peers(items) {
                        Some(r) => Ok(r),
                        None => Err("Invalid IP length or port"@),
                    },
                    _ => Err("Missing or invalid 'peers' data"@),
                },
            ),
            _ => (None, Err("Missing or invalid 'interval'"@)),
        },
        Ok(_) => (None, Err("Decoded data is not a dictionary"@)),
    }
}

/// The tracker after a response: only its interval changes, and only where
/// the response sets one.
pub open spec fn tracker_after(t: Tracker, interval: Option<u64>) -> Tracker {
    match interval {
        Some(i) => Tracker { interval: i, ..t },
        None => t,
    }
}

/// The peers of a list of peer dictionaries.
fn peers_of_list(items: &Vec<Bencode>) -> (res: Option<Vec<PeerAddr>>)
    ensures
        match dict_peers(values_of(items@)) {
            Some(r) => res matches Some(v) && peers_view(v@) == r,
            None => res is None,
        },
{
    let ghost iv = values_of(items@);
    proof {
        lemma_values_of_index(items@);
    }
    let mut result: Vec<PeerAddr> = Vec::new();
    let mut j: usize = 0;
    assert(iv.skip(0) =~= iv);
    assert(peers_view(result@) =~= Seq::<(Seq<u8>, u16)>::empty());
    while j < items.len()
        invariant
            j <= items@.len(),
            iv == values_of(items@),
            iv.len() == items@.len(),
            forall|k: int| 0 <= k < items@.len() ==> #[trigger] iv[k] == value_of(items@[k]),
            dict_peers(iv) == match dict_peers(iv.skip(j as int)) {
                Some(r) => Some(peers_view(result@) + r),
                None => None,
            },
        decreases items@.len() - j,
    {
        proof {
            assert(iv.skip(j as int)[0] == iv[j as int]);
            assert(iv.skip(j as int).drop_first() =~= iv.skip(j + 1));
        }
        match &items[j] {
            Bencode::Dictionary(pd) => {
                match (pd.get("ip"), pd.get("port")) {
                    (Some(Bencode::String(ip)), Some(Bencode::Integer(port))) => {
                        if ip.len() == 4 && 0 <= *port && *port <= 65535 {
                            let addr = PeerAddr { ip: [ip[0], ip[1], ip[2], ip[3]], port: *port as u16 };
                            let ghost before = result@;
                            result.push(addr);
                            proof {
                                assert(addr.ip@ =~= ip@);
                                assert(peers_view(result@) =~= peers_view(before).push((ip@, *port as u16)));
                                match dict_peers(iv.skip(j + 1)) {
                                    Some(r) => {
                                        assert(peers_view(before) + (seq![(ip@, *port as u16)] + r)
                                            =~= peers_view(result@) + r);
                                    },
                                    None => {},
                                }
                            }
                        } else {
                            return None;
                        }
                    },
                    _ => {},
                }
            },
            _ => {},
        }
        j = j + 1;
    }
    assert(iv.skip(j as int) =~= Seq::<BencodeValue>::empty());
    assert(peers_view(result@) + Seq::<(Seq<u8>, u16)>::empty() =~= peers_view(result@));
    Some(result)
}

/// Reads an announce response: sets the tracker's interval from `interval`
/// and returns the peers, compact or as dictionaries.
pub fn parse_announce_response(body: &[u8], tracker: &mut Tracker) -> (res: Result<Vec<PeerAddr>, String>)
    ensures
        *final(tracker) == tracker_after(*old(tracker), announce_response(body@).0),
        match announce_response(body@).1 {
            Ok(r) => res matches Ok(v) && peers_view(v@) == r,
            Err(m) => res matches Err(e) && e@ == m,
        },
{
    let mut index: usize = 0;
    let decoded = match decode_value(body, &mut index) {
        Ok(b) => b,
        Err(_) => {
            return Err("Failed to decode bencode".to_owned());
        },
    };
    let decoded_dict = match decoded {
        Bencode::Dictionary(d) => d,
        _ => {
            return Err("Decoded data is not a dictionary".to_owned());
        },
    };
    let interval: i64 = match decoded_dict.get("interval") {
        Some(Bencode::Integer(i)) => *i,
        _ => {
            return Err("Missing or invalid 'interval'".to_owned());
        },
    };
    tracker.interval = interval as u64;
    match decoded_dict.get("peers") {
        Some(Bencode::String(peers)) => Ok(parse_compact_peers(peers)),
        Some(Bencode::List(peers_list)) => match peers_of_list(peers_list) {
            Some(v) => Ok(v),
            None => Err("Invalid IP length or port".to_owned()),
        },
        _ => Err("Missing or invalid 'peers' data".to_owned()),
    }
}

/// Reads an HTTP tracker's response body; see `parse_announce_response`.
pub fn parse_http(body: bytes::Bytes, tracker: &mut Tracker) -> (res: Result<Vec<PeerAddr>, String>)
    ensures
        *final(tracker) == tracker_after(*old(tracker), announce_response(bytes_contents(body)).0),
        match announce_response(bytes_contents(body)).1 {
            Ok(r) => res matches Ok(v) && peers_view(v@) == r,
            Err(m) => res matches Err(e) && e@ == m,
        },
{
    let raw = bytes_to_vec(&body);
    parse_announce_response(raw.as_slice(), tracker)
}

/// The characters of ASCII bytes.
pub open spec fn ascii_text(b: Seq<u8>) -> Seq<char> {
    b.map_values(|x: u8| x as char)
}

/// ASCII bytes are valid UTF-8 and stand for the same characters.
proof fn lemma_ascii_decode(b: Seq<u8>)
    requires
        forall|i: int| 0 <= i < b.len() ==> #[trigger] b[i] < 128,
    ensures
        decode_utf8(b) == ascii_text(b),
{
    let chars = ascii_text(b);
    assert(is_ascii_chars(chars));
    is_ascii_chars_encode_utf8(chars);
    assert(encode_utf8(chars) =~= b);
    encode_utf8_decode_utf8(chars);
}

/// The text of ASCII bytes.
fn ascii_string(v: &Vec<u8>) -> (res: String)
    requires
        forall|i: int| 0 <= i < v@.len() ==> #[trigger] v@[i] < 128,
    ensures
        res@ == ascii_text(v@),
{
    proof {
        lemma_ascii_decode(v@);
        let chars = ascii_text(v@);
        is_ascii_chars_encode_utf8(chars);
        assert(encode_utf8(chars) =~= v@);
        vstd::utf8::encode_utf8_valid_utf8(chars);
    }
    match str_from_utf8(v.as_slice()) {
        Some(s) => {
            proof {
                encode_utf8_decode_utf8(s@);
            }
            s.to_owned()
        },
        None => {
            assert(false);
            String::new()
        },
    }
}

/// The decimal text of `n`.
fn decimal_string(n: u64) -> (res: String)
    ensures
        res@ == ascii_text(decimal_digits(n as nat)),
{
    let mut v: Vec<u8> = Vec::new();
    push_decimal_u64(&mut v, n);
    proof {
        lemma_decimal_digits(n as nat);
        assert(v@ =~= decimal_digits(n as nat));
    }
    ascii_string(&v)
}

/// The decimal text of `size - downloaded`, negative where more was
/// downloaded than the torrent holds.
fn left_string(size: u64, downloaded: u64) -> (res: String)
    ensures
        res@ == ascii_text(decimal_text(size - downloaded)),
{
    let mut v: Vec<u8> = Vec::new();
    if downloaded <= size {
        push_decimal_u64(&mut v, size - downloaded);
        proof {
            lemma_decimal_digits((size - downloaded) as nat);
        }
    } else {
        v.push(45);
        push_decimal_u64(&mut v, downloaded - size);
        proof {
            lemma_decimal_digits((downloaded - size) as nat);
            assert(v@ =~= seq![45u8] + decimal_digits((downloaded - size) as nat));
        }
    }
    assert(v@ =~= decimal_text(size - downloaded));
    ascii_string(&v)
}

/// The announce URL for a tracker: its URL, then the percent-encoded info
/// hash, the peer id, the port, the bytes uploaded, downloaded and left,
/// `event=started` and `compact=1`.
pub open spec fn announce_url_text(t: Tracker) -> Seq<char> {
    t.tracker_url@ + "?info_hash="@ + percent_encoded(t.infohash@) + "&peer_id="@ + t.peerid@
        + "&port="@ + ascii_text(decimal_digits(t.port as nat)) + "&uploaded="@ + ascii_text(
        decimal_digits(t.uploaded as nat),
    ) + "&downloaded="@ + ascii_text(decimal_digits(t.downloaded as nat)) + "&left="@
        + ascii_text(decimal_text(t.size - t.downloaded)) + "&event=started&compact=1"@
}

/// The URL of the first announce request to a tracker.
pub fn announce_url(tracker: &Tracker) -> (res: String)
    ensures
        res@ == announce_url_text(*tracker),
{
    let mut url = tracker.tracker_url.clone();
    url.append("?info_hash=");
    let hash = percent_encode_non_alphanumeric(tracker.infohash.as_slice());
    url.append(hash.as_str());
    url.append("&peer_id=");
    url.append(tracker.peerid.as_str());
    url.append("&port=");
    let port = decimal_string(tracker.port as u64);
    url.append(port.as_str());
    url.append("&uploaded=");
    let uploaded = decimal_string(tracker.uploaded);
    url.append(uploaded.as_str());
    url.append("&downloaded=");
    let downloaded = decimal_string(tracker.downloaded);
    url.append(downloaded.as_str());
    url.append("&left=");
    let left = left_string(tracker.size, tracker.downloaded);
    url.append(left.as_str());
    url.append("&event=started&compact=1");
    url
}

/// The ports tried, in order, when an HTTP tracker's URL names none.
pub fn candidate_ports() -> (res: Vec<u16>)
    ensures
        res@ == seq![6881u16, 6882, 6883, 6884, 6885, 6886, 6887, 6888, 6969],
{
    let mut ports: Vec<u16> = Vec::new();
    let mut p: u16 = 6881;
    while p < 6889
        invariant
            6881 <= p <= 6889,
            ports@.len() == p - 6881,
            forall|i: int| 0 <= i < ports@.len() ==> #[trigger] ports@[i] == 6881 + i,
        decreases 6889 - p,
    {
        ports.push(p);
        p = p + 1;
    }
    ports.push(6969);
    assert(ports@ =~= seq![6881u16, 6882, 6883, 6884, 6885, 6886, 6887, 6888, 6969]);
    ports
}

/// The last candidate found open, or 0 where none was.
pub open spec fn last_open_port(candidates: Seq<u16>, open: Seq<bool>) -> u16
    decreases candidates.len(),
{
    if candidates.len() == 0 || open.len() != candidates.len() {
        0
    } else if open.last() {
        candidates.last()
    } else {
        last_open_port(candidates.drop_last(), open.drop_last())
    }
}

/// The port to announce to: the one the URL gave, else the last of the
/// candidates that was found open (each later open one replaces an earlier
/// one), else 0.
pub fn select_port(current: u16, candidates: &Vec<u16>, open: &Vec<bool>) -> (res: u16)
    requires
        candidates@.len() == open@.len(),
    ensures
        res == (if current != 0 {
            current
        } else {
            last_open_port(candidates@, open@)
        }),
{
    if current != 0 {
        return current;
    }
    let mut port: u16 = 0;
    let mut i: usize = 0;
    while i < candidates.len()
        invariant
            i <= candidates@.len(),
            candidates@.len() == open@.len(),
            port == last_open_port(candidates@.take(i as int), open@.take(i as int)),
        decreases candidates@.len() - i,
    {
        proof {
            assert(candidates@.take(i + 1).drop_last() =~= candidates@.take(i as int));
            assert(open@.take(i + 1).drop_last() =~= open@.take(i as int));
        }
        if open[i] {
            port = candidates[i];
        }
        i = i + 1;
    }
    assert(candidates@.take(i as int) =~= candidates@);
    assert(open@.take(i as int) =~= open@);
    port
}

/// The two kinds of tracker the client talks to.
#[derive(Debug, Clone, Copy, PartialEq, Eq, Structural)]
pub enum TrackerKind {
    Http,
    Udp,
}

/// The kind of a tracker by its URL's scheme, with the URL's port or 0;
/// `None` for any other scheme.
pub open spec fn tracker_kind_of(scheme: Seq<char>, port: Option<u16>) -> Option<(TrackerKind, u16)> {
    let p: u16 = match port {
        Some(x) => x,
        None => 0,
    };
    if scheme == "http"@ {
        Some((TrackerKind::Http, p))
    } else if scheme == "udp"@ {
        Some((TrackerKind::Udp, p))
    } else {
        None
    }
}

/// The kind and port of a tracker from its URL's scheme and port.
pub fn classify_scheme(scheme: &String, port: Option<u16>) -> (res: Option<(TrackerKind, u16)>)
    ensures
        res == tracker_kind_of(scheme@, port),
{
    let p: u16 = match port {
        Some(x) => x,
        None => 0,
    };
    let http = "http".to_owned();
    let udp = "udp".to_owned();
    if *scheme == http {
        Some((TrackerKind::Http, p))
    } else if *scheme == udp {
        Some((TrackerKind::Udp, p))
    } else {
        None
    }
}

/// The kind and port of a tracker from its announce URL; `None` where the
/// URL does not parse or names another scheme.
pub fn classify_announce(url: &str) -> (res: Option<(TrackerKind, u16)>)
    ensures
        res == match url_scheme_and_port(url@) {
            None => None,
            Some(parts) => tracker_kind_of(parts.0, parts.1),
        },
{
    match parse_url_scheme_and_port(url) {
        None => None,
        Some((scheme, port)) => classify_scheme(&scheme, port),
    }
}


/// The port chosen from probes is the candidate of the last probe that
/// found a port open, whichever place that is; it is 0 only when no probe
/// found one.
pub proof fn law_last_open_port(candidates: Seq<u16>, open: Seq<bool>, k: int)
    requires
        candidates.len() == open.len(),
    ensures
        0 <= k < open.len() && open[k] && (forall|j: int| k < j < open.len() ==> !open[j])
            ==> last_open_port(candidates, open) == candidates[k],
        (forall|j: int| 0 <= j < open.len() ==> !open[j]) ==> last_open_port(candidates, open) == 0,
    decreases candidates.len(),
{
    if candidates.len() > 0 {
        let n = candidates.len() - 1;
        let c2 = candidates.drop_last();
        let o2 = open.drop_last();
        law_last_open_port(c2, o2, k);
        if 0 <= k < n && open[k] && (forall|j: int| k < j < open.len() ==> !open[j]) {
            assert(!open[n]);
            assert(o2[k] == open[k]);
            assert(c2[k] == candidates[k]);
            assert forall|j: int| k < j < o2.len() implies !o2[j] by {
                assert(o2[j] == open[j]);
            }
        }
        if forall|j: int| 0 <= j < open.len() ==> !open[j] {
            assert(!open[n]);
            assert forall|j: int| 0 <= j < o2.len() implies !o2[j] by {
                assert(o2[j] == open[j]);
            }
        }
    }
}

/// An item of a dictionary-form peer list that names a peer: a dictionary
/// whose `ip` is a byte string and whose `port` is an integer.
pub open spec fn names_peer(v: BencodeValue) -> bool {
    match v {
        BencodeValue::Dict(pd) => dict_lookup(pd, "ip"@) matches Some(BencodeValue::Bytes(_))
            && dict_lookup(pd, "port"@) matches Some(BencodeValue::Int(_)),
        _ => false,
    }
}

/// A peer dictionary gives the peer with exactly its `ip` bytes, in order,
/// and its `port`, where the address is 4 bytes and the port fits a `u16`,
/// and refuses the list otherwise; any other item gives no peer.
pub proof fn law_dict_peer_one(v: BencodeValue, pd: Seq<(Seq<char>, BencodeValue)>, ip: Seq<u8>, port: int)
    ensures
        !names_peer(v) ==> dict_peers(seq![v]) == Some(Seq::<(Seq<u8>, u16)>::empty()),
        v == BencodeValue::Dict(pd) && dict_lookup(pd, "ip"@) == Some(BencodeValue::Bytes(ip))
            && dict_lookup(pd, "port"@) == Some(BencodeValue::Int(port)) ==> dict_peers(seq![v]) == (
        if ip.len() == 4 && 0 <= port <= 65535 {
            Some(seq![(ip, port as u16)])
        } else {
            None
        }),
{
    let items = seq![v];
    assert(items.drop_first() =~= Seq::<BencodeValue>::empty());
    assert(items[0] == v);
    assert(dict_peers(Seq::<BencodeValue>::empty()) == Some(Seq::<(Seq<u8>, u16)>::empty()));
    if v == BencodeValue::Dict(pd) && dict_lookup(pd, "ip"@) == Some(BencodeValue::Bytes(ip))
        && dict_lookup(pd, "port"@) == Some(BencodeValue::Int(port)) && ip.len() == 4 && 0 <= port
        <= 65535 {
        assert(seq![(ip, port as u16)] + Seq::<(Seq<u8>, u16)>::empty() =~= seq![(ip, port as u16)]);
    }
}

/// The peers of a list are the peers of its parts, in order: reading two
/// lists one after the other gives the first list's peers, then the
/// second's, and fails where either fails.
pub proof fn law_dict_peers_concat(a: Seq<BencodeValue>, b: Seq<BencodeValue>)
    ensures
        dict_peers(a + b) == match (dict_peers(a), dict_peers(b)) {
            (Some(x), Some(y)) => Some(x + y),
            _ => None,
        },
    decreases a.len(),
{
    if a.len() == 0 {
        assert(a + b =~= b);
        match dict_peers(b) {
            Some(y) => {
                assert(Seq::<(Seq<u8>, u16)>::empty() + y =~= y);
            },
            None => {},
        }
    } else {
        let ab = a + b;
        assert(ab[0] == a[0]);
        assert(ab.drop_first() =~= a.drop_first() + b);
        law_dict_peers_concat(a.drop_first(), b);
        match (dict_peers(a.drop_first()), dict_peers(b)) {
            (Some(x), Some(y)) => {
                match a[0] {
                    BencodeValue::Dict(pd) => match (dict_lookup(pd, "ip"@), dict_lookup(pd, "port"@)) {
                        (Some(BencodeValue::Bytes(ip)), Some(BencodeValue::Int(port))) => {
                            assert(seq![(ip, port as u16)] + (x + y) =~= (seq![(ip, port as u16)]
                                + x) + y);
                        },
                        _ => {},
                    },
                    _ => {},
                }
            },
            _ => {},
        }
    }
}

} // verus!
