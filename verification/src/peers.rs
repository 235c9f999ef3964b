//! Messages of the peer wire protocol: the handshake the client sends and
//! the check of the peer's reply, and the `interested` message.
use vstd::prelude::*;
use vstd::string::StringSliceAdditionalSpecFns;
use vstd::utf8::{encode_utf8, is_ascii_chars, is_ascii_chars_encode_utf8};
use crate::bencode::push_slice;
use crate::structs_enums::{code_of, BittorrentConstants, TorrentInfo};

verus! {

/// The number of bytes in a `usize`.
pub open spec fn usize_width() -> int {
    usize::BITS as int / 8
}

/// `len.to_be_bytes()` for a `len` below 256: zero bytes, then `len`, as
/// many bytes as a `usize` has.
pub open spec fn length_prefix(len: u8) -> Seq<u8> {
    Seq::new(usize_width() as nat, |i: int| if i == usize_width() - 1 { len } else { 0u8 })
}

/// The protocol name the client writes into its handshake.
pub open spec fn protocol_name() -> Seq<u8> {
    encode_utf8("Bittorrent Protocol"@)
}

/// Eight zero bytes.
pub open spec fn reserved_bytes() -> Seq<u8> {
    Seq::new(8, |i: int| 0u8)
}

/// The handshake the client sends: the protocol name's length as a
/// big-endian `usize`, the name, 8 reserved zero bytes, the info hash and
/// the peer id.
pub open spec fn handshake_bytes(infohash: Seq<u8>, peer_id: Seq<char>) -> Seq<u8> {
    length_prefix(protocol_name().len() as u8) + protocol_name() + reserved_bytes() + infohash
        + encode_utf8(peer_id)
}

/// Appends `len.to_be_bytes()` of a `usize` `len` below 256.
fn push_length_prefix(out: &mut Vec<u8>, len: u8)
    ensures
        final(out)@ == old(out)@ + length_prefix(len),
{
    let width: u32 = usize::BITS / 8;
    let mut k: u32 = 0;
    while k + 1 < width
        invariant
            width as int == usize_width(),
            k + 1 <= width,
            out@ =~= old(out)@ + Seq::new(k as nat, |i: int| 0u8),
        decreases width - k,
    {
        out.push(0);
        k = k + 1;
    }
    out.push(len);
    assert(final(out)@ =~= old(out)@ + length_prefix(len));
}

/// The protocol name is the 19 ASCII bytes of "Bittorrent Protocol".
pub proof fn lemma_protocol_name()
    ensures
        protocol_name().len() == 19,
        protocol_name() == seq![66u8, 105, 116, 116, 111, 114, 114, 101, 110, 116, 32, 80, 114, 111, 116, 111, 99, 111, 108],
{
    reveal_strlit("Bittorrent Protocol");
    let chars = "Bittorrent Protocol"@;
    assert(is_ascii_chars(chars));
    is_ascii_chars_encode_utf8(chars);
    assert(protocol_name() =~= seq![66u8, 105, 116, 116, 111, 114, 114, 101, 110, 116, 32, 80, 114, 111, 116, 111, 99, 111, 108]);
}

/// The handshake to send for a torrent.
pub fn handshake_packet(ti: &TorrentInfo) -> (res: Vec<u8>)
    ensures
        res@ == handshake_bytes(ti.infohash@, ti.peer_id@),
{
    proof {
        lemma_protocol_name();
    }
    let protocol: &[u8] = "Bittorrent Protocol".as_bytes();
    let mut packet: Vec<u8> = Vec::new();
    push_length_prefix(&mut packet, protocol.len() as u8);
    assert(packet@ =~= length_prefix(protocol_name().len() as u8));
    push_slice(&mut packet, protocol);
    let reserved: [u8; 8] = [0u8; 8];
    push_slice(&mut packet, reserved.as_slice());
    push_slice(&mut packet, ti.infohash.as_slice());
    push_slice(&mut packet, ti.peer_id.as_str().as_bytes());
    assert(packet@ =~= handshake_bytes(ti.infohash@, ti.peer_id@));
    packet
}

/// `a == b` on byte slices.
fn bytes_equal(a: &[u8], b: &[u8]) -> (res: bool)
    ensures
        res == (a@ == b@),
{
    if a.len() != b.len() {
        return false;
    }
    let mut i: usize = 0;
    while i < a.len()
        invariant
            a@.len() == b@.len(),
            i <= a@.len(),
            a@.take(i as int) == b@.take(i as int),
        decreases a@.len() - i,
    {
        if a[i] != b[i] {
            assert(a@[i as int] != b@[i as int]);
            return false;
        }
        assert(a@.take(i + 1) =~= a@.take(i as int).push(a@[i as int]));
        assert(b@.take(i + 1) =~= b@.take(i as int).push(b@[i as int]));
        i = i + 1;
    }
    assert(a@.take(i as int) =~= a@);
    assert(b@.take(i as int) =~= b@);
    true
}

/// The checks made of a peer's handshake reply, read into a 68-byte buffer
/// of which `size` bytes arrived: 68 bytes arrived, the first 2 bytes are
/// the length prefix, bytes 2..19 are the protocol name, bytes 19..27 are
/// zero and bytes 27..47 are the info hash.
pub open spec fn handshake_reply_ok(response: Seq<u8>, size: usize, infohash: Seq<u8>) -> bool {
    &&& size == 68
    &&& response.subrange(0, 2) == length_prefix(19)
    &&& response.subrange(2, 19) == protocol_name()
    &&& response.subrange(19, 27) == reserved_bytes()
    &&& response.subrange(27, 47) == infohash
}

/// Whether a peer's handshake reply passes the checks.
pub fn handshake_reply_valid(response: &[u8], size: usize, ti: &TorrentInfo) -> (res: bool)
    requires
        response@.len() == 68,
    ensures
        res == handshake_reply_ok(response@, size, ti.infohash@),
{
    if size != 68 {
        return false;
    }
    let protocol: &[u8] = "Bittorrent Protocol".as_bytes();
    let p_len = protocol.len();
    proof {
        lemma_protocol_name();
    }
    let mut prefix: Vec<u8> = Vec::new();
    push_length_prefix(&mut prefix, p_len as u8);
    let reserved: [u8; 8] = [0u8; 8];
    assert(reserved@ =~= reserved_bytes());
    let mut valid_response: bool = true;
    valid_response = valid_response && bytes_equal(&response[0..2], prefix.as_slice());
    valid_response = valid_response && bytes_equal(&response[2..p_len], protocol);
    valid_response = valid_response && bytes_equal(&response[p_len..p_len + 8], reserved.as_slice());
    valid_response = valid_response && bytes_equal(&response[p_len + 8..p_len + 28], ti.infohash.as_slice());
    valid_response
}

/// The `interested` message: length prefix 1, then the message id.
pub fn interested_message() -> (res: Vec<u8>)
    ensures
        res@ == seq![1u8, code_of(BittorrentConstants::Interested) as u8],
{
    let length_prefix: u8 = 1;
    let msg_id: u8 = BittorrentConstants::Interested.code() as u8;
    let mut packet: Vec<u8> = Vec::new();
    packet.push(length_prefix);
    packet.push(msg_id);
    assert(packet@ =~= seq![1u8, 2u8]);
    packet
}

} // verus!
