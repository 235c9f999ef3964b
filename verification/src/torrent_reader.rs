//! Reading the metadata of a torrent file: its info hash, trackers, piece
//! length, total size and piece hashes.
use vstd::prelude::*;
use vstd::slice::slice_to_vec;
use vstd::utf8::{decode_utf8, encode_utf8_decode_utf8, valid_utf8};
use crate::bencode::{
    decode_value, decode_value_at, dict_entries, dict_lookup, encode_bencode, encode_value,
    lemma_values_of_index, value_of, values_of, Bencode, BencodeDict, BencodeValue,
};
use crate::wrappers::{sha1_digest, sha1_hash, str_from_utf8};

verus! {

/// The metadata of a torrent file.
#[derive(Debug)]
pub struct TorrentFile {
    /// SHA-1 of the bencoded `info` dictionary.
    pub infohash: Vec<u8>,
    /// Tracker URLs, each once, in the order in which they first appear.
    pub announce_list: Vec<String>,
    pub piece_length: u64,
    /// Total size in bytes of the files.
    pub size: u64,
    /// The concatenated SHA-1 hashes of the pieces.
    pub pieces: Vec<u8>,
}

/// The metadata as mathematical values; `size` is the exact sum.
pub struct TorrentModel {
    pub infohash: Seq<u8>,
    pub announce: Seq<Seq<char>>,
    pub piece_length: u64,
    pub size: int,
    pub pieces: Seq<u8>,
}

/// The texts of a sequence of strings.
pub open spec fn texts(v: Seq<String>) -> Seq<Seq<char>> {
    v.map_values(|s: String| s@)
}

/// A URL joins the list unless it is already there.
pub open spec fn add_url(acc: Seq<Seq<char>>, u: Seq<char>) -> Seq<Seq<char>> {
    if acc.contains(u) {
        acc
    } else {
        acc.push(u)
    }
}

/// Adds the byte-string URLs of one tier; `None` where one is not UTF-8.
/// Items that are not byte strings are passed over.
pub open spec fn collect_urls(acc: Seq<Seq<char>>, urls: Seq<BencodeValue>) -> Option<Seq<Seq<char>>>
    decreases urls.len(),
{
    if urls.len() == 0 {
        Some(acc)
    } else {
        match urls[0] {
            BencodeValue::Bytes(b) => if valid_utf8(b) {
                collect_urls(add_url(acc, decode_utf8(b)), urls.drop_first())
            } else {
                None
            },
            _ => collect_urls(acc, urls.drop_first()),
        }
    }
}

/// Adds the URLs of every tier that is a list; other items are passed over.
pub open spec fn collect_tiers(acc: Seq<Seq<char>>, tiers: Seq<BencodeValue>) -> Option<Seq<Seq<char>>>
    decreases tiers.len(),
{
    if tiers.len() == 0 {
        Some(acc)
    } else {
        match tiers[0] {
            BencodeValue::List(urls) => match collect_urls(acc, urls) {
                None => None,
                Some(a) => collect_tiers(a, tiers.drop_first()),
            },
            _ => collect_tiers(acc, tiers.drop_first()),
        }
    }
}

/// The trackers of a torrent: `announce`, then the tiers of
/// `announce-list`, each URL once.
pub open spec fn announce_urls(top: Seq<(Seq<char>, BencodeValue)>) -> Result<Seq<Seq<char>>, Seq<char>> {
    let first: Result<Seq<Seq<char>>, Seq<char>> = match dict_lookup(top, "announce"@) {
        Some(BencodeValue::Bytes(a)) => if valid_utf8(a) {
            Ok(seq![decode_utf8(a)])
        } else {
            Err("Invalid UTF-8 in 'announce'"@)
        },
        _ => Ok(Seq::empty()),
    };
    match first {
        Err(m) => Err(m),
        Ok(acc) => match dict_lookup(top, "announce-list"@) {
            Some(BencodeValue::List(tiers)) => match collect_tiers(acc, tiers) {
                Some(r) => Ok(r),
                None => Err("Invalid UTF-8 in 'announce-list'"@),
            },
            _ => Ok(acc),
        },
    }
}

/// The length that one entry of `files` adds: its integer `length` taken
/// as a `u64`, or nothing.
pub open spec fn file_length(f: BencodeValue) -> int {
    match f {
        BencodeValue::Dict(m) => match dict_lookup(m, "length"@) {
            Some(BencodeValue::Int(n)) => (n as u64) as int,
            _ => 0,
        },
        _ => 0,
    }
}

/// The sum of the lengths of the files.
pub open spec fn files_total(files: Seq<BencodeValue>) -> int
    decreases files.len(),
{
    if files.len() == 0 {
        0
    } else {
        file_length(files[0]) + files_total(files.drop_first())
    }
}

/// What a torrent file gives, or the message of the first problem found.
pub open spec fn torrent_model(bytes: Seq<u8>) -> Result<TorrentModel, Seq<char>> {
    match decode_value_at(bytes, 0).0 {
        Ok(BencodeValue::Dict(top)) => match dict_lookup(top, "info"@) {
            None => Err("Missing 'info' key"@),
            Some(info) => match announce_urls(top) {
                Err(m) => Err(m),
                Ok(announce) => match info {
                    BencodeValue::Dict(im) => match dict_lookup(im, "piece length"@) {
                        Some(BencodeValue::Int(pl)) => match dict_lookup(im, "pieces"@) {
                            Some(BencodeValue::Bytes(pieces)) => {
                                let size: Option<int> = match dict_lookup(im, "length"@) {
                                    Some(BencodeValue::Int(len)) => Some((len as u64) as int),
                                    _ => match dict_lookup(im, "files"@) {
                                        Some(BencodeValue::List(files)) => Some(files_total(files)),
                                        _ => None,
                                    },
                                };
                                match size {
                                    None => Err("Missing 'length' or 'files' in 'info'"@),
                                    Some(sz) => Ok(
                                        TorrentModel {
                                            infohash: sha1_digest(encode_value(info)),
                                            announce,
                                            piece_length: pl as u64,
                                            size: sz,
                                            pieces,
                                        },
                                    ),
                                }
                            },
                            _ => Err("Missing or invalid 'pieces'"@),
                        },
                        _ => Err("Missing or invalid 'piece length'"@),
                    },
                    _ => Err("The 'info' key is not a dictionary"@),
                },
            },
        },
        _ => Err("Failed to decode torrent into a dictionary"@),
    }
}

/// The total size of a torrent fits in a `u64` (the sum of many files'
/// lengths may not).
pub open spec fn size_fits(bytes: Seq<u8>) -> bool {
    torrent_model(bytes) matches Ok(m) ==> m.size <= u64::MAX
}

/// A `TorrentFile` holds what the model says.
pub open spec fn file_agrees(t: TorrentFile, m: TorrentModel) -> bool {
    &&& t.infohash@ == m.infohash
    &&& texts(t.announce_list@) == m.announce
    &&& t.piece_length == m.piece_length
    &&& t.size as int == m.size
    &&& t.pieces@ == m.pieces
}

/// Adds `s` to `list` unless it is there already.
fn add_unique(list: &mut Vec<String>, s: String)
    ensures
        texts(final(list)@) == add_url(texts(old(list)@), s@),
{
    let ghost before = texts(list@);
    let mut j: usize = 0;
    while j < list.len()
        invariant
            j <= list@.len(),
            before == texts(list@),
            forall|i: int| 0 <= i < j ==> list@[i]@ != s@,
        decreases list@.len() - j,
    {
        if list[j] == s {
            assert(before[j as int] == s@);
            return;
        }
        j = j + 1;
    }
    assert(!before.contains(s@)) by {
        if before.contains(s@) {
            let k = choose|k: int| 0 <= k < before.len() && before[k] == s@;
            assert(list@[k]@ == s@);
        }
    }
    list.push(s);
    assert(texts(list@) =~= before.push(s@));
}

/// The trackers that the top-level dictionary names.
fn announce_list_of(top: &BencodeDict) -> (res: Result<Vec<String>, String>)
    ensures
        match announce_urls(dict_entries(*top)) {
            Ok(a) => res matches Ok(l) && texts(l@) == a,
            Err(m) => res matches Err(e) && e@ == m,
        },
{
    let mut list: Vec<String> = Vec::new();
    match top.get("announce") {
        Some(Bencode::String(a)) => {
            match str_from_utf8(a.as_slice()) {
                None => {
                    return Err("Invalid UTF-8 in 'announce'".to_owned());
                },
                Some(t) => {
                    proof {
                        encode_utf8_decode_utf8(t@);
                    }
                    list.push(t.to_owned());
                    assert(texts(list@) =~= seq![decode_utf8(a@)]);
                },
            }
        },
        _ => {
            assert(texts(list@) =~= Seq::<Seq<char>>::empty());
        },
    }
    let ghost acc0 = texts(list@);
    let ghost top_e = dict_entries(*top);
    assert(announce_urls(top_e) == match dict_lookup(top_e, "announce-list"@) {
        Some(BencodeValue::List(tiers)) => match collect_tiers(acc0, tiers) {
            Some(r) => Ok(r),
            None => Err("Invalid UTF-8 in 'announce-list'"@),
        },
        _ => Ok::<Seq<Seq<char>>, Seq<char>>(acc0),
    });
    match top.get("announce-list") {
        Some(Bencode::List(tiers)) => {
            let ghost tv = values_of(tiers@);
            proof {
                lemma_values_of_index(tiers@);
            }
            let mut i: usize = 0;
            assert(tv.skip(0) =~= tv);
            while i < tiers.len()
                invariant
                    i <= tiers@.len(),
                    tv == values_of(tiers@),
                    tv.len() == tiers@.len(),
                    forall|k: int| 0 <= k < tiers@.len() ==> #[trigger] tv[k] == value_of(tiers@[k]),
                    collect_tiers(texts(list@), tv.skip(i as int)) == collect_tiers(acc0, tv),
                    top_e == dict_entries(*top),
                    announce_urls(top_e) == match collect_tiers(acc0, tv) {
                        Some(r) => Ok(r),
                        None => Err("Invalid UTF-8 in 'announce-list'"@),
                    },
                decreases tiers@.len() - i,
            {
                proof {
                    assert(tv.skip(i as int)[0] == tv[i as int]);
                    assert(tv.skip(i as int).drop_first() =~= tv.skip(i + 1));
                }
                match &tiers[i] {
                    Bencode::List(urls) => {
                        let ghost uv = values_of(urls@);
                        let ghost acc1 = texts(list@);
                        proof {
                            lemma_values_of_index(urls@);
                        }
                        let mut j: usize = 0;
                        assert(uv.skip(0) =~= uv);
                        while j < urls.len()
                            invariant
                                j <= urls@.len(),
                                uv == values_of(urls@),
                                uv.len() == urls@.len(),
                                forall|k: int| 0 <= k < urls@.len() ==> #[trigger] uv[k] == value_of(urls@[k]),
                                collect_urls(texts(list@), uv.skip(j as int)) == collect_urls(acc1, uv),
                                i < tv.len(),
                                tv[i as int] == BencodeValue::List(uv),
                                collect_tiers(acc1, tv.skip(i as int)) == collect_tiers(acc0, tv),
                                tv.skip(i as int)[0] == tv[i as int],
                                top_e == dict_entries(*top),
                                announce_urls(top_e) == match collect_tiers(acc0, tv) {
                                    Some(r) => Ok(r),
                                    None => Err("Invalid UTF-8 in 'announce-list'"@),
                                },
                            decreases urls@.len() - j,
                        {
                            proof {
                                assert(uv.skip(j as int)[0] == uv[j as int]);
                                assert(uv.skip(j as int).drop_first() =~= uv.skip(j + 1));
                            }
                            match &urls[j] {
                                Bencode::String(u) => {
                                    match str_from_utf8(u.as_slice()) {
                                        None => {
                                            proof {
                                                assert(uv.skip(j as int).len() > 0);
                                                assert(collect_urls(acc1, uv) is None);
                                                assert(tv.skip(i as int).len() > 0);
                                                assert(collect_tiers(acc1, tv.skip(i as int)) is None);
                                            }
                                            return Err("Invalid UTF-8 in 'announce-list'".to_owned());
                                        },
                                        Some(t) => {
                                            proof {
                                                encode_utf8_decode_utf8(t@);
                                            }
                                            add_unique(&mut list, t.to_owned());
                                        },
                                    }
                                },
                                _ => {},
                            }
                            j = j + 1;
                        }
                        assert(uv.skip(j as int) =~= Seq::<BencodeValue>::empty());
                    },
                    _ => {},
                }
                i = i + 1;
            }
            assert(tv.skip(i as int) =~= Seq::<BencodeValue>::empty());
        },
        _ => {},
    }
    Ok(list)
}

/// The sum of the lengths of `files`; no `u128` overflow is possible.
fn sum_file_lengths(files: &Vec<Bencode>) -> (res: u128)
    ensures
        res as int == files_total(values_of(files@)),
{
    let ghost fv = values_of(files@);
    proof {
        lemma_values_of_index(files@);
    }
    let mut total: u128 = 0;
    let mut i: usize = 0;
    assert(fv.skip(0) =~= fv);
    while i < files.len()
        invariant
            i <= files@.len(),
            fv == values_of(files@),
            fv.len() == files@.len(),
            forall|k: int| 0 <= k < files@.len() ==> #[trigger] fv[k] == value_of(files@[k]),
            total as int + files_total(fv.skip(i as int)) == files_total(fv),
            total as int <= i as int * 0xffff_ffff_ffff_ffff,
        decreases files@.len() - i,
    {
        proof {
            assert(fv.skip(i as int)[0] == fv[i as int]);
            assert(fv.skip(i as int).drop_first() =~= fv.skip(i + 1));
        }
        match &files[i] {
            Bencode::Dictionary(fm) => {
                match fm.get("length") {
                    Some(Bencode::Integer(len)) => {
                        let l: u64 = *len as u64;
                        total = total + l as u128;
                    },
                    _ => {},
                }
            },
            _ => {},
        }
        i = i + 1;
    }
    assert(fv.skip(i as int) =~= Seq::<BencodeValue>::empty());
    total
}

/// Reads a torrent file's metadata, with the exact total size beside it.
fn read_torrent(bytes: &[u8]) -> (res: Result<(TorrentFile, u128), String>)
    ensures
        match torrent_model(bytes@) {
            Ok(m) => res matches Ok((t, total)) && total as int == m.size && t.infohash@ == m.infohash
                && texts(t.announce_list@) == m.announce && t.piece_length == m.piece_length
                && t.pieces@ == m.pieces && t.size == total as u64,
            Err(msg) => res matches Err(e) && e@ == msg,
        },
        res matches Ok((t, _)) ==> t.infohash@.len() == 20,
{
    let mut index: usize = 0;
    let top = match decode_value(bytes, &mut index) {
        Ok(Bencode::Dictionary(d)) => d,
        _ => {
            return Err("Failed to decode torrent into a dictionary".to_owned());
        },
    };
    let info = match top.get("info") {
        None => {
            return Err("Missing 'info' key".to_owned());
        },
        Some(i) => i,
    };
    let info_bencoded = encode_bencode(info);
    let hashed_info = sha1_hash(info_bencoded.as_slice());
    let announce_list = match announce_list_of(&top) {
        Err(e) => {
            return Err(e);
        },
        Ok(l) => l,
    };
    let info_map = match info {
        Bencode::Dictionary(m) => m,
        _ => {
            return Err("The 'info' key is not a dictionary".to_owned());
        },
    };
    let piece_length: u64 = match info_map.get("piece length") {
        Some(Bencode::Integer(len)) => *len as u64,
        _ => {
            return Err("Missing or invalid 'piece length'".to_owned());
        },
    };
    let pieces: Vec<u8> = match info_map.get("pieces") {
        Some(Bencode::String(p)) => slice_to_vec(p.as_slice()),
        _ => {
            return Err("Missing or invalid 'pieces'".to_owned());
        },
    };
    let total: u128 = match info_map.get("length") {
        Some(Bencode::Integer(len)) => {
            let l: u64 = *len as u64;
            l as u128
        },
        _ => match info_map.get("files") {
            Some(Bencode::List(files)) => sum_file_lengths(files),
            _ => {
                return Err("Missing 'length' or 'files' in 'info'".to_owned());
            },
        },
    };
    let t = TorrentFile {
        infohash: hashed_info,
        announce_list,
        piece_length,
        size: total as u64,
        pieces,
    };
    Ok((t, total))
}

/// Whether the total size of a torrent fits in a `u64`, which
/// `parse_torrent_bytes` needs.
pub fn torrent_size_fits(bytes: &[u8]) -> (res: bool)
    ensures
        res == size_fits(bytes@),
{
    match read_torrent(bytes) {
        Ok((_, total)) => total <= 0xffff_ffff_ffff_ffffu128,
        Err(_) => true,
    }
}

/// Reads the metadata of a torrent file: the SHA-1 of its bencoded `info`
/// dictionary, its trackers, the piece length, the total size (`length`, or
/// the sum of the `length`s of `files`) and the piece hashes; or the message
/// of the first problem found.
pub fn parse_torrent_bytes(bytes: &[u8]) -> (res: Result<TorrentFile, String>)
    requires
        size_fits(bytes@),
    ensures
        match torrent_model(bytes@) {
            Ok(m) => res matches Ok(t) && file_agrees(t, m),
            Err(msg) => res matches Err(e) && e@ == msg,
        },
        res matches Ok(t) ==> t.infohash@.len() == 20,
{
    match read_torrent(bytes) {
        Ok((t, _)) => Ok(t),
        Err(e) => Err(e),
    }
}

/// Adding a URL keeps a list free of duplicates.
proof fn lemma_add_url_distinct(acc: Seq<Seq<char>>, u: Seq<char>)
    requires
        acc.no_duplicates(),
    ensures
        add_url(acc, u).no_duplicates(),
        acc.contains(u) || add_url(acc, u) == acc.push(u),
{
    if !acc.contains(u) {
        let r = acc.push(u);
        assert forall|i: int, j: int| 0 <= i < r.len() && 0 <= j < r.len() && i != j implies r[i] != r[j] by {
            if i == acc.len() {
                assert(r[j] == acc[j]);
            } else if j == acc.len() {
                assert(r[i] == acc[i]);
            } else {
                assert(r[i] == acc[i]);
                assert(r[j] == acc[j]);
            }
        }
    }
}

proof fn lemma_collect_urls_distinct(acc: Seq<Seq<char>>, urls: Seq<BencodeValue>)
    requires
        acc.no_duplicates(),
    ensures
        collect_urls(acc, urls) matches Some(r) ==> r.no_duplicates(),
    decreases urls.len(),
{
    if urls.len() > 0 {
        match urls[0] {
            BencodeValue::Bytes(b) => {
                if valid_utf8(b) {
                    lemma_add_url_distinct(acc, decode_utf8(b));
                    lemma_collect_urls_distinct(add_url(acc, decode_utf8(b)), urls.drop_first());
                }
            },
            _ => {
                lemma_collect_urls_distinct(acc, urls.drop_first());
            },
        }
    }
}

proof fn lemma_collect_tiers_distinct(acc: Seq<Seq<char>>, tiers: Seq<BencodeValue>)
    requires
        acc.no_duplicates(),
    ensures
        collect_tiers(acc, tiers) matches Some(r) ==> r.no_duplicates(),
    decreases tiers.len(),
{
    if tiers.len() > 0 {
        match tiers[0] {
            BencodeValue::List(urls) => {
                lemma_collect_urls_distinct(acc, urls);
                match collect_urls(acc, urls) {
                    Some(a) => lemma_collect_tiers_distinct(a, tiers.drop_first()),
                    None => {},
                }
            },
            _ => {
                lemma_collect_tiers_distinct(acc, tiers.drop_first());
            },
        }
    }
}

/// The trackers of a torrent form a set: no URL appears twice.
pub proof fn law_announce_urls_distinct(top: Seq<(Seq<char>, BencodeValue)>)
    ensures
        announce_urls(top) matches Ok(a) ==> a.no_duplicates(),
{
    let empty = Seq::<Seq<char>>::empty();
    match dict_lookup(top, "announce"@) {
        Some(BencodeValue::Bytes(a)) => {
            if valid_utf8(a) {
                let first = seq![decode_utf8(a)];
                match dict_lookup(top, "announce-list"@) {
                    Some(BencodeValue::List(tiers)) => lemma_collect_tiers_distinct(first, tiers),
                    _ => {},
                }
            }
        },
        _ => {
            match dict_lookup(top, "announce-list"@) {
                Some(BencodeValue::List(tiers)) => lemma_collect_tiers_distinct(empty, tiers),
                _ => {},
            }
        },
    }
}


/// The `j`-th item of a tier, where it is a byte string.
pub open spec fn url_at(urls: Seq<BencodeValue>, j: int) -> Option<Seq<u8>> {
    if 0 <= j < urls.len() {
        match urls[j] {
            BencodeValue::Bytes(u) => Some(u),
            _ => None,
        }
    } else {
        None
    }
}

/// The `j`-th item of the `i`-th tier, where the tier is a list and the item
/// a byte string.
pub open spec fn tier_url(tiers: Seq<BencodeValue>, i: int, j: int) -> Option<Seq<u8>> {
    if 0 <= i < tiers.len() {
        match tiers[i] {
            BencodeValue::List(urls) => url_at(urls, j),
            _ => None,
        }
    } else {
        None
    }
}

/// Every URL of a tier ends up among the trackers, beside all that were
/// there before.
proof fn lemma_collect_urls_keeps(acc: Seq<Seq<char>>, urls: Seq<BencodeValue>)
    ensures
        collect_urls(acc, urls) matches Some(r) ==> (forall|z: Seq<char>| acc.contains(z) ==> r.contains(z))
            && (forall|j: int| #[trigger] url_at(urls, j) matches Some(u) ==> r.contains(decode_utf8(u))),
    decreases urls.len(),
{
    if urls.len() > 0 {
        let rest = urls.drop_first();
        let next = match urls[0] {
            BencodeValue::Bytes(b) => if valid_utf8(b) {
                add_url(acc, decode_utf8(b))
            } else {
                acc
            },
            _ => acc,
        };
        lemma_collect_urls_keeps(next, rest);
        if let Some(r) = collect_urls(acc, urls) {
            assert(collect_urls(next, rest) == Some(r));
            assert forall|z: Seq<char>| acc.contains(z) implies r.contains(z) by {
                if let BencodeValue::Bytes(b) = urls[0] {
                    let u = decode_utf8(b);
                    if !acc.contains(u) {
                        let k = choose|k: int| 0 <= k < acc.len() && acc[k] == z;
                        assert(next[k] == z);
                    }
                }
            }
            assert forall|j: int| #[trigger] url_at(urls, j) is Some implies r.contains(
                decode_utf8(url_at(urls, j)->Some_0),
            ) by {
                if j > 0 {
                    assert(urls[j] == rest[j - 1]);
                    assert(url_at(rest, j - 1) == url_at(urls, j));
                } else if let BencodeValue::Bytes(b) = urls[0] {
                    let u = decode_utf8(b);
                    if !acc.contains(u) {
                        assert(next[acc.len() as int] == u);
                    }
                    assert(next.contains(u));
                }
            }
        }
    }
}

/// Every URL of every tier ends up among the trackers, beside all that
/// were there before.
proof fn lemma_collect_tiers_keeps(acc: Seq<Seq<char>>, tiers: Seq<BencodeValue>)
    ensures
        collect_tiers(acc, tiers) matches Some(r) ==> (forall|z: Seq<char>| acc.contains(z) ==> r.contains(z))
            && (forall|i: int, j: int|
            #[trigger] tier_url(tiers, i, j) matches Some(u) ==> r.contains(decode_utf8(u))),
    decreases tiers.len(),
{
    if tiers.len() > 0 {
        let rest = tiers.drop_first();
        match tiers[0] {
            BencodeValue::List(urls) => {
                lemma_collect_urls_keeps(acc, urls);
                match collect_urls(acc, urls) {
                    Some(a) => {
                        lemma_collect_tiers_keeps(a, rest);
                        if let Some(r) = collect_tiers(acc, tiers) {
                            assert(collect_tiers(a, rest) == Some(r));
                            assert forall|i: int, j: int| #[trigger] tier_url(tiers, i, j) is Some implies r.contains(
                                decode_utf8(tier_url(tiers, i, j)->Some_0),
                            ) by {
                                if i > 0 {
                                    assert(tiers[i] == rest[i - 1]);
                                    assert(tier_url(rest, i - 1, j) == tier_url(tiers, i, j));
                                } else {
                                    assert(tier_url(tiers, i, j) == url_at(urls, j));
                                    let u = url_at(urls, j)->Some_0;
                                    assert(a.contains(decode_utf8(u)));
                                }
                            }
                        }
                    },
                    None => {},
                }
            },
            _ => {
                lemma_collect_tiers_keeps(acc, rest);
                if let Some(r) = collect_tiers(acc, tiers) {
                    assert forall|i: int, j: int| #[trigger] tier_url(tiers, i, j) is Some implies r.contains(
                        decode_utf8(tier_url(tiers, i, j)->Some_0),
                    ) by {
                        if i > 0 {
                            assert(tiers[i] == rest[i - 1]);
                            assert(tier_url(rest, i - 1, j) == tier_url(tiers, i, j));
                        }
                    }
                }
            },
        }
    }
}

/// The trackers of a torrent include the `announce` URL and every URL of
/// every tier of `announce-list`.
pub proof fn law_announce_urls_complete(top: Seq<(Seq<char>, BencodeValue)>)
    ensures
        announce_urls(top) matches Ok(a) ==> {
            &&& dict_lookup(top, "announce"@) matches Some(BencodeValue::Bytes(x)) ==> a.contains(
                decode_utf8(x),
            )
            &&& dict_lookup(top, "announce-list"@) matches Some(BencodeValue::List(tiers)) ==> forall|
                i: int,
                j: int,
            | #[trigger] tier_url(tiers, i, j) matches Some(u) ==> a.contains(decode_utf8(u))
        },
{
    let first: Seq<Seq<char>> = match dict_lookup(top, "announce"@) {
        Some(BencodeValue::Bytes(x)) => seq![decode_utf8(x)],
        _ => Seq::empty(),
    };
    if let Some(BencodeValue::Bytes(x)) = dict_lookup(top, "announce"@) {
        assert(first[0] == decode_utf8(x));
        assert(first.contains(decode_utf8(x)));
    }
    if let Some(BencodeValue::List(tiers)) = dict_lookup(top, "announce-list"@) {
        lemma_collect_tiers_keeps(first, tiers);
    }
}

} // verus!
