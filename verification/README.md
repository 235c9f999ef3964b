# bittorrent

A small BitTorrent client whose formats and rules are a library verified
with Verus, and whose I/O is a thin program around it.

- `src/` — the verified library:
  - `bencode.rs`: bencode values, their canonical encoding, the decoder
    (with the position at which it stops and why), the dictionary type
    (whose keys always ascend), and the laws that tie them: decoding the
    encoding of any value gives it back, decoded values are well formed,
    the decoder reads no byte before its start or after the value, equal
    dictionaries encode alike whatever the insertion order, and lookups
    after inserts.
  - `decimal.rs`: decimal text of integers, written and read back as
    `Display` and `str::parse` do.
  - `torrent_reader.rs`: the metadata of a torrent file.
  - `tracker.rs`: announce URLs, announce responses, compact peers, the
    choice of a tracker's port and kind.
  - `peers.rs`: the handshake and `interested` messages.
  - `structs_enums.rs`: shared records and message identifiers.
  - `wrappers.rs`: the calls into std, `sha1`, `bytes`, `percent-encoding`
    and `url` whose contracts are trusted.
- `tests/`: tests of the library on concrete values.
- `app/main.rs`: the program: file and network I/O, threads and tasks.
