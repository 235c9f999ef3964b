//! The bencode format: values, their canonical encoding, and a decoder
//! that reports where and why it stopped.
use vstd::prelude::*;
use vstd::utf8::{
    decode_utf8, decode_utf8_encode_utf8, encode_utf8, encode_utf8_decode_utf8, encode_utf8_valid_utf8,
    is_leading_byte_width_1, partial_valid_utf8_extend_ascii_block, valid_utf8,
};
use crate::wrappers::str_from_utf8;
use vstd::slice::slice_to_vec;
use crate::decimal::{
    lemma_decimal_digits, lemma_parse_i64_decimal, lemma_parse_unsigned_decimal,
    parse_i64_slice, parse_usize_slice,
    decimal_digits, decimal_text, is_digit, parse_i64_text, parse_unsigned, push_decimal_i64,
    push_decimal_u64,
};

verus! {

/// A bencoded value.
#[derive(Debug)]
pub enum Bencode {
    Integer(i64),
    String(Vec<u8>),
    List(Vec<Bencode>),
    Dictionary(BencodeDict),
}

/// A bencode dictionary: text keys with their values. `insert` keeps the
/// keys in the order of their UTF-8 bytes, the order in which bencode
/// writes them, each key at most once (`keys_ascending`).
#[derive(Debug)]
pub struct BencodeDict {
    entries: Vec<(String, Bencode)>,
}

/// The mathematical value that a `Bencode` stands for.
pub enum BencodeValue {
    Int(int),
    Bytes(Seq<u8>),
    List(Seq<BencodeValue>),
    Dict(Seq<(Seq<char>, BencodeValue)>),
}

/// The value of a `Bencode`.
pub open spec fn value_of(b: Bencode) -> BencodeValue
    decreases b,
{
    match b {
        Bencode::Integer(i) => BencodeValue::Int(i as int),
        Bencode::String(s) => BencodeValue::Bytes(s@),
        Bencode::List(l) => BencodeValue::List(values_of(l@)),
        Bencode::Dictionary(d) => BencodeValue::Dict(dict_entries(d)),
    }
}

/// The entries of a dictionary, in the order in which it keeps them.
pub closed spec fn dict_entries(d: BencodeDict) -> Seq<(Seq<char>, BencodeValue)>
    decreases d,
{
    entries_of(d.entries@)
}

/// The values of a sequence of `Bencode`s.
pub open spec fn values_of(s: Seq<Bencode>) -> Seq<BencodeValue>
    decreases s,
{
    if s.len() == 0 {
        Seq::empty()
    } else {
        values_of(s.drop_last()).push(value_of(s.last()))
    }
}

/// The entries of a dictionary, each key by its characters.
pub open spec fn entries_of(s: Seq<(String, Bencode)>) -> Seq<(Seq<char>, BencodeValue)>
    decreases s,
{
    if s.len() == 0 {
        Seq::empty()
    } else {
        entries_of(s.drop_last()).push((s.last().0@, value_of(s.last().1)))
    }
}

impl View for Bencode {
    type V = BencodeValue;

    open spec fn view(&self) -> BencodeValue {
        value_of(*self)
    }
}

/// The encoding of a byte string: its length in decimal, `:`, the bytes.
pub open spec fn encode_bytes(b: Seq<u8>) -> Seq<u8> {
    decimal_digits(b.len()) + seq![58u8] + b
}

/// The canonical bencode encoding of a value.
pub open spec fn encode_value(v: BencodeValue) -> Seq<u8>
    decreases v,
{
    match v {
        BencodeValue::Int(i) => seq![105u8] + decimal_text(i) + seq![101u8],
        BencodeValue::Bytes(b) => encode_bytes(b),
        BencodeValue::List(items) => seq![108u8] + encode_items(items) + seq![101u8],
        BencodeValue::Dict(entries) => seq![100u8] + encode_entries(entries) + seq![101u8],
    }
}

/// The encodings of list items, one after the other.
pub open spec fn encode_items(items: Seq<BencodeValue>) -> Seq<u8>
    decreases items,
{
    if items.len() == 0 {
        Seq::empty()
    } else {
        encode_items(items.drop_last()) + encode_value(items.last())
    }
}

/// The encodings of dictionary entries: each key as a byte string (its
/// UTF-8 bytes), then its value.
pub open spec fn encode_entries(e: Seq<(Seq<char>, BencodeValue)>) -> Seq<u8>
    decreases e,
{
    if e.len() == 0 {
        Seq::empty()
    } else {
        encode_entries(e.drop_last()) + encode_bytes(encode_utf8(e.last().0)) + encode_value(
            e.last().1,
        )
    }
}

/// Appends the bytes of `s` to `out`.
pub fn push_slice(out: &mut Vec<u8>, s: &[u8])
    ensures
        final(out)@ == old(out)@ + s@,
{
    let mut i: usize = 0;
    while i < s.len()
        invariant
            i <= s@.len(),
            out@ == old(out)@ + s@.take(i as int),
        decreases s@.len() - i,
    {
        out.push(s[i]);
        i = i + 1;
        assert(out@ =~= old(out)@ + s@.take(i as int));
    }
    assert(s@.take(i as int) =~= s@);
}

/// Appends the encoding of the byte string `s` to `out`.
fn push_bytes_encoding(out: &mut Vec<u8>, s: &[u8])
    ensures
        final(out)@ == old(out)@ + encode_bytes(s@),
        s@.len() <= usize::MAX,
{
    push_decimal_u64(out, s.len() as u64);
    out.push(58);
    push_slice(out, s);
    assert(final(out)@ =~= old(out)@ + encode_bytes(s@));
}

/// Appends the encoding of `b` to `out`.
fn encode_into(b: &Bencode, out: &mut Vec<u8>)
    ensures
        final(out)@ == old(out)@ + encode_value(b@),
        well_formed(b@),
    decreases b,
{
    match b {
        Bencode::Integer(i) => {
            out.push(105);
            push_decimal_i64(out, *i);
            out.push(101);
            assert(final(out)@ =~= old(out)@ + encode_value(b@));
        },
        Bencode::String(s) => {
            push_bytes_encoding(out, s.as_slice());
        },
        Bencode::List(l) => {
            out.push(108);
            let ghost start = out@;
            let mut i: usize = 0;
            while i < l.len()
                invariant
                    i <= l@.len(),
                    *b == Bencode::List(*l),
                    out@ == start + encode_items(values_of(l@.take(i as int))),
                    forall|k: int| 0 <= k < i ==> well_formed(#[trigger] value_of(l@[k])),
                decreases l@.len() - i,
            {
                proof {
                    assert(decreases_to!(*b => (*b)->List_0));
                    assert(decreases_to!(*l => l@));
                    assert(decreases_to!(l@ => l@[i as int]));
                }
                encode_into(&l[i], out);
                proof {
                    let t = l@.take(i + 1);
                    assert(t.drop_last() =~= l@.take(i as int));
                    let vs = values_of(t);
                    assert(vs == values_of(t.drop_last()).push(value_of(t.last())));
                    assert(vs.drop_last() =~= values_of(l@.take(i as int)));
                    assert(vs.last() == value_of(l@[i as int]));
                }
                i = i + 1;
                assert(out@ =~= start + encode_items(values_of(l@.take(i as int))));
            }
            assert(l@.take(i as int) =~= l@);
            out.push(101);
            assert(final(out)@ =~= old(out)@ + encode_value(b@));
            proof {
                lemma_values_of_index(l@);
                assert forall|k: int| 0 <= k < values_of(l@).len() implies well_formed(
                    #[trigger] values_of(l@)[k],
                ) by {
                    assert(values_of(l@)[k] == value_of(l@[k]));
                }
            }
        },
        Bencode::Dictionary(d) => {
            out.push(100);
            let ghost start = out@;
            let mut i: usize = 0;
            while i < d.entries.len()
                invariant
                    i <= d.entries@.len(),
                    *b == Bencode::Dictionary(*d),
                    out@ == start + encode_entries(entries_of(d.entries@.take(i as int))),
                    forall|k: int|
                        0 <= k < i ==> key_bytes((#[trigger] d.entries@[k]).0@).len() <= usize::MAX
                            && well_formed(value_of(d.entries@[k].1)),
                decreases d.entries@.len() - i,
            {
                let entry = &d.entries[i];
                push_bytes_encoding(out, entry.0.as_str().as_bytes());
                proof {
                    assert(decreases_to!(*b => (*b)->Dictionary_0));
                    assert(decreases_to!(*d => d.entries));
                    assert(decreases_to!(d.entries => d.entries@));
                    assert(decreases_to!(d.entries@ => d.entries@[i as int]));
                    assert(decreases_to!(d.entries@[i as int] => d.entries@[i as int].1));
                }
                encode_into(&entry.1, out);
                proof {
                    let t = d.entries@.take(i + 1);
                    assert(t.drop_last() =~= d.entries@.take(i as int));
                    let es = entries_of(t);
                    assert(es == entries_of(t.drop_last()).push((t.last().0@, value_of(t.last().1))));
                    assert(es.drop_last() =~= entries_of(d.entries@.take(i as int)));
                    assert(es.last() == (entry.0@, value_of(entry.1)));
                }
                i = i + 1;
                assert(out@ =~= start + encode_entries(entries_of(d.entries@.take(i as int))));
            }
            assert(d.entries@.take(i as int) =~= d.entries@);
            out.push(101);
            assert(final(out)@ =~= old(out)@ + encode_value(b@));
            proof {
                use_type_invariant(d);
                lemma_entries_of_index(d.entries@);
                let e = entries_of(d.entries@);
                assert forall|k: int| 0 <= k < e.len() implies key_bytes(#[trigger] e[k].0).len()
                    <= usize::MAX && well_formed(e[k].1) by {
                    assert(e[k] == (d.entries@[k].0@, value_of(d.entries@[k].1)));
                }
            }
        },
    }
}

/// The bencode encoding of `bencode`: integers as `i<n>e`, byte strings
/// as `<length>:<bytes>`, lists as `l...e`, dictionaries as `d...e` with
/// their keys in the order of their bytes.
///
/// Every `Bencode` value is well formed (its dictionaries' keys ascend),
/// and decoding its encoding gives it back.
pub fn encode_bencode(bencode: &Bencode) -> (res: Vec<u8>)
    ensures
        res@ == encode_value(bencode@),
        well_formed(bencode@),
        decode_value_at(res@, 0) == (Ok::<BencodeValue, DecodeError>(bencode@), res@.len() as int),
{
    let mut out: Vec<u8> = Vec::new();
    encode_into(bencode, &mut out);
    assert(out@ =~= encode_value(bencode@));
    proof {
        assert(out@.subrange(0, out@.len() as int) =~= out@);
        law_decode_encode(bencode@, out@, 0);
    }
    out
}

/// Three-way lexicographic comparison of byte strings (the order of `str`
/// and `String`): -1 when `a` comes first, 0 when equal, 1 otherwise.
pub open spec fn lex_order(a: Seq<u8>, b: Seq<u8>) -> int
    decreases a.len(),
{
    if a.len() == 0 {
        if b.len() == 0 {
            0
        } else {
            -1
        }
    } else if b.len() == 0 {
        1
    } else if a[0] < b[0] {
        -1
    } else if a[0] > b[0] {
        1
    } else {
        lex_order(a.drop_first(), b.drop_first())
    }
}

/// The bytes by which a key is ordered and written: its UTF-8 encoding.
pub open spec fn key_bytes(k: Seq<char>) -> Seq<u8> {
    encode_utf8(k)
}

/// Keys strictly ascending: each key at most once, in byte order.
pub open spec fn keys_ascending(e: Seq<(Seq<char>, BencodeValue)>) -> bool {
    forall|i: int, j: int|
        0 <= i < j < e.len() ==> lex_order(key_bytes(#[trigger] e[i].0), key_bytes(#[trigger] e[j].0)) == -1
}

/// The entries after setting `k` to `v`: the first entry whose key is not
/// below `k` is replaced when its key is `k`, else `(k, v)` goes before it.
pub open spec fn dict_insert(
    e: Seq<(Seq<char>, BencodeValue)>,
    k: Seq<char>,
    v: BencodeValue,
) -> Seq<(Seq<char>, BencodeValue)>
    decreases e.len(),
{
    if e.len() == 0 {
        seq![(k, v)]
    } else {
        let o = lex_order(key_bytes(k), key_bytes(e[0].0));
        if o < 0 {
            seq![(k, v)] + e
        } else if o == 0 {
            seq![(k, v)] + e.drop_first()
        } else {
            seq![e[0]] + dict_insert(e.drop_first(), k, v)
        }
    }
}

/// The value of the first entry whose key is `k`.
pub open spec fn dict_lookup(e: Seq<(Seq<char>, BencodeValue)>, k: Seq<char>) -> Option<BencodeValue>
    decreases e.len(),
{
    if e.len() == 0 {
        None
    } else if e[0].0 == k {
        Some(e[0].1)
    } else {
        dict_lookup(e.drop_first(), k)
    }
}

/// `lex_order` takes only the values -1, 0 and 1, is 0 exactly on equal
/// strings, and swapping its arguments negates it.
pub proof fn lemma_lex_order_basics(a: Seq<u8>, b: Seq<u8>)
    ensures
        -1 <= lex_order(a, b) <= 1,
        lex_order(a, b) == 0 <==> a == b,
        lex_order(a, b) == -lex_order(b, a),
    decreases a.len(),
{
    if a.len() > 0 && b.len() > 0 && a[0] == b[0] {
        lemma_lex_order_basics(a.drop_first(), b.drop_first());
        if a.drop_first() == b.drop_first() {
            assert(a =~= seq![a[0]] + a.drop_first());
            assert(b =~= seq![b[0]] + b.drop_first());
        }
    }
    if a.len() == 0 && b.len() == 0 {
        assert(a =~= b);
    }
}

/// `lex_order` is transitive.
pub proof fn lemma_lex_order_transitive(a: Seq<u8>, b: Seq<u8>, c: Seq<u8>)
    requires
        lex_order(a, b) == -1,
        lex_order(b, c) == -1,
    ensures
        lex_order(a, c) == -1,
    decreases a.len(),
{
    if a.len() > 0 && b.len() > 0 && c.len() > 0 && a[0] == b[0] && b[0] == c[0] {
        lemma_lex_order_transitive(a.drop_first(), b.drop_first(), c.drop_first());
    }
}

/// Keys are ordered by plain lexicographic byte order: after a common
/// prefix, the first differing byte decides, whatever follows it or how long
/// either key is.
pub proof fn law_lex_order_first_difference(p: Seq<u8>, s: Seq<u8>, t: Seq<u8>, x: u8, y: u8)
    requires
        x < y,
    ensures
        lex_order(p + seq![x] + s, p + seq![y] + t) == -1,
        lex_order(p + seq![y] + t, p + seq![x] + s) == 1,
    decreases p.len(),
{
    let a = p + seq![x] + s;
    let b = p + seq![y] + t;
    if p.len() == 0 {
        assert(a[0] == x);
        assert(b[0] == y);
    } else {
        assert(a[0] == p[0]);
        assert(b[0] == p[0]);
        assert(a.drop_first() =~= p.drop_first() + seq![x] + s);
        assert(b.drop_first() =~= p.drop_first() + seq![y] + t);
        law_lex_order_first_difference(p.drop_first(), s, t, x, y);
    }
}

/// A key comes before every longer key that starts with it.
pub proof fn law_lex_order_proper_prefix(p: Seq<u8>, s: Seq<u8>)
    requires
        s.len() > 0,
    ensures
        lex_order(p, p + s) == -1,
        lex_order(p + s, p) == 1,
    decreases p.len(),
{
    let b = p + s;
    if p.len() > 0 {
        assert(b[0] == p[0]);
        assert(b.drop_first() =~= p.drop_first() + s);
        law_lex_order_proper_prefix(p.drop_first(), s);
    }
}

/// Equal encodings come from equal texts.
pub proof fn lemma_key_bytes_injective(a: Seq<char>, b: Seq<char>)
    requires
        key_bytes(a) == key_bytes(b),
    ensures
        a == b,
{
    encode_utf8_decode_utf8(a);
    encode_utf8_decode_utf8(b);
}

/// `lex_order(a, b)`, computed.
pub fn compare_bytes(a: &[u8], b: &[u8]) -> (res: i8)
    ensures
        res as int == lex_order(a@, b@),
{
    let mut i: usize = 0;
    assert(a@.skip(0) =~= a@);
    assert(b@.skip(0) =~= b@);
    while i < a.len() && i < b.len()
        invariant
            i <= a@.len(),
            i <= b@.len(),
            lex_order(a@, b@) == lex_order(a@.skip(i as int), b@.skip(i as int)),
        decreases a@.len() - i,
    {
        if a[i] < b[i] {
            return -1;
        }
        if a[i] > b[i] {
            return 1;
        }
        assert(a@.skip(i as int).drop_first() =~= a@.skip(i + 1));
        assert(b@.skip(i as int).drop_first() =~= b@.skip(i + 1));
        i = i + 1;
    }
    if i == a.len() {
        if i == b.len() {
            0
        } else {
            -1
        }
    } else {
        1
    }
}

/// Each entry of `entries_of(s)` comes from the entry of `s` at the same place.
proof fn lemma_entries_of_index(s: Seq<(String, Bencode)>)
    ensures
        entries_of(s).len() == s.len(),
        forall|i: int|
            0 <= i < s.len() ==> #[trigger] entries_of(s)[i] == (s[i].0@, value_of(s[i].1)),
    decreases s.len(),
{
    if s.len() > 0 {
        lemma_entries_of_index(s.drop_last());
    }
}

/// Each value of `values_of(s)` comes from the item of `s` at the same place.
pub proof fn lemma_values_of_index(s: Seq<Bencode>)
    ensures
        values_of(s).len() == s.len(),
        forall|i: int| 0 <= i < s.len() ==> #[trigger] values_of(s)[i] == value_of(s[i]),
    decreases s.len(),
{
    if s.len() > 0 {
        lemma_values_of_index(s.drop_last());
    }
}

/// Where every key before place `i` is below `k` and the key at `i` (if
/// any) is not, inserting puts `(k, v)` at `i`, replacing an equal key.
proof fn lemma_dict_insert_at(e: Seq<(Seq<char>, BencodeValue)>, k: Seq<char>, v: BencodeValue, i: int)
    requires
        0 <= i <= e.len(),
        forall|j: int| 0 <= j < i ==> lex_order(key_bytes(k), key_bytes(#[trigger] e[j].0)) == 1,
        i < e.len() ==> lex_order(key_bytes(k), key_bytes(e[i].0)) <= 0,
    ensures
        dict_insert(e, k, v) == e.take(i) + seq![(k, v)] + e.skip(
            if i < e.len() && lex_order(key_bytes(k), key_bytes(e[i].0)) == 0 {
                i + 1
            } else {
                i
            },
        ),
    decreases i,
{
    if i == 0 {
        if e.len() > 0 {
            lemma_lex_order_basics(key_bytes(k), key_bytes(e[0].0));
            assert(e.skip(1) =~= e.drop_first());
        }
        assert(e.take(0) =~= Seq::<(Seq<char>, BencodeValue)>::empty());
        assert(e.skip(0) =~= e);
    } else {
        let rest = e.drop_first();
        assert forall|j: int| 0 <= j < i - 1 implies lex_order(key_bytes(k), key_bytes(#[trigger] rest[j].0)) == 1 by {
            assert(rest[j] == e[j + 1]);
        }
        lemma_dict_insert_at(rest, k, v, i - 1);
        let r = if i < e.len() && lex_order(key_bytes(k), key_bytes(e[i].0)) == 0 {
            i + 1
        } else {
            i
        };
        assert(rest.skip(r - 1) =~= e.skip(r));
        assert(seq![e[0]] + rest.take(i - 1) =~= e.take(i));
        assert(seq![e[0]] + (rest.take(i - 1) + seq![(k, v)] + rest.skip(r - 1)) =~= e.take(i) + seq![(k, v)] + e.skip(r));
    }
}

impl BencodeDict {
    /// Every dictionary keeps its keys strictly ascending.
    #[verifier::type_invariant]
    spec fn keys_in_order(self) -> bool {
        keys_ascending(entries_of(self.entries@))
    }

    /// An empty dictionary.
    pub fn new() -> (res: BencodeDict)
        ensures
            dict_entries(res) == Seq::<(Seq<char>, BencodeValue)>::empty(),
            keys_ascending(dict_entries(res)),
    {
        let res = BencodeDict { entries: Vec::new() };
        assert(dict_entries(res) =~= Seq::<(Seq<char>, BencodeValue)>::empty());
        res
    }

    /// The number of entries.
    pub fn len(&self) -> (res: usize)
        ensures
            res == dict_entries(*self).len(),
    {
        proof {
            lemma_entries_of_index(self.entries@);
        }
        self.entries.len()
    }

    /// The key and value at place `i` of the key order.
    pub fn entry(&self, i: usize) -> (res: (&String, &Bencode))
        requires
            i < dict_entries(*self).len(),
        ensures
            dict_entries(*self)[i as int] == (res.0@, value_of(*res.1)),
    {
        proof {
            lemma_entries_of_index(self.entries@);
        }
        let e = &self.entries[i];
        (&e.0, &e.1)
    }

    /// Sets `key` to `value`, as a map does: an entry with that key is
    /// replaced, else a new entry goes in its place in the key order.
    pub fn insert(&mut self, key: String, value: Bencode)
        ensures
            dict_entries(*final(self)) == dict_insert(dict_entries(*old(self)), key@, value@),
            keys_ascending(dict_entries(*final(self))),
    {
        proof {
            use_type_invariant(&*self);
        }
        let mut entries: Vec<(String, Bencode)> = Vec::new();
        std::mem::swap(&mut entries, &mut self.entries);
        let ghost old_entries = entries@;
        proof {
            lemma_entries_of_index(old_entries);
        }
        let mut i: usize = 0;
        let mut order: i8 = 1;
        let mut stop = false;
        while !stop && i < entries.len()
            invariant
                entries@ == old_entries,
                i <= old_entries.len(),
                stop ==> i < old_entries.len() && order <= 0 && order as int == lex_order(
                    key_bytes(key@),
                    key_bytes(entries_of(old_entries)[i as int].0),
                ),
                forall|j: int|
                    0 <= j < i ==> lex_order(
                        key_bytes(key@),
                        key_bytes(#[trigger] entries_of(old_entries)[j].0),
                    ) == 1,
                entries_of(old_entries).len() == old_entries.len(),
                forall|j: int|
                    0 <= j < old_entries.len() ==> #[trigger] entries_of(old_entries)[j] == (
                        old_entries[j].0@,
                        value_of(old_entries[j].1),
                    ),
            decreases old_entries.len() - i + (if stop { 0int } else { 1int }),
        {
            let o = compare_bytes(key.as_str().as_bytes(), entries[i].0.as_str().as_bytes());
            proof {
                lemma_lex_order_basics(key_bytes(key@), key_bytes(old_entries[i as int].0@));
            }
            if o <= 0 {
                stop = true;
                order = o;
            } else {
                i = i + 1;
            }
        }
        let ghost e = entries_of(old_entries);
        proof {
            lemma_dict_insert_at(e, key@, value@, i as int);
        }
        let replace = stop && order == 0;
        if replace {
            entries.remove(i);
        }
        entries.insert(i, (key, value));
        proof {
            lemma_entries_of_index(entries@);
            let target = dict_insert(e, key@, value@);
            assert(entries_of(entries@) =~= target);
            law_insert_keeps_ascending(e, key@, value@);
        }
        self.entries = entries;
    }

    /// The value under `key`.
    pub fn get(&self, key: &str) -> (res: Option<&Bencode>)
        ensures
            match res {
                Some(v) => dict_lookup(dict_entries(*self), key@) == Some(value_of(*v)),
                None => dict_lookup(dict_entries(*self), key@) is None,
            },
    {
        let ghost e = entries_of(self.entries@);
        proof {
            lemma_entries_of_index(self.entries@);
        }
        let mut i: usize = 0;
        assert(e.skip(0) =~= e);
        while i < self.entries.len()
            invariant
                i <= self.entries@.len(),
                e == entries_of(self.entries@),
                e.len() == self.entries@.len(),
                forall|j: int|
                    0 <= j < self.entries@.len() ==> #[trigger] e[j] == (
                        self.entries@[j].0@,
                        value_of(self.entries@[j].1),
                    ),
                dict_lookup(e, key@) == dict_lookup(e.skip(i as int), key@),
            decreases self.entries@.len() - i,
        {
            let k = self.entries[i].0.as_str();
            let order = compare_bytes(key.as_bytes(), k.as_bytes());
            proof {
                lemma_lex_order_basics(key_bytes(key@), key_bytes(k@));
                if order == 0 {
                    lemma_key_bytes_injective(key@, k@);
                } else if key@ == k@ {
                    assert(false);
                }
                assert(e.skip(i as int).drop_first() =~= e.skip(i + 1));
            }
            if order == 0 {
                return Some(&self.entries[i].1);
            }
            i = i + 1;
        }
        None
    }
}

/// Why decoding stopped.
#[derive(Debug, Clone, Copy, PartialEq, Eq, Structural)]
pub enum DecodeError {
    /// No value starts here.
    InvalidFormat,
    /// The digits of an integer or a length are not UTF-8.
    InvalidUtf8,
    /// The text of an integer is not an `i64`.
    InvalidInteger,
    /// An integer has no closing `e`.
    UnterminatedInteger,
    /// The length of a byte string is not a `usize`.
    InvalidLength,
    /// A byte string runs past the end of the input.
    StringOutOfBounds,
    /// The length of a byte string has no `:` after it.
    UnterminatedStringLength,
    /// A list has no closing `e`.
    UnterminatedList,
    /// A dictionary key is not UTF-8.
    InvalidKeyUtf8,
    /// A dictionary has no closing `e`.
    UnterminatedDictionary,
}

/// The message that reports each error.
pub open spec fn error_text(e: DecodeError) -> Seq<char> {
    match e {
        DecodeError::InvalidFormat => "Invalid bencode format"@,
        DecodeError::InvalidUtf8 => "Invalid UTF-8"@,
        DecodeError::InvalidInteger => "Invalid integer"@,
        DecodeError::UnterminatedInteger => "Unterminated integer"@,
        DecodeError::InvalidLength => "Invalid length"@,
        DecodeError::StringOutOfBounds => "String out of bounds"@,
        DecodeError::UnterminatedStringLength => "Unterminated string length"@,
        DecodeError::UnterminatedList => "Unterminated list"@,
        DecodeError::InvalidKeyUtf8 => "Invalid UTF-8 in key"@,
        DecodeError::UnterminatedDictionary => "Unterminated dictionary"@,
    }
}

impl DecodeError {
    /// The message that reports this error.
    pub fn message(&self) -> (res: String)
        ensures
            res@ == error_text(*self),
    {
        match self {
            DecodeError::InvalidFormat => "Invalid bencode format".to_owned(),
            DecodeError::InvalidUtf8 => "Invalid UTF-8".to_owned(),
            DecodeError::InvalidInteger => "Invalid integer".to_owned(),
            DecodeError::UnterminatedInteger => "Unterminated integer".to_owned(),
            DecodeError::InvalidLength => "Invalid length".to_owned(),
            DecodeError::StringOutOfBounds => "String out of bounds".to_owned(),
            DecodeError::UnterminatedStringLength => "Unterminated string length".to_owned(),
            DecodeError::UnterminatedList => "Unterminated list".to_owned(),
            DecodeError::InvalidKeyUtf8 => "Invalid UTF-8 in key".to_owned(),
            DecodeError::UnterminatedDictionary => "Unterminated dictionary".to_owned(),
        }
    }
}

/// What decoding from a position gives: a value or an error, and the
/// position at which the decoder stopped.
pub type Decoded = (Result<BencodeValue, DecodeError>, int);

/// The first position at or after `from` that holds `b`.
pub open spec fn find_byte(s: Seq<u8>, from: int, b: u8) -> Option<int>
    decreases s.len() - from,
{
    if from < 0 || from >= s.len() {
        None
    } else if s[from] == b {
        Some(from)
    } else {
        find_byte(s, from + 1, b)
    }
}

/// Decoding an integer whose `i` is at `pos`: the text up to the next `e`
/// must be UTF-8 and read as an `i64`.
pub open spec fn decode_integer_at(s: Seq<u8>, pos: int) -> Decoded {
    match find_byte(s, pos + 1, 101) {
        None => (Err(DecodeError::UnterminatedInteger), if pos + 1 <= s.len() {
            s.len() as int
        } else {
            pos + 1
        }),
        Some(e) => {
            let text = s.subrange(pos + 1, e);
            if !valid_utf8(text) {
                (Err(DecodeError::InvalidUtf8), e)
            } else {
                match parse_i64_text(text) {
                    None => (Err(DecodeError::InvalidInteger), e),
                    Some(n) => (Ok(BencodeValue::Int(n)), e + 1),
                }
            }
        },
    }
}

/// Decoding a byte string at `pos`: the text up to the next `:` must be
/// UTF-8 and read as a `usize` n, and n bytes must follow the `:`.
pub open spec fn decode_string_at(s: Seq<u8>, pos: int) -> Decoded {
    match find_byte(s, pos, 58) {
        None => (Err(DecodeError::UnterminatedStringLength), if pos <= s.len() {
            s.len() as int
        } else {
            pos
        }),
        Some(c) => {
            let text = s.subrange(pos, c);
            if !valid_utf8(text) {
                (Err(DecodeError::InvalidUtf8), c)
            } else {
                match parse_unsigned(text, usize::MAX as nat) {
                    None => (Err(DecodeError::InvalidLength), c),
                    Some(n) => if c + 1 + n > s.len() {
                        (Err(DecodeError::StringOutOfBounds), c + 1)
                    } else {
                        (Ok(BencodeValue::Bytes(s.subrange(c + 1, c + 1 + n))), c + 1 + n)
                    },
                }
            }
        },
    }
}

/// Decoding the value that starts at `pos`, chosen by its first byte.
pub open spec fn decode_value_at(s: Seq<u8>, pos: int) -> Decoded
    decreases s.len() - pos, 0int,
{
    if pos < 0 || pos >= s.len() {
        (Err(DecodeError::InvalidFormat), pos)
    } else if s[pos] == 105 {
        decode_integer_at(s, pos)
    } else if s[pos] == 108 {
        decode_list_items_at(s, pos + 1, Seq::empty())
    } else if s[pos] == 100 {
        decode_dict_items_at(s, pos + 1, Seq::empty())
    } else if is_digit(s[pos]) {
        decode_string_at(s, pos)
    } else {
        (Err(DecodeError::InvalidFormat), pos)
    }
}

/// Decoding list items from `pos` on, after the items `acc`, up to the
/// closing `e`.
pub open spec fn decode_list_items_at(s: Seq<u8>, pos: int, acc: Seq<BencodeValue>) -> Decoded
    decreases s.len() - pos, 1int,
{
    if pos < 0 || pos >= s.len() {
        (Err(DecodeError::UnterminatedList), pos)
    } else if s[pos] == 101 {
        (Ok(BencodeValue::List(acc)), pos + 1)
    } else {
        let (r, p) = decode_value_at(s, pos);
        match r {
            Err(e) => (Err(e), p),
            Ok(v) => if pos < p <= s.len() {
                decode_list_items_at(s, p, acc.push(v))
            } else {
                (Err(DecodeError::InvalidFormat), p)
            },
        }
    }
}

/// Decoding dictionary entries from `pos` on, after the entries `acc`, up
/// to the closing `e`: a byte string key that must be UTF-8, then a value;
/// a later entry with the same key replaces an earlier one.
pub open spec fn decode_dict_items_at(
    s: Seq<u8>,
    pos: int,
    acc: Seq<(Seq<char>, BencodeValue)>,
) -> Decoded
    decreases s.len() - pos, 1int,
{
    if pos < 0 || pos >= s.len() {
        (Err(DecodeError::UnterminatedDictionary), pos)
    } else if s[pos] == 101 {
        (Ok(BencodeValue::Dict(acc)), pos + 1)
    } else {
        let (r, p) = decode_string_at(s, pos);
        match r {
            Err(e) => (Err(e), p),
            Ok(k) => match k {
                BencodeValue::Bytes(kb) => if !valid_utf8(kb) {
                    (Err(DecodeError::InvalidKeyUtf8), p)
                } else if pos < p <= s.len() {
                    let (r2, p2) = decode_value_at(s, p);
                    match r2 {
                        Err(e) => (Err(e), p2),
                        Ok(v) => if p < p2 <= s.len() {
                            decode_dict_items_at(s, p2, dict_insert(acc, decode_utf8(kb), v))
                        } else {
                            (Err(DecodeError::InvalidFormat), p2)
                        },
                    }
                } else {
                    (Err(DecodeError::InvalidFormat), p)
                },
                _ => (Err(DecodeError::InvalidFormat), p),
            },
        }
    }
}

/// The outcome of an exec decoder agrees with a `Decoded`.
pub open spec fn decoded_as(res: Result<Bencode, DecodeError>, end: usize, d: Decoded) -> bool {
    &&& d.1 == end as int
    &&& match res {
        Ok(b) => d.0 == Ok::<BencodeValue, DecodeError>(value_of(b)),
        Err(e) => d.0 == Err::<BencodeValue, DecodeError>(e),
    }
}

/// Decodes the integer whose `i` is at `*index`; `*index` ends after its
/// `e`, or where decoding stopped.
pub fn decode_integer(bytes: &[u8], index: &mut usize) -> (res: Result<Bencode, DecodeError>)
    requires
        *old(index) < usize::MAX,
    ensures
        decoded_as(res, *final(index), decode_integer_at(bytes@, *old(index) as int)),
        res is Ok ==> *old(index) < *final(index) <= bytes@.len(),
{
    let n = bytes.len();
    let start = *index + 1;
    let mut i = start;
    while i < bytes.len()
        invariant
            start == *old(index) + 1,
            *index == *old(index),
            start <= i,
            i <= bytes@.len() || i == start,
            find_byte(bytes@, start as int, 101) == find_byte(bytes@, i as int, 101),
        decreases bytes@.len() - i,
    {
        if bytes[i] == 101 {
            assert(find_byte(bytes@, i as int, 101) == Some(i as int));
            let digits = &bytes[start..i];
            *index = i;
            if str_from_utf8(digits).is_none() {
                return Err(DecodeError::InvalidUtf8);
            }
            match parse_i64_slice(bytes, start, i) {
                None => {
                    return Err(DecodeError::InvalidInteger);
                },
                Some(n) => {
                    *index = i + 1;
                    return Ok(Bencode::Integer(n));
                },
            }
        }
        i += 1;
    }
    *index = i;
    Err(DecodeError::UnterminatedInteger)
}

/// Decodes the byte string whose length starts at `*index`; `*index` ends
/// after its last byte, or where decoding stopped.
pub fn decode_string(bytes: &[u8], index: &mut usize) -> (res: Result<Bencode, DecodeError>)
    ensures
        decoded_as(res, *final(index), decode_string_at(bytes@, *old(index) as int)),
        res is Ok ==> *old(index) < *final(index) <= bytes@.len(),
        res matches Ok(b) ==> b is String,
{
    let start = *index;
    let mut i = start;
    while i < bytes.len()
        invariant
            start == *old(index),
            *index == *old(index),
            start <= i,
            i <= bytes@.len() || i == start,
            find_byte(bytes@, start as int, 58) == find_byte(bytes@, i as int, 58),
        decreases bytes@.len() - i,
    {
        if bytes[i] == 58 {
            assert(find_byte(bytes@, i as int, 58) == Some(i as int));
            let digits = &bytes[start..i];
            *index = i;
            if str_from_utf8(digits).is_none() {
                return Err(DecodeError::InvalidUtf8);
            }
            match parse_usize_slice(bytes, start, i) {
                None => {
                    return Err(DecodeError::InvalidLength);
                },
                Some(len) => {
                    let first = i + 1;
                    *index = first;
                    if len > bytes.len() - first {
                        return Err(DecodeError::StringOutOfBounds);
                    }
                    let end = first + len;
                    let string = slice_to_vec(&bytes[first..end]);
                    *index = end;
                    return Ok(Bencode::String(string));
                },
            }
        }
        i += 1;
    }
    *index = i;
    Err(DecodeError::UnterminatedStringLength)
}

/// Decodes the value that starts at `*index`; `*index` ends just after it,
/// or where decoding stopped.
pub fn decode_value(bytes: &[u8], index: &mut usize) -> (res: Result<Bencode, DecodeError>)
    ensures
        decoded_as(res, *final(index), decode_value_at(bytes@, *old(index) as int)),
        res is Ok ==> *old(index) < *final(index) <= bytes@.len(),
        res matches Ok(b) ==> well_formed(b@),
    decreases bytes@.len() - *old(index), 0int,
{
    proof {
        law_decoded_well_formed(bytes@, *index as int);
    }
    if *index >= bytes.len() {
        return Err(DecodeError::InvalidFormat);
    }
    let b = bytes[*index];
    if b == 105 {
        decode_integer(bytes, index)
    } else if b == 108 {
        decode_list(bytes, index)
    } else if b == 100 {
        decode_dictionary(bytes, index)
    } else if 48 <= b && b <= 57 {
        decode_string(bytes, index)
    } else {
        Err(DecodeError::InvalidFormat)
    }
}

/// Decodes the list whose `l` is at `*index`.
pub fn decode_list(bytes: &[u8], index: &mut usize) -> (res: Result<Bencode, DecodeError>)
    requires
        *old(index) < usize::MAX,
    ensures
        decoded_as(
            res,
            *final(index),
            decode_list_items_at(bytes@, *old(index) + 1, Seq::empty()),
        ),
        res is Ok ==> *old(index) < *final(index) <= bytes@.len(),
    decreases bytes@.len() - *old(index) - 1, 1int,
{
    let ghost start = *index as int;
    let n = bytes.len();
    *index += 1;
    if *index >= bytes.len() {
        return Err(DecodeError::UnterminatedList);
    }
    let mut list: Vec<Bencode> = Vec::new();
    assert(values_of(list@) =~= Seq::<BencodeValue>::empty());
    while *index < bytes.len()
        invariant
            start < *index <= bytes@.len(),
            start == *old(index),
            decode_list_items_at(bytes@, *index as int, values_of(list@))
                == decode_list_items_at(bytes@, start + 1, Seq::empty()),
        decreases bytes@.len() - *index,
    {
        if bytes[*index] == 101 {
            *index += 1;
            return Ok(Bencode::List(list));
        }
        let ghost pos = *index as int;
        let item = decode_value(bytes, index);
        match item {
            Err(e) => {
                return Err(e);
            },
            Ok(v) => {
                let ghost before = list@;
                list.push(v);
                assert(list@.drop_last() =~= before);
            },
        }
    }
    Err(DecodeError::UnterminatedList)
}

/// Decodes the dictionary whose `d` is at `*index`.
pub fn decode_dictionary(bytes: &[u8], index: &mut usize) -> (res: Result<Bencode, DecodeError>)
    requires
        *old(index) < usize::MAX,
    ensures
        decoded_as(
            res,
            *final(index),
            decode_dict_items_at(bytes@, *old(index) + 1, Seq::empty()),
        ),
        res is Ok ==> *old(index) < *final(index) <= bytes@.len(),
    decreases bytes@.len() - *old(index) - 1, 1int,
{
    let ghost start = *index as int;
    let n = bytes.len();
    *index += 1;
    if *index >= bytes.len() {
        return Err(DecodeError::UnterminatedDictionary);
    }
    let mut dict = BencodeDict::new();
    while *index < bytes.len()
        invariant
            start < *index <= bytes@.len(),
            start == *old(index),
            decode_dict_items_at(bytes@, *index as int, dict_entries(dict))
                == decode_dict_items_at(bytes@, start + 1, Seq::empty()),
        decreases bytes@.len() - *index,
    {
        if bytes[*index] == 101 {
            *index += 1;
            return Ok(Bencode::Dictionary(dict));
        }
        let ghost pos = *index as int;
        let key = decode_string(bytes, index);
        let key_bytes = match key {
            Err(e) => {
                return Err(e);
            },
            Ok(Bencode::String(kb)) => kb,
            Ok(_) => {
                return Err(DecodeError::InvalidFormat);
            },
        };
        let text = match str_from_utf8(key_bytes.as_slice()) {
            None => {
                return Err(DecodeError::InvalidKeyUtf8);
            },
            Some(t) => t,
        };
        let key_string = text.to_owned();
        proof {
            encode_utf8_decode_utf8(text@);
        }
        let value = decode_value(bytes, index);
        match value {
            Err(e) => {
                return Err(e);
            },
            Ok(v) => {
                dict.insert(key_string, v);
            },
        }
    }
    Err(DecodeError::UnterminatedDictionary)
}

/// Decodes the bencoded value that starts at `*index`. On success `*index`
/// ends just after the value; on failure the message says why, and
/// `*index` is where decoding stopped.
pub fn decode_bencode(bytes: &[u8], index: &mut usize) -> (res: Result<Bencode, String>)
    ensures
        *final(index) == decode_value_at(bytes@, *old(index) as int).1,
        match res {
            Ok(b) => decode_value_at(bytes@, *old(index) as int).0 == Ok::<BencodeValue, DecodeError>(b@),
            Err(m) => match decode_value_at(bytes@, *old(index) as int).0 {
                Ok(_) => false,
                Err(e) => m@ == error_text(e),
            },
        },
        res is Ok ==> *old(index) < *final(index) <= bytes@.len(),
        res matches Ok(b) ==> well_formed(b@),
{
    match decode_value(bytes, index) {
        Ok(b) => Ok(b),
        Err(e) => Err(e.message()),
    }
}

/// A value that a `Bencode` can hold and bencode can carry: integers in the
/// range of `i64`, byte strings and keys whose length is a `usize`, and
/// dictionaries whose keys ascend (each key once).
pub open spec fn well_formed(v: BencodeValue) -> bool
    decreases v,
{
    match v {
        BencodeValue::Int(i) => i64::MIN <= i <= i64::MAX,
        BencodeValue::Bytes(b) => b.len() <= usize::MAX,
        BencodeValue::List(items) => forall|i: int|
            0 <= i < items.len() ==> well_formed(#[trigger] items[i]),
        BencodeValue::Dict(e) => keys_ascending(e) && forall|i: int|
            0 <= i < e.len() ==> key_bytes(#[trigger] e[i].0).len() <= usize::MAX && well_formed(
                e[i].1,
            ),
    }
}

/// Bytes below 128 are valid UTF-8.
proof fn lemma_ascii_valid_utf8(b: Seq<u8>)
    requires
        forall|i: int| 0 <= i < b.len() ==> #[trigger] b[i] < 128,
    ensures
        valid_utf8(b),
{
    assert(b.subrange(0, 0) =~= Seq::<u8>::empty());
    assert(valid_utf8(Seq::<u8>::empty()));
    assert forall|i: int| 0 <= 0 <= i < b.len() <= b.len() implies #[trigger] is_leading_byte_width_1(b[i]) by {
    }
    partial_valid_utf8_extend_ascii_block(b, 0, b.len() as int);
    assert(b.subrange(0, b.len() as int) =~= b);
}

/// A piece of a window of `s` is the same piece of `s`.
proof fn lemma_window_piece(s: Seq<u8>, pos: int, w: Seq<u8>, off: int, len: int)
    requires
        0 <= pos,
        pos + w.len() <= s.len(),
        s.subrange(pos, pos + w.len()) == w,
        0 <= off,
        0 <= len,
        off + len <= w.len(),
    ensures
        s.subrange(pos + off, pos + off + len) == w.subrange(off, off + len),
{
    assert forall|j: int| 0 <= j < len implies #[trigger] s.subrange(pos + off, pos + off + len)[j]
        == w.subrange(off, off + len)[j] by {
        assert(s[pos + off + j] == s.subrange(pos, pos + w.len())[off + j]);
    }
    assert(s.subrange(pos + off, pos + off + len) =~= w.subrange(off, off + len));
}

/// The first `b` at or after `pos` is at `q` when the bytes before it differ.
proof fn lemma_find_byte_at(s: Seq<u8>, pos: int, q: int, b: u8)
    requires
        0 <= pos <= q < s.len(),
        s[q] == b,
        forall|j: int| pos <= j < q ==> #[trigger] s[j] != b,
    ensures
        find_byte(s, pos, b) == Some(q),
    decreases q - pos,
{
    if pos < q {
        lemma_find_byte_at(s, pos + 1, q, b);
    }
}

/// The text of an integer is ASCII digits after an optional `-`.
proof fn lemma_decimal_text_bytes(n: int)
    ensures
        forall|j: int|
            0 <= j < decimal_text(n).len() ==> (is_digit(#[trigger] decimal_text(n)[j]) || decimal_text(
                n,
            )[j] == 45),
{
    if n < 0 {
        lemma_decimal_digits((-n) as nat);
        assert forall|j: int| 0 <= j < decimal_text(n).len() implies (is_digit(
            #[trigger] decimal_text(n)[j],
        ) || decimal_text(n)[j] == 45) by {
            if j > 0 {
                assert(decimal_text(n)[j] == decimal_digits((-n) as nat)[j - 1]);
            }
        }
    } else {
        lemma_decimal_digits(n as nat);
    }
}

/// An encoding is never empty and never starts with `e`.
proof fn lemma_encode_value_first(v: BencodeValue)
    ensures
        encode_value(v).len() >= 1,
        encode_value(v)[0] == 105 || encode_value(v)[0] == 108 || encode_value(v)[0] == 100
            || is_digit(encode_value(v)[0]),
{
    match v {
        BencodeValue::Bytes(b) => {
            lemma_decimal_digits(b.len());
        },
        _ => {},
    }
}

/// The items of a list are encoded front to back.
proof fn lemma_encode_items_front(items: Seq<BencodeValue>)
    requires
        items.len() > 0,
    ensures
        encode_items(items) == encode_value(items[0]) + encode_items(items.drop_first()),
    decreases items.len(),
{
    if items.len() > 1 {
        lemma_encode_items_front(items.drop_last());
        assert(items.drop_last().drop_first() =~= items.drop_first().drop_last());
        assert(items.drop_last()[0] == items[0]);
    } else {
        assert(items.drop_last() =~= Seq::<BencodeValue>::empty());
        assert(items.drop_first() =~= Seq::<BencodeValue>::empty());
    }
}

/// The entries of a dictionary are encoded front to back.
proof fn lemma_encode_entries_front(e: Seq<(Seq<char>, BencodeValue)>)
    requires
        e.len() > 0,
    ensures
        encode_entries(e) == encode_bytes(key_bytes(e[0].0)) + encode_value(e[0].1) + encode_entries(
            e.drop_first(),
        ),
    decreases e.len(),
{
    if e.len() > 1 {
        lemma_encode_entries_front(e.drop_last());
        assert(e.drop_last().drop_first() =~= e.drop_first().drop_last());
        assert(e.drop_last()[0] == e[0]);
    } else {
        assert(e.drop_last() =~= Seq::<(Seq<char>, BencodeValue)>::empty());
        assert(e.drop_first() =~= Seq::<(Seq<char>, BencodeValue)>::empty());
    }
}

/// A key above every key so far goes at the end.
proof fn lemma_dict_insert_last(e: Seq<(Seq<char>, BencodeValue)>, k: Seq<char>, v: BencodeValue)
    requires
        forall|j: int| 0 <= j < e.len() ==> lex_order(key_bytes(#[trigger] e[j].0), key_bytes(k)) == -1,
    ensures
        dict_insert(e, k, v) == e.push((k, v)),
    decreases e.len(),
{
    if e.len() > 0 {
        lemma_lex_order_basics(key_bytes(e[0].0), key_bytes(k));
        let rest = e.drop_first();
        assert forall|j: int| 0 <= j < rest.len() implies lex_order(key_bytes(#[trigger] rest[j].0), key_bytes(k)) == -1 by {
            assert(rest[j] == e[j + 1]);
        }
        lemma_dict_insert_last(rest, k, v);
        assert(seq![e[0]] + rest.push((k, v)) =~= e.push((k, v)));
    }
}

/// Decoding the encoding of a byte string gives it back.
proof fn lemma_decode_string_encoding(b: Seq<u8>, s: Seq<u8>, pos: int)
    requires
        b.len() <= usize::MAX,
        0 <= pos,
        pos + encode_bytes(b).len() <= s.len(),
        s.subrange(pos, pos + encode_bytes(b).len()) == encode_bytes(b),
    ensures
        decode_string_at(s, pos) == (Ok::<BencodeValue, DecodeError>(BencodeValue::Bytes(b)), pos + encode_bytes(b).len()),
{
    let digits = decimal_digits(b.len());
    let n = digits.len() as int;
    lemma_decimal_digits(b.len());
    let enc = encode_bytes(b);
    assert forall|j: int| pos <= j < pos + n implies #[trigger] s[j] != 58 by {
        assert(s[j] == enc[j - pos]);
        assert(enc[j - pos] == digits[j - pos]);
    }
    assert(s[pos + n] == enc[n]);
    lemma_find_byte_at(s, pos, pos + n, 58);
    lemma_ascii_valid_utf8(digits);
    lemma_parse_unsigned_decimal(b.len(), usize::MAX as nat);
    lemma_window_piece(s, pos, enc, n + 1, b.len() as int);
    assert(enc.subrange(n + 1, n + 1 + b.len()) =~= b);
    lemma_window_piece(s, pos, enc, 0, n);
    assert(enc.subrange(0, n) =~= digits);
}

/// Decoding the encoding of a well-formed value gives that value back and
/// stops right after the encoding, whatever bytes come before or after it.
pub proof fn law_decode_encode(v: BencodeValue, s: Seq<u8>, pos: int)
    requires
        well_formed(v),
        0 <= pos,
        pos + encode_value(v).len() <= s.len(),
        s.subrange(pos, pos + encode_value(v).len()) == encode_value(v),
    ensures
        decode_value_at(s, pos) == (Ok::<BencodeValue, DecodeError>(v), pos + encode_value(v).len()),
    decreases v,
{
    let enc = encode_value(v);
    assert(s[pos] == enc[0]);
    match v {
        BencodeValue::Int(i) => {
            let text = decimal_text(i);
            let n = text.len() as int;
            lemma_decimal_text_bytes(i);
            assert forall|j: int| pos + 1 <= j < pos + 1 + n implies #[trigger] s[j] != 101 by {
                assert(s[j] == enc[j - pos]);
                assert(enc[j - pos] == text[j - pos - 1]);
            }
            assert(s[pos + 1 + n] == enc[n + 1]);
            lemma_find_byte_at(s, pos + 1, pos + 1 + n, 101);
            lemma_window_piece(s, pos, enc, 1, n);
            assert(enc.subrange(1, 1 + n) =~= text);
            assert forall|j: int| 0 <= j < text.len() implies #[trigger] text[j] < 128 by {
                assert(is_digit(text[j]) || text[j] == 45);
            }
            lemma_ascii_valid_utf8(text);
            lemma_parse_i64_decimal(i);
        },
        BencodeValue::Bytes(b) => {
            lemma_decimal_digits(b.len());
            lemma_decode_string_encoding(b, s, pos);
        },
        BencodeValue::List(items) => {
            let inner = encode_items(items);
            lemma_window_piece(s, pos, enc, 1, inner.len() as int + 1);
            assert(enc.subrange(1, 1 + inner.len() as int + 1) =~= inner + seq![101u8]);
            lemma_decode_encode_items(items, s, pos + 1, Seq::empty());
            assert(Seq::<BencodeValue>::empty() + items =~= items);
        },
        BencodeValue::Dict(e) => {
            let inner = encode_entries(e);
            lemma_window_piece(s, pos, enc, 1, inner.len() as int + 1);
            assert(enc.subrange(1, 1 + inner.len() as int + 1) =~= inner + seq![101u8]);
            lemma_decode_encode_entries(e, s, pos + 1, Seq::empty());
            assert(Seq::<(Seq<char>, BencodeValue)>::empty() + e =~= e);
        },
    }
}

/// Distinct well-formed values have distinct encodings.
pub proof fn law_encode_injective(v1: BencodeValue, v2: BencodeValue)
    requires
        well_formed(v1),
        well_formed(v2),
        encode_value(v1) == encode_value(v2),
    ensures
        v1 == v2,
{
    let s = encode_value(v1);
    assert(s.subrange(0, s.len() as int) =~= s);
    law_decode_encode(v1, s, 0);
    law_decode_encode(v2, s, 0);
}

/// Decoding the encodings of list items, then `e`, gives the items.
proof fn lemma_decode_encode_items(items: Seq<BencodeValue>, s: Seq<u8>, p: int, acc: Seq<BencodeValue>)
    requires
        forall|i: int| 0 <= i < items.len() ==> well_formed(#[trigger] items[i]),
        0 <= p,
        p + encode_items(items).len() + 1 <= s.len(),
        s.subrange(p, p + encode_items(items).len() + 1) == encode_items(items) + seq![101u8],
    ensures
        decode_list_items_at(s, p, acc) == (
            Ok::<BencodeValue, DecodeError>(BencodeValue::List(acc + items)),
            p + encode_items(items).len() + 1,
        ),
    decreases items,
{
    let whole = encode_items(items) + seq![101u8];
    if items.len() == 0 {
        assert(s[p] == whole[0]);
        assert(acc + items =~= acc);
    } else {
        lemma_encode_items_front(items);
        let first = encode_value(items[0]);
        let rest = items.drop_first();
        lemma_encode_value_first(items[0]);
        assert(s[p] == whole[0]);
        lemma_window_piece(s, p, whole, 0, first.len() as int);
        assert(whole.subrange(0, first.len() as int) =~= first);
        law_decode_encode(items[0], s, p);
        let p2 = p + first.len();
        assert forall|i: int| 0 <= i < rest.len() implies well_formed(#[trigger] rest[i]) by {
            assert(rest[i] == items[i + 1]);
        }
        lemma_window_piece(s, p, whole, first.len() as int, encode_items(rest).len() as int + 1);
        assert(whole.subrange(first.len() as int, first.len() as int + encode_items(rest).len() as int + 1)
            =~= encode_items(rest) + seq![101u8]);
        lemma_decode_encode_items(rest, s, p2, acc.push(items[0]));
        assert(acc.push(items[0]) + rest =~= acc + items);
    }
}

/// Decoding the encodings of ascending dictionary entries, then `e`, gives
/// the entries, when each key is above every key decoded before.
proof fn lemma_decode_encode_entries(
    e: Seq<(Seq<char>, BencodeValue)>,
    s: Seq<u8>,
    p: int,
    acc: Seq<(Seq<char>, BencodeValue)>,
)
    requires
        keys_ascending(e),
        forall|i: int|
            0 <= i < e.len() ==> key_bytes(#[trigger] e[i].0).len() <= usize::MAX && well_formed(e[i].1),
        forall|i: int, j: int|
            0 <= i < acc.len() && 0 <= j < e.len() ==> lex_order(
                key_bytes(#[trigger] acc[i].0),
                key_bytes(#[trigger] e[j].0),
            ) == -1,
        0 <= p,
        p + encode_entries(e).len() + 1 <= s.len(),
        s.subrange(p, p + encode_entries(e).len() + 1) == encode_entries(e) + seq![101u8],
    ensures
        decode_dict_items_at(s, p, acc) == (
            Ok::<BencodeValue, DecodeError>(BencodeValue::Dict(acc + e)),
            p + encode_entries(e).len() + 1,
        ),
    decreases e,
{
    let whole = encode_entries(e) + seq![101u8];
    if e.len() == 0 {
        assert(s[p] == whole[0]);
        assert(acc + e =~= acc);
    } else {
        lemma_encode_entries_front(e);
        let k = e[0].0;
        let kb = key_bytes(k);
        let key_enc = encode_bytes(kb);
        let val_enc = encode_value(e[0].1);
        let rest = e.drop_first();
        lemma_decimal_digits(kb.len());
        assert(s[p] == whole[0]);
        assert(whole[0] == key_enc[0]);
        lemma_window_piece(s, p, whole, 0, key_enc.len() as int);
        assert(whole.subrange(0, key_enc.len() as int) =~= key_enc);
        lemma_decode_string_encoding(kb, s, p);
        encode_utf8_valid_utf8(k);
        encode_utf8_decode_utf8(k);
        let p1 = p + key_enc.len();
        lemma_window_piece(s, p, whole, key_enc.len() as int, val_enc.len() as int);
        assert(whole.subrange(key_enc.len() as int, key_enc.len() as int + val_enc.len() as int) =~= val_enc);
        law_decode_encode(e[0].1, s, p1);
        lemma_encode_value_first(e[0].1);
        let p2 = p1 + val_enc.len();
        assert forall|j: int| 0 <= j < acc.len() implies lex_order(key_bytes(#[trigger] acc[j].0), kb) == -1 by {
            assert(lex_order(key_bytes(acc[j].0), key_bytes(e[0].0)) == -1);
        }
        lemma_dict_insert_last(acc, k, e[0].1);
        let acc2 = acc.push(e[0]);
        assert forall|i: int, j: int|
            0 <= i < acc2.len() && 0 <= j < rest.len() implies lex_order(
                key_bytes(#[trigger] acc2[i].0),
                key_bytes(#[trigger] rest[j].0),
            ) == -1 by {
            assert(rest[j] == e[j + 1]);
            if i < acc.len() {
                assert(acc2[i] == acc[i]);
            } else {
                assert(acc2[i] == e[0]);
            }
        }
        assert forall|i: int, j: int| 0 <= i < j < rest.len() implies lex_order(
            key_bytes(#[trigger] rest[i].0),
            key_bytes(#[trigger] rest[j].0),
        ) == -1 by {
            assert(rest[i] == e[i + 1]);
            assert(rest[j] == e[j + 1]);
        }
        assert forall|i: int| 0 <= i < rest.len() implies key_bytes(#[trigger] rest[i].0).len() <= usize::MAX
            && well_formed(rest[i].1) by {
            assert(rest[i] == e[i + 1]);
        }
        lemma_window_piece(s, p, whole, key_enc.len() as int + val_enc.len() as int, encode_entries(rest).len() as int + 1);
        assert(whole.subrange(key_enc.len() as int + val_enc.len() as int, key_enc.len() as int + val_enc.len() as int + encode_entries(rest).len() as int + 1)
            =~= encode_entries(rest) + seq![101u8]);
        lemma_decode_encode_entries(rest, s, p2, acc2);
        assert(acc2 + rest =~= acc + e);
    }
}

/// Looking a key up right after setting it gives the value just set.
pub proof fn law_lookup_after_insert(e: Seq<(Seq<char>, BencodeValue)>, k: Seq<char>, v: BencodeValue)
    ensures
        dict_lookup(dict_insert(e, k, v), k) == Some(v),
    decreases e.len(),
{
    if e.len() > 0 {
        let o = lex_order(key_bytes(k), key_bytes(e[0].0));
        lemma_lex_order_basics(key_bytes(k), key_bytes(e[0].0));
        if o > 0 {
            let r = dict_insert(e.drop_first(), k, v);
            law_lookup_after_insert(e.drop_first(), k, v);
            assert((seq![e[0]] + r).drop_first() =~= r);
        }
    }
}

/// Setting one key leaves what every other key looks up unchanged.
pub proof fn law_lookup_other_after_insert(
    e: Seq<(Seq<char>, BencodeValue)>,
    k: Seq<char>,
    v: BencodeValue,
    other: Seq<char>,
)
    requires
        other != k,
    ensures
        dict_lookup(dict_insert(e, k, v), other) == dict_lookup(e, other),
    decreases e.len(),
{
    if e.len() > 0 {
        let o = lex_order(key_bytes(k), key_bytes(e[0].0));
        lemma_lex_order_basics(key_bytes(k), key_bytes(e[0].0));
        if o < 0 {
            let r = seq![(k, v)] + e;
            assert(r[0] == (k, v));
            assert(r.drop_first() =~= e);
            assert(dict_insert(e, k, v) == r);
            assert(dict_lookup(r, other) == dict_lookup(e, other));
        } else if o == 0 {
            if e[0].0 == other {
                lemma_key_bytes_injective(k, e[0].0);
            }
            let r = seq![(k, v)] + e.drop_first();
            assert(r[0] == (k, v));
            assert(r.drop_first() =~= e.drop_first());
            assert(dict_insert(e, k, v) == r);
            assert(dict_lookup(r, other) == dict_lookup(e.drop_first(), other));
            assert(dict_lookup(r, other) == dict_lookup(e, other));
        } else {
            let t = dict_insert(e.drop_first(), k, v);
            law_lookup_other_after_insert(e.drop_first(), k, v, other);
            let r = seq![e[0]] + t;
            assert(r[0] == e[0]);
            assert(r.drop_first() =~= t);
            assert(dict_insert(e, k, v) == r);
            assert(dict_lookup(r, other) == dict_lookup(e, other));
        }
    } else {
        let r = seq![(k, v)];
        assert(r[0] == (k, v));
        assert(r.drop_first() =~= Seq::<(Seq<char>, BencodeValue)>::empty());
        assert(dict_lookup(r.drop_first(), other) is None);
        assert(dict_insert(e, k, v) == r);
    }
}

/// Every key after setting `k` is above `c` when `k` and the old keys are.
proof fn lemma_insert_lower_bound(
    e: Seq<(Seq<char>, BencodeValue)>,
    k: Seq<char>,
    v: BencodeValue,
    c: Seq<u8>,
)
    requires
        forall|j: int| 0 <= j < e.len() ==> lex_order(c, key_bytes(#[trigger] e[j].0)) == -1,
        lex_order(c, key_bytes(k)) == -1,
    ensures
        forall|i: int|
            0 <= i < dict_insert(e, k, v).len() ==> lex_order(c, key_bytes(#[trigger] dict_insert(e, k, v)[i].0))
                == -1,
    decreases e.len(),
{
    if e.len() > 0 {
        let o = lex_order(key_bytes(k), key_bytes(e[0].0));
        let rest = e.drop_first();
        if o > 0 {
            assert forall|j: int| 0 <= j < rest.len() implies lex_order(c, key_bytes(#[trigger] rest[j].0)) == -1 by {
                assert(rest[j] == e[j + 1]);
            }
            lemma_insert_lower_bound(rest, k, v, c);
            let r = dict_insert(rest, k, v);
            assert forall|i: int| 0 <= i < (seq![e[0]] + r).len() implies lex_order(
                c,
                key_bytes(#[trigger] (seq![e[0]] + r)[i].0),
            ) == -1 by {
                if i > 0 {
                    assert((seq![e[0]] + r)[i] == r[i - 1]);
                }
            }
        } else if o < 0 {
            assert forall|i: int| 0 <= i < (seq![(k, v)] + e).len() implies lex_order(
                c,
                key_bytes(#[trigger] (seq![(k, v)] + e)[i].0),
            ) == -1 by {
                if i > 0 {
                    assert((seq![(k, v)] + e)[i] == e[i - 1]);
                }
            }
        } else {
            assert forall|i: int| 0 <= i < (seq![(k, v)] + rest).len() implies lex_order(
                c,
                key_bytes(#[trigger] (seq![(k, v)] + rest)[i].0),
            ) == -1 by {
                if i > 0 {
                    assert((seq![(k, v)] + rest)[i] == e[i]);
                }
            }
        }
    }
}

/// Setting a key keeps the keys ascending: a dictionary built by `insert`
/// holds each key once, in byte order.
pub proof fn law_insert_keeps_ascending(e: Seq<(Seq<char>, BencodeValue)>, k: Seq<char>, v: BencodeValue)
    requires
        keys_ascending(e),
    ensures
        keys_ascending(dict_insert(e, k, v)),
    decreases e.len(),
{
    if e.len() > 0 {
        let kb = key_bytes(k);
        let o = lex_order(kb, key_bytes(e[0].0));
        lemma_lex_order_basics(kb, key_bytes(e[0].0));
        let rest = e.drop_first();
        if o < 0 {
            let r = seq![(k, v)] + e;
            assert forall|i: int, j: int| 0 <= i < j < r.len() implies lex_order(
                key_bytes(#[trigger] r[i].0),
                key_bytes(#[trigger] r[j].0),
            ) == -1 by {
                assert(r[j] == e[j - 1]);
                if i == 0 {
                    if j > 1 {
                        lemma_lex_order_transitive(kb, key_bytes(e[0].0), key_bytes(e[j - 1].0));
                    }
                } else {
                    assert(r[i] == e[i - 1]);
                }
            }
        } else if o == 0 {
            lemma_key_bytes_injective(k, e[0].0);
            let r = seq![(k, v)] + rest;
            assert forall|i: int, j: int| 0 <= i < j < r.len() implies lex_order(
                key_bytes(#[trigger] r[i].0),
                key_bytes(#[trigger] r[j].0),
            ) == -1 by {
                assert(r[j] == e[j]);
                if i > 0 {
                    assert(r[i] == e[i]);
                }
            }
        } else {
            assert forall|i: int, j: int| 0 <= i < j < rest.len() implies lex_order(
                key_bytes(#[trigger] rest[i].0),
                key_bytes(#[trigger] rest[j].0),
            ) == -1 by {
                assert(rest[i] == e[i + 1]);
                assert(rest[j] == e[j + 1]);
            }
            law_insert_keeps_ascending(rest, k, v);
            assert forall|j: int| 0 <= j < rest.len() implies lex_order(
                key_bytes(e[0].0),
                key_bytes(#[trigger] rest[j].0),
            ) == -1 by {
                assert(rest[j] == e[j + 1]);
            }
            lemma_insert_lower_bound(rest, k, v, key_bytes(e[0].0));
            let t = dict_insert(rest, k, v);
            let r = seq![e[0]] + t;
            assert forall|i: int, j: int| 0 <= i < j < r.len() implies lex_order(
                key_bytes(#[trigger] r[i].0),
                key_bytes(#[trigger] r[j].0),
            ) == -1 by {
                assert(r[j] == t[j - 1]);
                if i > 0 {
                    assert(r[i] == t[i - 1]);
                }
            }
        }
    }
}

/// In ascending entries, a key below the first key is absent.
proof fn lemma_lookup_below_first(e: Seq<(Seq<char>, BencodeValue)>, k: Seq<char>)
    requires
        keys_ascending(e),
        e.len() > 0,
        lex_order(key_bytes(k), key_bytes(e[0].0)) == -1,
    ensures
        dict_lookup(e, k) is None,
    decreases e.len(),
{
    lemma_lex_order_basics(key_bytes(k), key_bytes(e[0].0));
    assert(e[0].0 != k);
    assert(dict_lookup(e, k) == dict_lookup(e.drop_first(), k));
    if e.len() > 1 {
        let rest = e.drop_first();
        assert forall|i: int, j: int| 0 <= i < j < rest.len() implies lex_order(
            key_bytes(#[trigger] rest[i].0),
            key_bytes(#[trigger] rest[j].0),
        ) == -1 by {
            assert(rest[i] == e[i + 1]);
            assert(rest[j] == e[j + 1]);
        }
        assert(rest[0] == e[1]);
        assert(lex_order(key_bytes(e[0].0), key_bytes(e[1].0)) == -1);
        lemma_lex_order_transitive(key_bytes(k), key_bytes(e[0].0), key_bytes(e[1].0));
        lemma_lookup_below_first(rest, k);
    } else {
        assert(e.drop_first().len() == 0);
        assert(dict_lookup(e.drop_first(), k) is None);
    }
}

/// Two dictionaries whose keys ascend and that look every key up alike hold
/// the same entries, so they encode alike: the order in which their pairs
/// were inserted leaves no trace.
pub proof fn law_same_pairs_same_entries(e1: Seq<(Seq<char>, BencodeValue)>, e2: Seq<(Seq<char>, BencodeValue)>)
    requires
        keys_ascending(e1),
        keys_ascending(e2),
        forall|k: Seq<char>| #[trigger] dict_lookup(e1, k) == dict_lookup(e2, k),
    ensures
        e1 == e2,
        encode_value(BencodeValue::Dict(e1)) == encode_value(BencodeValue::Dict(e2)),
    decreases e1.len(),
{
    if e1.len() == 0 {
        if e2.len() > 0 {
            assert(dict_lookup(e2, e2[0].0) == Some(e2[0].1));
            assert(dict_lookup(e1, e2[0].0) is None);
        }
        assert(e1 =~= e2);
    } else if e2.len() == 0 {
        assert(dict_lookup(e1, e1[0].0) == Some(e1[0].1));
        assert(dict_lookup(e2, e1[0].0) is None);
    } else {
        let a = e1[0].0;
        let b = e2[0].0;
        lemma_lex_order_basics(key_bytes(a), key_bytes(b));
        assert(dict_lookup(e1, a) == Some(e1[0].1));
        assert(dict_lookup(e2, b) == Some(e2[0].1));
        if lex_order(key_bytes(a), key_bytes(b)) == -1 {
            lemma_lookup_below_first(e2, a);
            assert(dict_lookup(e2, a) == dict_lookup(e1, a));
        } else if lex_order(key_bytes(a), key_bytes(b)) == 1 {
            lemma_lookup_below_first(e1, b);
            assert(dict_lookup(e2, b) == dict_lookup(e1, b));
        } else {
            lemma_key_bytes_injective(a, b);
            assert(dict_lookup(e2, a) == dict_lookup(e1, a));
            let r1 = e1.drop_first();
            let r2 = e2.drop_first();
            assert forall|i: int, j: int| 0 <= i < j < r1.len() implies lex_order(
                key_bytes(#[trigger] r1[i].0),
                key_bytes(#[trigger] r1[j].0),
            ) == -1 by {
                assert(r1[i] == e1[i + 1]);
                assert(r1[j] == e1[j + 1]);
            }
            assert forall|i: int, j: int| 0 <= i < j < r2.len() implies lex_order(
                key_bytes(#[trigger] r2[i].0),
                key_bytes(#[trigger] r2[j].0),
            ) == -1 by {
                assert(r2[i] == e2[i + 1]);
                assert(r2[j] == e2[j + 1]);
            }
            assert forall|k: Seq<char>| #[trigger] dict_lookup(r1, k) == dict_lookup(r2, k) by {
                if k == a {
                    if r1.len() > 0 {
                        assert(r1[0] == e1[1]);
                        assert(lex_order(key_bytes(e1[0].0), key_bytes(e1[1].0)) == -1);
                        lemma_lookup_below_first(r1, k);
                    }
                    if r2.len() > 0 {
                        assert(r2[0] == e2[1]);
                        assert(lex_order(key_bytes(e2[0].0), key_bytes(e2[1].0)) == -1);
                        lemma_lookup_below_first(r2, k);
                    }
                } else {
                    assert(dict_lookup(e1, k) == dict_lookup(r1, k));
                    assert(dict_lookup(e2, k) == dict_lookup(r2, k));
                }
            }
            law_same_pairs_same_entries(r1, r2);
            assert(e1 =~= seq![e1[0]] + r1);
            assert(e2 =~= seq![e2[0]] + r2);
        }
    }
}

/// Setting two different keys gives the same dictionary in either order.
pub proof fn law_insert_order_irrelevant(
    e: Seq<(Seq<char>, BencodeValue)>,
    k1: Seq<char>,
    v1: BencodeValue,
    k2: Seq<char>,
    v2: BencodeValue,
)
    requires
        keys_ascending(e),
        k1 != k2,
    ensures
        dict_insert(dict_insert(e, k1, v1), k2, v2) == dict_insert(dict_insert(e, k2, v2), k1, v1),
{
    let a1 = dict_insert(e, k1, v1);
    let a2 = dict_insert(e, k2, v2);
    let x = dict_insert(a1, k2, v2);
    let y = dict_insert(a2, k1, v1);
    law_insert_keeps_ascending(e, k1, v1);
    law_insert_keeps_ascending(e, k2, v2);
    law_insert_keeps_ascending(a1, k2, v2);
    law_insert_keeps_ascending(a2, k1, v1);
    assert forall|k: Seq<char>| #[trigger] dict_lookup(x, k) == dict_lookup(y, k) by {
        if k == k1 {
            law_lookup_other_after_insert(a1, k2, v2, k);
            law_lookup_after_insert(e, k1, v1);
            law_lookup_after_insert(a2, k1, v1);
        } else if k == k2 {
            law_lookup_after_insert(a1, k2, v2);
            law_lookup_other_after_insert(a2, k1, v1, k);
            law_lookup_after_insert(e, k2, v2);
        } else {
            law_lookup_other_after_insert(a1, k2, v2, k);
            law_lookup_other_after_insert(e, k1, v1, k);
            law_lookup_other_after_insert(a2, k1, v1, k);
            law_lookup_other_after_insert(e, k2, v2, k);
        }
    }
    law_same_pairs_same_entries(x, y);
}

/// An entry that a well-formed dictionary can hold.
pub open spec fn entry_ok(x: (Seq<char>, BencodeValue)) -> bool {
    key_bytes(x.0).len() <= usize::MAX && well_formed(x.1)
}

/// Setting a key to an acceptable entry leaves only acceptable entries.
proof fn lemma_insert_entries_ok(e: Seq<(Seq<char>, BencodeValue)>, k: Seq<char>, v: BencodeValue)
    requires
        forall|j: int| 0 <= j < e.len() ==> entry_ok(#[trigger] e[j]),
        entry_ok((k, v)),
    ensures
        forall|i: int| 0 <= i < dict_insert(e, k, v).len() ==> entry_ok(#[trigger] dict_insert(e, k, v)[i]),
    decreases e.len(),
{
    if e.len() > 0 {
        let o = lex_order(key_bytes(k), key_bytes(e[0].0));
        let rest = e.drop_first();
        if o > 0 {
            assert forall|j: int| 0 <= j < rest.len() implies entry_ok(#[trigger] rest[j]) by {
                assert(rest[j] == e[j + 1]);
            }
            lemma_insert_entries_ok(rest, k, v);
            let r = dict_insert(rest, k, v);
            assert forall|i: int| 0 <= i < (seq![e[0]] + r).len() implies entry_ok(#[trigger] (seq![e[0]] + r)[i]) by {
                if i > 0 {
                    assert((seq![e[0]] + r)[i] == r[i - 1]);
                }
            }
        } else if o < 0 {
            assert forall|i: int| 0 <= i < (seq![(k, v)] + e).len() implies entry_ok(#[trigger] (seq![(k, v)] + e)[i]) by {
                if i > 0 {
                    assert((seq![(k, v)] + e)[i] == e[i - 1]);
                }
            }
        } else {
            assert forall|i: int| 0 <= i < (seq![(k, v)] + rest).len() implies entry_ok(#[trigger] (seq![(k, v)] + rest)[i]) by {
                if i > 0 {
                    assert((seq![(k, v)] + rest)[i] == e[i]);
                }
            }
        }
    }
}

/// A decoded integer lies in the range of `i64`.
proof fn lemma_decoded_integer_range(s: Seq<u8>, pos: int)
    ensures
        decode_integer_at(s, pos).0 matches Ok(v) ==> well_formed(v),
{
    match find_byte(s, pos + 1, 101) {
        None => {},
        Some(e) => {
            let text = s.subrange(pos + 1, e);
            if text.len() > 0 && text[0] == 45 {
            } else {
                match parse_unsigned(text, 0x7fff_ffff_ffff_ffff) {
                    Some(v) => {},
                    None => {},
                }
            }
        },
    }
}

/// What `find_byte` finds lies in the searched range and holds the byte.
proof fn lemma_find_byte_range(s: Seq<u8>, from: int, b: u8)
    ensures
        find_byte(s, from, b) matches Some(q) ==> 0 <= from <= q < s.len() && s[q] == b,
    decreases s.len() - from,
{
    if 0 <= from < s.len() && s[from] != b {
        lemma_find_byte_range(s, from + 1, b);
    }
}

/// A decoded byte string is no longer than a `usize` can count.
proof fn lemma_decoded_string_length(s: Seq<u8>, pos: int)
    ensures
        decode_string_at(s, pos).0 matches Ok(v) ==> v is Bytes && well_formed(v),
{
    lemma_find_byte_range(s, pos, 58);
    match find_byte(s, pos, 58) {
        None => {},
        Some(c) => {
            let text = s.subrange(pos, c);
            match parse_unsigned(text, usize::MAX as nat) {
                None => {},
                Some(n) => {
                    if c + 1 + n <= s.len() {
                        assert(s.subrange(c + 1, c + 1 + n).len() == n);
                    }
                },
            }
        },
    }
}

/// Whatever the decoder returns is well formed: integers fit an `i64`,
/// lengths a `usize`, and every dictionary holds each key once, ascending.
pub proof fn law_decoded_well_formed(s: Seq<u8>, pos: int)
    ensures
        decode_value_at(s, pos).0 matches Ok(v) ==> well_formed(v),
    decreases s.len() - pos, 0int,
{
    if 0 <= pos < s.len() {
        if s[pos] == 105 {
            lemma_decoded_integer_range(s, pos);
        } else if is_digit(s[pos]) {
            lemma_decoded_string_length(s, pos);
        }
        if s[pos] == 108 {
            lemma_decoded_list_well_formed(s, pos + 1, Seq::empty());
        } else if s[pos] == 100 {
            lemma_decoded_dict_well_formed(s, pos + 1, Seq::empty());
        }
    }
}

/// Decoded list items are well formed.
proof fn lemma_decoded_list_well_formed(s: Seq<u8>, pos: int, acc: Seq<BencodeValue>)
    requires
        forall|i: int| 0 <= i < acc.len() ==> well_formed(#[trigger] acc[i]),
    ensures
        decode_list_items_at(s, pos, acc).0 matches Ok(v) ==> well_formed(v),
    decreases s.len() - pos, 1int,
{
    if 0 <= pos < s.len() && s[pos] != 101 {
        let (r, p) = decode_value_at(s, pos);
        law_decoded_well_formed(s, pos);
        if let Ok(v) = r {
            if pos < p <= s.len() {
                let acc2 = acc.push(v);
                assert forall|i: int| 0 <= i < acc2.len() implies well_formed(#[trigger] acc2[i]) by {
                    if i < acc.len() {
                        assert(acc2[i] == acc[i]);
                    }
                }
                lemma_decoded_list_well_formed(s, p, acc2);
            }
        }
    }
}

/// Decoded dictionary entries are well formed and their keys ascend.
proof fn lemma_decoded_dict_well_formed(s: Seq<u8>, pos: int, acc: Seq<(Seq<char>, BencodeValue)>)
    requires
        keys_ascending(acc),
        forall|i: int| 0 <= i < acc.len() ==> entry_ok(#[trigger] acc[i]),
    ensures
        decode_dict_items_at(s, pos, acc).0 matches Ok(v) ==> well_formed(v),
    decreases s.len() - pos, 1int,
{
    if 0 <= pos < s.len() && s[pos] != 101 {
        let (r, p) = decode_string_at(s, pos);
        lemma_decoded_string_length(s, pos);
        if let Ok(BencodeValue::Bytes(kb)) = r {
            if valid_utf8(kb) && pos < p <= s.len() {
                let (r2, p2) = decode_value_at(s, p);
                law_decoded_well_formed(s, p);
                if let Ok(v) = r2 {
                    if p < p2 <= s.len() {
                        let k = decode_utf8(kb);
                        decode_utf8_encode_utf8(kb);
                        assert(entry_ok((k, v)));
                        law_insert_keeps_ascending(acc, k, v);
                        lemma_insert_entries_ok(acc, k, v);
                        lemma_decoded_dict_well_formed(s, p2, dict_insert(acc, k, v));
                    }
                }
            }
        }
    }
}

/// A copy of `b`, with the same value.
pub fn copy_bencode(b: &Bencode) -> (res: Bencode)
    ensures
        res@ == b@,
    decreases b,
{
    match b {
        Bencode::Integer(i) => Bencode::Integer(*i),
        Bencode::String(s) => Bencode::String(slice_to_vec(s.as_slice())),
        Bencode::List(l) => {
            let mut items: Vec<Bencode> = Vec::new();
            let mut i: usize = 0;
            while i < l.len()
                invariant
                    i <= l@.len(),
                    *b == Bencode::List(*l),
                    values_of(items@) == values_of(l@.take(i as int)),
                decreases l@.len() - i,
            {
                proof {
                    assert(decreases_to!(*b => (*b)->List_0));
                    assert(decreases_to!(*l => l@));
                    assert(decreases_to!(l@ => l@[i as int]));
                }
                let item = copy_bencode(&l[i]);
                let ghost before = items@;
                items.push(item);
                proof {
                    assert(items@.drop_last() =~= before);
                    assert(l@.take(i + 1).drop_last() =~= l@.take(i as int));
                }
                i = i + 1;
            }
            assert(l@.take(i as int) =~= l@);
            Bencode::List(items)
        },
        Bencode::Dictionary(d) => {
            proof {
                assert(decreases_to!(*b => (*b)->Dictionary_0));
            }
            Bencode::Dictionary(copy_dict(d))
        },
    }
}

/// A copy of `d`, with the same entries in the same order.
pub fn copy_dict(d: &BencodeDict) -> (res: BencodeDict)
    ensures
        dict_entries(res) == dict_entries(*d),
    decreases d,
{
    let mut entries: Vec<(String, Bencode)> = Vec::new();
    let mut i: usize = 0;
    while i < d.entries.len()
        invariant
            i <= d.entries@.len(),
            entries_of(entries@) == entries_of(d.entries@.take(i as int)),
        decreases d.entries@.len() - i,
    {
        proof {
            assert(decreases_to!(*d => d.entries));
            assert(decreases_to!(d.entries => d.entries@));
            assert(decreases_to!(d.entries@ => d.entries@[i as int]));
            assert(decreases_to!(d.entries@[i as int] => d.entries@[i as int].1));
        }
        let entry = &d.entries[i];
        let value = copy_bencode(&entry.1);
        let ghost before = entries@;
        entries.push((entry.0.clone(), value));
        proof {
            assert(entries@.drop_last() =~= before);
            assert(d.entries@.take(i + 1).drop_last() =~= d.entries@.take(i as int));
        }
        i = i + 1;
    }
    assert(d.entries@.take(i as int) =~= d.entries@);
    proof {
        use_type_invariant(d);
    }
    BencodeDict { entries }
}

impl Clone for BencodeDict {
    fn clone(&self) -> (res: Self)
        ensures
            dict_entries(res) == dict_entries(*self),
    {
        copy_dict(self)
    }
}

impl Clone for Bencode {
    fn clone(&self) -> (res: Self)
        ensures
            res@ == self@,
    {
        copy_bencode(self)
    }
}


/// A decoding outcome with its stopping position moved by `n`.
pub open spec fn shifted(d: Decoded, n: int) -> Decoded {
    (d.0, d.1 + n)
}

/// Searching the input behind a prefix finds the same byte, moved.
proof fn lemma_find_byte_shift(pre: Seq<u8>, x: Seq<u8>, from: int, b: u8)
    requires
        0 <= from,
    ensures
        find_byte(pre + x, pre.len() + from, b) == match find_byte(x, from, b) {
            Some(q) => Some(q + pre.len()),
            None => None::<int>,
        },
    decreases x.len() - from,
{
    if from < x.len() {
        assert((pre + x)[pre.len() + from] == x[from]);
        if x[from] != b {
            lemma_find_byte_shift(pre, x, from + 1, b);
        }
    }
}

/// Decoding an integer behind a prefix gives the same outcome, moved.
proof fn lemma_decode_integer_shift(pre: Seq<u8>, x: Seq<u8>, pos: int)
    requires
        0 <= pos,
    ensures
        decode_integer_at(pre + x, pre.len() + pos) == shifted(decode_integer_at(x, pos), pre.len() as int),
{
    let n = pre.len() as int;
    lemma_find_byte_shift(pre, x, pos + 1, 101);
    lemma_find_byte_range(x, pos + 1, 101);
    match find_byte(x, pos + 1, 101) {
        None => {},
        Some(e) => {
            assert((pre + x).subrange(n + pos + 1, n + e) =~= x.subrange(pos + 1, e));
        },
    }
}

/// Decoding a byte string behind a prefix gives the same outcome, moved.
proof fn lemma_decode_string_shift(pre: Seq<u8>, x: Seq<u8>, pos: int)
    requires
        0 <= pos,
    ensures
        decode_string_at(pre + x, pre.len() + pos) == shifted(decode_string_at(x, pos), pre.len() as int),
{
    let n = pre.len() as int;
    lemma_find_byte_shift(pre, x, pos, 58);
    lemma_find_byte_range(x, pos, 58);
    match find_byte(x, pos, 58) {
        None => {},
        Some(c) => {
            assert((pre + x).subrange(n + pos, n + c) =~= x.subrange(pos, c));
            match parse_unsigned(x.subrange(pos, c), usize::MAX as nat) {
                None => {},
                Some(len) => {
                    if c + 1 + len <= x.len() {
                        assert((pre + x).subrange(n + c + 1, n + c + 1 + len) =~= x.subrange(
                            c + 1,
                            c + 1 + len,
                        ));
                    }
                },
            }
        },
    }
}

/// Bytes before the start are never read: decoding from position `i` of `x`
/// behind any prefix gives the same value or error, and stops at the same
/// place moved by the prefix's length.
pub proof fn law_decode_shift(pre: Seq<u8>, x: Seq<u8>, i: int)
    requires
        0 <= i,
    ensures
        decode_value_at(pre + x, pre.len() + i) == shifted(decode_value_at(x, i), pre.len() as int),
    decreases x.len() - i, 0int,
{
    if i < x.len() {
        assert((pre + x)[pre.len() + i] == x[i]);
        if x[i] == 105 {
            lemma_decode_integer_shift(pre, x, i);
        } else if x[i] == 108 {
            lemma_list_items_shift(pre, x, i + 1, Seq::empty());
        } else if x[i] == 100 {
            lemma_dict_items_shift(pre, x, i + 1, Seq::empty());
        } else if is_digit(x[i]) {
            lemma_decode_string_shift(pre, x, i);
        }
    }
}

/// List items behind a prefix decode alike.
proof fn lemma_list_items_shift(pre: Seq<u8>, x: Seq<u8>, pos: int, acc: Seq<BencodeValue>)
    requires
        0 <= pos,
    ensures
        decode_list_items_at(pre + x, pre.len() + pos, acc) == shifted(
            decode_list_items_at(x, pos, acc),
            pre.len() as int,
        ),
    decreases x.len() - pos, 1int,
{
    if pos < x.len() {
        assert((pre + x)[pre.len() + pos] == x[pos]);
        if x[pos] != 101 {
            law_decode_shift(pre, x, pos);
            let (r, p) = decode_value_at(x, pos);
            if let Ok(v) = r {
                if pos < p <= x.len() {
                    lemma_list_items_shift(pre, x, p, acc.push(v));
                }
            }
        }
    }
}

/// Dictionary entries behind a prefix decode alike.
proof fn lemma_dict_items_shift(pre: Seq<u8>, x: Seq<u8>, pos: int, acc: Seq<(Seq<char>, BencodeValue)>)
    requires
        0 <= pos,
    ensures
        decode_dict_items_at(pre + x, pre.len() + pos, acc) == shifted(
            decode_dict_items_at(x, pos, acc),
            pre.len() as int,
        ),
    decreases x.len() - pos, 1int,
{
    if pos < x.len() {
        assert((pre + x)[pre.len() + pos] == x[pos]);
        if x[pos] != 101 {
            lemma_decode_string_shift(pre, x, pos);
            let (r, p) = decode_string_at(x, pos);
            if let Ok(BencodeValue::Bytes(kb)) = r {
                if valid_utf8(kb) && pos < p <= x.len() {
                    law_decode_shift(pre, x, p);
                    let (r2, p2) = decode_value_at(x, p);
                    if let Ok(v) = r2 {
                        if p < p2 <= x.len() {
                            lemma_dict_items_shift(pre, x, p2, dict_insert(acc, decode_utf8(kb), v));
                        }
                    }
                }
            }
        }
    }
}


/// A successful decode stops after its start and within the input.
proof fn lemma_decode_progress(s: Seq<u8>, pos: int)
    ensures
        decode_value_at(s, pos).0 is Ok ==> pos < decode_value_at(s, pos).1 <= s.len(),
    decreases s.len() - pos, 0int,
{
    if 0 <= pos < s.len() {
        if s[pos] == 105 {
            lemma_find_byte_range(s, pos + 1, 101);
        } else if s[pos] == 108 {
            lemma_list_items_progress(s, pos + 1, Seq::empty());
        } else if s[pos] == 100 {
            lemma_dict_items_progress(s, pos + 1, Seq::empty());
        } else if is_digit(s[pos]) {
            lemma_find_byte_range(s, pos, 58);
        }
    }
}

proof fn lemma_list_items_progress(s: Seq<u8>, pos: int, acc: Seq<BencodeValue>)
    ensures
        decode_list_items_at(s, pos, acc).0 is Ok ==> pos < decode_list_items_at(s, pos, acc).1 <= s.len(),
    decreases s.len() - pos, 1int,
{
    if 0 <= pos < s.len() && s[pos] != 101 {
        let (r, p) = decode_value_at(s, pos);
        if let Ok(v) = r {
            if pos < p <= s.len() {
                lemma_list_items_progress(s, p, acc.push(v));
            }
        }
    }
}

proof fn lemma_dict_items_progress(s: Seq<u8>, pos: int, acc: Seq<(Seq<char>, BencodeValue)>)
    ensures
        decode_dict_items_at(s, pos, acc).0 is Ok ==> pos < decode_dict_items_at(s, pos, acc).1 <= s.len(),
    decreases s.len() - pos, 1int,
{
    if 0 <= pos < s.len() && s[pos] != 101 {
        let (r, p) = decode_string_at(s, pos);
        if let Ok(BencodeValue::Bytes(kb)) = r {
            if valid_utf8(kb) && pos < p <= s.len() {
                let (r2, p2) = decode_value_at(s, p);
                if let Ok(v) = r2 {
                    if p < p2 <= s.len() {
                        lemma_dict_items_progress(s, p2, dict_insert(acc, decode_utf8(kb), v));
                    }
                }
            }
        }
    }
}

/// Two inputs hold the same bytes at the positions `a..b`.
pub open spec fn same_bytes(s1: Seq<u8>, s2: Seq<u8>, a: int, b: int) -> bool {
    forall|j: int| a <= j < b ==> s1[j] == s2[j]
}

/// A search that succeeds reads only up to what it finds.
proof fn lemma_find_byte_same(s1: Seq<u8>, s2: Seq<u8>, from: int, b: u8)
    requires
        0 <= from,
        find_byte(s1, from, b) matches Some(q) && q < s2.len() && same_bytes(s1, s2, from, q + 1),
    ensures
        find_byte(s2, from, b) == find_byte(s1, from, b),
    decreases s1.len() - from,
{
    lemma_find_byte_range(s1, from, b);
    let q = find_byte(s1, from, b)->0;
    assert(s1[from] == s2[from]);
    if s1[from] != b {
        lemma_find_byte_same(s1, s2, from + 1, b);
    }
}

/// Equal windows of two inputs are equal pieces.
proof fn lemma_same_bytes_subrange(s1: Seq<u8>, s2: Seq<u8>, a: int, b: int)
    requires
        0 <= a <= b <= s1.len(),
        b <= s2.len(),
        same_bytes(s1, s2, a, b),
    ensures
        s1.subrange(a, b) == s2.subrange(a, b),
{
    assert(s1.subrange(a, b) =~= s2.subrange(a, b));
}

proof fn lemma_decode_integer_same(s1: Seq<u8>, s2: Seq<u8>, pos: int)
    requires
        0 <= pos,
        decode_integer_at(s1, pos).0 is Ok,
        decode_integer_at(s1, pos).1 <= s2.len(),
        same_bytes(s1, s2, pos, decode_integer_at(s1, pos).1),
    ensures
        decode_integer_at(s2, pos) == decode_integer_at(s1, pos),
{
    lemma_find_byte_range(s1, pos + 1, 101);
    let e = find_byte(s1, pos + 1, 101)->0;
    lemma_find_byte_same(s1, s2, pos + 1, 101);
    lemma_same_bytes_subrange(s1, s2, pos + 1, e);
}

proof fn lemma_decode_string_same(s1: Seq<u8>, s2: Seq<u8>, pos: int)
    requires
        0 <= pos,
        decode_string_at(s1, pos).0 is Ok,
        decode_string_at(s1, pos).1 <= s2.len(),
        same_bytes(s1, s2, pos, decode_string_at(s1, pos).1),
    ensures
        decode_string_at(s2, pos) == decode_string_at(s1, pos),
{
    lemma_find_byte_range(s1, pos, 58);
    let c = find_byte(s1, pos, 58)->0;
    lemma_find_byte_same(s1, s2, pos, 58);
    lemma_same_bytes_subrange(s1, s2, pos, c);
    let n = parse_unsigned(s1.subrange(pos, c), usize::MAX as nat)->0;
    lemma_same_bytes_subrange(s1, s2, c + 1, c + 1 + n);
}

/// Bytes after a decoded value, and before its start, are never read: an
/// input that holds the same bytes from the start up to where a successful
/// decode stopped decodes to the same value, stopping at the same place.
pub proof fn law_decode_reads_only_its_bytes(s1: Seq<u8>, s2: Seq<u8>, pos: int)
    requires
        0 <= pos,
        decode_value_at(s1, pos).0 is Ok,
        decode_value_at(s1, pos).1 <= s2.len(),
        s1.subrange(pos, decode_value_at(s1, pos).1) == s2.subrange(pos, decode_value_at(s1, pos).1),
    ensures
        decode_value_at(s2, pos) == decode_value_at(s1, pos),
{
    lemma_decode_progress(s1, pos);
    let p = decode_value_at(s1, pos).1;
    assert forall|j: int| pos <= j < p implies s1[j] == s2[j] by {
        assert(s1.subrange(pos, p)[j - pos] == s2.subrange(pos, p)[j - pos]);
    }
    lemma_decode_value_same(s1, s2, pos);
}

proof fn lemma_decode_value_same(s1: Seq<u8>, s2: Seq<u8>, pos: int)
    requires
        0 <= pos,
        decode_value_at(s1, pos).0 is Ok,
        decode_value_at(s1, pos).1 <= s2.len(),
        same_bytes(s1, s2, pos, decode_value_at(s1, pos).1),
    ensures
        decode_value_at(s2, pos) == decode_value_at(s1, pos),
    decreases s1.len() - pos, 0int,
{
    lemma_decode_progress(s1, pos);
    assert(s1[pos] == s2[pos]);
    if s1[pos] == 105 {
        lemma_decode_integer_same(s1, s2, pos);
    } else if s1[pos] == 108 {
        lemma_list_items_same(s1, s2, pos + 1, Seq::empty());
    } else if s1[pos] == 100 {
        lemma_dict_items_same(s1, s2, pos + 1, Seq::empty());
    } else {
        lemma_decode_string_same(s1, s2, pos);
    }
}

proof fn lemma_list_items_same(s1: Seq<u8>, s2: Seq<u8>, pos: int, acc: Seq<BencodeValue>)
    requires
        0 <= pos,
        decode_list_items_at(s1, pos, acc).0 is Ok,
        decode_list_items_at(s1, pos, acc).1 <= s2.len(),
        same_bytes(s1, s2, pos, decode_list_items_at(s1, pos, acc).1),
    ensures
        decode_list_items_at(s2, pos, acc) == decode_list_items_at(s1, pos, acc),
    decreases s1.len() - pos, 1int,
{
    lemma_list_items_progress(s1, pos, acc);
    assert(s1[pos] == s2[pos]);
    if s1[pos] != 101 {
        let (r, p) = decode_value_at(s1, pos);
        let v = r->Ok_0;
        lemma_list_items_progress(s1, p, acc.push(v));
        lemma_decode_value_same(s1, s2, pos);
        lemma_list_items_same(s1, s2, p, acc.push(v));
    }
}

proof fn lemma_dict_items_same(s1: Seq<u8>, s2: Seq<u8>, pos: int, acc: Seq<(Seq<char>, BencodeValue)>)
    requires
        0 <= pos,
        decode_dict_items_at(s1, pos, acc).0 is Ok,
        decode_dict_items_at(s1, pos, acc).1 <= s2.len(),
        same_bytes(s1, s2, pos, decode_dict_items_at(s1, pos, acc).1),
    ensures
        decode_dict_items_at(s2, pos, acc) == decode_dict_items_at(s1, pos, acc),
    decreases s1.len() - pos, 1int,
{
    lemma_dict_items_progress(s1, pos, acc);
    assert(s1[pos] == s2[pos]);
    if s1[pos] != 101 {
        let (r, p) = decode_string_at(s1, pos);
        let kb = r->Ok_0->Bytes_0;
        let (r2, p2) = decode_value_at(s1, p);
        let v = r2->Ok_0;
        let acc2 = dict_insert(acc, decode_utf8(kb), v);
        lemma_dict_items_progress(s1, p2, acc2);
        lemma_decode_string_same(s1, s2, pos);
        lemma_decode_value_same(s1, s2, p);
        lemma_dict_items_same(s1, s2, p2, acc2);
    }
}

} // verus!
