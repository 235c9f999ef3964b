use bittorrent::bencode::{
    compare_bytes, decode_bencode, decode_dictionary, decode_integer, decode_list, decode_string,
    decode_value, encode_bencode, Bencode, BencodeDict, DecodeError,
};

fn dict(entries: Vec<(&str, Bencode)>) -> Bencode {
    let mut d = BencodeDict::new();
    for (k, v) in entries {
        d.insert(k.to_string(), v);
    }
    Bencode::Dictionary(d)
}

fn decode_all(bytes: &[u8]) -> (Result<Bencode, String>, usize) {
    let mut index = 0;
    let r = decode_bencode(bytes, &mut index);
    (r, index)
}

#[test]
fn encode_integers() {
    assert_eq!(encode_bencode(&Bencode::Integer(42)), b"i42e".to_vec());
    assert_eq!(encode_bencode(&Bencode::Integer(0)), b"i0e".to_vec());
    assert_eq!(encode_bencode(&Bencode::Integer(-7)), b"i-7e".to_vec());
    assert_eq!(
        encode_bencode(&Bencode::Integer(i64::MIN)),
        b"i-9223372036854775808e".to_vec()
    );
    assert_eq!(
        encode_bencode(&Bencode::Integer(i64::MAX)),
        b"i9223372036854775807e".to_vec()
    );
}

#[test]
fn encode_strings_and_lists() {
    assert_eq!(encode_bencode(&Bencode::String(b"spam".to_vec())), b"4:spam".to_vec());
    assert_eq!(encode_bencode(&Bencode::String(Vec::new())), b"0:".to_vec());
    let list = Bencode::List(vec![
        Bencode::String(b"spam".to_vec()),
        Bencode::Integer(3),
        Bencode::List(Vec::new()),
    ]);
    assert_eq!(encode_bencode(&list), b"l4:spami3elee".to_vec());
}

#[test]
fn encode_dictionary_sorts_keys() {
    let d = dict(vec![
        ("zeta", Bencode::Integer(1)),
        ("alpha", Bencode::String(b"x".to_vec())),
        ("mid", Bencode::List(vec![Bencode::Integer(2)])),
    ]);
    assert_eq!(encode_bencode(&d), b"d5:alpha1:x3:midli2ee4:zetai1ee".to_vec());
}

#[test]
fn dictionary_insert_replaces_and_gets() {
    let mut d = BencodeDict::new();
    d.insert("b".to_string(), Bencode::Integer(1));
    d.insert("a".to_string(), Bencode::Integer(2));
    d.insert("b".to_string(), Bencode::Integer(3));
    assert_eq!(d.len(), 2);
    assert!(matches!(d.get("b"), Some(Bencode::Integer(3))));
    assert!(matches!(d.get("a"), Some(Bencode::Integer(2))));
    assert!(d.get("c").is_none());
    let (k0, _) = d.entry(0);
    let (k1, _) = d.entry(1);
    assert_eq!(k0, "a");
    assert_eq!(k1, "b");
}

#[test]
fn dictionary_keys_order_by_bytes() {
    let mut d = BencodeDict::new();
    d.insert("é".to_string(), Bencode::Integer(1));
    d.insert("z".to_string(), Bencode::Integer(2));
    d.insert("Z".to_string(), Bencode::Integer(3));
    let keys: Vec<String> = (0..d.len()).map(|i| d.entry(i).0.clone()).collect();
    assert_eq!(keys, vec!["Z".to_string(), "z".to_string(), "é".to_string()]);
}

#[test]
fn compare_bytes_is_lexicographic() {
    assert_eq!(compare_bytes(b"abc", b"abd"), -1);
    assert_eq!(compare_bytes(b"abc", b"abc"), 0);
    assert_eq!(compare_bytes(b"abcd", b"abc"), 1);
    assert_eq!(compare_bytes(b"", b"a"), -1);
}

#[test]
fn decode_simple_values() {
    let (r, i) = decode_all(b"i-42e");
    assert!(matches!(r, Ok(Bencode::Integer(-42))));
    assert_eq!(i, 5);
    let (r, i) = decode_all(b"4:spamXYZ");
    match r {
        Ok(Bencode::String(s)) => assert_eq!(s, b"spam".to_vec()),
        _ => panic!("expected a byte string"),
    }
    assert_eq!(i, 6);
    let (r, i) = decode_all(b"l4:spami3ee");
    match r {
        Ok(Bencode::List(items)) => {
            assert_eq!(items.len(), 2);
            assert!(matches!(items[1], Bencode::Integer(3)));
        }
        _ => panic!("expected a list"),
    }
    assert_eq!(i, 11);
}

#[test]
fn decode_reads_from_the_index() {
    let bytes = b"xxi7e";
    let mut index = 2;
    let r = decode_bencode(bytes, &mut index);
    assert!(matches!(r, Ok(Bencode::Integer(7))));
    assert_eq!(index, 5);
}

#[test]
fn decode_integer_forms() {
    assert!(matches!(decode_all(b"i+5e").0, Ok(Bencode::Integer(5))));
    assert!(matches!(decode_all(b"i-0e").0, Ok(Bencode::Integer(0))));
    assert!(matches!(decode_all(b"i007e").0, Ok(Bencode::Integer(7))));
    assert!(matches!(
        decode_all(b"i-9223372036854775808e").0,
        Ok(Bencode::Integer(i64::MIN))
    ));
}

#[test]
fn decode_dictionary_last_duplicate_wins() {
    let (r, i) = decode_all(b"d1:bi1e1:ai2e1:bi3ee");
    assert_eq!(i, 20);
    match r {
        Ok(Bencode::Dictionary(d)) => {
            assert_eq!(d.len(), 2);
            assert!(matches!(d.get("b"), Some(Bencode::Integer(3))));
            assert!(matches!(d.get("a"), Some(Bencode::Integer(2))));
        }
        _ => panic!("expected a dictionary"),
    }
}

#[test]
fn decode_then_encode_is_canonical() {
    let (r, _) = decode_all(b"d3:zzzi1e3:aaal1:xee");
    let v = r.unwrap();
    assert_eq!(encode_bencode(&v), b"d3:aaal1:xe3:zzzi1ee".to_vec());
}

#[test]
fn roundtrip_of_a_nested_value() {
    let v = dict(vec![
        ("list", Bencode::List(vec![Bencode::Integer(-1), Bencode::String(vec![0, 255, 58])])),
        ("num", Bencode::Integer(123456789)),
        ("inner", dict(vec![("k", Bencode::String(b"v".to_vec()))])),
    ]);
    let bytes = encode_bencode(&v);
    let (r, i) = decode_all(&bytes);
    assert_eq!(i, bytes.len());
    assert_eq!(encode_bencode(&r.unwrap()), bytes);
}

#[test]
fn decode_errors_and_where_they_stop() {
    let cases: Vec<(&[u8], &str, usize)> = vec![
        (b"", "Invalid bencode format", 0),
        (b"x", "Invalid bencode format", 0),
        (b"i12", "Unterminated integer", 3),
        (b"iabce", "Invalid integer", 4),
        (b"ie", "Invalid integer", 1),
        (b"i9223372036854775808e", "Invalid integer", 20),
        (b"i\xffe", "Invalid UTF-8", 2),
        (b"5:ab", "String out of bounds", 2),
        (b"12", "Unterminated string length", 2),
        (b"l", "Unterminated list", 1),
        (b"li1e", "Unterminated list", 4),
        (b"lxe", "Invalid bencode format", 1),
        (b"d", "Unterminated dictionary", 1),
        (b"d1:a", "Invalid bencode format", 4),
        (b"di1e:i2ee", "Invalid length", 4),
        (b"d2:\xff\xfei1ee", "Invalid UTF-8 in key", 5),
        (b"d1:ai1e", "Unterminated dictionary", 7),
    ];
    for (input, message, stop) in cases {
        let (r, i) = decode_all(input);
        match r {
            Err(m) => assert_eq!(m, message, "input {:?}", input),
            Ok(_) => panic!("input {:?} decoded", input),
        }
        assert_eq!(i, stop, "input {:?}", input);
    }
}

#[test]
fn decode_error_variants() {
    let mut index = 0;
    assert_eq!(decode_value(b"1a:x", &mut index).unwrap_err(), DecodeError::InvalidLength);
    let mut index = 0;
    assert_eq!(decode_value(b"3:ab", &mut index).unwrap_err(), DecodeError::StringOutOfBounds);
    assert_eq!(DecodeError::UnterminatedList.message(), "Unterminated list");
    assert_eq!(DecodeError::InvalidKeyUtf8.message(), "Invalid UTF-8 in key");
}

#[test]
fn dictionary_key_may_start_with_plus() {
    let (r, _) = decode_all(b"d+1:ai1ee");
    match r {
        Ok(Bencode::Dictionary(d)) => assert!(matches!(d.get("a"), Some(Bencode::Integer(1)))),
        _ => panic!("expected a dictionary"),
    }
}

#[test]
fn clones_keep_the_value() {
    let v = dict(vec![
        ("a", Bencode::List(vec![Bencode::Integer(1), Bencode::String(b"xy".to_vec())])),
        ("b", dict(vec![("c", Bencode::Integer(-3))])),
    ]);
    let c = v.clone();
    assert_eq!(encode_bencode(&c), encode_bencode(&v));
    if let Bencode::Dictionary(d) = &v {
        let d2 = d.clone();
        assert_eq!(d2.len(), 2);
    }
}

#[test]
fn different_values_encode_differently() {
    let a = encode_bencode(&Bencode::List(vec![Bencode::String(b"1".to_vec())]));
    let b = encode_bencode(&Bencode::List(vec![Bencode::Integer(1)]));
    let c = encode_bencode(&Bencode::String(b"li1ee".to_vec()));
    assert_ne!(a, b);
    assert_ne!(b, c);
    assert_ne!(a, c);
}

#[test]
fn helpers_accept_an_index_past_the_end() {
    let mut index = 5;
    assert_eq!(decode_string(b"12", &mut index).unwrap_err(), DecodeError::UnterminatedStringLength);
    assert_eq!(index, 5);
    let mut index = 3;
    assert_eq!(decode_integer(b"i1", &mut index).unwrap_err(), DecodeError::UnterminatedInteger);
    assert_eq!(index, 4);
    let mut index = 1;
    assert_eq!(decode_list(b"l", &mut index).unwrap_err(), DecodeError::UnterminatedList);
    assert_eq!(index, 2);
    let mut index = 0;
    assert_eq!(decode_dictionary(b"", &mut index).unwrap_err(), DecodeError::UnterminatedDictionary);
    assert_eq!(index, 1);
}

#[test]
fn insertion_order_leaves_no_trace() {
    let a = dict(vec![("x", Bencode::Integer(1)), ("y", Bencode::Integer(2)), ("w", Bencode::Integer(3))]);
    let b = dict(vec![("w", Bencode::Integer(3)), ("y", Bencode::Integer(2)), ("x", Bencode::Integer(1))]);
    assert_eq!(encode_bencode(&a), encode_bencode(&b));
}

#[test]
fn bytes_around_a_value_are_not_read() {
    let (r1, i1) = decode_all(b"l1:ai-3ee");
    let mut index = 4;
    let r2 = decode_bencode(b"junkl1:ai-3eeMORE", &mut index);
    assert_eq!(index, i1 + 4);
    assert_eq!(encode_bencode(&r1.unwrap()), encode_bencode(&r2.unwrap()));
    let mut index = 3;
    assert_eq!(decode_bencode(b"xyzi1ae", &mut index).unwrap_err(), "Invalid integer");
    assert_eq!(index, 6);
}
