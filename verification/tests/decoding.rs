use bencode::dict::{insert_entry, key_lt};
use bencode::BVal::{BDict, BInt, BList, BStr};
use bencode::{bval, parse_bencode, BVal, ParseError};

#[test]
fn decode_integers() {
    assert_eq!(parse_bencode(b"i1e"), Some(BInt(1)));
    assert_eq!(parse_bencode(b"i123e"), Some(BInt(123)));
    assert_eq!(parse_bencode(b"i-6e"), Some(BInt(-6)));
}

#[test]
fn decode_every_small_integer_from_its_encoding() {
    let mut n: i64 = -1200;
    while n <= 1200 {
        let text = format!("i{}e", n);
        assert_eq!(parse_bencode(text.as_bytes()), Some(BInt(n)));
        n += 1;
    }
    for n in [i64::MAX, -i64::MAX, 1 << 40, -(1 << 40)] {
        let text = format!("i{}e", n);
        assert_eq!(parse_bencode(text.as_bytes()), Some(BInt(n)));
    }
}

#[test]
fn decode_strings_from_their_encoding() {
    for s in ["Hello!", "", "a", "0123456789ab", "gr\u{fc}\u{df}e", "\u{1f980}:e"] {
        let text = format!("{}:{}", s.len(), s);
        assert_eq!(parse_bencode(text.as_bytes()), Some(BStr(s.to_string())));
    }
}

#[test]
fn decode_empty_string() {
    assert_eq!(parse_bencode(b"0:"), Some(BStr(String::new())));
}

#[test]
fn decode_nested_list() {
    assert_eq!(
        parse_bencode(b"li0e6:Hello!i2ee"),
        Some(BList(vec![BInt(0), BStr("Hello!".to_string()), BInt(2)]))
    );
    assert_eq!(
        parse_bencode(b"llleelei1eee"),
        Some(BList(vec![
            BList(vec![BList(vec![])]),
            BList(vec![]),
            BInt(1)
        ]))
    );
}

#[test]
fn decode_dictionary() {
    let decoded = parse_bencode(b"d6:Applesi-4e7:Bananasli5ei2e2::(e5:Pearsi5ee");
    let entries = match decoded {
        Some(BDict(entries)) => entries,
        _ => panic!("no dictionary"),
    };
    assert_eq!(entries.len(), 3);
    assert_eq!(entries[0], ("Apples".to_string(), BInt(-4)));
    assert_eq!(
        entries[1],
        (
            "Bananas".to_string(),
            BList(vec![BInt(5), BInt(2), BStr(":(".to_string())])
        )
    );
    assert_eq!(entries[2], ("Pears".to_string(), BInt(5)));
}

#[test]
fn decode_dictionary_in_any_input_order() {
    let sorted = parse_bencode(b"d1:ai1e1:bi2e1:ci3ee");
    assert_eq!(
        sorted,
        Some(BDict(vec![
            ("a".to_string(), BInt(1)),
            ("b".to_string(), BInt(2)),
            ("c".to_string(), BInt(3)),
        ]))
    );
    assert_eq!(parse_bencode(b"d1:ci3e1:ai1e1:bi2ee"), sorted);
    assert_eq!(parse_bencode(b"d1:bi2e1:ci3e1:ai1ee"), sorted);
    assert_eq!(parse_bencode(b"d1:ci3e1:bi2e1:ai1ee"), sorted);
}

#[test]
fn decode_dictionary_later_key_wins() {
    assert_eq!(
        parse_bencode(b"d1:ai1e1:bi2e1:ai3ee"),
        Some(BDict(vec![
            ("a".to_string(), BInt(3)),
            ("b".to_string(), BInt(2)),
        ]))
    );
}

#[test]
fn decode_dictionary_keys_ordered_by_bytes() {
    let input = [
        b'd', b'2', b':', 0xc3, 0xa9, b'l', b'e', b'1', b':', b'z', b'l', b'e', b'2', b':', b'a',
        b'b', b'l', b'e', b'1', b':', b'a', b'l', b'e', b'1', b':', b'Z', b'l', b'e', b'0', b':',
        b'l', b'e', b'e',
    ];
    let keys: Vec<String> = match parse_bencode(&input) {
        Some(BDict(entries)) => entries.into_iter().map(|(k, _)| k).collect(),
        _ => panic!("no dictionary"),
    };
    assert_eq!(keys, vec!["", "Z", "a", "ab", "z", "\u{e9}"]);
}

#[test]
fn decode_empty_containers() {
    assert_eq!(parse_bencode(b"le"), Some(BList(vec![])));
    assert_eq!(parse_bencode(b"de"), Some(BDict(vec![])));
}

#[test]
fn decode_ignores_trailing_bytes() {
    assert_eq!(parse_bencode(b"i1eXYZ"), Some(BInt(1)));
    assert_eq!(parse_bencode(b"lei1e"), Some(BList(vec![])));
    assert_eq!(parse_bencode(b"2:abcd"), Some(BStr("ab".to_string())));
}

#[test]
fn decode_truncated_input() {
    assert_eq!(parse_bencode(b"5:Hi"), None);
    assert_eq!(bval(b"5:Hi", 0), Err(ParseError::Incomplete));
    assert_eq!(bval(b"", 0), Err(ParseError::Incomplete));
    assert_eq!(bval(b"l", 0), Err(ParseError::Incomplete));
    assert_eq!(bval(b"li1e", 0), Err(ParseError::Incomplete));
    assert_eq!(bval(b"d", 0), Err(ParseError::Incomplete));
    assert_eq!(bval(b"d1:a", 0), Err(ParseError::Incomplete));
    assert_eq!(bval(b"d1:ai1e", 0), Err(ParseError::Incomplete));
    assert_eq!(bval(b"l3:ab", 0), Err(ParseError::Incomplete));
}

#[test]
fn decode_invalid_utf8() {
    let input = [b'2', b':', 0xff, 0xff];
    assert_eq!(parse_bencode(&input), None);
    assert_eq!(bval(&input, 0), Err(ParseError::InvalidEncoding));
    let in_list = [b'l', b'1', b':', 0x80, b'e'];
    assert_eq!(bval(&in_list, 0), Err(ParseError::InvalidEncoding));
    let as_key = [b'd', b'1', b':', 0x80, b'i', b'1', b'e', b'e'];
    assert_eq!(bval(&as_key, 0), Err(ParseError::InvalidEncoding));
}

#[test]
fn decode_malformed() {
    assert_eq!(parse_bencode(b"x"), None);
    assert_eq!(bval(b"x", 0), Err(ParseError::Malformed));
    assert_eq!(bval(b"e", 0), Err(ParseError::Malformed));
    assert_eq!(bval(b"li1ex", 0), Err(ParseError::Malformed));
    assert_eq!(bval(b"di1ei2ee", 0), Err(ParseError::Malformed));
    assert_eq!(bval(b"d1:ae", 0), Err(ParseError::Malformed));
    assert_eq!(bval(b"d1:ai1ex", 0), Err(ParseError::Malformed));
    assert_eq!(bval(b"-1", 0), Err(ParseError::Malformed));
}

#[test]
fn decode_overflow() {
    assert_eq!(parse_bencode(b"i9223372036854775808e"), None);
    assert_eq!(
        bval(b"li9223372036854775808ee", 0),
        Err(ParseError::NumericOverflow)
    );
    assert_eq!(
        bval(b"d1:ai99999999999999999999ee", 0),
        Err(ParseError::NumericOverflow)
    );
}

#[test]
fn decode_twice_gives_equal_values() {
    let inputs: [&[u8]; 5] = [
        b"d6:Applesi-4e7:Bananasli5ei2e2::(e5:Pearsi5ee",
        b"li0e6:Hello!i2ee",
        b"5:Hi",
        b"i-6e",
        b"",
    ];
    for input in inputs {
        assert_eq!(parse_bencode(input), parse_bencode(input));
        assert_eq!(bval(input, 0), bval(input, 0));
    }
}

#[test]
fn key_order_is_lexicographic_on_bytes() {
    assert!(key_lt(b"", b"a"));
    assert!(!key_lt(b"", b""));
    assert!(!key_lt(b"a", b""));
    assert!(key_lt(b"a", b"b"));
    assert!(!key_lt(b"b", b"a"));
    assert!(key_lt(b"a", b"ab"));
    assert!(!key_lt(b"ab", b"a"));
    assert!(!key_lt(b"ab", b"ab"));
    assert!(key_lt(b"Z", b"a"));
    assert!(key_lt(b"ab", b"b"));
    assert!(key_lt(&[0x7f], &[0x80]));
}

#[test]
fn insert_entry_keeps_key_order_and_replaces() {
    let mut entries: Vec<(String, BVal)> = Vec::new();
    entries = insert_entry(entries, "m".to_string(), BInt(1));
    entries = insert_entry(entries, "z".to_string(), BInt(2));
    entries = insert_entry(entries, "a".to_string(), BInt(3));
    entries = insert_entry(entries, "n".to_string(), BInt(4));
    assert_eq!(
        entries,
        vec![
            ("a".to_string(), BInt(3)),
            ("m".to_string(), BInt(1)),
            ("n".to_string(), BInt(4)),
            ("z".to_string(), BInt(2)),
        ]
    );
    entries = insert_entry(entries, "m".to_string(), BStr("new".to_string()));
    assert_eq!(
        entries,
        vec![
            ("a".to_string(), BInt(3)),
            ("m".to_string(), BStr("new".to_string())),
            ("n".to_string(), BInt(4)),
            ("z".to_string(), BInt(2)),
        ]
    );
}

#[test]
fn insert_entry_order_does_not_matter() {
    let mut one: Vec<(String, BVal)> = vec![("k".to_string(), BInt(0))];
    one = insert_entry(one, "b".to_string(), BInt(1));
    one = insert_entry(one, "y".to_string(), BInt(2));
    let mut other: Vec<(String, BVal)> = vec![("k".to_string(), BInt(0))];
    other = insert_entry(other, "y".to_string(), BInt(2));
    other = insert_entry(other, "b".to_string(), BInt(1));
    assert_eq!(one, other);
    assert_eq!(
        one,
        vec![
            ("b".to_string(), BInt(1)),
            ("k".to_string(), BInt(0)),
            ("y".to_string(), BInt(2)),
        ]
    );
}

#[test]
fn decode_is_unchanged_by_appended_bytes() {
    let inputs: [&[u8]; 4] = [
        b"d6:Applesi-4e7:Bananasli5ei2e2::(e5:Pearsi5ee",
        b"li0e6:Hello!i2ee",
        b"0:",
        b"i-6e",
    ];
    for input in inputs {
        let mut longer = input.to_vec();
        longer.extend_from_slice(b"i9e12345");
        assert!(parse_bencode(input).is_some());
        assert_eq!(parse_bencode(&longer), parse_bencode(input));
        assert_eq!(bval(&longer, 0), bval(input, 0));
    }
}
