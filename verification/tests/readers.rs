use bencode::dict::insert_entry;
use bencode::BVal::{BDict, BInt, BList, BStr};
use bencode::{bval, num, BVal, ParseError};

fn parse<O>(outcome: Result<(O, usize), ParseError>) -> O {
    match outcome {
        Ok((n, _)) => n,
        Err(ParseError::Incomplete) => panic!("Incomplete"),
        Err(_) => panic!("Error while parsing"),
    }
}

fn parse_num(input: &[u8]) -> i64 {
    parse(num(input, 0))
}

#[test]
fn digit1() {
    assert_eq!(1, parse_num(b"i1e"));
}

#[test]
fn digit2() {
    assert_eq!(123, parse_num(b"i123e"));
}

#[test]
fn negative() {
    assert_eq!(-6, parse_num(b"i-6e"));
}

#[test]
fn string() {
    assert_eq!("Hello!".to_string(), parse(bencode::string(b"6:Hello!", 0)));
}

#[test]
fn bval_num() {
    assert_eq!(BInt(-300), parse(bval(b"i-300e", 0)));
}

#[test]
fn bval_string() {
    assert_eq!(BStr("Hello!".to_string()), parse(bval(b"6:Hello!", 0)));
}

#[test]
fn bval_list() {
    let list = BList(vec![BInt(0), BStr("Hello!".to_string()), BInt(2)]);
    assert_eq!(list, parse(bval(b"li0e6:Hello!i2ee", 0)));
}

#[test]
fn bval_dict() {
    let mut dict: Vec<(String, BVal)> = Vec::new();
    dict = insert_entry(dict, "Pears".to_string(), BInt(5));
    dict = insert_entry(dict, "Apples".to_string(), BInt(-4));
    dict = insert_entry(
        dict,
        "Bananas".to_string(),
        BList(vec![BInt(5), BInt(2), BStr(":(".to_string())]),
    );
    let dict = BDict(dict);
    assert_eq!(
        dict,
        parse(bval(b"d6:Applesi-4e7:Bananasli5ei2e2::(e5:Pearsi5ee", 0))
    );
}

#[test]
fn bval_dict_entries_in_key_order() {
    let expected = BDict(vec![
        ("Apples".to_string(), BInt(-4)),
        (
            "Bananas".to_string(),
            BList(vec![BInt(5), BInt(2), BStr(":(".to_string())]),
        ),
        ("Pears".to_string(), BInt(5)),
    ]);
    assert_eq!(
        expected,
        parse(bval(b"d5:Pearsi5e7:Bananasli5ei2e2::(e6:Applesi-4ee", 0))
    );
}

#[test]
fn readers_report_next_position() {
    assert_eq!(num(b"i-42eXYZ", 0), Ok((-42, 5)));
    assert_eq!(bencode::string(b"xx3:abcd", 2), Ok(("abc".to_string(), 7)));
    assert_eq!(bencode::digits(b"0123:", 0, 1000), Ok((123, 4)));
    assert_eq!(bencode::list(b"li1ee", 0), Ok((vec![BInt(1)], 5)));
    assert_eq!(
        bencode::dict(b"d1:ai1ee", 0),
        Ok((vec![("a".to_string(), BInt(1))], 8))
    );
}

#[test]
fn readers_start_inside_the_input() {
    assert_eq!(bval(b"??i7e", 2), Ok((BInt(7), 5)));
    assert_eq!(bval(b"i7e", 3), Err(ParseError::Incomplete));
    assert_eq!(bval(b"i7e", 9), Err(ParseError::Incomplete));
}

#[test]
fn digits_respect_the_bound() {
    assert_eq!(bencode::digits(b"255", 0, 255), Ok((255, 3)));
    assert_eq!(
        bencode::digits(b"256", 0, 255),
        Err(ParseError::NumericOverflow)
    );
    assert_eq!(bencode::digits(b"7", 0, 5), Err(ParseError::NumericOverflow));
    assert_eq!(bencode::digits(b"", 0, 5), Err(ParseError::Incomplete));
    assert_eq!(bencode::digits(b"x", 0, 5), Err(ParseError::Malformed));
    assert_eq!(
        bencode::digits(b"18446744073709551615", 0, u64::MAX),
        Ok((u64::MAX, 20))
    );
    assert_eq!(
        bencode::digits(b"18446744073709551616", 0, u64::MAX),
        Err(ParseError::NumericOverflow)
    );
    assert_eq!(
        bencode::digits(b"99999999999999999999999", 0, u64::MAX),
        Err(ParseError::NumericOverflow)
    );
}

#[test]
fn integer_edges() {
    assert_eq!(num(b"i0e", 0), Ok((0, 3)));
    assert_eq!(num(b"i-0e", 0), Ok((0, 4)));
    assert_eq!(num(b"i007e", 0), Ok((7, 5)));
    assert_eq!(
        num(b"i9223372036854775807e", 0),
        Ok((i64::MAX, 21))
    );
    assert_eq!(
        num(b"i-9223372036854775807e", 0),
        Ok((-i64::MAX, 22))
    );
    assert_eq!(
        num(b"i9223372036854775808e", 0),
        Err(ParseError::NumericOverflow)
    );
    assert_eq!(
        num(b"i-9223372036854775808e", 0),
        Err(ParseError::NumericOverflow)
    );
}

#[test]
fn integer_failures() {
    assert_eq!(num(b"", 0), Err(ParseError::Incomplete));
    assert_eq!(num(b"x1e", 0), Err(ParseError::Malformed));
    assert_eq!(num(b"i", 0), Err(ParseError::Incomplete));
    assert_eq!(num(b"i-", 0), Err(ParseError::Incomplete));
    assert_eq!(num(b"ie", 0), Err(ParseError::Malformed));
    assert_eq!(num(b"i-e", 0), Err(ParseError::Malformed));
    assert_eq!(num(b"i--1e", 0), Err(ParseError::Malformed));
    assert_eq!(num(b"i12", 0), Err(ParseError::Incomplete));
    assert_eq!(num(b"i12x", 0), Err(ParseError::Malformed));
}

#[test]
fn string_edges_and_failures() {
    assert_eq!(bencode::string(b"0:", 0), Ok((String::new(), 2)));
    assert_eq!(bencode::string(b"0:rest", 0), Ok((String::new(), 2)));
    assert_eq!(bencode::string(b"02:hi", 0), Ok(("hi".to_string(), 5)));
    assert_eq!(bencode::string(b"5:Hi", 0), Err(ParseError::Incomplete));
    assert_eq!(bencode::string(b"5", 0), Err(ParseError::Incomplete));
    assert_eq!(bencode::string(b"5x", 0), Err(ParseError::Malformed));
    assert_eq!(bencode::string(b":abc", 0), Err(ParseError::Malformed));
    assert_eq!(bencode::string(b"", 0), Err(ParseError::Incomplete));
    assert_eq!(
        bencode::string(b"99999999999999999999999:a", 0),
        Err(ParseError::NumericOverflow)
    );
    assert_eq!(
        bencode::string(b"18446744073709551615:a", 0),
        Err(ParseError::Incomplete)
    );
}

#[test]
fn string_must_be_utf8() {
    assert_eq!(
        bencode::string(&[b'2', b':', 0xff, 0xfe], 0),
        Err(ParseError::InvalidEncoding)
    );
    assert_eq!(
        bencode::string(&[b'1', b':', 0xc3], 0),
        Err(ParseError::InvalidEncoding)
    );
    assert_eq!(
        bencode::string(&[b'2', b':', 0xc3, 0xa9, b'!'], 0),
        Ok(("\u{e9}".to_string(), 4))
    );
    assert_eq!(
        bencode::string(&[b'3', b':', 0xed, 0xa0, 0x80], 0),
        Err(ParseError::InvalidEncoding)
    );
}
