use bencode::decoder::{decode_bencoded_value, Bencode};
use bencode::encoder::{bytes_less, encode};
use bencode::helper::{find_char_from_index, get_length_from_bencoded_string};
use bencode::value::{BencodeType, DecodeError, ErrorKind, Value};

fn text(s: &str) -> Value {
    Value::ByteString(s.as_bytes().to_vec())
}

fn failure(kind: ErrorKind, offset: usize) -> Result<Value, DecodeError> {
    Err(DecodeError { kind, offset })
}

fn strict() -> Bencode {
    Bencode { strict_key_order: true, max_nesting_depth: 1000 }
}

#[test]
fn test_get_length_from_bencoded_string() {
    let encoded_string = "4:spam";
    let length = get_length_from_bencoded_string(encoded_string.as_bytes());
    assert_eq!(Some(4), length);
}

#[test]
fn test_no_length_from_bencoded_string() {
    let encoded_string = "spam";
    let length = get_length_from_bencoded_string(encoded_string.as_bytes());
    assert_eq!(None, length);
}

#[test]
fn length_prefix_rules() {
    assert_eq!(get_length_from_bencoded_string(b"0:"), Some(0));
    assert_eq!(get_length_from_bencoded_string(b"12:ab"), Some(12));
    assert_eq!(get_length_from_bencoded_string(b"04:spam"), None);
    assert_eq!(get_length_from_bencoded_string(b"4:sp:am"), None);
    assert_eq!(get_length_from_bencoded_string(b":spam"), None);
    assert_eq!(get_length_from_bencoded_string(b"4"), None);
    assert_eq!(get_length_from_bencoded_string(b""), None);
    assert_eq!(get_length_from_bencoded_string(b"99999999999999999999999:x"), None);
}

#[test]
fn test_decode_string() {
    // The prefix announces 55 bytes and 46 follow: the prefix is authoritative.
    let encoded_string = "55:http://bittorrent-test-tracker.codecrafters.io";
    let decoded_value = Bencode::new().decode(encoded_string.as_bytes());
    assert_eq!(failure(ErrorKind::UnexpectedEndOfInput, 49), decoded_value);
    let encoded_string = "46:http://bittorrent-test-tracker.codecrafters.io";
    let decoded_value = Bencode::new().decode(encoded_string.as_bytes());
    assert_eq!(Ok(text("http://bittorrent-test-tracker.codecrafters.io")), decoded_value);
}

#[test]
fn test_decode_bencoded_value() {
    let encoded_string = "55:http://bittorrent-test-tracker.codecrafters.io";
    let decoded_value = decode_bencoded_value(encoded_string.as_bytes());
    assert_eq!(failure(ErrorKind::UnexpectedEndOfInput, 49), decoded_value);
    let encoded_string = "46:http://bittorrent-test-tracker.codecrafters.io";
    let decoded_value = decode_bencoded_value(encoded_string.as_bytes());
    assert_eq!(Ok(text("http://bittorrent-test-tracker.codecrafters.io")), decoded_value);
}

#[test]
fn test_is_encoded_list() {
    let encoded_string = "l5:helloi52ee";
    let bencode = Bencode::new();
    assert_eq!(bencode.is_encoded_list(encoded_string.as_bytes()), true);
}

#[test]
fn list_frame_edges() {
    let bencode = Bencode::new();
    assert!(bencode.is_encoded_list(b"le"));
    assert!(!bencode.is_encoded_list(b"l"));
    assert!(!bencode.is_encoded_list(b"e"));
    assert!(!bencode.is_encoded_list(b""));
    assert!(!bencode.is_encoded_list(b"i52e"));
    assert!(!bencode.is_encoded_list(b"l5:hello"));
}

#[test]
fn test_decode_list() {
    // The closing `e` of the list is missing.
    let encoded_string = "l5:helloi76e10:lifeisgood6:worldyi153e";
    let bencode = Bencode::new();
    let resp = bencode.decode_list(encoded_string.as_bytes());
    assert_eq!(failure(ErrorKind::UnexpectedEndOfInput, 38), resp);
    let encoded_string = "l5:helloi76e10:lifeisgood6:worldyi153ee";
    let resp = bencode.decode_list(encoded_string.as_bytes());
    assert_eq!(
        Ok(Value::List(vec![
            text("hello"),
            Value::Integer(76),
            text("lifeisgood"),
            text("worldy"),
            Value::Integer(153),
        ])),
        resp
    );
}

#[test]
fn decode_list_refuses_other_values() {
    let bencode = Bencode::new();
    assert_eq!(bencode.decode_list(b""), failure(ErrorKind::UnexpectedEndOfInput, 0));
    assert_eq!(bencode.decode_list(b"i1e"), failure(ErrorKind::UnexpectedByte, 0));
    assert_eq!(bencode.decode_list(b"4:spam"), failure(ErrorKind::UnexpectedByte, 0));
    assert_eq!(bencode.decode_list(b"leX"), failure(ErrorKind::TrailingData, 2));
}

#[test]
fn lookahead_types() {
    let bencode = Bencode::new();
    assert_eq!(bencode.encoded_string_type(b"i1e"), Some(BencodeType::Integer));
    assert_eq!(bencode.encoded_string_type(b"4:spam"), Some(BencodeType::String));
    assert_eq!(bencode.encoded_string_type(b"le"), Some(BencodeType::List));
    assert_eq!(bencode.encoded_string_type(b"de"), Some(BencodeType::Dictionary));
    assert_eq!(bencode.encoded_string_type(b"x"), None);
    assert_eq!(bencode.encoded_string_type(b""), None);
}

#[test]
fn default_options() {
    let bencode = Bencode::new();
    assert_eq!(bencode.strict_key_order, false);
    assert_eq!(bencode.max_nesting_depth, 1000);
}

#[test]
fn integer_edge_cases() {
    let b = Bencode::new();
    assert_eq!(b.decode(b"i0e"), Ok(Value::Integer(0)));
    assert_eq!(b.decode(b"i-1e"), Ok(Value::Integer(-1)));
    assert_eq!(b.decode(b"i52e"), Ok(Value::Integer(52)));
    assert_eq!(b.decode(b"i04e"), failure(ErrorKind::InvalidInteger, 1));
    assert_eq!(b.decode(b"i-0e"), failure(ErrorKind::InvalidInteger, 2));
    assert_eq!(b.decode(b"ie"), failure(ErrorKind::InvalidInteger, 1));
    assert_eq!(b.decode(b"i-e"), failure(ErrorKind::InvalidInteger, 2));
    assert_eq!(b.decode(b"i12xe"), failure(ErrorKind::InvalidInteger, 3));
    assert_eq!(b.decode(b"i12"), failure(ErrorKind::UnexpectedEndOfInput, 3));
    assert_eq!(b.decode(b"i"), failure(ErrorKind::UnexpectedEndOfInput, 1));
    assert_eq!(b.decode(b"i-"), failure(ErrorKind::UnexpectedEndOfInput, 2));
}

#[test]
fn integer_limits() {
    let b = Bencode::new();
    assert_eq!(b.decode(b"i9223372036854775807e"), Ok(Value::Integer(i64::MAX)));
    assert_eq!(b.decode(b"i-9223372036854775808e"), Ok(Value::Integer(i64::MIN)));
    assert_eq!(b.decode(b"i9223372036854775808e"), failure(ErrorKind::IntegerOverflow, 0));
    assert_eq!(b.decode(b"i-9223372036854775809e"), failure(ErrorKind::IntegerOverflow, 0));
    assert_eq!(
        b.decode(b"i99999999999999999999999999999999999999999e"),
        failure(ErrorKind::IntegerOverflow, 0)
    );
    assert_eq!(b.decode(b"li1ei9223372036854775808ee"), failure(ErrorKind::IntegerOverflow, 4));
}

#[test]
fn string_edge_cases() {
    let b = Bencode::new();
    assert_eq!(b.decode(b"0:"), Ok(text("")));
    assert_eq!(b.decode(b"4:spam"), Ok(text("spam")));
    assert_eq!(b.decode(b"5:spam"), failure(ErrorKind::UnexpectedEndOfInput, 6));
    assert_eq!(b.decode(b"04:spam"), failure(ErrorKind::InvalidLength, 0));
    assert_eq!(b.decode(b"4spam"), failure(ErrorKind::InvalidLength, 1));
    assert_eq!(b.decode(b"4"), failure(ErrorKind::UnexpectedEndOfInput, 1));
    assert_eq!(
        b.decode(b"99999999999999999999999999:x"),
        failure(ErrorKind::UnexpectedEndOfInput, 28)
    );
    assert_eq!(b.decode(b"3:\x00\xff\n"), Ok(Value::ByteString(vec![0, 255, 10])));
}

#[test]
fn list_cases() {
    let b = Bencode::new();
    assert_eq!(b.decode(b"le"), Ok(Value::List(vec![])));
    assert_eq!(b.decode(b"l4:spam4:eggse"), Ok(Value::List(vec![text("spam"), text("eggs")])));
    assert_eq!(
        b.decode(b"lli1eel0:ee"),
        Ok(Value::List(vec![
            Value::List(vec![Value::Integer(1)]),
            Value::List(vec![text("")]),
        ]))
    );
    assert_eq!(b.decode(b"l4:spam"), failure(ErrorKind::UnexpectedEndOfInput, 7));
    assert_eq!(b.decode(b"l"), failure(ErrorKind::UnexpectedEndOfInput, 1));
    assert_eq!(b.decode(b"lxe"), failure(ErrorKind::UnexpectedByte, 1));
}

#[test]
fn dictionary_cases() {
    let b = Bencode::new();
    assert_eq!(
        b.decode(b"d3:cow3:moo4:spam4:eggse"),
        Ok(Value::Dictionary(vec![
            (b"cow".to_vec(), text("moo")),
            (b"spam".to_vec(), text("eggs")),
        ]))
    );
    assert_eq!(b.decode(b"de"), Ok(Value::Dictionary(vec![])));
    assert_eq!(b.decode(b"di1e3:mooe"), failure(ErrorKind::InvalidDictionaryKey, 1));
    assert_eq!(b.decode(b"d3:cow"), failure(ErrorKind::UnexpectedEndOfInput, 6));
    assert_eq!(b.decode(b"d3:cowe"), failure(ErrorKind::UnexpectedByte, 6));
    assert_eq!(b.decode(b"d"), failure(ErrorKind::UnexpectedEndOfInput, 1));
}

#[test]
fn out_of_order_keys() {
    // A prefix of 3 before `eggs` leaves an `s` where the next key must start.
    let short = b"d4:spam3:eggs3:cow3:mooe";
    assert_eq!(Bencode::new().decode(short), failure(ErrorKind::InvalidDictionaryKey, 12));
    assert_eq!(strict().decode(short), failure(ErrorKind::InvalidDictionaryKey, 12));
    let input = b"d4:spam4:eggs3:cow3:mooe";
    assert_eq!(
        Bencode::new().decode(input),
        Ok(Value::Dictionary(vec![
            (b"spam".to_vec(), text("eggs")),
            (b"cow".to_vec(), text("moo")),
        ]))
    );
    assert_eq!(strict().decode(input), failure(ErrorKind::UnsortedKeys, 13));
    assert_eq!(
        strict().decode(b"d3:cow3:moo4:spam4:eggse"),
        Ok(Value::Dictionary(vec![
            (b"cow".to_vec(), text("moo")),
            (b"spam".to_vec(), text("eggs")),
        ]))
    );
}

#[test]
fn duplicate_key() {
    assert_eq!(
        Bencode::new().decode(b"d3:cow3:moo3:cow3:baae"),
        failure(ErrorKind::DuplicateKey, 11)
    );
    assert_eq!(strict().decode(b"d3:cow3:moo3:cow3:baae"), failure(ErrorKind::DuplicateKey, 11));
    assert_eq!(
        Bencode::new().decode(b"d1:bi1e1:ai2e1:bi3ee"),
        failure(ErrorKind::DuplicateKey, 13)
    );
}

#[test]
fn trailing_data() {
    assert_eq!(Bencode::new().decode(b"4:spamJUNK"), failure(ErrorKind::TrailingData, 6));
    assert_eq!(Bencode::new().decode(b"i1ei2e"), failure(ErrorKind::TrailingData, 3));
}

#[test]
fn empty_and_unknown_input() {
    assert_eq!(Bencode::new().decode(b""), failure(ErrorKind::UnexpectedEndOfInput, 0));
    assert_eq!(Bencode::new().decode(b"x"), failure(ErrorKind::UnexpectedByte, 0));
    assert_eq!(Bencode::new().decode(b"e"), failure(ErrorKind::UnexpectedByte, 0));
    assert_eq!(Bencode::new().decode(b"-1"), failure(ErrorKind::UnexpectedByte, 0));
}

#[test]
fn depth_guard() {
    let shallow = Bencode { strict_key_order: false, max_nesting_depth: 2 };
    assert_eq!(
        shallow.decode(b"llee"),
        Ok(Value::List(vec![Value::List(vec![])]))
    );
    assert_eq!(shallow.decode(b"llleee"), failure(ErrorKind::NestingTooDeep, 2));
    assert_eq!(shallow.decode(b"ld1:aleee"), failure(ErrorKind::NestingTooDeep, 5));
    assert_eq!(shallow.decode(b"lli1eee"), Ok(Value::List(vec![Value::List(vec![Value::Integer(1)])])));
    let none = Bencode { strict_key_order: false, max_nesting_depth: 0 };
    assert_eq!(none.decode(b"le"), failure(ErrorKind::NestingTooDeep, 0));
    assert_eq!(none.decode(b"i7e"), Ok(Value::Integer(7)));
}

#[test]
fn crafted_depth_is_refused() {
    let input = vec![b'l'; 200_000];
    assert_eq!(Bencode::new().decode(&input), failure(ErrorKind::NestingTooDeep, 1000));
}

#[test]
fn encode_scalars() {
    assert_eq!(encode(&Value::Integer(0)), b"i0e".to_vec());
    assert_eq!(encode(&Value::Integer(-1)), b"i-1e".to_vec());
    assert_eq!(encode(&Value::Integer(1234567890)), b"i1234567890e".to_vec());
    assert_eq!(encode(&Value::Integer(i64::MAX)), b"i9223372036854775807e".to_vec());
    assert_eq!(encode(&Value::Integer(i64::MIN)), b"i-9223372036854775808e".to_vec());
    assert_eq!(encode(&text("")), b"0:".to_vec());
    assert_eq!(encode(&text("spam")), b"4:spam".to_vec());
    assert_eq!(encode(&text("0123456789ab")), b"12:0123456789ab".to_vec());
}

#[test]
fn encode_containers() {
    assert_eq!(encode(&Value::List(vec![])), b"le".to_vec());
    assert_eq!(
        encode(&Value::List(vec![text("spam"), Value::Integer(3), Value::List(vec![])])),
        b"l4:spami3elee".to_vec()
    );
    assert_eq!(encode(&Value::Dictionary(vec![])), b"de".to_vec());
}

#[test]
fn encode_sorts_keys() {
    let v = Value::Dictionary(vec![
        (b"spam".to_vec(), text("eggs")),
        (b"cow".to_vec(), text("moo")),
        (b"co".to_vec(), Value::Integer(1)),
        (b"".to_vec(), Value::Integer(2)),
        (b"d".to_vec(), Value::Dictionary(vec![
            (b"b".to_vec(), Value::Integer(1)),
            (b"a".to_vec(), Value::Integer(2)),
        ])),
    ]);
    assert_eq!(
        encode(&v),
        b"d0:i2e2:coi1e3:cow3:moo1:dd1:ai2e1:bi1ee4:spam4:eggse".to_vec()
    );
}

#[test]
fn round_trip_of_canonical_input() {
    let inputs: Vec<&[u8]> = vec![
        b"i0e",
        b"i-42e",
        b"0:",
        b"4:spam",
        b"le",
        b"de",
        b"l4:spam4:eggsli1ei-2eed1:ai1eee",
        b"d3:cow3:moo4:spam4:eggse",
        b"d4:infod6:lengthi12345e4:name5:a.txt12:piece lengthi16384eee",
    ];
    for input in inputs {
        let v = strict().decode(input).unwrap();
        assert_eq!(encode(&v), input.to_vec());
    }
}

#[test]
fn decode_of_encode_sorts_keys() {
    let v = Value::List(vec![
        Value::Integer(-7),
        text("x"),
        Value::Dictionary(vec![
            (b"b".to_vec(), Value::Integer(1)),
            (b"a".to_vec(), Value::List(vec![])),
        ]),
    ]);
    let sorted = Value::List(vec![
        Value::Integer(-7),
        text("x"),
        Value::Dictionary(vec![
            (b"a".to_vec(), Value::List(vec![])),
            (b"b".to_vec(), Value::Integer(1)),
        ]),
    ]);
    assert_eq!(strict().decode(&encode(&v)), Ok(sorted));
    let plain = Value::List(vec![Value::Integer(5), text("five")]);
    assert_eq!(Bencode::new().decode(&encode(&plain)), Ok(Value::List(vec![Value::Integer(5), text("five")])));
}

#[test]
fn byte_order() {
    assert!(bytes_less(b"", b"a"));
    assert!(bytes_less(b"co", b"cow"));
    assert!(bytes_less(b"cow", b"spam"));
    assert!(!bytes_less(b"cow", b"cow"));
    assert!(!bytes_less(b"spam", b"cow"));
    assert!(!bytes_less(b"a", b""));
    assert!(bytes_less(b"a\x7f", b"a\x80"));
}

#[test]
fn find_char_offsets() {
    assert_eq!(find_char_from_index("4:spam", ':', 0), 1);
    assert_eq!(find_char_from_index("4:sp:am", ':', 2), 2);
    assert_eq!(find_char_from_index("spam", ':', 0), 0);
    assert_eq!(find_char_from_index(":spam", ':', 0), 0);
    assert_eq!(find_char_from_index("spam", 'm', 10), 0);
    assert_eq!(find_char_from_index("h\u{e9}llo:", ':', 1), 4);
}

#[test]
fn clone_is_deep_and_equal() {
    let v = Value::Dictionary(vec![
        (b"k".to_vec(), Value::List(vec![Value::Integer(1), text("one")])),
        (b"a".to_vec(), Value::Dictionary(vec![])),
    ]);
    let w = v.clone();
    assert_eq!(v, w);
    assert_eq!(encode(&v), encode(&w));
}

#[test]
fn encode_keeps_equal_keys_in_place() {
    let v = Value::Dictionary(vec![
        (b"b".to_vec(), Value::Integer(1)),
        (b"a".to_vec(), Value::Integer(2)),
        (b"b".to_vec(), Value::Integer(3)),
    ]);
    assert_eq!(encode(&v), b"d1:ai2e1:bi1e1:bi3ee".to_vec());
    assert_eq!(
        Bencode::new().decode(&encode(&v)),
        failure(ErrorKind::DuplicateKey, 13)
    );
}

#[test]
fn strict_and_default_agree_on_canonical_input() {
    let input = b"d1:ad1:bi1e1:cleee";
    let strict_value = strict().decode(input).unwrap();
    let default_value = Bencode::new().decode(input).unwrap();
    assert_eq!(strict_value, default_value);
    assert_eq!(encode(&default_value), input.to_vec());
}

#[test]
fn encoded_deep_value_is_refused() {
    let deep = Value::List(vec![
        Value::Integer(1),
        Value::Dictionary(vec![
            (b"z".to_vec(), Value::Integer(0)),
            (b"a".to_vec(), Value::List(vec![Value::List(vec![])])),
        ]),
    ]);
    let bytes = encode(&deep);
    assert_eq!(bytes, b"li1ed1:allee1:zi0eee".to_vec());
    let three = Bencode { strict_key_order: false, max_nesting_depth: 3 };
    assert_eq!(three.decode(&bytes), failure(ErrorKind::NestingTooDeep, 9));
    let four = Bencode { strict_key_order: true, max_nesting_depth: 4 };
    assert_eq!(
        four.decode(&bytes),
        Ok(Value::List(vec![
            Value::Integer(1),
            Value::Dictionary(vec![
                (b"a".to_vec(), Value::List(vec![Value::List(vec![])])),
                (b"z".to_vec(), Value::Integer(0)),
            ]),
        ]))
    );
}
