use mktorrent::bencode::{BencodeError, BencodeValue};

fn decode(b: &[u8]) -> Result<(BencodeValue, usize), BencodeError> {
    BencodeValue::decode_bencoded_value(b)
}

fn encode(v: &BencodeValue) -> Vec<u8> {
    let mut buf = Vec::new();
    v.encode(&mut buf);
    buf
}

fn bytes(s: &str) -> BencodeValue {
    BencodeValue::Bytes(s.as_bytes().to_vec())
}

#[test]
fn decodes_byte_string() {
    let (v, n) = decode(b"4:spam").unwrap();
    assert_eq!(n, 6);
    match v {
        BencodeValue::Bytes(b) => assert_eq!(b, b"spam".to_vec()),
        _ => panic!("expected bytes"),
    }
}

#[test]
fn decodes_integers() {
    assert!(matches!(decode(b"i-42e").unwrap(), (BencodeValue::Num(-42), 5)));
    assert!(matches!(decode(b"i0e").unwrap(), (BencodeValue::Num(0), 3)));
    assert!(matches!(decode(b"i+7e").unwrap(), (BencodeValue::Num(7), 4)));
    assert!(matches!(decode(b"i9223372036854775807e").unwrap(), (BencodeValue::Num(i64::MAX), 21)));
    assert!(matches!(decode(b"i-9223372036854775808e").unwrap(), (BencodeValue::Num(i64::MIN), 22)));
}

#[test]
fn decodes_list_and_reports_consumed() {
    let (v, n) = decode(b"l4:spami42eeXYZ").unwrap();
    assert_eq!(n, 12);
    match v {
        BencodeValue::List(items) => {
            assert_eq!(items.len(), 2);
            assert!(matches!(items[1], BencodeValue::Num(42)));
        }
        _ => panic!("expected list"),
    }
}

#[test]
fn malformed_inputs_fail() {
    for input in [
        &b""[..],
        b"x",
        b"i12",
        b"i1x2e",
        b"ie",
        b"i-e",
        b"i9223372036854775808e",
        b"5:abc",
        b"4spam",
        b"l4:spam",
        b"d3:cow",
        b"di1e3:mooe",
    ] {
        assert_eq!(decode(input).err(), Some(BencodeError::MalformedInput), "{:?}", input);
    }
}

#[test]
fn canonical_input_round_trips() {
    let inputs: [&[u8]; 5] = [
        b"d3:cow3:moo4:spam4:eggse",
        b"l4:spami42ee",
        b"i-3e",
        b"0:",
        b"d1:ad1:bli1ei2eee1:c0:e",
    ];
    for b in inputs {
        let (v, n) = decode(b).unwrap();
        assert_eq!(n, b.len());
        assert_eq!(encode(&v), b.to_vec());
    }
}

#[test]
fn encode_sorts_dictionary_keys() {
    let v = BencodeValue::Dict(vec![
        (b"zeta".to_vec(), BencodeValue::Num(1)),
        (b"alpha".to_vec(), BencodeValue::Num(2)),
        (b"beta".to_vec(), bytes("x")),
    ]);
    assert_eq!(encode(&v), b"d5:alphai2e4:beta1:x4:zetai1ee".to_vec());
}

#[test]
fn encode_orders_by_raw_bytes() {
    let v = BencodeValue::Dict(vec![
        (vec![0xff], BencodeValue::Num(1)),
        (b"a".to_vec(), BencodeValue::Num(2)),
        (b"".to_vec(), BencodeValue::Num(3)),
        (b"ab".to_vec(), BencodeValue::Num(4)),
    ]);
    let mut expected = b"d0:i3e1:ai2e2:abi4e1:".to_vec();
    expected.push(0xff);
    expected.extend_from_slice(b"i1ee");
    assert_eq!(encode(&v), expected);
}

#[test]
fn later_duplicate_key_wins() {
    let (v, _) = decode(b"d1:ai1e1:ai2ee").unwrap();
    assert!(matches!(v.get(b"a"), Some(BencodeValue::Num(2))));
    assert_eq!(encode(&v), b"d1:ai2ee".to_vec());
    assert!(v.get(b"b").is_none());
}

#[test]
fn list_access_and_lossy_text() {
    let (v, _) = decode(b"l3:abci5ee").unwrap();
    assert_eq!(v.at(0).unwrap().to_lossy_string(), "abc");
    assert_eq!(v.at(1).unwrap().to_lossy_string(), "Null");
    assert!(v.at(2).is_none());
}

#[test]
fn invalid_utf8_is_replaced() {
    let v = BencodeValue::Bytes(vec![b'a', 0xff, b'b']);
    assert_eq!(v.to_lossy_string(), "a\u{fffd}b");
    assert_eq!(v.to_string(), "\"a\u{fffd}b\"");
}

#[test]
fn encodes_every_kind() {
    let v = BencodeValue::List(vec![bytes("ab"), BencodeValue::Num(-10), BencodeValue::List(vec![]), BencodeValue::Dict(vec![])]);
    assert_eq!(encode(&v), b"l2:abi-10eledee".to_vec());
}

#[test]
fn renders_values() {
    let list = BencodeValue::List(vec![bytes("a"), BencodeValue::Num(1)]);
    assert_eq!(list.to_string(), "[\"a\", 1]");
    let dict = BencodeValue::Dict(vec![
        (b"b".to_vec(), BencodeValue::Num(-5)),
        (b"a".to_vec(), bytes("x\"y")),
        (b"l".to_vec(), BencodeValue::List(vec![bytes("a"), BencodeValue::Num(1)])),
    ]);
    assert_eq!(dict.to_string(), "{\"a\":\"x\\\"y\",\"b\":-5,\"l\":[\"a\",1]}");
    assert_eq!(BencodeValue::Null.to_string(), "Null");
    assert_eq!(BencodeValue::Num(i64::MIN).to_string(), "-9223372036854775808");
    assert_eq!(BencodeValue::Dict(vec![]).to_string_with_sep(";"), "{}");
    assert_eq!(BencodeValue::List(vec![BencodeValue::Num(1), BencodeValue::Num(2)]).to_string_with_sep(";"), "[1;2]");
}
