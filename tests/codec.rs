use homestar::cid::Cid;
use homestar::codec::{decode, encode, is_canonical, CodecError};
use homestar::value::Value;

fn text(s: &str) -> Value {
    Value::Text(s.to_string())
}

#[test]
fn encodes_scalars_canonically() {
    assert_eq!(encode(&Value::Null), vec![0xf6]);
    assert_eq!(encode(&Value::Bool(true)), vec![0xf5]);
    assert_eq!(encode(&Value::Bool(false)), vec![0xf4]);
    assert_eq!(encode(&Value::Integer(1)), vec![0x01]);
    assert_eq!(encode(&Value::Integer(23)), vec![0x17]);
    assert_eq!(encode(&Value::Integer(24)), vec![0x18, 0x18]);
    assert_eq!(encode(&Value::Integer(500)), vec![0x19, 0x01, 0xf4]);
    assert_eq!(encode(&Value::Integer(70000)), vec![0x1a, 0x00, 0x01, 0x11, 0x70]);
    assert_eq!(
        encode(&Value::Integer(i64::MAX)),
        vec![0x1b, 0x7f, 0xff, 0xff, 0xff, 0xff, 0xff, 0xff, 0xff]
    );
    assert_eq!(encode(&Value::Integer(-1)), vec![0x20]);
    assert_eq!(encode(&Value::Integer(-500)), vec![0x39, 0x01, 0xf3]);
    assert_eq!(encode(&text("a")), vec![0x61, 0x61]);
    assert_eq!(encode(&Value::Bytes(vec![1, 2])), vec![0x42, 1, 2]);
}

#[test]
fn encodes_lists_maps_and_links() {
    let l = Value::List(vec![Value::Integer(1), Value::Integer(2)]);
    assert_eq!(encode(&l), vec![0x82, 0x01, 0x02]);
    let d = Value::Dict(vec![("a".to_string(), Value::Integer(1)), ("b".to_string(), Value::Null)]);
    assert_eq!(encode(&d), vec![0xa2, 0x61, 0x61, 0x01, 0x61, 0x62, 0xf6]);
    let c = Cid::from_bytes(vec![1, 2, 3]).unwrap();
    assert_eq!(encode(&Value::Link(c)), vec![0xd8, 0x2a, 0x44, 0x00, 1, 2, 3]);
}

#[test]
fn decode_reverses_encode() {
    let v = Value::Dict(vec![
        ("args".to_string(), Value::List(vec![Value::Integer(-300), text("héllo"), Value::Bytes(vec![9; 300])])),
        ("link".to_string(), Value::Link(Cid::from_bytes(vec![7; 36]).unwrap())),
        ("nothing".to_string(), Value::Null),
        ("yes".to_string(), Value::Bool(true)),
    ]);
    let bytes = encode(&v);
    assert_eq!(decode(&bytes).unwrap(), v);
}

#[test]
fn decode_refuses_malformed_input() {
    assert_eq!(decode(&[]), Err(CodecError::MalformedEncoding));
    // trailing byte
    assert_eq!(decode(&[0x01, 0x01]), Err(CodecError::MalformedEncoding));
    // truncated list
    assert_eq!(decode(&[0x82, 0x01]), Err(CodecError::MalformedEncoding));
    // keys out of order
    assert_eq!(
        decode(&[0xa2, 0x61, 0x62, 0x01, 0x61, 0x61, 0x02]),
        Err(CodecError::MalformedEncoding)
    );
    // repeated key
    assert_eq!(
        decode(&[0xa2, 0x61, 0x61, 0x01, 0x61, 0x61, 0x02]),
        Err(CodecError::MalformedEncoding)
    );
    // invalid UTF-8
    assert_eq!(decode(&[0x61, 0xff]), Err(CodecError::MalformedEncoding));
    // unsigned integer beyond 63 bits
    assert_eq!(
        decode(&[0x1b, 0xff, 0xff, 0xff, 0xff, 0xff, 0xff, 0xff, 0xff]),
        Err(CodecError::MalformedEncoding)
    );
    // a tag other than a link
    assert_eq!(decode(&[0xd8, 0x2b, 0x41, 0x00]), Err(CodecError::MalformedEncoding));
}

#[test]
fn cid_is_prefix_and_sha3_digest() {
    let c = Cid::of_encoding(&[]);
    let mut expected = vec![0x01, 0x71, 0x16, 0x20];
    expected.extend_from_slice(&[
        0xa7, 0xff, 0xc6, 0xf8, 0xbf, 0x1e, 0xd7, 0x66, 0x51, 0xc1, 0x47, 0x56, 0xa0, 0x61, 0xd6, 0x62,
        0xf5, 0x80, 0xff, 0x4d, 0xe4, 0x3b, 0x49, 0xfa, 0x82, 0xd8, 0x0a, 0x4b, 0x80, 0xf8, 0x43, 0x4a,
    ]);
    assert_eq!(c.to_bytes(), expected);
}

#[test]
fn cid_is_stable() {
    let v = Value::List(vec![Value::Integer(1), text("x")]);
    let a = Cid::of_encoding(&encode(&v));
    let b = Cid::of_encoding(&encode(&v.copy()));
    assert!(a.same(&b));
    let other = Cid::of_encoding(&encode(&Value::Integer(2)));
    assert!(!a.same(&other));
}

#[test]
fn overlong_identifiers_are_refused() {
    assert!(Cid::from_bytes(vec![0; 0x10000]).is_none());
    assert_eq!(Cid::from_bytes(vec![0; 0xffff]).unwrap().len(), 0xffff);
}

#[test]
fn maps_out_of_order_are_not_canonical() {
    let sorted = Value::Dict(vec![("a".to_string(), Value::Null), ("b".to_string(), Value::Null)]);
    let unsorted = Value::Dict(vec![("b".to_string(), Value::Null), ("a".to_string(), Value::Null)]);
    assert!(is_canonical(&sorted));
    assert!(!is_canonical(&unsorted));
    assert!(!is_canonical(&Value::List(vec![unsorted])));
}

#[test]
fn maps_encode_in_key_order_whatever_order_they_are_held_in() {
    let sorted = Value::Dict(vec![("a".to_string(), Value::Integer(1)), ("b".to_string(), Value::Null)]);
    let unsorted = Value::Dict(vec![("b".to_string(), Value::Null), ("a".to_string(), Value::Integer(1))]);
    assert_eq!(encode(&unsorted), encode(&sorted));
    assert_eq!(decode(&encode(&unsorted)).unwrap(), sorted);
    // a later entry for a key replaces an earlier one
    let repeated = Value::Dict(vec![("a".to_string(), Value::Integer(0)), ("b".to_string(), Value::Null), ("a".to_string(), Value::Integer(1))]);
    assert_eq!(encode(&repeated), encode(&sorted));
    let nested = Value::List(vec![unsorted]);
    assert_eq!(decode(&encode(&nested)).unwrap(), Value::List(vec![sorted]));
}
