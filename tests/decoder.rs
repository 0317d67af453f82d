use ixc_schema::codec::DecodeError;
use ixc_schema::decoder::decode_value;
use ixc_schema::encoder::encode_value;
use ixc_schema::value::{AccountId, Field, SchemaType, StructType, Value};

fn coin_type() -> SchemaType {
    SchemaType::Struct(StructType {
        name: String::from("Coin"),
        fields: vec![
            Field { name: String::from("denom"), ty: SchemaType::Str },
            Field { name: String::from("amount"), ty: SchemaType::U128 },
        ],
    })
}

fn coin(denom: &str, amount: u128) -> Value {
    Value::Struct(vec![Value::Str(denom.as_bytes().to_vec()), Value::U128(amount)])
}

#[test]
fn test_u32_decode() {
    let buf: [u8; 4] = [10, 0, 0, 0];
    let x = decode_value(&buf, &SchemaType::U32).unwrap();
    assert_eq!(x, Value::U32(10));
}

#[test]
fn test_decode_borrowed_string() {
    let str = "hello";
    let x = decode_value(str.as_bytes(), &SchemaType::Str).unwrap();
    assert_eq!(x, Value::Str(b"hello".to_vec()));
}

#[test]
fn test_decode_owned_string() {
    let str = "hello";
    let x = decode_value(str.as_bytes(), &SchemaType::Str).unwrap();
    match x {
        Value::Str(b) => assert_eq!(String::from_utf8(b).unwrap(), "hello"),
        _ => panic!("expected a string"),
    }
}

#[test]
fn test_coin() {
    let c = coin("uatom", 1234567890);
    let res = encode_value(&c);
    let decoded = decode_value(&res, &coin_type()).unwrap();
    assert_eq!(decoded, c);
}

#[test]
fn test_coins() {
    let coins = Value::List(vec![coin("uatom", 1234567890), coin("foo", 9876543210)]);
    let res = encode_value(&coins);
    let ty = SchemaType::List(Box::new(coin_type()));
    let decoded = decode_value(&res, &ty).unwrap();
    assert_eq!(decoded, coins);
}

#[test]
fn coin_bytes_layout() {
    let res = encode_value(&coin("uatom", 1234567890));
    let mut expected: Vec<u8> = vec![5, 0, 0, 0];
    expected.extend_from_slice(b"uatom");
    expected.extend_from_slice(&1234567890u128.to_le_bytes());
    assert_eq!(res, expected);
    assert_eq!(res.len(), 4 + 5 + 16);
}

#[test]
fn scalars_are_little_endian() {
    assert_eq!(encode_value(&Value::U32(0x0102_0304)), vec![4, 3, 2, 1]);
    assert_eq!(encode_value(&Value::U64(1)), vec![1, 0, 0, 0, 0, 0, 0, 0]);
    let id = Value::AccountId(AccountId { id: 0x0a0b });
    assert_eq!(encode_value(&id), vec![0x0b, 0x0a, 0, 0, 0, 0, 0, 0]);
    assert_eq!(decode_value(&[0x0b, 0x0a, 0, 0, 0, 0, 0, 0], &SchemaType::AccountId).unwrap(), id);
    let big = Value::U128(u128::MAX);
    assert_eq!(decode_value(&encode_value(&big), &SchemaType::U128).unwrap(), big);
}

#[test]
fn short_scalar_is_out_of_data() {
    assert_eq!(decode_value(&[1, 2, 3], &SchemaType::U32), Err(DecodeError::OutOfData));
    assert_eq!(decode_value(&[1; 7], &SchemaType::U64), Err(DecodeError::OutOfData));
    assert_eq!(decode_value(&[1; 15], &SchemaType::U128), Err(DecodeError::OutOfData));
    assert_eq!(decode_value(&[], &SchemaType::AccountId), Err(DecodeError::OutOfData));
}

#[test]
fn invalid_utf8_is_invalid_data() {
    assert_eq!(decode_value(&[0xff, 0xfe], &SchemaType::Str), Err(DecodeError::InvalidData));
    let bad = vec![2, 0, 0, 0, 0xc3, 0x28, 1, 0, 0, 0, 0, 0, 0, 0, 0, 0, 0, 0, 0, 0, 0, 0];
    assert_eq!(decode_value(&bad, &coin_type()), Err(DecodeError::InvalidData));
}

#[test]
fn empty_string_and_empty_list() {
    assert_eq!(decode_value(&[], &SchemaType::Str).unwrap(), Value::Str(vec![]));
    let ty = SchemaType::List(Box::new(SchemaType::Str));
    let empty = Value::List(vec![]);
    let bytes = encode_value(&empty);
    assert_eq!(bytes, vec![0, 0, 0, 0]);
    assert_eq!(decode_value(&bytes, &ty).unwrap(), empty);
}

fn holder_type() -> SchemaType {
    SchemaType::Struct(StructType {
        name: String::from("Holder"),
        fields: vec![
            Field { name: String::from("names"), ty: SchemaType::List(Box::new(SchemaType::Str)) },
            Field { name: String::from("count"), ty: SchemaType::U64 },
        ],
    })
}

#[test]
fn scalar_after_list_of_strings() {
    for names in [vec![], vec!["a"], vec!["alpha", "", "gamma-delta-epsilon"]] {
        let list = Value::List(names.iter().map(|n| Value::Str(n.as_bytes().to_vec())).collect());
        let v = Value::Struct(vec![list, Value::U64(77)]);
        let decoded = decode_value(&encode_value(&v), &holder_type()).unwrap();
        match &decoded {
            Value::Struct(fs) => assert_eq!(fs[1], Value::U64(77)),
            _ => panic!("expected a struct"),
        }
        assert_eq!(decoded, v);
    }
}

#[test]
fn list_of_strings_frames_each_element() {
    let v = Value::List(vec![Value::Str(b"ab".to_vec()), Value::Str(b"c".to_vec())]);
    assert_eq!(encode_value(&v), vec![2, 0, 0, 0, 2, 0, 0, 0, b'a', b'b', 1, 0, 0, 0, b'c']);
}

#[test]
fn truncated_encodings_fail() {
    let v = Value::List(vec![coin("uatom", 1234567890), coin("foo", 9876543210)]);
    let ty = SchemaType::List(Box::new(coin_type()));
    let bytes = encode_value(&v);
    for n in 1..bytes.len() {
        let r = decode_value(&bytes[..n], &ty);
        assert!(r == Err(DecodeError::OutOfData) || r == Err(DecodeError::InvalidData));
    }
    let c = encode_value(&coin("uatom", 5));
    for n in 1..c.len() {
        assert_eq!(decode_value(&c[..n], &coin_type()), Err(DecodeError::OutOfData));
    }
}

#[test]
fn frame_longer_than_data_is_out_of_data() {
    let bytes = vec![9, 0, 0, 0, b'a'];
    assert_eq!(decode_value(&bytes, &coin_type()), Err(DecodeError::OutOfData));
}
