use ixc_schema::codec::{DecodeError, EncodeError};
use ixc_schema::key::{decode_object_key, encode_object_key, KeyField, KeyKind, ObjectKey};

fn key(fields: Vec<KeyField>) -> ObjectKey {
    ObjectKey { fields }
}

#[test]
fn pair_key_layout() {
    let k = key(vec![KeyField::U32(5), KeyField::U64(9)]);
    assert_eq!(k.out_size(), 12);
    let bytes = encode_object_key(&k).unwrap();
    assert_eq!(bytes, vec![0, 0, 0, 5, 0, 0, 0, 0, 0, 0, 0, 9]);
    let first = decode_object_key(&bytes[..4], &vec![KeyKind::U32]).unwrap();
    assert_eq!(first.fields, vec![KeyField::U32(5)]);
    let rest = decode_object_key(&bytes[4..], &vec![KeyKind::U64]).unwrap();
    assert_eq!(rest.fields, vec![KeyField::U64(9)]);
    let back = decode_object_key(&bytes, &vec![KeyKind::U32, KeyKind::U64]).unwrap();
    assert_eq!(back.fields, k.fields);
}

#[test]
fn empty_key_is_empty() {
    let k = key(vec![]);
    assert_eq!(k.out_size(), 0);
    assert_eq!(encode_object_key(&k).unwrap(), Vec::<u8>::new());
    assert_eq!(decode_object_key(&[], &vec![]).unwrap().fields, vec![]);
    assert_eq!(decode_object_key(&[1], &vec![]).unwrap_err(), DecodeError::TrailingBytes);
}

#[test]
fn four_field_key_round_trip() {
    let k = key(vec![KeyField::U128(u128::MAX), KeyField::U32(0), KeyField::U64(1 << 40), KeyField::U32(7)]);
    let kinds = vec![KeyKind::U128, KeyKind::U32, KeyKind::U64, KeyKind::U32];
    let bytes = encode_object_key(&k).unwrap();
    assert_eq!(bytes.len(), k.out_size());
    assert_eq!(bytes.len(), 32);
    assert_eq!(decode_object_key(&bytes, &kinds).unwrap().fields, k.fields);
}

#[test]
fn five_fields_is_refused() {
    let k = key(vec![KeyField::U32(1); 5]);
    assert_eq!(encode_object_key(&k), Err(EncodeError::UnknownError));
}

#[test]
fn key_length_errors() {
    let kinds = vec![KeyKind::U32, KeyKind::U64];
    assert_eq!(decode_object_key(&[0; 11], &kinds).unwrap_err(), DecodeError::OutOfData);
    assert_eq!(decode_object_key(&[0; 13], &kinds).unwrap_err(), DecodeError::TrailingBytes);
}

#[test]
fn key_order_matches_byte_order() {
    let keys = vec![
        vec![KeyField::U32(0), KeyField::U64(u64::MAX)],
        vec![KeyField::U32(1), KeyField::U64(0)],
        vec![KeyField::U32(1), KeyField::U64(255)],
        vec![KeyField::U32(1), KeyField::U64(256)],
        vec![KeyField::U32(256), KeyField::U64(0)],
        vec![KeyField::U32(u32::MAX), KeyField::U64(3)],
    ];
    for (i, a) in keys.iter().enumerate() {
        for (j, b) in keys.iter().enumerate() {
            let ea = encode_object_key(&key(a.clone())).unwrap();
            let eb = encode_object_key(&key(b.clone())).unwrap();
            assert_eq!(i < j, ea < eb);
        }
    }
}
