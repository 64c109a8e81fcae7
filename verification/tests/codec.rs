use dataplane::error::ErrorKind;
use dataplane::record::{Record, RecordData, RecordHeader, RecordKey, decode_opt_bytes};
use dataplane::varint::{decode_varint, encode_varint, varint_size};
use dataplane::fixint::{
    decode_i16, decode_i32, decode_i64, decode_i8, decode_u16, decode_u32, decode_u64, decode_u8,
    encode_i16, encode_i32, encode_i64, encode_i8, encode_u16, encode_u32, encode_u64, encode_u8,
};

#[test]
fn test_decode_encode_record() {
    let data = vec![0x12, 0x00, 0x00, 0x02, 0x00, 0x06, 0x64, 0x6f, 0x67, 0x00];

    let (record, consumed) = Record::decode(&data, 0, data.len(), 0).expect("decode");
    assert_eq!(consumed, data.len());
    assert_eq!(record.as_bytes(0).len(), data.len());

    assert_eq!(record.write_size(0), data.len());
    println!("offset_delta: {:?}", record.get_offset_delta());
    assert_eq!(record.get_offset_delta(), 1);

    let value = record.value().as_vec();
    assert_eq!(value.len(), 3);
    assert_eq!(value[0], 0x64);
}

#[test]
fn test_key_value_encoding() {
    let key = "KKKKKKKKKK".to_string();
    let value = "VVVVVVVVVV".to_string();
    let record = Record::new_key_value(
        RecordKey::from_vec(key.into_bytes()),
        RecordData::from_vec(value.into_bytes()),
    );

    let mut encoded: Vec<u8> = Vec::new();
    record.encode(&mut encoded, 0);
    let (decoded, _) = Record::decode(&encoded, 0, encoded.len(), 0).unwrap();

    let record_key = record.key.unwrap();
    let decoded_key = decoded.key.unwrap();
    assert_eq!(record_key.as_vec(), decoded_key.as_vec());
    assert_eq!(record.value.as_vec(), decoded.value.as_vec());
}

// A record written before keys became optional: the key went out as an
// always-present empty byte string, a single 0x00 length byte, which is
// byte-identical to the present absent-key tag.  Decoding must yield an
// absent key with the value preserved.
#[test]
fn test_decode_old_record_empty_key() {
    let mut old_encoded: Vec<u8> = vec![
        0x20, // body length 16 as a varint
        0x00, 0x00, 0x00, // header: attributes, timestamp delta, offset delta
        0x00, // key: legacy empty byte string
        0x14, // value length 10 as a varint
    ];
    old_encoded.extend_from_slice(b"VVVVVVVVVV");
    old_encoded.push(0x00); // headers count

    let (decoded, consumed) = Record::decode(&old_encoded, 0, old_encoded.len(), 0).unwrap();
    assert_eq!(consumed, old_encoded.len());
    assert_eq!(
        std::str::from_utf8(decoded.value.as_vec()).unwrap(),
        "VVVVVVVVVV"
    );
    assert!(decoded.key.is_none());
}

#[test]
fn varint_boundary_values_round_trip() {
    let cases: Vec<(i64, usize)> = vec![
        (0, 1),
        (1, 1),
        (-1, 1),
        (63, 1),
        (-63, 1),
        (64, 2),
        (-64, 1),
        (8191, 2),
        (-8191, 2),
        (8192, 3),
        (-8192, 2),
        (i64::MIN, 10),
        (i64::MAX, 10),
    ];
    for (value, width) in cases {
        let mut out: Vec<u8> = Vec::new();
        encode_varint(&mut out, value);
        assert_eq!(out.len(), width, "width of {}", value);
        assert!(out.len() >= 1 && out.len() <= 10);
        assert_eq!(varint_size(value), out.len());
        let (back, consumed) = decode_varint(&out, 0, out.len()).expect("round trip");
        assert_eq!(back, value);
        assert_eq!(consumed, out.len());
    }
}

#[test]
fn varint_rejects_overlong_and_truncated() {
    // A redundant trailing zero group is not canonical.
    let overlong = vec![0x80u8, 0x00];
    assert_eq!(decode_varint(&overlong, 0, 2), Err(ErrorKind::InvalidData));

    // Ten continuation bytes never terminate a group.
    let too_wide = vec![0x80u8; 11];
    assert_eq!(decode_varint(&too_wide, 0, 11), Err(ErrorKind::InvalidData));

    // A continuation bit with nothing after it runs out of input.
    let cut = vec![0x80u8];
    assert_eq!(decode_varint(&cut, 0, 1), Err(ErrorKind::UnexpectedEof));
}

#[test]
fn record_decode_rejects_short_input() {
    // The outer length announces nine bytes that are not there.
    let data = vec![0x12u8, 0x00];
    assert_eq!(
        Record::decode(&data, 0, data.len(), 0).err(),
        Some(ErrorKind::UnexpectedEof)
    );
}

#[test]
fn optional_tag_other_than_zero_or_one_is_invalid() {
    let data = vec![0x02u8, 0x41];
    assert_eq!(
        decode_opt_bytes(&data, 0, data.len(), 0).err(),
        Some(ErrorKind::InvalidData)
    );
}

#[test]
fn record_header_size_law_and_round_trip() {
    let mut header = RecordHeader::zero();
    header.set_offset_delta(-300);
    let mut out: Vec<u8> = Vec::new();
    header.encode(&mut out, 0);
    assert_eq!(out.len(), header.write_size(0));
    let (back, consumed) = RecordHeader::decode(&out, 0, out.len(), 0).unwrap();
    assert_eq!(consumed, out.len());
    assert_eq!(back.offset_delta(), -300);
    assert_eq!(back, header);
}

#[test]
fn record_accessors_reflect_contents() {
    let record = Record::new_key_value(
        RecordKey::from_vec(vec![1, 2]),
        RecordData::from_vec(vec![3, 4, 5]),
    );
    assert_eq!(record.key().unwrap().len(), 2);
    assert_eq!(record.value().len(), 3);
    let mut record = record;
    record.add_base_offset(7);
    assert_eq!(record.get_offset_delta(), 7);
    assert_eq!(record.into_value().into_vec(), vec![3, 4, 5]);

    let keyless = Record::new(RecordData::from_vec(vec![9]));
    assert!(keyless.key().is_none());
    assert!(keyless.into_key().is_none());

    let null_key = Record::new_key_value(RecordKey::null(), RecordData::from_vec(vec![9]));
    assert!(null_key.into_key().is_none());
}

#[test]
fn fixed_width_integers_round_trip() {
    let mut out: Vec<u8> = Vec::new();
    encode_i64(&mut out, 20);
    encode_i64(&mut out, 25);
    assert_eq!(out.len(), 16);
    let (len_field, p1) = decode_i64(&out, 0, out.len()).unwrap();
    let (value_field, p2) = decode_i64(&out, p1, out.len()).unwrap();
    assert_eq!(len_field, 20);
    assert_eq!(value_field, 25);
    assert_eq!(p2, 16);

    let mut bytes: Vec<u8> = Vec::new();
    encode_u8(&mut bytes, 0xAB);
    encode_i8(&mut bytes, -5);
    encode_u16(&mut bytes, 0xBEEF);
    encode_i16(&mut bytes, -2);
    encode_u32(&mut bytes, 0xDEAD_BEEF);
    encode_i32(&mut bytes, -100_000);
    encode_u64(&mut bytes, 0x0102_0304_0506_0708);
    assert_eq!(bytes.len(), 1 + 1 + 2 + 2 + 4 + 4 + 8);
    assert_eq!(bytes[0], 0xAB);
    assert_eq!(&bytes[2..4], &[0xBE, 0xEF]);

    let (u8v, q1) = decode_u8(&bytes, 0, bytes.len()).unwrap();
    let (i8v, q2) = decode_i8(&bytes, q1, bytes.len()).unwrap();
    let (u16v, q3) = decode_u16(&bytes, q2, bytes.len()).unwrap();
    let (i16v, q4) = decode_i16(&bytes, q3, bytes.len()).unwrap();
    let (u32v, q5) = decode_u32(&bytes, q4, bytes.len()).unwrap();
    let (i32v, q6) = decode_i32(&bytes, q5, bytes.len()).unwrap();
    let (u64v, q7) = decode_u64(&bytes, q6, bytes.len()).unwrap();
    assert_eq!(u8v, 0xAB);
    assert_eq!(i8v, -5);
    assert_eq!(u16v, 0xBEEF);
    assert_eq!(i16v, -2);
    assert_eq!(u32v, 0xDEAD_BEEF);
    assert_eq!(i32v, -100_000);
    assert_eq!(u64v, 0x0102_0304_0506_0708);
    assert_eq!(q7, bytes.len());
}
