use dataplane::batch::Batch;
use dataplane::fixint::encode_i32;
use dataplane::record::{Record, RecordData};
use dataplane::error::ErrorKind;
use dataplane::record_set::{FileRecordSet, RecordSet};

fn create_batch() -> Batch {
    let value = vec![0x74, 0x65, 0x73, 0x74];
    let record = Record::new(RecordData::from_vec(value));
    let mut batch = Batch::new();
    batch.add_record(record);
    batch
}

/// Decoding a record set whose trailing batch was truncated keeps the
/// batches before the cut.
#[test]
fn test_decode_batch_truncation() {
    let truncated: usize = 10;

    let batches = RecordSet::new()
        .add(create_batch())
        .add(create_batch())
        .add(create_batch());

    let mut bytes: Vec<u8> = Vec::new();
    batches.encode(&mut bytes, 0);

    let original_len = bytes.len();
    bytes.truncate(original_len - truncated);

    // Rewrite the four-byte length prefix to match the shortened body.
    let new_len = (original_len - truncated - 4) as i32;
    let mut out: Vec<u8> = Vec::new();
    encode_i32(&mut out, new_len);
    out.extend_from_slice(&bytes[4..]);

    assert_eq!(out.len(), original_len - truncated);

    println!("decoding...");
    let (decoded_batches, _) = RecordSet::decode(&out, 0, out.len(), 0).expect("decoding");
    assert_eq!(decoded_batches.batches.len(), 2);
}

#[test]
fn record_set_round_trip_and_size_law() {
    let batches = RecordSet::new().add(create_batch()).add(create_batch());
    let mut bytes: Vec<u8> = Vec::new();
    batches.encode(&mut bytes, 0);
    assert_eq!(bytes.len(), batches.write_size(0));

    let (decoded, consumed) = RecordSet::decode(&bytes, 0, bytes.len(), 0).expect("decode");
    assert_eq!(consumed, bytes.len());
    assert_eq!(decoded.batches.len(), 2);
    assert_eq!(decoded.total_records(), 2);
    for batch in decoded.batches.iter() {
        assert_eq!(batch.records_len(), 1);
        assert_eq!(batch.records()[0].value().as_vec(), &vec![0x74, 0x65, 0x73, 0x74]);
    }
}

#[test]
fn record_set_offsets() {
    let empty = RecordSet::new();
    assert_eq!(empty.base_offset(), -1);
    assert!(empty.last_offset().is_none());

    let mut batch = create_batch();
    batch.add_record(Record::new(RecordData::from_vec(vec![1])));
    let set = RecordSet::new().add(batch);
    assert_eq!(set.base_offset(), 0);
    // Two records: the last one carries offset delta 1.
    assert_eq!(set.last_offset(), Some(1));
    assert_eq!(set.total_records(), 2);
}

#[test]
fn batch_size_law_and_round_trip() {
    let batch = create_batch();
    let mut bytes: Vec<u8> = Vec::new();
    batch.encode(&mut bytes, 0);
    assert_eq!(bytes.len(), batch.write_size(0));
    let (decoded, consumed) = Batch::decode(&bytes, 0, bytes.len(), 0).expect("decode");
    assert_eq!(consumed, bytes.len());
    assert_eq!(decoded.base_offset(), 0);
    assert_eq!(decoded.records_len(), 1);
    assert_eq!(decoded.computed_last_offset(), 0);
}

#[test]
fn file_record_set_encodes_only_when_empty() {
    let empty = FileRecordSet::from_slice(128, 0);
    assert_eq!(empty.position(), 128);
    assert_eq!(empty.len(), 0);
    let mut out: Vec<u8> = Vec::new();
    assert_eq!(empty.encode(&mut out, 0), Ok(()));
    assert_eq!(out, vec![0, 0, 0, 0]);

    let backed = FileRecordSet::from_slice(0, 512);
    assert_eq!(backed.write_size(0), 516);
    let mut out2: Vec<u8> = Vec::new();
    assert_eq!(backed.encode(&mut out2, 0), Err(ErrorKind::InvalidInput));
    assert!(out2.is_empty());
}
