use dataplane::record::RecordData;

#[test]
fn binary_data_is_detected() {
    let jpeg_head = RecordData::from_vec(vec![0xFF, 0xE0, 0x00, 0x10, 0x4A, 0x46, 0x49, 0x46, 0x00]);
    assert!(jpeg_head.is_binary());

    let text = RecordData::from_vec(b"Hello".to_vec());
    assert!(!text.is_binary());

    let empty = RecordData::empty();
    assert!(!empty.is_binary());
}

#[test]
fn describe_renders_binary_and_text() {
    let jpeg_head = RecordData::from_vec(vec![0xFF, 0xE0, 0x00, 0x10, 0x4A, 0x46, 0x49, 0x46, 0x00]);
    assert_eq!(jpeg_head.describe(), "binary: (9 bytes)");

    let text = RecordData::from_vec(b"Hello".to_vec());
    assert_eq!(text.describe(), "text: 'Hello'");
    assert_eq!(text.len(), 5);
}

#[test]
fn describe_caps_long_text() {
    let long = RecordData::from_vec(vec![b'a'; 20000]);
    let shown = long.describe();
    let expected_body: String = std::iter::repeat('a').take(16384).collect();
    assert_eq!(shown, format!("text: '{}...'", expected_body));
}

#[test]
fn duplicate_copies_bytes() {
    let data = RecordData::from_vec(vec![1, 2, 3]);
    let copy = data.duplicate();
    assert_eq!(copy.as_vec(), data.as_vec());
    assert_eq!(copy.into_vec(), vec![1, 2, 3]);
}
