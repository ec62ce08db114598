use pmd_code_table::CodeTable;
use pmd_message::{MessageBin, MessageBinReadError, MessageBinWriteError};

fn read_u32(bytes: &[u8], off: usize) -> u32 {
    u32::from_le_bytes([bytes[off], bytes[off + 1], bytes[off + 2], bytes[off + 3]])
}

#[test]
fn write_then_load_roundtrip() {
    let mut bin = MessageBin::default();
    bin.insert(0xDEADBEEF, 7, "Hello".to_string());
    bin.insert(1, 9, "W\u{F6}rld \u{10000}!".to_string());
    bin.insert(0x42, 0, "".to_string());
    let bytes = bin.write(None).unwrap();
    let loaded = MessageBin::load_file(&bytes, None).unwrap();
    assert_eq!(loaded.messages(), bin.messages());
}

#[test]
fn empty_store_roundtrip() {
    let bin = MessageBin::default();
    let bytes = bin.write(None).unwrap();
    let loaded = MessageBin::load_file(&bytes, None).unwrap();
    assert_eq!(loaded.messages().len(), 0);
}

#[test]
fn record_table_is_sorted_by_hash() {
    let mut bin = MessageBin::default();
    bin.insert(300, 0, "x".to_string());
    bin.insert(100, 0, "y".to_string());
    bin.insert(200, 0, "z".to_string());
    let bytes = bin.write(None).unwrap();
    assert_eq!(&bytes[0..4], b"SIR0");
    let payload_off = read_u32(&bytes, 4) as usize;
    let count = read_u32(&bytes, payload_off) as usize;
    let table_off = read_u32(&bytes, payload_off + 4) as usize;
    assert_eq!(count, 3);
    assert_eq!(table_off % 4, 0);
    let hashes: Vec<u32> = (0..count)
        .map(|k| read_u32(&bytes, table_off + 12 * k + 4))
        .collect();
    assert_eq!(hashes, vec![100, 200, 300]);
}

#[test]
fn string_region_starts_at_16() {
    let mut bin = MessageBin::default();
    bin.insert(5, 0, "A".to_string());
    let bytes = bin.write(None).unwrap();
    let payload_off = read_u32(&bytes, 4) as usize;
    let table_off = read_u32(&bytes, payload_off + 4) as usize;
    let first_ptr = read_u32(&bytes, table_off) as usize;
    assert_eq!(first_ptr, 16);
    assert_eq!(bytes[16], b'A');
    assert_eq!(bytes[17], 0);
}

#[test]
fn shuffled_record_order_still_decodes() {
    let mut bin = MessageBin::default();
    bin.insert(1, 10, "first".to_string());
    bin.insert(2, 20, "second".to_string());
    let mut bytes = bin.write(None).unwrap();
    let payload_off = read_u32(&bytes, 4) as usize;
    let table_off = read_u32(&bytes, payload_off + 4) as usize;
    for k in 0..12 {
        bytes.swap(table_off + k, table_off + 12 + k);
    }
    let loaded = MessageBin::load_file(&bytes, None).unwrap();
    assert_eq!(loaded.messages().len(), 2);
    assert_eq!(
        loaded.message_by_hash(1),
        Some(&"first".to_string())
    );
    assert_eq!(
        loaded.message_by_hash(2),
        Some(&"second".to_string())
    );
}

#[test]
fn oversized_count_reports_truncation() {
    let mut bin = MessageBin::default();
    bin.insert(1, 0, "a".to_string());
    let mut bytes = bin.write(None).unwrap();
    let payload_off = read_u32(&bytes, 4) as usize;
    bytes[payload_off..payload_off + 4].copy_from_slice(&1000u32.to_le_bytes());
    match MessageBin::load_file(&bytes, None) {
        Err(MessageBinReadError::Truncated) => (),
        x => panic!("{:?}", x),
    }
}

#[test]
fn garbage_is_a_container_error() {
    let data: Vec<u8> = vec![1, 2, 3, 4, 5, 6, 7, 8];
    match MessageBin::load_file(&data, None) {
        Err(MessageBinReadError::Sir0Error(_)) => (),
        x => panic!("{:?}", x),
    }
}

#[test]
fn code_table_roundtrip() {
    let mut table = CodeTable::default();
    table.add_missing();
    let code_to_text = table.generate_code_to_text();
    let text_to_code = table.generate_text_to_code();
    let mut bin = MessageBin::default();
    bin.insert(11, 0, "[rubi:base]Hi".to_string());
    bin.insert(12, 1, "plain".to_string());
    let bytes = bin.write(Some(&text_to_code)).unwrap();
    let loaded = MessageBin::load_file(&bytes, Some(&code_to_text)).unwrap();
    assert_eq!(loaded.messages(), bin.messages());
}

#[test]
fn unknown_placeholder_fails_encode() {
    let table = CodeTable::default();
    let text_to_code = table.generate_text_to_code();
    let mut bin = MessageBin::default();
    bin.insert(1, 0, "[nope]".to_string());
    match bin.write(Some(&text_to_code)) {
        Err(MessageBinWriteError::CantEncodeText(_, t)) => assert_eq!(t, "[nope]"),
        x => panic!("{:?}", x),
    }
}

#[test]
fn lone_surrogate_decodes_to_replacement() {
    let mut bin = MessageBin::default();
    bin.insert(1, 0, "A".to_string());
    let mut bytes = bin.write(None).unwrap();
    bytes[16] = 0x00;
    bytes[17] = 0xD8;
    let loaded = MessageBin::load_file(&bytes, None).unwrap();
    assert_eq!(loaded.message_by_hash(1), Some(&"\u{FFFD}".to_string()));
}

#[test]
fn undecodable_unit_reports_code_table_error() {
    let mut table = CodeTable::default();
    table.add_missing();
    let code_to_text = table.generate_code_to_text();
    let mut bin = MessageBin::default();
    bin.insert(1, 0, "A".to_string());
    let mut bytes = bin.write(None).unwrap();
    bytes[16] = 0x00;
    bytes[17] = 0xD8;
    match MessageBin::load_file(&bytes, Some(&code_to_text)) {
        Err(MessageBinReadError::CantDecodeString(_, t)) => assert_eq!(t, "\u{FFFD}"),
        x => panic!("{:?}", x),
    }
}

#[test]
fn empty_store_writes_with_code_table() {
    let table = CodeTable::default();
    let text_to_code = table.generate_text_to_code();
    let code_to_text = table.generate_code_to_text();
    let bin = MessageBin::default();
    let bytes = bin.write(Some(&text_to_code)).unwrap();
    let loaded = MessageBin::load_file(&bytes, Some(&code_to_text)).unwrap();
    assert_eq!(loaded.messages().len(), 0);
}

#[test]
fn oversized_count_reports_truncation_with_code_table() {
    let table = CodeTable::default();
    let code_to_text = table.generate_code_to_text();
    let mut bin = MessageBin::default();
    bin.insert(1, 0, "a".to_string());
    let mut bytes = bin.write(None).unwrap();
    let payload_off = read_u32(&bytes, 4) as usize;
    bytes[payload_off..payload_off + 4].copy_from_slice(&1000u32.to_le_bytes());
    match MessageBin::load_file(&bytes, Some(&code_to_text)) {
        Err(MessageBinReadError::Truncated) => (),
        x => panic!("{:?}", x),
    }
}
