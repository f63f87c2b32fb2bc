//! The record framing and the positioned reader and writer, on concrete
//! bytes.

use kvs::read_hint_entry;
use kvs::read_log_entry;
use kvs::u8_arr_to_u64;
use kvs::BufReaderWithPos;
use kvs::BufWriterWithPos;
use kvs::HintEntry;
use kvs::LogEntry;
use kvs::SerializeToBytes;

#[test]
fn decode_value_reads_utf8_back() {
    assert_eq!(kvs::decode_value(b"plain".to_vec()).unwrap(), "plain".to_owned());
    assert_eq!(
        kvs::decode_value(vec![0xC3, 0xA9]).unwrap(),
        "\u{00e9}".to_owned()
    );
    assert_eq!(kvs::decode_value(Vec::new()).unwrap(), String::new());
}

#[test]
fn decode_value_rejects_bad_bytes() {
    let r = kvs::decode_value(vec![0xFF]);
    assert!(matches!(r, Err(kvs::KvStoreErr::SystemErr(_))));
    let r2 = kvs::decode_value(vec![b'a', 0xC3]);
    assert!(matches!(r2, Err(kvs::KvStoreErr::SystemErr(_))));
}

#[test]
fn big_endian_u64_decodes() {
    assert_eq!(u8_arr_to_u64(&[0, 0, 0, 0, 0, 0, 0, 0]), 0);
    assert_eq!(u8_arr_to_u64(&[0, 0, 0, 0, 0, 0, 0, 9]), 9);
    assert_eq!(u8_arr_to_u64(&[0, 0, 0, 0, 0, 0, 1, 0]), 256);
    assert_eq!(
        u8_arr_to_u64(&[0x01, 0x02, 0x03, 0x04, 0x05, 0x06, 0x07, 0x08]),
        0x0102030405060708
    );
    assert_eq!(u8_arr_to_u64(&[0xFF; 8]), u64::MAX);
}

#[test]
fn log_entry_serializes_to_fixed_framing() {
    let entry = LogEntry {
        k_size: 1,
        v_size: 2,
        key: vec![b'a'],
        value: vec![b'h', b'i'],
    };
    let bytes = entry.serialize();
    assert_eq!(
        bytes,
        vec![0, 0, 0, 0, 0, 0, 0, 1, 0, 0, 0, 0, 0, 0, 0, 2, b'a', b'h', b'i']
    );
}

#[test]
fn hint_entry_serializes_to_fixed_framing() {
    let entry = HintEntry { k_size: 1, v_size: 2, v_pos: 19, key: vec![b'a'] };
    let bytes = entry.serialize();
    assert_eq!(
        bytes,
        vec![
            0, 0, 0, 0, 0, 0, 0, 1, 0, 0, 0, 0, 0, 0, 0, 2, 0, 0, 0, 0, 0, 0, 0, 19, b'a'
        ]
    );
}

#[test]
fn log_record_round_trips_through_reader() {
    let entry = LogEntry {
        k_size: 3,
        v_size: 5,
        key: b"key".to_vec(),
        value: b"value".to_vec(),
    };
    let bytes = entry.serialize();
    let total = bytes.len() as u64;
    let mut reader = BufReaderWithPos::new(bytes);
    let (back, v_pos) = read_log_entry(&mut reader).unwrap();
    assert_eq!(back.k_size, 3);
    assert_eq!(back.v_size, 5);
    assert_eq!(back.key, b"key".to_vec());
    assert_eq!(back.value, b"value".to_vec());
    assert_eq!(v_pos, total);
    // the reader sits at the clean end: nothing more to read
    assert!(read_log_entry(&mut reader).is_none());
    // and what was read re-encodes to the same bytes
    assert_eq!(back.serialize(), {
        let again = LogEntry {
            k_size: 3,
            v_size: 5,
            key: b"key".to_vec(),
            value: b"value".to_vec(),
        };
        again.serialize()
    });
}

#[test]
fn hint_record_round_trips_through_reader() {
    let entry = HintEntry { k_size: 3, v_size: 7, v_pos: 99, key: b"abc".to_vec() };
    let bytes = entry.serialize();
    let mut reader = BufReaderWithPos::new(bytes);
    let back = read_hint_entry(&mut reader).unwrap();
    assert_eq!(back.k_size, 3);
    assert_eq!(back.v_size, 7);
    assert_eq!(back.v_pos, 99);
    assert_eq!(back.key, b"abc".to_vec());
    assert!(read_hint_entry(&mut reader).is_none());
}

#[test]
fn torn_record_is_not_read_and_leaves_position_clean() {
    let entry = LogEntry {
        k_size: 2,
        v_size: 4,
        key: b"kk".to_vec(),
        value: b"vvvv".to_vec(),
    };
    let mut bytes = entry.serialize();
    let whole = bytes.len();
    bytes.truncate(whole - 1);
    let mut reader = BufReaderWithPos::new(bytes);
    assert!(read_log_entry(&mut reader).is_none());
    assert_eq!(reader.pos, 0);
}

#[test]
fn two_records_read_in_order() {
    let first = LogEntry { k_size: 1, v_size: 1, key: vec![b'x'], value: vec![b'1'] };
    let second = LogEntry { k_size: 1, v_size: 1, key: vec![b'x'], value: vec![b'2'] };
    let mut bytes = first.serialize();
    bytes.extend_from_slice(&second.serialize());
    let mut reader = BufReaderWithPos::new(bytes);
    let (a, _) = read_log_entry(&mut reader).unwrap();
    let (b, end) = read_log_entry(&mut reader).unwrap();
    assert_eq!(a.value, vec![b'1']);
    assert_eq!(b.value, vec![b'2']);
    assert_eq!(end, 36);
    assert!(read_log_entry(&mut reader).is_none());
}

#[test]
fn writer_tracks_position_and_flushes_once() {
    let mut writer = BufWriterWithPos::new(10);
    assert_eq!(writer.pos, 10);
    assert_eq!(writer.flushed, 10);
    writer.write(&vec![1, 2, 3]);
    assert_eq!(writer.pos, 13);
    assert_eq!(writer.flushed, 10);
    writer.write(&vec![4]);
    assert_eq!(writer.pos, 14);
    let out = writer.flush();
    assert_eq!(out, vec![1, 2, 3, 4]);
    assert_eq!(writer.flushed, 14);
    assert_eq!(writer.flush(), Vec::<u8>::new());
}

#[test]
fn reader_read_u64_stops_at_short_tail() {
    let mut data = vec![0, 0, 0, 0, 0, 0, 0, 42];
    data.extend_from_slice(&[1, 2, 3]);
    let mut reader = BufReaderWithPos::new(data);
    assert_eq!(reader.read_u64(), Some(42));
    assert_eq!(reader.pos, 8);
    assert_eq!(reader.read_u64(), None);
    assert_eq!(reader.pos, 8);
}
