//! The wire frames: encoding, checking and parsing on concrete bytes.

use kvs::Frame;
use kvs::KvStoreErr;

#[test]
fn put_frame_encodes_with_separators() {
    let frame = Frame::Put("key".to_owned(), "value".to_owned());
    let bytes = frame.to_bytes();
    let mut expected = vec![b'%', 0u8];
    expected.extend_from_slice(b"key");
    expected.push(b'#');
    expected.extend_from_slice(b"value");
    expected.push(b'%');
    assert_eq!(bytes, expected);
}

#[test]
fn null_frame_encodes_to_three_bytes() {
    assert_eq!(Frame::Null.to_bytes(), vec![b'%', 5u8, b'%']);
}

#[test]
fn frames_parse_back() {
    let frames = vec![
        Frame::Put("k".to_owned(), "v".to_owned()),
        Frame::Get("k".to_owned()),
        Frame::Remove("k".to_owned()),
        Frame::Value("out".to_owned()),
        Frame::Error("oops".to_owned()),
        Frame::Null,
    ];
    for frame in frames {
        let bytes = frame.to_bytes();
        let (parsed, end) = Frame::parse(&bytes, 0).unwrap();
        assert_eq!(end, bytes.len());
        match (&frame, &parsed) {
            (Frame::Put(k1, v1), Frame::Put(k2, v2)) => {
                assert_eq!(k1, k2);
                assert_eq!(v1, v2);
            }
            (Frame::Get(k1), Frame::Get(k2)) => assert_eq!(k1, k2),
            (Frame::Remove(k1), Frame::Remove(k2)) => assert_eq!(k1, k2),
            (Frame::Value(v1), Frame::Value(v2)) => assert_eq!(v1, v2),
            (Frame::Error(m1), Frame::Error(m2)) => assert_eq!(m1, m2),
            (Frame::Null, Frame::Null) => {}
            _ => panic!("frame changed shape across the wire"),
        }
    }
}

#[test]
fn check_finds_frame_end() {
    let bytes = Frame::Get("abc".to_owned()).to_bytes();
    let end = Frame::check(&bytes, 0).unwrap();
    assert_eq!(end, bytes.len());
}

#[test]
fn check_rejects_wrong_start() {
    let bytes = vec![b'x', 1u8, b'%'];
    assert!(matches!(Frame::check(&bytes, 0), Err(KvStoreErr::UnexceptErr(_))));
}

#[test]
fn check_reports_incomplete_frame() {
    let bytes = vec![b'%', 1u8, b'a'];
    assert!(matches!(Frame::check(&bytes, 0), Err(KvStoreErr::IncompleteErr)));
    let empty: Vec<u8> = Vec::new();
    assert!(matches!(Frame::check(&empty, 0), Err(KvStoreErr::IncompleteErr)));
}

#[test]
fn parse_rejects_unknown_opcode() {
    let bytes = vec![b'%', 9u8, b'a', b'%'];
    assert!(matches!(Frame::parse(&bytes, 0), Err(KvStoreErr::UnexceptErr(_))));
}

#[test]
fn parse_reports_incomplete_payload() {
    let bytes = vec![b'%', 1u8, b'a'];
    assert!(matches!(Frame::parse(&bytes, 0), Err(KvStoreErr::IncompleteErr)));
}

#[test]
fn parse_rejects_invalid_utf8_payload() {
    let bytes = vec![b'%', 1u8, 0xFF, b'%'];
    assert!(matches!(Frame::parse(&bytes, 0), Err(KvStoreErr::SystemErr(_))));
}

#[test]
fn two_frames_parse_in_sequence() {
    let mut bytes = Frame::Get("one".to_owned()).to_bytes();
    let first_len = bytes.len();
    bytes.extend_from_slice(&Frame::Null.to_bytes());
    let (first, end1) = Frame::parse(&bytes, 0).unwrap();
    assert!(matches!(first, Frame::Get(_)));
    assert_eq!(end1, first_len);
    let (second, end2) = Frame::parse(&bytes, end1).unwrap();
    assert!(matches!(second, Frame::Null));
    assert_eq!(end2, bytes.len());
}
