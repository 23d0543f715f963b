use salamander::error::SalamanderError;
use salamander::log::record::{decode, encode};

fn encode_record(offset: u64, payload: &[u8]) -> Vec<u8> {
    let mut buf = Vec::new();
    encode(offset, payload, &mut buf);
    buf
}

#[test]
fn round_trip_single_record() {
    let buf = encode_record(42, b"hello");
    let (record, consumed) = decode(&buf).unwrap().unwrap();
    assert_eq!(record.offset, 42);
    assert_eq!(record.payload, &b"hello"[..]);
    assert_eq!(consumed, buf.len());
}

#[test]
fn round_trip_empty_payload() {
    let buf = encode_record(7, &[]);
    let (record, consumed) = decode(&buf).unwrap().unwrap();
    assert_eq!(record.offset, 7);
    assert!(record.payload.is_empty());
    assert_eq!(consumed, buf.len());
}

#[test]
fn truncated_record_is_incomplete() {
    let buf = encode_record(1, b"payload");
    for len in 0..buf.len() {
        assert!(decode(&buf[..len]).unwrap().is_none());
    }
}

#[test]
fn corrupted_payload_yields_crc_error() {
    let mut buf = encode_record(9, b"corrupt-me");
    *buf.last_mut().unwrap() ^= 0xff;
    assert!(matches!(decode(&buf), Err(SalamanderError::Corrupt { offset: 9, .. })));
}

#[test]
fn multi_record_buffer_walk() {
    let records: [(u64, &[u8]); 3] = [(0, b"first"), (1, b"second-record"), (2, b"3")];
    let mut buf = Vec::new();
    for (offset, payload) in records {
        encode(offset, payload, &mut buf);
    }
    let mut pos = 0;
    for (offset, payload) in records {
        let (record, consumed) = decode(&buf[pos..]).unwrap().unwrap();
        assert_eq!(record.offset, offset);
        assert_eq!(record.payload, payload);
        pos += consumed;
    }
    assert_eq!(pos, buf.len());
}
