use salamander::error::SalamanderError;
use salamander::format::ids::StreamId;
use salamander::log::index::{PostingEntry, Sidecar};

fn sample() -> Sidecar {
    Sidecar {
        base: 100,
        end: 240,
        min_ts: -5,
        max_ts: 1_000,
        system_frames: 2,
        seek_points: vec![(100, 0), (150, 70_000), (200, 140_000)],
        postings: vec![
            PostingEntry { stream: StreamId::from_bytes([1; 16]), first: 100, last: 199, count: 90 },
            PostingEntry { stream: StreamId::from_bytes([2; 16]), first: 105, last: 239, count: 50 },
        ],
    }
}

#[test]
fn encode_decode_round_trip() {
    let sidecar = sample();
    assert_eq!(Sidecar::decode(&sidecar.encode()).unwrap(), sidecar);
}

#[test]
fn every_single_bit_flip_is_rejected() {
    let bytes = sample().encode();
    for i in 0..bytes.len() {
        let mut mutated = bytes.clone();
        mutated[i] ^= 0x01;
        assert!(Sidecar::decode(&mutated).is_err(), "bit flip at byte {i} was accepted");
    }
}

#[test]
fn truncation_is_rejected() {
    let bytes = sample().encode();
    for len in 0..bytes.len() {
        assert!(Sidecar::decode(&bytes[..len]).is_err());
    }
}

#[test]
fn seek_point_before_picks_greatest_at_or_below() {
    let sidecar = sample();
    assert_eq!(sidecar.seek_point_before(99), None);
    assert_eq!(sidecar.seek_point_before(100), Some((100, 0)));
    assert_eq!(sidecar.seek_point_before(149), Some((100, 0)));
    assert_eq!(sidecar.seek_point_before(150), Some((150, 70_000)));
    assert_eq!(sidecar.seek_point_before(10_000), Some((200, 140_000)));
}

#[test]
fn time_disjoint_is_conservative_for_empty_segments() {
    let mut sidecar = sample();
    assert!(sidecar.time_disjoint(&(2_000..3_000)));
    assert!(sidecar.time_disjoint(&(i64::MIN..-5)));
    assert!(!sidecar.time_disjoint(&(1_000..1_001)));
    assert!(!sidecar.time_disjoint(&(500..600)));
    sidecar.min_ts = i64::MAX;
    sidecar.max_ts = i64::MIN;
    assert!(!sidecar.time_disjoint(&(2_000..3_000)));
}

#[test]
fn a_sidecar_of_another_segment_is_not_accepted() {
    let bytes = sample().encode();
    assert!(Sidecar::accept(&bytes, 100, 240).is_some());
    assert!(Sidecar::accept(&bytes, 100, 241).is_none());
    assert!(Sidecar::accept(&bytes, 99, 240).is_none());
}

#[test]
fn a_nonzero_reserved_field_is_rejected() {
    let mut bytes = sample().encode();
    let split = bytes.len() - 4;
    bytes[6] = 1;
    let crc = crc32c::crc32c(&bytes[..split]).to_le_bytes();
    bytes[split..].copy_from_slice(&crc);
    let error = Sidecar::decode(&bytes).unwrap_err();
    assert_eq!(error.message(), SalamanderError::InvalidFormat("sidecar: nonzero reserved field".into()).message());
}

#[test]
fn every_change_of_a_byte_is_rejected() {
    let bytes = sample().encode();
    for i in 0..bytes.len() {
        for bit in 0..8 {
            let mut mutated = bytes.clone();
            mutated[i] ^= 1 << bit;
            assert!(Sidecar::decode(&mutated).is_err(), "bit {bit} of byte {i} was accepted flipped");
        }
    }
    let read = Sidecar::decode(&bytes).unwrap();
    assert_eq!(read.encode(), bytes);
    assert_eq!(bytes.len(), 60 + 16 * 3 + 40 * 2);
}
