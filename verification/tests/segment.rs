use salamander::error::SalamanderError;
use salamander::format::envelope::RecordEnvelopeV2;
use salamander::format::ids::{BatchId, EventId};
use salamander::log::record;
use salamander::log::segment::{
    encode_batch, parse_base_offset, parse_batch_control, scan_records, segment_file_name, ScanStop, Segment,
};

fn batch_events(count: usize) -> Vec<(RecordEnvelopeV2, Vec<u8>)> {
    let batch_id = BatchId::from_bytes([9; 16]);
    (0..count)
        .map(|index| {
            let mut envelope = record::raw_test_envelope();
            envelope.batch_id = batch_id;
            envelope.event_id = EventId::from_bytes([index as u8 + 1; 16]);
            envelope.batch_index = index as u32;
            (envelope, vec![index as u8; index + 1])
        })
        .collect()
}

fn append(segment: &mut Segment, payload: &[u8], bytes: &mut Vec<u8>) -> u64 {
    segment.append_enveloped(&record::raw_test_envelope(), payload, bytes).unwrap()
}

fn records(bytes: &[u8], base: u64) -> Vec<(u64, Vec<u8>)> {
    scan_records(bytes, base).unwrap().records.into_iter().map(|r| (r.position, r.payload)).collect()
}

#[test]
fn every_batch_truncation_recovers_none_or_all() {
    let mut complete = Vec::new();
    let mut segment = Segment::create(0);
    assert_eq!(segment.append_batch(&batch_events(3), &mut complete).unwrap(), (0, 2));

    for cut in 0..=complete.len() {
        let scan = scan_records(&complete[..cut], 0).unwrap();
        if cut == complete.len() {
            assert_eq!(scan.next_offset, 3, "full batch at cut {cut}");
            assert_eq!(scan.records.len(), 3);
        } else {
            assert_eq!(scan.next_offset, 0, "partial batch at cut {cut}");
            assert!(scan.records.is_empty(), "partial batch leaked at cut {cut}");
            assert_eq!(scan.valid_bytes, 0, "partial batch boundary at cut {cut}");
        }
    }
}

#[test]
fn create_then_reopen_empty_segment() {
    let seg = Segment::create(5);
    assert_eq!(seg.base_offset, 5);
    assert_eq!(seg.next_offset, 5);
    assert_eq!(seg.len_bytes, 0);

    let (reopened, stop) = Segment::recover(&[], 5).unwrap();
    assert_eq!(reopened.base_offset, 5);
    assert_eq!(reopened.next_offset, 5);
    assert_eq!(records(&[], 5).len(), 0);
    assert_eq!(stop, ScanStop::CleanEof);
}

#[test]
fn append_and_reopen_round_trip() {
    let mut bytes = Vec::new();
    let mut seg = Segment::create(0);
    append(&mut seg, b"a", &mut bytes);
    append(&mut seg, b"bb", &mut bytes);
    append(&mut seg, b"ccc", &mut bytes);

    let (mut reopened, _) = Segment::recover(&bytes, 0).unwrap();
    assert_eq!(records(&bytes, 0), vec![(0, b"a".to_vec()), (1, b"bb".to_vec()), (2, b"ccc".to_vec())]);
    assert_eq!(reopened.next_offset, 3);

    let offset = append(&mut reopened, b"ddd", &mut bytes);
    assert_eq!(offset, 3);
    assert_eq!(records(&bytes, 0).len(), 4);
}

#[test]
fn iter_reflects_appends_without_explicit_sync() {
    let mut bytes = Vec::new();
    let mut seg = Segment::create(0);
    append(&mut seg, b"no-sync-yet", &mut bytes);
    assert_eq!(records(&bytes, 0), vec![(0, b"no-sync-yet".to_vec())]);
}

#[test]
fn truncated_tail_record_is_dropped_on_open() {
    let mut bytes = Vec::new();
    let mut seg = Segment::create(0);
    append(&mut seg, b"first", &mut bytes);
    append(&mut seg, b"second", &mut bytes);
    let valid_len = seg.len_bytes;
    append(&mut seg, b"a third record long enough to survive a mid-payload cut", &mut bytes);

    let cut_len = valid_len as usize + 5;
    assert!(cut_len < bytes.len(), "test record too short to exercise this cut");
    bytes.truncate(cut_len);

    let (mut reopened, stop) = Segment::recover(&bytes, 0).unwrap();
    assert_eq!(stop, ScanStop::TornTail);
    bytes.truncate(reopened.len_bytes as usize);
    assert_eq!(records(&bytes, 0), vec![(0, b"first".to_vec()), (1, b"second".to_vec())]);
    assert_eq!(reopened.next_offset, 2);
    assert_eq!(reopened.len_bytes, valid_len);

    let offset = append(&mut reopened, b"recovered-third", &mut bytes);
    assert_eq!(offset, 2);
    assert_eq!(records(&bytes, 0)[2], (2, b"recovered-third".to_vec()));
}

#[test]
fn flipped_bit_in_last_record_is_dropped_on_open() {
    let mut bytes = Vec::new();
    let mut seg = Segment::create(0);
    append(&mut seg, b"first", &mut bytes);
    let valid_len = seg.len_bytes;
    append(&mut seg, b"corrupt-me", &mut bytes);

    let last = bytes.len() - 1;
    bytes[last] ^= 0xFF;

    let (mut reopened, stop) = Segment::recover(&bytes, 0).unwrap();
    assert_eq!(stop, ScanStop::CrcError);
    bytes.truncate(reopened.len_bytes as usize);
    assert_eq!(records(&bytes, 0), vec![(0, b"first".to_vec())]);
    assert_eq!(reopened.next_offset, 1);
    assert_eq!(reopened.len_bytes, valid_len);

    let offset = append(&mut reopened, b"recovered-second", &mut bytes);
    assert_eq!(offset, 1);
}

#[test]
fn offset_mismatch_is_treated_as_corruption() {
    let mut buf = Vec::new();
    record::encode(0, b"first", &mut buf);
    let valid_len = buf.len() as u64;
    record::encode(2, b"skipped-one", &mut buf);

    let (reopened, stop) = Segment::recover(&buf, 0).unwrap();
    assert_eq!(stop, ScanStop::OffsetMismatch);
    buf.truncate(reopened.len_bytes as usize);
    assert_eq!(records(&buf, 0), vec![(0, b"first".to_vec())]);
    assert_eq!(reopened.next_offset, 1);
    assert_eq!(reopened.len_bytes, valid_len);
}

#[test]
fn segment_filename_zero_padded_to_twenty_digits() {
    assert_eq!(segment_file_name(104857), "00000000000000104857.seg");
}

#[test]
fn open_rejects_non_numeric_filename() {
    assert!(matches!(
        parse_base_offset("not-a-number", "dir/not-a-number.seg"),
        Err(SalamanderError::InvalidSegmentName(_))
    ));
}

#[test]
fn scan_reads_all_records_without_write_access() {
    let mut bytes = Vec::new();
    let mut seg = Segment::create(0);
    append(&mut seg, b"a", &mut bytes);
    append(&mut seg, b"bb", &mut bytes);
    let shared: &[u8] = &bytes;
    assert_eq!(records(shared, 0), vec![(0, b"a".to_vec()), (1, b"bb".to_vec())]);
}

#[test]
fn scan_returns_valid_prefix_without_mutating_a_corrupt_tail() {
    let mut bytes = Vec::new();
    let mut seg = Segment::create(0);
    append(&mut seg, b"first", &mut bytes);
    let valid_len = seg.len_bytes;
    append(&mut seg, b"corrupt-me", &mut bytes);
    let last = bytes.len() - 1;
    bytes[last] ^= 0xFF;
    let full_len = bytes.len() as u64;

    assert_eq!(records(&bytes, 0), vec![(0, b"first".to_vec())]);
    assert_eq!(bytes.len() as u64, full_len);
    assert_ne!(valid_len, full_len);
}

#[test]
fn names_of_segments_are_read_back() {
    for base in [0u64, 7, 104857, u64::MAX] {
        let name = segment_file_name(base);
        assert_eq!(parse_base_offset(name.strip_suffix(".seg").unwrap(), "p").unwrap(), base);
    }
}

#[test]
fn system_frames_take_no_position() {
    let mut bytes = Vec::new();
    let mut seg = Segment::create(3);
    append(&mut seg, b"a", &mut bytes);
    seg.append_system(&record::raw_test_envelope(), b"s", &mut bytes).unwrap();
    append(&mut seg, b"b", &mut bytes);
    let scan = scan_records(&bytes, 3).unwrap();
    assert_eq!(scan.next_offset, 5);
    assert_eq!(scan.records.len(), 2);
    assert_eq!(scan.system_records.len(), 1);
    assert_eq!(scan.system_records[0].payload, b"s");
}

#[test]
fn a_batch_says_how_many_events_it_has() {
    let bytes = encode_batch(4, &batch_events(2)).unwrap();
    let (begin, _) = record::decode_owned(&bytes).unwrap().unwrap();
    let (count, digest) = parse_batch_control(&begin.payload).unwrap();
    assert_eq!(count, 2);
    let mut events = Vec::new();
    for (i, (envelope, payload)) in batch_events(2).iter().enumerate() {
        record::encode_enveloped(4 + i as u64, envelope, payload, &mut events).unwrap();
    }
    assert_eq!(digest, crc32c::crc32c(&events));
    assert!(parse_batch_control(&begin.payload[1..]).is_err());
}

#[test]
fn an_empty_batch_is_refused() {
    let mut out = Vec::new();
    let mut seg = Segment::create(0);
    assert!(seg.append_batch(&Vec::new(), &mut out).is_err());
    assert!(out.is_empty());
    assert_eq!(seg.next_offset, 0);
}

#[test]
fn a_tail_that_is_no_frame_is_dropped_on_open() {
    let mut bytes = Vec::new();
    let mut seg = Segment::create(0);
    append(&mut seg, b"first", &mut bytes);
    let whole = bytes.clone();
    for tail in [vec![0u8; 64], vec![0xFFu8; 40], b"not a frame, but long enough to be read as one".to_vec()] {
        let mut cut = whole.clone();
        cut.extend_from_slice(&tail);
        let (reopened, stop) = Segment::recover(&cut, 0).unwrap();
        assert_eq!(stop, ScanStop::InvalidFrame);
        assert_eq!(stop.reason(), "invalid frame");
        assert_eq!((reopened.base_offset, reopened.next_offset), (0, 1));
        assert_eq!(reopened.len_bytes, whole.len() as u64);
        assert_eq!(records(&cut, 0), vec![(0, b"first".to_vec())]);
    }
}
