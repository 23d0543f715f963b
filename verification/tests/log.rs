use salamander::error::SalamanderError;
use salamander::format::envelope::{FormatLimits, RecordEnvelopeV2};
use salamander::format::frame::{decode, FrameKind, OwnedStoredRecord};
use salamander::format::ids::{BatchId, EventType, StreamId};
use salamander::log::index::Sidecar;
use salamander::log::reader::{segment_entry, Advance, SegmentCursor, Walk};
use salamander::log::record;
use salamander::log::replay::read_segment;
use salamander::log::segment::{segment_file_name, ScanStop, Segment};
use salamander::log::select::{FrameFilter, ResolvedFilter, StreamSelector, VerificationMode};
use salamander::log::sidecar::build_sidecar;
use salamander::log::store::{
    bootstrap_manifest, choose_sidecar, discover_segments, settle_refused, DiscoveredSegment, Log, Manifest, Removal, SegmentFile,
    DEFAULT_SEGMENT_MAX_BYTES, MANIFEST_FORMAT_VERSION, PAYLOAD_FORMAT_VERSION, STORAGE_FORMAT_VERSION,
};
use std::collections::BTreeMap;

type Outcome<T> = Result<T, SalamanderError>;

/// A directory, held in memory.
#[derive(Default, Clone)]
struct Disk {
    manifest: Option<Manifest>,
    segments: BTreeMap<String, Vec<u8>>,
    sidecars: BTreeMap<u64, Vec<u8>>,
}

struct Opened {
    log: Log,
    disk: Disk,
}

fn stem(base: u64) -> String {
    segment_file_name(base).strip_suffix(".seg").unwrap().to_string()
}

impl Disk {
    fn open(mut self, max: u64) -> Outcome<Opened> {
        let files = |disk: &Disk| -> Vec<SegmentFile> {
            disk.segments
                .iter()
                .map(|(stem, bytes)| SegmentFile {
                    stem: stem.clone(),
                    len: bytes.len() as u64,
                    path: format!("log/{stem}.seg"),
                })
                .collect()
        };
        let manifest = match self.manifest {
            Some(manifest) => manifest,
            None => bootstrap_manifest(&discover_segments(&files(&self)), [7; 16])?,
        };
        if self.manifest.is_none() {
            self.segments.entry(stem(manifest.active_segment_base)).or_default();
        }
        let found = discover_segments(&files(&self));
        let active = self.segments.get(&stem(manifest.active_segment_base)).cloned().unwrap_or_default();
        let opened = Log::open(manifest, &found, &active, max)?;
        for path in &opened.orphans {
            let stem = path.strip_prefix("log/").unwrap().strip_suffix(".seg").unwrap();
            self.segments.remove(stem);
        }
        let active = opened.log.active();
        self.segments.get_mut(&stem(active.base_offset)).unwrap().truncate(active.len_bytes as usize);
        self.manifest = Some(opened.log.manifest());
        Ok(Opened { log: opened.log, disk: self })
    }
}

impl Opened {
    fn fresh() -> Opened {
        Disk::default().open(DEFAULT_SEGMENT_MAX_BYTES).unwrap()
    }

    fn fresh_with(max: u64) -> Opened {
        Disk::default().open(max).unwrap()
    }

    fn reopen(self) -> Opened {
        self.disk.open(DEFAULT_SEGMENT_MAX_BYTES).unwrap()
    }

    fn write(&mut self, out: Vec<u8>) {
        let base = self.log.active().base_offset;
        self.disk.segments.get_mut(&stem(base)).unwrap().extend_from_slice(&out);
    }

    fn roll_if_full(&mut self) {
        if self.log.needs_roll() {
            let full = self.log.active().base_offset;
            self.log.roll(format!("log/{}", segment_file_name(full)));
            let bytes = &self.disk.segments[&stem(full)];
            self.disk.sidecars.insert(full, build_sidecar(bytes, full).unwrap().encode());
            self.disk.segments.insert(stem(self.log.active().base_offset), Vec::new());
            self.disk.manifest = Some(self.log.manifest());
        }
    }

    fn append_enveloped(&mut self, envelope: &RecordEnvelopeV2, payload: &[u8]) -> u64 {
        self.roll_if_full();
        let mut out = Vec::new();
        let offset = self.log.append_enveloped(envelope, payload, &mut out).unwrap();
        self.write(out);
        offset
    }

    fn append(&mut self, payload: &[u8]) -> u64 {
        self.append_enveloped(&record::raw_test_envelope(), payload)
    }

    fn append_system(&mut self, envelope: &RecordEnvelopeV2, payload: &[u8]) {
        self.roll_if_full();
        let mut out = Vec::new();
        self.log.append_system(envelope, payload, &mut out).unwrap();
        self.write(out);
    }

    fn append_batch(&mut self, events: &Vec<(RecordEnvelopeV2, Vec<u8>)>) {
        self.roll_if_full();
        let mut out = Vec::new();
        self.log.append_batch(events, &mut out).unwrap();
        self.write(out);
    }

    fn sidecar(&self, base: u64, end: u64) -> Option<Sidecar> {
        let stored = self.disk.sidecars.get(&base).map(|bytes| bytes.as_slice());
        choose_sidecar(stored, &self.disk.segments[&stem(base)], base, end).map(|(sidecar, _)| sidecar)
    }

    fn read(&self, filter: &ResolvedFilter) -> Outcome<(Vec<OwnedStoredRecord>, u64)> {
        let mut walk = Walk::new(filter.from);
        let mut out = Vec::new();
        for planned in self.log.plan_reader(filter) {
            let bytes = &self.disk.segments[&stem(planned.base)];
            let closed = planned.index.is_some();
            let sidecar = if closed { self.sidecar(planned.base, planned.end) } else { None };
            if let Some((position, byte)) = segment_entry(filter, planned.base, sidecar.as_ref()) {
                walk.enter(position);
                out.extend(read_segment(bytes, byte as usize, &mut walk, filter, closed, planned.end)?);
            }
            if walk.is_finished() {
                break;
            }
        }
        if !walk.is_finished() {
            walk.exhausted(filter, self.log.head());
        }
        Ok((out, walk.continuation()))
    }

    fn payloads_from(&self, offset: u64) -> Vec<(u64, Vec<u8>)> {
        let filter = user_filter(offset, self.log.head());
        self.read(&filter).unwrap().0.into_iter().map(|r| (r.position, r.payload)).collect()
    }

    fn positions(&self, filter: &ResolvedFilter) -> Outcome<Vec<u64>> {
        Ok(self.read(filter)?.0.iter().map(|r| r.position).collect())
    }
}

fn user_filter(from: u64, until: u64) -> ResolvedFilter {
    ResolvedFilter::raw(from, until, FrameFilter::UserEvents)
}

fn env_for(stream_byte: u8, ts: i64) -> RecordEnvelopeV2 {
    let mut envelope = record::raw_test_envelope();
    envelope.stream_id = StreamId::from_bytes([stream_byte; 16]);
    envelope.timestamp_unix_nanos = ts;
    envelope
}

fn record_size() -> u64 {
    let mut buf = Vec::new();
    record::encode_kind(FrameKind::Event, 0, &env_for(0, 0), &[0], &mut buf).unwrap();
    buf.len() as u64
}

fn build_log(per_segment: usize, streams: &[u8]) -> Opened {
    let mut log = Opened::fresh_with(per_segment as u64 * record_size());
    for (i, stream) in streams.iter().enumerate() {
        log.append_enveloped(&env_for(*stream, 10 * i as i64), &[*stream]);
    }
    log
}

#[test]
fn fresh_open_creates_segment_zero_and_manifest() {
    let opened = Opened::fresh();
    assert_eq!(opened.log.head(), 0);
    assert!(opened.disk.manifest.is_some());
    assert!(opened.disk.segments.contains_key("00000000000000000000"));
}

#[test]
fn append_commit_reopen_round_trip() {
    let mut log = Opened::fresh();
    log.append(b"a");
    log.append(b"bb");
    log.append(b"ccc");

    let log = log.reopen();
    assert_eq!(log.log.head(), 3);
    assert_eq!(log.payloads_from(0), vec![(0, b"a".to_vec()), (1, b"bb".to_vec()), (2, b"ccc".to_vec())]);
}

#[test]
fn records_from_skips_earlier_offsets() {
    let mut log = Opened::fresh();
    for i in 0..5u8 {
        log.append(&[i]);
    }
    assert_eq!(log.payloads_from(3), vec![(3, vec![3]), (4, vec![4])]);
}

fn rolled() -> Opened {
    let mut log = Opened::fresh_with(64);
    for i in 0..20u32 {
        log.append(format!("record-{i:03}").as_bytes());
    }
    log
}

#[test]
fn segment_rolls_when_max_bytes_exceeded() {
    let log = rolled();
    assert!(log.log.closed_len() > 0, "expected at least one segment roll");
    let records = log.payloads_from(0);
    assert_eq!(records.len(), 20);
    for (i, (offset, payload)) in records.iter().enumerate() {
        assert_eq!(*offset, i as u64);
        assert_eq!(payload, &format!("record-{i:03}").into_bytes());
    }
}

#[test]
fn reopen_after_roll_recovers_closed_and_active_segments() {
    let log = rolled().reopen();
    assert!(log.log.closed_len() > 0);
    assert_eq!(log.log.head(), 20);
    assert_eq!(log.payloads_from(0).len(), 20);
}

#[test]
fn reopen_after_roll_without_commit_keeps_pre_roll_records() {
    let log = rolled();
    assert!(log.log.closed_len() > 0, "expected at least one segment roll");
    let log = log.reopen();
    let records = log.payloads_from(0);
    assert_eq!(records.len(), 20);
    for (i, (offset, payload)) in records.iter().enumerate() {
        assert_eq!(*offset, i as u64);
        assert_eq!(payload, &format!("record-{i:03}").into_bytes());
    }
}

#[test]
fn crashed_bootstrap_adopts_orphaned_segment_zero_on_reopen() {
    let mut disk = Disk::default();
    disk.segments.insert(stem(Segment::create(0).base_offset), Vec::new());
    assert!(disk.manifest.is_none());

    let opened = disk.open(DEFAULT_SEGMENT_MAX_BYTES).unwrap();
    assert_eq!(opened.log.head(), 0);
    assert!(opened.disk.manifest.is_some());
}

#[test]
fn a_bootstrap_adopts_one_segment_and_refuses_two() {
    let mut disk = Disk::default();
    disk.segments.insert(stem(3), Vec::new());
    let manifest = disk.clone().open(DEFAULT_SEGMENT_MAX_BYTES).unwrap().log.manifest();
    assert_eq!((manifest.active_segment_base, manifest.next_offset, manifest.database_id), (3, 3, [7; 16]));
    disk.segments.insert(stem(0), Vec::new());
    assert!(matches!(disk.open(DEFAULT_SEGMENT_MAX_BYTES), Err(SalamanderError::Manifest(_))));
}

#[test]
fn crashed_roll_deletes_orphaned_empty_segment_on_reopen() {
    let mut log = Opened::fresh();
    log.append(b"first");

    log.disk.segments.insert(stem(1), Vec::new());
    let log = log.reopen();
    assert_eq!(log.log.head(), 1);
    assert!(!log.disk.segments.contains_key(&stem(1)), "orphaned empty segment should be deleted");
    assert_eq!(log.payloads_from(0), vec![(0, b"first".to_vec())]);
}

#[test]
fn an_orphaned_segment_with_bytes_is_not_deleted() {
    let mut log = Opened::fresh();
    log.append(b"first");
    log.disk.segments.insert(stem(1), vec![0]);
    let Err(error) = log.disk.open(DEFAULT_SEGMENT_MAX_BYTES) else { panic!("opened") };
    assert_eq!(
        error.message(),
        SalamanderError::Manifest(format!(
            "orphaned segment {:?} beyond the active one is non-empty (1 bytes) \u{2014} refusing to delete",
            format!("log/{}.seg", stem(1))
        ))
        .message()
    );
}

#[test]
fn a_refused_log_is_settled_up_to_the_orphan_that_refuses_it() {
    let mut log = Opened::fresh();
    log.append(b"first");
    let whole = log.log.active().len_bytes;
    let manifest = log.log.manifest();
    let mut active = log.disk.segments[&stem(0)].clone();
    active.extend_from_slice(&[1, 2, 3]);
    let found: Vec<DiscoveredSegment> = [(0, 9), (1, 0), (2, 5), (3, 0)]
        .into_iter()
        .map(|(base, len)| DiscoveredSegment { base, len, path: format!("log/{base}") })
        .collect();
    assert!(Log::open(manifest, &found, &active, DEFAULT_SEGMENT_MAX_BYTES).is_err());
    let todo = settle_refused(manifest, &found, &active).unwrap();
    assert_eq!(todo.cut, Some((whole, ScanStop::TornTail)));
    assert_eq!(todo.orphans, vec!["log/1".to_string()]);
    let mut other = manifest;
    other.storage_format_version += 1;
    assert!(settle_refused(other, &found, &active).is_none());
    assert_eq!(settle_refused(manifest, &Vec::new(), &[]).unwrap().cut, None);
}

#[test]
fn system_records_are_read_in_order_over_segments() {
    let mut log = Opened::fresh_with(300);
    let mut envelope = env_for(0, 0);
    envelope.event_type = EventType::new("salamander.branch.created").unwrap();
    let mut wanted = Vec::new();
    for i in 0..12u8 {
        log.append_enveloped(&env_for(i % 2, 0), &[i]);
        if i % 3 == 0 {
            log.append_system(&envelope, &[i]);
            wanted.push((u64::from(i) + 1, vec![i]));
        }
    }
    assert!(log.log.closed_len() > 2);
    let mut filter = ResolvedFilter::raw(0, u64::MAX, FrameFilter::SystemOnly);
    let read = |filter: &ResolvedFilter| -> Vec<(u64, Vec<u8>)> {
        log.read(filter).unwrap().0.into_iter().map(|record| (record.position, record.payload)).collect()
    };
    assert_eq!(read(&filter), wanted);
    filter.max_events = Some(2);
    assert_eq!(read(&filter), wanted[..2]);
}

#[test]
fn fresh_manifest_declares_current_versions() {
    let manifest = Opened::fresh().log.manifest();
    assert_eq!(manifest.format_version, MANIFEST_FORMAT_VERSION);
    assert_eq!(manifest.payload_format_version, PAYLOAD_FORMAT_VERSION);
}

#[test]
fn an_early_manifest_with_the_first_payload_version_is_adopted() {
    let mut log = Opened::fresh();
    log.append(b"a");
    let manifest = log.disk.manifest.as_mut().unwrap();
    manifest.format_version = 1;
    manifest.payload_format_version = 1;
    let log = log.reopen();
    assert_eq!(log.log.head(), 1);
    assert_eq!(log.log.manifest().payload_format_version, 1);
    assert_eq!(log.payloads_from(0), vec![(0, b"a".to_vec())]);
}

#[test]
fn manifest_with_unknown_payload_version_is_rejected() {
    let mut log = Opened::fresh();
    log.append(b"a");
    log.disk.manifest.as_mut().unwrap().payload_format_version = 99;
    assert!(matches!(
        log.disk.open(DEFAULT_SEGMENT_MAX_BYTES),
        Err(SalamanderError::UnsupportedFormat { found: 99, supported: 1 })
    ));
}

#[test]
fn an_unknown_storage_version_is_rejected_first() {
    let mut log = Opened::fresh();
    let manifest = log.disk.manifest.as_mut().unwrap();
    manifest.payload_format_version = 99;
    manifest.storage_format_version = 1;
    assert!(matches!(
        log.disk.open(DEFAULT_SEGMENT_MAX_BYTES),
        Err(SalamanderError::UnsupportedStorageFormat { found: 1, supported: STORAGE_FORMAT_VERSION })
    ));
}

#[test]
fn seek_at_every_boundary_matches_the_position_window() {
    let streams: Vec<u8> = (0..20).map(|i| i % 3).collect();
    let log = build_log(5, &streams);
    assert!(log.log.closed_len() >= 2, "need multiple segments");
    let head = log.log.head();
    for from in 0..=head + 3 {
        for until in 0..=head + 3 {
            let got = log.positions(&user_filter(from, until.min(head))).unwrap();
            let want: Vec<u64> = (from..until.min(head)).collect();
            assert_eq!(got, want, "window {from}..{until}");
        }
    }
}

#[test]
fn stream_and_time_and_max_filters_select_exactly() {
    let streams: Vec<u8> = (0..18).map(|i| i % 3).collect();
    let log = build_log(6, &streams);
    let head = log.log.head();

    let mut filter = user_filter(0, head);
    filter.selector = StreamSelector::Streams(vec![StreamId::from_bytes([1; 16])]);
    let want: Vec<u64> = (0..18).filter(|p| p % 3 == 1).collect();
    assert_eq!(log.positions(&filter).unwrap(), want);

    let mut filter = user_filter(0, head);
    filter.time = Some(30..90);
    assert_eq!(log.positions(&filter).unwrap(), vec![3, 4, 5, 6, 7, 8]);

    let mut filter = user_filter(4, head);
    filter.max_events = Some(3);
    let (got, continuation) = log.read(&filter).unwrap();
    assert_eq!(got.iter().map(|r| r.position).collect::<Vec<_>>(), vec![4, 5, 6]);
    assert_eq!(continuation, 7);
}

#[test]
fn continuation_pages_have_no_gaps_or_duplicates() {
    let streams: Vec<u8> = (0..23).map(|_| 0).collect();
    let log = build_log(4, &streams);
    let mut collected = Vec::new();
    let mut from = 0;
    loop {
        let mut filter = user_filter(from, log.log.head());
        filter.max_events = Some(4);
        let (page, continuation) = log.read(&filter).unwrap();
        if page.is_empty() {
            break;
        }
        collected.extend(page.iter().map(|r| r.position));
        from = continuation;
    }
    assert_eq!(collected, (0..23).collect::<Vec<u64>>());
}

#[test]
fn selective_read_skips_a_corrupt_unselected_segment_without_payload_io() {
    let mut log = build_log(1, &[7, 1, 1]);
    assert_eq!(log.log.closed_len(), 2);
    let bytes = log.disk.segments.get_mut(&stem(0)).unwrap();
    let last = bytes.len() - 1;
    bytes[last] ^= 0xFF;

    let mut filter = user_filter(0, log.log.head());
    filter.selector = StreamSelector::Streams(vec![StreamId::from_bytes([1; 16])]);
    assert_eq!(log.positions(&filter).unwrap(), vec![1, 2]);

    let error = log.positions(&user_filter(0, log.log.head())).unwrap_err();
    assert!(matches!(error, SalamanderError::Corrupt { offset: 0, .. }));
}

#[test]
fn missing_or_corrupt_sidecars_change_io_only_never_answers() {
    let streams: Vec<u8> = (0..12).map(|i| i % 2).collect();
    let mut log = build_log(3, &streams);
    let mut filter = user_filter(2, log.log.head());
    filter.selector = StreamSelector::Streams(vec![StreamId::from_bytes([0; 16])]);
    let want = log.positions(&filter).unwrap();

    let bases: Vec<u64> = log.disk.sidecars.keys().copied().collect();
    assert!(bases.len() >= 2, "expected sidecars from rolls");
    log.disk.sidecars.get_mut(&bases[0]).unwrap()[10] ^= 0xFF;
    log.disk.sidecars.remove(&bases[1]);

    let log = log.reopen();
    assert_eq!(log.positions(&filter).unwrap(), want);
}

#[test]
fn reader_buffer_stays_bounded_across_many_records() {
    let streams: Vec<u8> = (0..600u32).map(|i| (i % 4) as u8).collect();
    let log = build_log(100, &streams);
    let filter = user_filter(0, log.log.head());
    let mut walk = Walk::new(filter.from);
    let mut count = 0u64;
    let mut largest = 0usize;
    for planned in log.log.plan_reader(&filter) {
        let bytes = &log.disk.segments[&stem(planned.base)];
        let mut at = 0usize;
        let mut cursor = SegmentCursor::new();
        walk.enter(planned.base);
        loop {
            let step = match walk
                .advance(&filter, cursor.available(), cursor.is_at_end(), planned.index.is_some(), planned.end)
                .unwrap()
            {
                Advance::Need(need) => Err(need),
                Advance::SegmentEnd | Advance::Finished => break,
                Advance::Skipped(used) => Ok(used),
                Advance::Matched(_, used) => {
                    count += 1;
                    Ok(used)
                }
            };
            match step {
                Ok(used) => cursor.consume(used),
                Err(need) => {
                    let end = (at + cursor.wanted(need)).min(bytes.len());
                    cursor.supply(&bytes[at..end]);
                    at = end;
                    largest = largest.max(cursor.available().len());
                }
            }
        }
    }
    assert_eq!(count, 600);
    assert!(largest <= 3 * 128 * 1024, "buffer grew to {} bytes", largest);
}

#[test]
fn batch_digest_mode_detects_a_swapped_event_frame() {
    let mut log = Opened::fresh();
    let batch: Vec<(RecordEnvelopeV2, Vec<u8>)> = (0..2)
        .map(|i| {
            let mut envelope = env_for(1, 0);
            envelope.batch_id = BatchId::from_bytes([9; 16]);
            envelope.batch_index = i;
            (envelope, vec![i as u8; 8])
        })
        .collect();
    log.append_batch(&batch);

    let bytes = log.disk.segments[&stem(0)].clone();
    let limits = FormatLimits::default();
    let mut out = Vec::new();
    let mut at = 0;
    while let Some((frame, consumed)) = decode(&bytes[at..], limits).unwrap() {
        if frame.kind == FrameKind::Event && frame.envelope.batch_index == 1 {
            record::encode_kind(FrameKind::Event, frame.position, &frame.envelope, b"tampered", &mut out).unwrap();
        } else {
            out.extend_from_slice(&bytes[at..at + consumed]);
        }
        at += consumed;
    }
    log.disk.segments.insert(stem(0), out);

    assert_eq!(log.positions(&user_filter(0, log.log.head())).unwrap(), vec![0, 1]);

    let mut filter = user_filter(0, log.log.head());
    filter.verification = VerificationMode::BatchDigests;
    let error = log.positions(&filter).unwrap_err();
    assert!(matches!(error, SalamanderError::Corrupt { .. }));
}

#[test]
fn system_reader_skips_segments_without_system_frames() {
    let mut log = Opened::fresh_with(200);
    let mut system_env = env_for(0, 0);
    system_env.event_type = EventType::new("salamander.branch.created").unwrap();
    log.append_system(&system_env, b"{}");
    for i in 0..6u8 {
        log.append_enveloped(&env_for(i % 2, 0), &[i]);
    }
    log.append_system(&system_env, b"{}");

    let filter = ResolvedFilter::raw(0, log.log.head(), FrameFilter::SystemOnly);
    let (system, _) = log.read(&filter).unwrap();
    assert_eq!(system.len(), 2);
    assert!(system.iter().all(|record| record.kind == FrameKind::System));

    let with_system = (0..log.log.closed_len())
        .filter_map(|i| {
            let end = if i + 1 < log.log.closed_len() {
                log.log.closed_at(i + 1).base_offset
            } else {
                log.log.active().base_offset
            };
            log.sidecar(log.log.closed_at(i).base_offset, end)
        })
        .filter(|sidecar| sidecar.system_frames > 0)
        .count();
    assert!(with_system >= 1);
}

#[test]
fn built_sidecar_matches_segment_contents() {
    let streams: Vec<u8> = (0..10).map(|i| i % 2).collect();
    let log = build_log(5, &streams);
    let base = log.log.closed_at(0).base_offset;
    let expected_end =
        if log.log.closed_len() > 1 { log.log.closed_at(1).base_offset } else { log.log.active().base_offset };
    let sidecar = build_sidecar(&log.disk.segments[&stem(base)], base).unwrap();
    assert_eq!(sidecar.base, 0);
    assert_eq!(sidecar.end, expected_end);
    assert_eq!(sidecar.postings.len(), if expected_end >= 2 { 2 } else { 1 });
    let total: u64 = sidecar.postings.iter().map(|p| p.count).sum();
    assert_eq!(total, expected_end);
    assert_eq!(sidecar.seek_points.first(), Some(&(0, 0)));
}

#[test]
fn stray_non_segment_file_is_ignored_not_fatal() {
    let mut log = Opened::fresh();
    log.append(b"real");
    log.disk.segments.insert("backup".to_string(), b"not a real segment".to_vec());

    let log = log.reopen();
    assert_eq!(log.log.head(), 1);
    assert_eq!(log.payloads_from(0), vec![(0, b"real".to_vec())]);
}

fn sizes(log: &Opened) -> Vec<Option<u64>> {
    (0..log.log.closed_len())
        .map(|i| Some(log.disk.segments[&stem(log.log.closed_at(i).base_offset)].len() as u64))
        .collect()
}

#[test]
fn retention_planning_rounds_down_and_reports_only_closed_segments() {
    let mut log = Opened::fresh_with(64);
    log.append(&[1; 128]);
    log.append(&[2; 128]);
    log.append(&[3; 128]);

    let (effective, segments) = log.log.retention_boundary(2, &sizes(&log));
    assert_eq!(effective, 2);
    assert_eq!(segments.iter().map(|(base, _bytes)| *base).collect::<Vec<_>>(), [0, 1]);
    assert!(segments.iter().all(|(_, bytes)| *bytes > 0));

    let (effective, segments) = log.log.retention_boundary(log.log.head(), &sizes(&log));
    assert_eq!(effective, 2);
    assert_eq!(segments.len(), 2);
}

#[test]
fn a_retention_floor_removes_whole_segments_once() {
    let mut log = Opened::fresh_with(64);
    for i in 0..4u8 {
        log.append(&[i; 128]);
    }
    log.log.activate_retention(2, 77).unwrap();
    assert_eq!(log.log.retention_floor(), 2);
    assert_eq!(log.log.manifest().retention_anchor_checksum, Some(77));
    assert!(log.log.activate_retention(1, 78).is_err());
    assert!(!log.log.has_complete_prefix() || log.log.closed_at(0).base_offset == 0);
    let outcomes: Vec<Removal> = (0..log.log.closed_len()).map(|_| Removal::Removed(10)).collect();
    let reclaimed = log.log.reclaim_below_retention_floor(&outcomes);
    assert_eq!(reclaimed, 20);
    assert_eq!(log.log.closed_len(), 1);
    assert_eq!(log.log.closed_at(0).base_offset, 2);
    assert_eq!(log.log.head(), 4);
}

#[test]
fn a_floor_for_bytes_keeps_the_newest_that_fit() {
    let mut log = Opened::fresh_with(64);
    for i in 0..4u8 {
        log.append(&[i; 128]);
    }
    let known: Vec<u64> = sizes(&log).into_iter().map(|s| s.unwrap()).collect();
    let each = known[0];
    let (floor, bytes, fits) = log.log.retention_floor_for_bytes(2 * each, &known);
    assert_eq!((floor, fits), (2, true));
    assert_eq!(bytes, 2 * each);
    let (floor, _, fits) = log.log.retention_floor_for_bytes(each / 2, &known);
    assert_eq!((floor, fits), (3, false));
    let (floor, _, fits) = log.log.retention_floor_for_bytes(100 * each, &known);
    assert_eq!((floor, fits), (0, true));
}

#[test]
fn the_reader_agrees_with_a_model() {
    let mut seed = 12345u64;
    let mut next = |n: u64| {
        seed = seed.wrapping_mul(6364136223846793005).wrapping_add(1442695040888963407);
        (seed >> 33) % n
    };
    for _ in 0..40 {
        let count = 1 + next(49);
        let streams: Vec<u8> = (0..count).map(|_| next(4) as u8).collect();
        let mut log = Opened::fresh_with(64 + next(1984));
        for (i, stream) in streams.iter().enumerate() {
            log.append_enveloped(&env_for(*stream, i as i64), &[*stream]);
        }
        let from = next(60);
        let until = next(60).min(log.log.head());
        let selector = match next(4) {
            0 => StreamSelector::All,
            1 => StreamSelector::Streams(vec![StreamId::from_bytes([1; 16])]),
            2 => StreamSelector::PartitionClass { count: 3, index: 0 },
            _ => StreamSelector::PartitionClass { count: 3, index: 2 },
        };
        let mut filter = user_filter(from, until);
        filter.selector = selector.clone();
        let want: Vec<u64> = streams
            .iter()
            .enumerate()
            .map(|(i, s)| (i as u64, *s))
            .filter(|(p, s)| *p >= from && *p < until && selector.matches(StreamId::from_bytes([*s; 16])))
            .map(|(p, _)| p)
            .collect();
        assert_eq!(log.positions(&filter).unwrap(), want);
    }
}

#[test]
fn a_read_over_segments_yields_what_its_filter_selects() {
    let streams = [1u8, 1, 2, 2, 1, 2, 3, 3, 1, 2, 1];
    let log = build_log(2, &streams);
    assert!(log.log.closed_len() >= 4);
    for from in 0..=11u64 {
        for until in 0..=11u64 {
            for max in [None, Some(0), Some(1), Some(3), Some(20)] {
                let mut filter = user_filter(from, until);
                filter.selector = StreamSelector::Streams(vec![StreamId::from_bytes([1; 16])]);
                filter.max_events = max;
                let wanted: Vec<u64> =
                    (0..11u64).filter(|p| from <= *p && *p < until && streams[*p as usize] == 1).collect();
                let (found, continuation) = log.read(&filter).unwrap();
                let found: Vec<u64> = found.iter().map(|record| record.position).collect();
                match max {
                    Some(max) if wanted.len() as u64 >= max => {
                        assert_eq!(found, wanted[..max as usize]);
                        if max > 0 {
                            assert_eq!(continuation, wanted[max as usize - 1] + 1);
                        }
                    }
                    _ => {
                        assert_eq!(found, wanted);
                        assert!(continuation >= until.min(11));
                    }
                }
            }
        }
    }
}
