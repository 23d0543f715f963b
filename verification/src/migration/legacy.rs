//! Reading databases of the first storage generation.
use crate::bytes::{copy_range, read_u32, read_u64, u32_at, u64_at};
use crate::checksum::{crc32c, crc32c_append, crc32c_of};
use crate::error::{corrupt, ErrorView, Result, SalamanderError};
use crate::format::derive::{twin_hash, TwinHasher};
use crate::log::store::{discover_segments, discovered, found_views, DiscoveredSegment, SegmentFile};
use crate::text::{decimal, decimal_string, join2, join3, join4, parse_u64, parsed_u64, utf8_text};
use vstd::prelude::*;
use vstd::utf8::{decode_utf8, valid_utf8};

verus! {

/// The bytes before a record's payload.
pub const LEGACY_HEADER_LEN: usize = 16;

/// The storage generation that can be read here.
pub const LEGACY_STORAGE_VERSION: u32 = 1;

/// A record, or nothing where the bytes end before it does: its offset, its
/// payload, and how many bytes it takes.
pub open spec fn legacy_record(buf: Seq<u8>) -> core::result::Result<Option<(u64, Seq<u8>, int)>, ErrorView> {
    let total = LEGACY_HEADER_LEN + u32_at(buf, 0);
    if buf.len() < LEGACY_HEADER_LEN {
        Ok(None)
    } else if total > usize::MAX {
        Err(ErrorView::Migration("v0.1 record length overflow"@))
    } else if buf.len() < total {
        Ok(None)
    } else if crc32c_of(buf.subrange(8, total)) != u32_at(buf, 4) {
        Err(ErrorView::Corrupt { offset: u64_at(buf, 8), reason: "v0.1 CRC mismatch during migration"@ })
    } else {
        Ok(Some((u64_at(buf, 8), buf.subrange(16, total), total)))
    }
}

/// Reads a record, where the bytes hold all of it.
pub fn decode_legacy_record(buf: &[u8]) -> (r: Result<Option<(u64, &[u8], usize)>>)
    ensures
        match legacy_record(buf@) {
            Ok(Some((offset, payload, n))) => r matches Ok(Some((o, p, m))) && o == offset && p@ == payload && m == n,
            Ok(None) => r matches Ok(None),
            Err(e) => r matches Err(error) && error@ == e,
        },
{
    if buf.len() < LEGACY_HEADER_LEN {
        return Ok(None);
    }
    let payload_len: u32 = read_u32(buf, 0);
    let stored: u32 = read_u32(buf, 4);
    let offset: u64 = read_u64(buf, 8);
    let total: usize = match LEGACY_HEADER_LEN.checked_add(payload_len as usize) {
        Some(total) => total,
        None => return Err(SalamanderError::Migration("v0.1 record length overflow".to_owned())),
    };
    if buf.len() < total {
        return Ok(None);
    }
    let offset_bytes = vstd::slice::slice_subrange(buf, 8, 16);
    let payload = vstd::slice::slice_subrange(buf, 16, total);
    let computed: u32 = crc32c_append(crc32c(offset_bytes), payload);
    assert(offset_bytes@ + payload@ =~= buf@.subrange(8, total as int));
    assert(computed == crc32c_of(offset_bytes@ + payload@));
    if computed != stored {
        return Err(corrupt(offset, "v0.1 CRC mismatch during migration"));
    }
    Ok(Some((offset, payload, total)))
}

/// An event of the first generation.
#[derive(Debug, PartialEq, Eq)]
pub struct LegacyEvent {
    pub offset: u64,
    pub timestamp_ms: u64,
    pub namespace: String,
    /// The application's bytes.
    pub body: Vec<u8>,
}

/// An event of the first generation as plain values.
#[verifier::ext_equal]
pub struct LegacyView {
    pub offset: u64,
    pub timestamp_ms: u64,
    pub namespace: Seq<char>,
    pub body: Seq<u8>,
}

impl View for LegacyEvent {
    type V = LegacyView;

    open spec fn view(&self) -> LegacyView {
        LegacyView { offset: self.offset, timestamp_ms: self.timestamp_ms, namespace: self.namespace@, body: self.body@ }
    }
}

/// The events of a list as plain values.
pub open spec fn legacy_views(events: Seq<LegacyEvent>) -> Seq<LegacyView> {
    Seq::new(events.len(), |i: int| events[i]@)
}

/// The event that a record's payload holds: an offset that nothing reads, the
/// time, the namespace under its length, and the body.
pub open spec fn legacy_event(offset: u64, payload: Seq<u8>) -> core::result::Result<LegacyView, ErrorView> {
    let start = 24 + u64_at(payload, 16);
    if payload.len() < 24 {
        Err(ErrorView::Migration("v0.1 event at "@ + decimal(offset as nat) + " is shorter than its fixed envelope"@))
    } else if start > usize::MAX {
        Err(ErrorView::Migration("v0.1 namespace length overflow"@))
    } else if start > payload.len() {
        Err(ErrorView::Migration("v0.1 namespace at "@ + decimal(offset as nat) + " is truncated"@))
    } else if !valid_utf8(payload.subrange(24, start)) {
        Err(ErrorView::Migration("v0.1 namespace at "@ + decimal(offset as nat) + " is not UTF-8"@))
    } else {
        Ok(
            LegacyView {
                offset,
                timestamp_ms: u64_at(payload, 8),
                namespace: decode_utf8(payload.subrange(24, start)),
                body: payload.subrange(start, payload.len() as int),
            },
        )
    }
}

/// Reads the event that a record's payload holds.
pub fn split_legacy_event(offset: u64, payload: &[u8]) -> (r: Result<LegacyEvent>)
    ensures
        match legacy_event(offset, payload@) {
            Ok(event) => r matches Ok(e) && e@ == event,
            Err(e) => r matches Err(error) && error@ == e,
        },
{
    if payload.len() < 24 {
        return Err(
            SalamanderError::Migration(
                join3("v0.1 event at ", decimal_string(offset).as_str(), " is shorter than its fixed envelope"),
            ),
        );
    }
    let timestamp_ms: u64 = read_u64(payload, 8);
    let namespace_len: u64 = read_u64(payload, 16);
    if namespace_len > usize::MAX as u64 - 24 {
        return Err(SalamanderError::Migration("v0.1 namespace length overflow".to_owned()));
    }
    let body_start: usize = 24 + namespace_len as usize;
    if body_start > payload.len() {
        return Err(
            SalamanderError::Migration(join3("v0.1 namespace at ", decimal_string(offset).as_str(), " is truncated")),
        );
    }
    let namespace = match utf8_text(vstd::slice::slice_subrange(payload, 24, body_start)) {
        Some(namespace) => namespace,
        None => return Err(
            SalamanderError::Migration(join3("v0.1 namespace at ", decimal_string(offset).as_str(), " is not UTF-8")),
        ),
    };
    Ok(LegacyEvent { offset, timestamp_ms, namespace, body: copy_range(payload, body_start, payload.len()) })
}

/// A segment file: the offset that its name gives, what it is called, and its
/// bytes.
#[derive(Debug)]
pub struct LegacySegment {
    pub base: u64,
    pub name: String,
    pub bytes: Vec<u8>,
}

/// A segment file as plain values.
#[verifier::ext_equal]
pub struct LegacySegmentView {
    pub base: u64,
    pub name: Seq<char>,
    pub bytes: Seq<u8>,
}

impl View for LegacySegment {
    type V = LegacySegmentView;

    open spec fn view(&self) -> LegacySegmentView {
        LegacySegmentView { base: self.base, name: self.name@, bytes: self.bytes@ }
    }
}

/// The segment files of a list as plain values.
pub open spec fn segment_views(segments: Seq<LegacySegment>) -> Seq<LegacySegmentView> {
    Seq::new(segments.len(), |i: int| segments[i]@)
}

/// The events of a segment from a byte on, after those read before. The last
/// record may be torn only in the segment that was still being written.
pub open spec fn segment_events(
    segment: LegacySegmentView,
    active: bool,
    at: int,
    events: Seq<LegacyView>,
) -> core::result::Result<Seq<LegacyView>, ErrorView>
    decreases segment.bytes.len() - at,
{
    if at < 0 || at >= segment.bytes.len() {
        Ok(events)
    } else {
        match legacy_record(segment.bytes.skip(at)) {
            Err(e) => Err(e),
            Ok(None) => if active {
                Ok(events)
            } else {
                Err(ErrorView::Migration("closed v0.1 segment "@ + segment.name + " has a torn tail"@))
            },
            Ok(Some((offset, payload, n))) => if n <= 0 {
                Ok(events)
            } else if offset != events.len() {
                Err(
                    ErrorView::Migration(
                        "v0.1 offset "@ + decimal(offset as nat) + " is not expected "@ + decimal(events.len()),
                    ),
                )
            } else {
                match legacy_event(offset, payload) {
                    Err(e) => Err(e),
                    Ok(event) => segment_events(segment, active, at + n, events.push(event)),
                }
            },
        }
    }
}

/// The error for a segment that does not begin where the one before ended.
pub open spec fn gap_error(segment: LegacySegmentView, expected: nat) -> ErrorView {
    ErrorView::Migration(
        "v0.1 segment "@ + segment.name + " begins at "@ + decimal(segment.base as nat) + ", expected "@ + decimal(expected),
    )
}

/// The events of segments, in the order of the segments.
pub open spec fn legacy_events(segments: Seq<LegacySegmentView>, active_base: u64) -> core::result::Result<Seq<LegacyView>, ErrorView>
    decreases segments.len(),
{
    if segments.len() == 0 {
        Ok(Seq::empty())
    } else {
        match legacy_events(segments.drop_last(), active_base) {
            Err(e) => Err(e),
            Ok(events) => if segments.last().base != events.len() {
                Err(gap_error(segments.last(), events.len()))
            } else {
                segment_events(segments.last(), segments.last().base == active_base, 0, events)
            },
        }
    }
}

/// Whether events are numbered from zero without a gap.
pub open spec fn numbered(events: Seq<LegacyView>) -> bool {
    forall|i: int| 0 <= i < events.len() ==> (#[trigger] events[i]).offset == i
}

proof fn lemma_segment_numbered(segment: LegacySegmentView, active: bool, at: int, events: Seq<LegacyView>)
    requires
        numbered(events),
    ensures
        segment_events(segment, active, at, events) matches Ok(out) ==> numbered(out) && events.len() <= out.len() && out.take(
            events.len() as int,
        ) == events,
    decreases segment.bytes.len() - at,
{
    assert(events.take(events.len() as int) =~= events);
    if 0 <= at < segment.bytes.len() {
        if let Ok(Some((offset, payload, n))) = legacy_record(segment.bytes.skip(at)) {
            if n > 0 && offset == events.len() {
                if let Ok(event) = legacy_event(offset, payload) {
                    let more = events.push(event);
                    assert(numbered(more));
                    lemma_segment_numbered(segment, active, at + n, more);
                    if let Ok(out) = segment_events(segment, active, at + n, more) {
                        assert(out.take(events.len() as int) =~= out.take(more.len() as int).take(events.len() as int));
                        assert(more.take(events.len() as int) =~= events);
                    }
                }
            }
        }
    }
}

/// The events of a database are numbered from zero without a gap, whatever the
/// segments they were read from.
pub proof fn lemma_events_numbered(segments: Seq<LegacySegmentView>, active_base: u64)
    ensures
        legacy_events(segments, active_base) matches Ok(events) ==> numbered(events),
    decreases segments.len(),
{
    if segments.len() > 0 {
        lemma_events_numbered(segments.drop_last(), active_base);
        if let Ok(events) = legacy_events(segments.drop_last(), active_base) {
            lemma_segment_numbered(segments.last(), segments.last().base == active_base, 0, events);
        }
    }
}

fn read_legacy_segment(segment: &LegacySegment, active: bool, events: &mut Vec<LegacyEvent>) -> (r: Result<()>)
    ensures
        match segment_events(segment@, active, 0, legacy_views(old(events)@)) {
            Ok(out) => r is Ok && legacy_views(final(events)@) == out,
            Err(e) => r matches Err(error) && error@ == e,
        },
{
    let bytes = segment.bytes.as_slice();
    let ghost goal = segment_events(segment@, active, 0, legacy_views(old(events)@));
    let mut at: usize = 0;
    while at < bytes.len()
        invariant
            at <= bytes@.len(),
            bytes@ == segment@.bytes,
            segment_events(segment@, active, at as int, legacy_views(events@)) == goal,
            goal == segment_events(segment@, active, 0, legacy_views(old(events)@)),
        ensures
            goal == Ok::<Seq<LegacyView>, ErrorView>(legacy_views(events@)),
        decreases bytes@.len() - at,
    {
        let rest = vstd::slice::slice_subrange(bytes, at, bytes.len());
        assert(rest@ =~= segment@.bytes.skip(at as int));
        let record = match decode_legacy_record(rest) {
            Ok(record) => record,
            Err(e) => return Err(e),
        };
        match record {
            None => {
                if active {
                    break;
                }
                return Err(
                    SalamanderError::Migration(join3("closed v0.1 segment ", segment.name.as_str(), " has a torn tail")),
                );
            },
            Some((offset, payload, consumed)) => {
                let expected: u64 = events.len() as u64;
                if offset != expected {
                    return Err(
                        SalamanderError::Migration(
                            join4(
                                "v0.1 offset ",
                                decimal_string(offset).as_str(),
                                " is not expected ",
                                decimal_string(expected).as_str(),
                            ),
                        ),
                    );
                }
                let event = match split_legacy_event(offset, payload) {
                    Ok(event) => event,
                    Err(e) => return Err(e),
                };
                let ghost before = legacy_views(events@);
                let ghost view = event@;
                events.push(event);
                assert(legacy_views(events@) =~= before.push(view));
                at = at + consumed;
            },
        }
    }
    Ok(())
}

/// Reads the events of segments. `active_base` is the segment that was still
/// being written.
pub fn read_legacy_events(segments: &Vec<LegacySegment>, active_base: u64) -> (r: Result<Vec<LegacyEvent>>)
    ensures
        match legacy_events(segment_views(segments@), active_base) {
            Ok(events) => r matches Ok(out) && legacy_views(out@) == events && numbered(events),
            Err(e) => r matches Err(error) && error@ == e,
        },
{
    let ghost views = segment_views(segments@);
    let mut events: Vec<LegacyEvent> = Vec::new();
    let mut i: usize = 0;
    assert(views.take(0) =~= Seq::empty());
    assert(legacy_views(events@) =~= Seq::empty());
    while i < segments.len()
        invariant
            i <= segments@.len(),
            views == segment_views(segments@),
            legacy_events(views.take(i as int), active_base) == Ok::<Seq<LegacyView>, ErrorView>(legacy_views(events@)),
        decreases segments@.len() - i,
    {
        let segment = &segments[i];
        let ghost upto = views.take(i + 1);
        proof {
            assert(upto.drop_last() =~= views.take(i as int));
            assert(upto.last() == segment@);
            lemma_first_error(views, i + 1, active_base);
        }
        let expected: u64 = events.len() as u64;
        if segment.base != expected {
            let mut text = join4(
                "v0.1 segment ",
                segment.name.as_str(),
                " begins at ",
                decimal_string(segment.base).as_str(),
            );
            text.append(", expected ");
            text.append(decimal_string(expected).as_str());
            return Err(SalamanderError::Migration(text));
        }
        match read_legacy_segment(segment, segment.base == active_base, &mut events) {
            Ok(()) => {},
            Err(e) => return Err(e),
        }
        i = i + 1;
    }
    proof {
        assert(views.take(i as int) =~= views);
        lemma_events_numbered(views, active_base);
    }
    Ok(events)
}

/// An error in the first segments is the error of all of them.
proof fn lemma_first_error(segments: Seq<LegacySegmentView>, n: int, active_base: u64)
    requires
        0 <= n <= segments.len(),
    ensures
        legacy_events(segments.take(n), active_base) matches Err(e) ==> legacy_events(segments, active_base) == Err::<
            Seq<LegacyView>,
            ErrorView,
        >(e),
    decreases segments.len(),
{
    if n == segments.len() {
        assert(segments.take(n) =~= segments);
    } else {
        lemma_first_error(segments.drop_last(), n, active_base);
        assert(segments.drop_last().take(n) =~= segments.take(n));
    }
}

/// The bytes of segments, one after the other.
pub open spec fn all_bytes(segments: Seq<LegacySegmentView>) -> Seq<u8>
    decreases segments.len(),
{
    if segments.len() == 0 {
        Seq::empty()
    } else {
        all_bytes(segments.drop_last()) + segments.last().bytes
    }
}

/// The identity of a database: the hash of its manifest and of its segments.
pub fn fingerprint_source(manifest: &[u8], segments: &Vec<LegacySegment>) -> (r: [u8; 16])
    ensures
        r@ == twin_hash(manifest@ + all_bytes(segment_views(segments@))),
{
    let ghost views = segment_views(segments@);
    let mut hasher = TwinHasher::new();
    hasher.absorb(manifest);
    let mut i: usize = 0;
    assert(views.take(0) =~= Seq::empty());
    assert(Seq::<u8>::empty() + manifest@ =~= manifest@ + all_bytes(views.take(0)));
    while i < segments.len()
        invariant
            i <= segments@.len(),
            views == segment_views(segments@),
            hasher.absorbed(manifest@ + all_bytes(views.take(i as int))),
        decreases segments@.len() - i,
    {
        hasher.absorb(segments[i].bytes.as_slice());
        proof {
            let upto = views.take(i + 1);
            assert(upto.drop_last() =~= views.take(i as int));
            assert(upto.last() == segments@[i as int]@);
            assert(manifest@ + all_bytes(views.take(i as int)) + upto.last().bytes =~= manifest@ + all_bytes(upto));
        }
        i = i + 1;
    }
    assert(views.take(i as int) =~= views);
    hasher.finish()
}

/// The first file whose name spells no number.
pub open spec fn misnamed(files: Seq<SegmentFile>) -> Option<Seq<char>>
    decreases files.len(),
{
    if files.len() == 0 {
        None
    } else {
        match misnamed(files.drop_last()) {
            Some(path) => Some(path),
            None => if parsed_u64(files.last().stem@) is None {
                Some(files.last().path@)
            } else {
                None
            },
        }
    }
}

proof fn lemma_first_misnamed(files: Seq<SegmentFile>, n: int)
    requires
        0 <= n <= files.len(),
        misnamed(files.take(n)) is Some,
    ensures
        misnamed(files) == misnamed(files.take(n)),
    decreases files.len(),
{
    if n == files.len() {
        assert(files.take(n) =~= files);
    } else {
        assert(files.drop_last().take(n) =~= files.take(n));
        lemma_first_misnamed(files.drop_last(), n);
    }
}

proof fn lemma_all_discovered(files: Seq<SegmentFile>)
    requires
        misnamed(files) is None,
    ensures
        discovered(files).len() == files.len(),
    decreases files.len(),
{
    if files.len() > 0 {
        lemma_all_discovered(files.drop_last());
        let base = parsed_u64(files.last().stem@)->0;
        lemma_inserted_len(
            discovered(files.drop_last()),
            crate::log::store::FoundView { base, len: files.last().len, path: files.last().path@ },
        );
    }
}

proof fn lemma_inserted_len(found: Seq<crate::log::store::FoundView>, x: crate::log::store::FoundView)
    ensures
        crate::log::store::found_inserted(found, x).len() == found.len() + 1,
    decreases found.len(),
{
    if found.len() > 0 && found.last().base > x.base {
        lemma_inserted_len(found.drop_last(), x);
    }
}

/// The segments of a database, by base. Every file with a segment's extension
/// must be one, and there must be one at least.
pub fn discover_legacy_segments(files: &Vec<SegmentFile>) -> (r: Result<Vec<DiscoveredSegment>>)
    ensures
        match misnamed(files@) {
            Some(path) => r matches Err(e) && e@ == ErrorView::Migration("invalid segment name: "@ + path),
            None => if files@.len() == 0 {
                r matches Err(e) && e@ == ErrorView::Migration("v0.1 source has no segments"@)
            } else {
                r matches Ok(found) && found_views(found@) == discovered(files@) && found@.len() == files@.len()
            },
        },
{
    let mut i: usize = 0;
    assert(files@.take(0) =~= Seq::empty());
    while i < files.len()
        invariant
            i <= files@.len(),
            misnamed(files@.take(i as int)) is None,
        decreases files@.len() - i,
    {
        proof {
            let upto = files@.take(i + 1);
            assert(upto.drop_last() =~= files@.take(i as int));
            assert(upto.last() == files@[i as int]);
            if misnamed(upto) is Some {
                lemma_first_misnamed(files@, i + 1);
            }
        }
        if parse_u64(files[i].stem.as_str()).is_none() {
            return Err(SalamanderError::Migration(join2("invalid segment name: ", files[i].path.as_str())));
        }
        i = i + 1;
    }
    proof {
        assert(files@.take(i as int) =~= files@);
        lemma_all_discovered(files@);
    }
    let found = discover_segments(files);
    assert(found_views(found@).len() == found@.len());
    if found.len() == 0 {
        return Err(SalamanderError::Migration("v0.1 source has no segments".to_owned()));
    }
    Ok(found)
}

/// The error for a database of another storage generation.
pub open spec fn generation_error(version: u32) -> ErrorView {
    ErrorView::Migration("source storage format is "@ + decimal(version as nat) + ", expected v0.1 generation 1"@)
}

/// Whether a database is of the storage generation that can be read here.
pub fn check_generation(version: u32) -> (r: Result<()>)
    ensures
        r is Ok <==> version == LEGACY_STORAGE_VERSION,
        r matches Err(e) ==> e@ == generation_error(version),
{
    if version != LEGACY_STORAGE_VERSION {
        return Err(
            SalamanderError::Migration(
                join3("source storage format is ", decimal_string(version as u64).as_str(), ", expected v0.1 generation 1"),
            ),
        );
    }
    Ok(())
}

} // verus!
