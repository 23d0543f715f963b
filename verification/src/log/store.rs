//! The log as a whole: its manifest, its segments, and the decisions about
//! opening, rolling, reading and retaining them. Files are the caller's; the
//! log says what is to be done with them.
use crate::error::{ErrorView, Result, SalamanderError};
use crate::format::envelope::RecordEnvelopeV2;
use crate::format::frame::FrameKind;
use crate::log::index::{sidecar_decoding, Sidecar, SidecarView};
use crate::log::record::{record_encoding, MAX_FRAME_BYTES};
use crate::log::segment::{
    appended, batch_encoding, event_views, scan_of, ScanStop, Segment,
};
use crate::log::select::{bases_ascend, intersecting_range, range_selected, segment_end, FrameFilter, ResolvedFilter};
use crate::log::sidecar::{build_sidecar, sidecar_of};
use crate::text::{decimal, decimal_string, join2, join4, parse_u64, parsed_u64, quote, quoted};
use vstd::prelude::*;

verus! {

pub const MANIFEST_FORMAT_VERSION: u32 = 3;

pub const STORAGE_FORMAT_VERSION: u32 = 2;

pub const PAYLOAD_FORMAT_VERSION: u32 = 1;

/// The size at which a segment is closed.
pub const DEFAULT_SEGMENT_MAX_BYTES: u64 = 67_108_864;

/// What a data directory says of its log.
#[derive(Debug, Clone, Copy)]
pub struct Manifest {
    pub format_version: u32,
    pub storage_format_version: u32,
    pub database_id: [u8; 16],
    pub payload_format_version: u32,
    pub active_segment_base: u64,
    /// The lowest position that history reaches back to.
    pub retention_floor: u64,
    /// Advanced by each retention.
    pub retention_generation: u64,
    /// The checksum of the anchor that stands for what lies below the floor.
    pub retention_anchor_checksum: Option<u32>,
    /// Informative only: the active segment's own bytes decide.
    pub next_offset: u64,
}

/// A segment file that was found.
#[derive(Debug)]
pub struct DiscoveredSegment {
    pub base: u64,
    pub len: u64,
    pub path: String,
}

/// A found segment as plain values.
#[verifier::ext_equal]
pub struct FoundView {
    pub base: u64,
    pub len: u64,
    pub path: Seq<char>,
}

impl View for DiscoveredSegment {
    type V = FoundView;

    open spec fn view(&self) -> FoundView {
        FoundView { base: self.base, len: self.len, path: self.path@ }
    }
}

/// The found segments of a list as plain values.
pub open spec fn found_views(found: Seq<DiscoveredSegment>) -> Seq<FoundView> {
    Seq::new(found.len(), |i: int| found[i]@)
}

/// A file with a segment's extension: its name without it, its length, its path.
#[derive(Debug)]
pub struct SegmentFile {
    pub stem: String,
    pub len: u64,
    pub path: String,
}

/// Found segments with one more, behind all whose base is not above its own.
pub open spec fn found_inserted(found: Seq<FoundView>, x: FoundView) -> Seq<FoundView>
    decreases found.len(),
{
    if found.len() == 0 || found.last().base <= x.base {
        found.push(x)
    } else {
        found_inserted(found.drop_last(), x).push(found.last())
    }
}

/// The segments among files, by base; a file whose name spells no number is
/// passed over.
pub open spec fn discovered(files: Seq<SegmentFile>) -> Seq<FoundView>
    decreases files.len(),
{
    if files.len() == 0 {
        Seq::empty()
    } else {
        let file = files.last();
        match parsed_u64(file.stem@) {
            Some(base) => found_inserted(discovered(files.drop_last()), FoundView { base, len: file.len, path: file.path@ }),
            None => discovered(files.drop_last()),
        }
    }
}

/// Whether bases never descend.
pub open spec fn found_sorted(found: Seq<FoundView>) -> bool {
    forall|i: int, j: int| 0 <= i < j < found.len() ==> (#[trigger] found[i]).base <= (#[trigger] found[j]).base
}

proof fn lemma_found_inserted(found: Seq<FoundView>, x: FoundView, at: int)
    requires
        found_sorted(found),
        0 <= at <= found.len(),
        at == 0 || found[at - 1].base <= x.base,
        forall|j: int| at <= j < found.len() ==> (#[trigger] found[j]).base > x.base,
    ensures
        found_inserted(found, x) == found.insert(at, x),
        found_sorted(found.insert(at, x)),
    decreases found.len(),
{
    if at == found.len() {
        assert(found.insert(at, x) =~= found.push(x));
    } else {
        let front = found.drop_last();
        assert(found[found.len() - 1].base > x.base);
        assert forall|j: int| at <= j < front.len() implies (#[trigger] front[j]).base > x.base by {
            assert(front[j] == found[j]);
        }
        assert forall|i: int, j: int| 0 <= i < j < front.len() implies (#[trigger] front[i]).base <= (#[trigger] front[j]).base by {
            assert(front[i] == found[i] && front[j] == found[j]);
        }
        lemma_found_inserted(front, x, at);
        assert(found.insert(at, x) =~= front.insert(at, x).push(found.last()));
    }
    let out = found.insert(at, x);
    assert forall|i: int, j: int| 0 <= i < j < out.len() implies (#[trigger] out[i]).base <= (#[trigger] out[j]).base by {
        let a = if i < at { i } else { i - 1 };
        let b = if j < at { j } else { j - 1 };
        if i == at {
            assert(out[j] == found[j - 1]);
        } else if j == at {
            assert(out[i] == found[i]);
            if i < at - 1 {
                assert(found[i].base <= found[at - 1].base);
            }
        } else {
            assert(out[i] == found[a] && out[j] == found[b]);
        }
    }
}

/// The segments among `files`, by base.
pub fn discover_segments(files: &Vec<SegmentFile>) -> (r: Vec<DiscoveredSegment>)
    ensures
        found_views(r@) == discovered(files@),
        found_sorted(found_views(r@)),
{
    let mut out: Vec<DiscoveredSegment> = Vec::new();
    let mut i: usize = 0;
    assert(files@.take(0) =~= Seq::empty());
    assert(found_views(out@) =~= Seq::empty());
    while i < files.len()
        invariant
            i <= files@.len(),
            found_views(out@) == discovered(files@.take(i as int)),
            found_sorted(found_views(out@)),
        decreases files@.len() - i,
    {
        let file = &files[i];
        proof {
            assert(files@.take(i + 1).drop_last() =~= files@.take(i as int));
            assert(files@.take(i + 1).last() == *file);
        }
        match parse_u64(file.stem.as_str()) {
            Some(base) => {
                let x = DiscoveredSegment { base, len: file.len, path: file.path.clone() };
                let ghost views = found_views(out@);
                let mut at: usize = out.len();
                while at > 0 && out[at - 1].base > base
                    invariant
                        at <= out@.len(),
                        views == found_views(out@),
                        forall|j: int| at <= j < views.len() ==> (#[trigger] views[j]).base > base,
                    decreases at,
                {
                    assert(views[at - 1] == out@[at - 1]@);
                    at = at - 1;
                }
                proof {
                    if at > 0 {
                        assert(views[at - 1] == out@[at - 1]@);
                    }
                    lemma_found_inserted(views, x@, at as int);
                }
                let ghost added = x@;
                out.insert(at, x);
                assert(found_views(out@) =~= views.insert(at as int, added));
            },
            None => {},
        }
        i = i + 1;
    }
    assert(files@.take(i as int) =~= files@);
    out
}

/// The manifest of a directory that has none.
pub open spec fn first_manifest(database_id: [u8; 16], base: u64) -> Manifest {
    Manifest {
        format_version: MANIFEST_FORMAT_VERSION,
        storage_format_version: STORAGE_FORMAT_VERSION,
        database_id,
        payload_format_version: PAYLOAD_FORMAT_VERSION,
        active_segment_base: base,
        retention_floor: 0,
        retention_generation: 0,
        retention_anchor_checksum: None,
        next_offset: base,
    }
}

/// The manifest of a directory that has none: a lone segment is adopted, and
/// where there is none the segment at zero is to be created.
pub fn bootstrap_manifest(found: &Vec<DiscoveredSegment>, database_id: [u8; 16]) -> (r: Result<Manifest>)
    ensures
        found@.len() > 1 ==> (r matches Err(e) && e@ == ErrorView::Manifest(
            "multiple segments on disk but no manifest \u{2014} unexpected state"@,
        )),
        found@.len() == 1 ==> (r matches Ok(m) && m == first_manifest(database_id, found@[0].base)),
        found@.len() == 0 ==> (r matches Ok(m) && m == first_manifest(database_id, 0)),
{
    if found.len() > 1 {
        return Err(
            SalamanderError::Manifest("multiple segments on disk but no manifest \u{2014} unexpected state".to_owned()),
        );
    }
    let base: u64 = if found.len() == 1 {
        found[0].base
    } else {
        0
    };
    Ok(
        Manifest {
            format_version: MANIFEST_FORMAT_VERSION,
            storage_format_version: STORAGE_FORMAT_VERSION,
            database_id,
            payload_format_version: PAYLOAD_FORMAT_VERSION,
            active_segment_base: base,
            retention_floor: 0,
            retention_generation: 0,
            retention_anchor_checksum: None,
            next_offset: base,
        },
    )
}

/// A closed segment.
#[derive(Debug)]
pub struct SegmentMeta {
    pub base_offset: u64,
    pub path: String,
}

/// Closed segments as plain values.
pub open spec fn meta_views(closed: Seq<SegmentMeta>) -> Seq<(u64, Seq<char>)> {
    Seq::new(closed.len(), |i: int| (closed[i].base_offset, closed[i].path@))
}

/// An open log.
#[derive(Debug)]
pub struct Log {
    manifest: Manifest,
    closed: Vec<SegmentMeta>,
    active: Segment,
    segment_max_bytes: u64,
}

/// A log as plain values.
#[verifier::ext_equal]
pub struct LogView {
    pub manifest: Manifest,
    pub closed: Seq<(u64, Seq<char>)>,
    pub active: Segment,
    pub segment_max_bytes: u64,
}

impl View for Log {
    type V = LogView;

    closed spec fn view(&self) -> LogView {
        LogView {
            manifest: self.manifest,
            closed: meta_views(self.closed@),
            active: self.active,
            segment_max_bytes: self.segment_max_bytes,
        }
    }
}

/// The bases of all segments, the active one last.
pub open spec fn bases_of(log: LogView) -> Seq<u64> {
    Seq::new(log.closed.len(), |i: int| log.closed[i].0).push(log.active.base_offset)
}

/// What holds of every log: segments stand in order, the active one last, and
/// the head is not below its base nor below the retention floor.
pub open spec fn log_valid(log: LogView) -> bool {
    &&& bases_ascend(bases_of(log))
    &&& log.active.base_offset <= log.active.next_offset
    &&& log.manifest.active_segment_base == log.active.base_offset
    &&& log.manifest.retention_floor <= log.active.next_offset
}

/// Why a manifest cannot be opened, if it cannot.
pub open spec fn manifest_error(m: Manifest) -> Option<ErrorView> {
    if m.storage_format_version != STORAGE_FORMAT_VERSION {
        Some(
            ErrorView::UnsupportedStorageFormat { found: m.storage_format_version, supported: STORAGE_FORMAT_VERSION },
        )
    } else if m.payload_format_version != PAYLOAD_FORMAT_VERSION {
        Some(ErrorView::UnsupportedFormat { found: m.payload_format_version, supported: PAYLOAD_FORMAT_VERSION })
    } else {
        None
    }
}

/// The segments below the active one.
pub open spec fn closed_among(found: Seq<FoundView>, active: u64) -> Seq<(u64, Seq<char>)>
    decreases found.len(),
{
    if found.len() == 0 {
        Seq::empty()
    } else if found.last().base < active {
        closed_among(found.drop_last(), active).push((found.last().base, found.last().path))
    } else {
        closed_among(found.drop_last(), active)
    }
}

/// The segments above the active one: what a roll left that was cut short.
pub open spec fn orphans_among(found: Seq<FoundView>, active: u64) -> Seq<Seq<char>>
    decreases found.len(),
{
    if found.len() == 0 {
        Seq::empty()
    } else if found.last().base > active {
        orphans_among(found.drop_last(), active).push(found.last().path)
    } else {
        orphans_among(found.drop_last(), active)
    }
}

/// The error for a segment above the active one that is not empty.
pub open spec fn orphan_error(x: FoundView) -> ErrorView {
    ErrorView::Manifest(
        "orphaned segment "@ + quoted(x.path) + " beyond the active one is non-empty ("@ + decimal(x.len as nat)
            + " bytes) \u{2014} refusing to delete"@,
    )
}

/// The first segment above the active one that is not empty.
pub open spec fn first_full_orphan(found: Seq<FoundView>, active: u64) -> Option<FoundView>
    decreases found.len(),
{
    if found.len() == 0 {
        None
    } else if first_full_orphan(found.drop_last(), active) is Some {
        first_full_orphan(found.drop_last(), active)
    } else if found.last().base > active && found.last().len != 0 {
        Some(found.last())
    } else {
        None
    }
}

/// Whether the active segment was found.
pub open spec fn active_found(found: Seq<FoundView>, active: u64) -> bool {
    exists|i: int| 0 <= i < found.len() && (#[trigger] found[i]).base == active
}

/// What opening a log comes to.
pub struct OpenedView {
    pub log: LogView,
    pub orphans: Seq<Seq<char>>,
    pub stop: ScanStop,
}

/// The outcome of opening a log whose manifest is `m`, `active` being the bytes
/// of its active segment.
pub open spec fn opening(m: Manifest, found: Seq<FoundView>, active: Seq<u8>, max: u64) -> core::result::Result<OpenedView, ErrorView> {
    let base = m.active_segment_base;
    if manifest_error(m) is Some {
        Err(manifest_error(m)->0)
    } else if first_full_orphan(found, base) is Some {
        Err(orphan_error(first_full_orphan(found, base)->0))
    } else if !active_found(found, base) {
        Err(ErrorView::Manifest("manifest points at missing active segment base "@ + decimal(base as nat)))
    } else {
        let scan = scan_of(active, base as int);
        if m.retention_floor > scan.next_offset {
            Err(
                ErrorView::Manifest(
                    "retention floor "@ + decimal(m.retention_floor as nat) + " is beyond head "@ + decimal(
                        scan.next_offset as nat,
                    ),
                ),
            )
        } else {
            Ok(
                OpenedView {
                    log: LogView {
                        manifest: Manifest { next_offset: scan.next_offset as u64, ..m },
                        closed: closed_among(found, base),
                        active: Segment {
                            base_offset: base,
                            len_bytes: scan.valid_bytes as u64,
                            next_offset: scan.next_offset as u64,
                        },
                        segment_max_bytes: max,
                    },
                    orphans: orphans_among(found, base),
                    stop: scan.stop,
                },
            )
        }
    }
}

/// A log that was opened, and what is to be done about its files: the orphans
/// are to be removed, and the active segment is to be cut off behind the log's
/// own length.
#[derive(Debug)]
pub struct Opened {
    pub log: Log,
    pub orphans: Vec<String>,
    pub stop: ScanStop,
}

/// Texts as plain values.
pub open spec fn text_views(texts: Seq<String>) -> Seq<Seq<char>> {
    Seq::new(texts.len(), |i: int| texts[i]@)
}

/// The segments above the active one that come before the first that is not
/// empty: they are gone by the time that one is met.
pub open spec fn orphans_before_full(found: Seq<FoundView>, active: u64) -> Seq<Seq<char>>
    decreases found.len(),
{
    if found.len() == 0 {
        Seq::empty()
    } else {
        let before = orphans_before_full(found.drop_last(), active);
        if first_full_orphan(found.drop_last(), active) is None && found.last().base > active && found.last().len == 0 {
            before.push(found.last().path)
        } else {
            before
        }
    }
}

/// What is done about a log's files though it is not opened: orphans to remove,
/// and, where the active segment is there, the length to cut it to.
#[derive(Debug)]
pub struct Refused {
    pub cut: Option<(u64, ScanStop)>,
    pub orphans: Vec<String>,
}

/// What is done about the files of a log that is refused, `active` being the
/// bytes of its active segment. Nothing is done where the manifest itself is
/// refused.
pub fn settle_refused(manifest: Manifest, found: &Vec<DiscoveredSegment>, active: &[u8]) -> (r: Option<Refused>)
    requires
        manifest.active_segment_base + active@.len() <= u64::MAX,
    ensures
        ({
            let base = manifest.active_segment_base;
            let scan = scan_of(active@, base as int);
            match r {
                None => manifest_error(manifest) is Some,
                Some(todo) => {
                    &&& manifest_error(manifest) is None
                    &&& text_views(todo.orphans@) == orphans_before_full(found_views(found@), base)
                    &&& todo.cut is Some <==> active_found(found_views(found@), base)
                    &&& todo.cut matches Some((len, stop)) ==> len == scan.valid_bytes && stop == scan.stop
                },
            }
        }),
{
    if manifest.storage_format_version != STORAGE_FORMAT_VERSION || manifest.payload_format_version != PAYLOAD_FORMAT_VERSION {
        return None;
    }
    let base: u64 = manifest.active_segment_base;
    let ghost views = found_views(found@);
    let mut orphans: Vec<String> = Vec::new();
    let mut has_active = false;
    let mut full = false;
    let mut i: usize = 0;
    assert(views.take(0) =~= Seq::empty());
    assert(text_views(orphans@) =~= Seq::empty());
    while i < found.len()
        invariant
            i <= found@.len(),
            views == found_views(found@),
            text_views(orphans@) == orphans_before_full(views.take(i as int), base),
            full == (first_full_orphan(views.take(i as int), base) is Some),
            has_active == exists|k: int| 0 <= k < i && (#[trigger] views[k]).base == base,
        decreases found@.len() - i,
    {
        let x = &found[i];
        proof {
            assert(views.take(i + 1).drop_last() =~= views.take(i as int));
            assert(views.take(i + 1).last() == x@);
            assert(views[i as int] == x@);
        }
        if x.base == base {
            has_active = true;
        }
        if x.base > base && !full {
            if x.len == 0 {
                let ghost texts = text_views(orphans@);
                orphans.push(x.path.clone());
                assert(text_views(orphans@) =~= texts.push(x.path@));
            } else {
                full = true;
            }
        }
        i = i + 1;
    }
    assert(views.take(i as int) =~= views);
    let cut: Option<(u64, ScanStop)> = if has_active {
        match Segment::recover(active, base) {
            Ok((segment, stop)) => Some((segment.len_bytes, stop)),
            Err(_) => None,
        }
    } else {
        None
    };
    Some(Refused { cut, orphans })
}

struct Sorted {
    closed: Vec<SegmentMeta>,
    orphans: Vec<String>,
    full: Option<usize>,
    has_active: bool,
}

fn sort_out(found: &Vec<DiscoveredSegment>, base: u64) -> (r: Sorted)
    requires
        found_sorted(found_views(found@)),
    ensures
        meta_views(r.closed@) == closed_among(found_views(found@), base),
        text_views(r.orphans@) == orphans_among(found_views(found@), base),
        match r.full {
            Some(i) => i < found@.len() && first_full_orphan(found_views(found@), base) == Some(found@[i as int]@),
            None => first_full_orphan(found_views(found@), base) is None,
        },
        r.has_active == active_found(found_views(found@), base),
        forall|i: int, j: int|
            0 <= i < j < r.closed@.len() ==> (#[trigger] r.closed@[i]).base_offset <= (#[trigger] r.closed@[j]).base_offset,
        forall|i: int| 0 <= i < r.closed@.len() ==> (#[trigger] r.closed@[i]).base_offset < base,
{
    let ghost views = found_views(found@);
    let mut closed: Vec<SegmentMeta> = Vec::new();
    let mut orphans: Vec<String> = Vec::new();
    let mut full: Option<usize> = None;
    let mut has_active = false;
    let mut i: usize = 0;
    assert(views.take(0) =~= Seq::empty());
    assert(meta_views(closed@) =~= Seq::empty());
    assert(text_views(orphans@) =~= Seq::empty());
    while i < found.len()
        invariant
            i <= found@.len(),
            views == found_views(found@),
            found_sorted(views),
            meta_views(closed@) == closed_among(views.take(i as int), base),
            text_views(orphans@) == orphans_among(views.take(i as int), base),
            match full {
                Some(k) => k < found@.len() && first_full_orphan(views.take(i as int), base) == Some(found@[k as int]@),
                None => first_full_orphan(views.take(i as int), base) is None,
            },
            has_active == active_found(views.take(i as int), base),
            forall|a: int, b: int|
                0 <= a < b < closed@.len() ==> (#[trigger] closed@[a]).base_offset <= (#[trigger] closed@[b]).base_offset,
            forall|a: int| 0 <= a < closed@.len() ==> (#[trigger] closed@[a]).base_offset < base,
            forall|a: int, b: int|
                0 <= a < closed@.len() && i <= b < found@.len() ==> (#[trigger] closed@[a]).base_offset <= (#[trigger] views[b]).base,
        decreases found@.len() - i,
    {
        let ghost before = views.take(i as int);
        let ghost upto = views.take(i + 1);
        let x = &found[i];
        proof {
            assert(upto.drop_last() =~= before);
            assert(upto.last() == x@);
            assert(views[i as int] == x@);
            if active_found(before, base) {
                let k = choose|k: int| 0 <= k < before.len() && (#[trigger] before[k]).base == base;
                assert(upto[k] == before[k]);
            }
            if active_found(upto, base) && x.base != base {
                let k = choose|k: int| 0 <= k < upto.len() && (#[trigger] upto[k]).base == base;
                assert(before[k] == upto[k]);
            }
            if x.base == base {
                assert(upto[i as int].base == base);
            }
        }
        if x.base == base {
            has_active = true;
        } else if x.base < base {
            let ghost metas = meta_views(closed@);
            closed.push(SegmentMeta { base_offset: x.base, path: x.path.clone() });
            assert(meta_views(closed@) =~= metas.push((x.base, x.path@)));
        } else {
            if full.is_none() && x.len != 0 {
                full = Some(i);
            }
            let ghost texts = text_views(orphans@);
            orphans.push(x.path.clone());
            assert(text_views(orphans@) =~= texts.push(x.path@));
        }
        i = i + 1;
    }
    assert(views.take(i as int) =~= views);
    Sorted { closed, orphans, full, has_active }
}

/// A segment that is read as part of a replay, in log order. `index` is its
/// place among the closed segments; the active segment has none.
#[derive(Debug, Clone, Copy, PartialEq, Eq, Structural)]
pub struct PlannedSegment {
    pub base: u64,
    pub end: u64,
    pub index: Option<usize>,
}

/// Segment `i` of a log as a part of a replay.
pub open spec fn planned_at(log: LogView, i: int) -> PlannedSegment {
    PlannedSegment {
        base: bases_of(log)[i],
        end: segment_end(bases_of(log), log.active.next_offset, i),
        index: if i < log.closed.len() {
            Some(i as usize)
        } else {
            None
        },
    }
}

/// Segments `start..end` of a log.
pub open spec fn planned_range(log: LogView, start: int, end: int) -> Seq<PlannedSegment> {
    Seq::new((end - start) as nat, |i: int| planned_at(log, start + i))
}

/// What came of removing a closed segment's file.
#[derive(Debug, Clone, Copy, PartialEq, Eq, Structural)]
pub enum Removal {
    /// It was removed; it had so many bytes.
    Removed(u64),
    /// It was gone already.
    Missing,
    Failed,
}

/// The closed segments that stay: those at or above the floor, and those whose
/// file could not be removed.
pub open spec fn kept_segments(closed: Seq<(u64, Seq<char>)>, floor: u64, outcomes: Seq<Removal>) -> Seq<(u64, Seq<char>)>
    decreases closed.len(),
{
    if closed.len() == 0 {
        Seq::empty()
    } else {
        let i = closed.len() - 1;
        let before = kept_segments(closed.drop_last(), floor, outcomes);
        if closed[i].0 >= floor || outcomes[i] is Failed {
            before.push(closed[i])
        } else {
            before
        }
    }
}

/// The bytes that removal gave back, at most as many as a `u64` holds.
pub open spec fn reclaimed_bytes(closed: Seq<(u64, Seq<char>)>, floor: u64, outcomes: Seq<Removal>) -> int
    decreases closed.len(),
{
    if closed.len() == 0 {
        0
    } else {
        let i = closed.len() - 1;
        let before = reclaimed_bytes(closed.drop_last(), floor, outcomes);
        if closed[i].0 >= floor {
            before
        } else {
            match outcomes[i] {
                Removal::Removed(bytes) => if before + bytes > u64::MAX {
                    u64::MAX as int
                } else {
                    before + bytes
                },
                _ => before,
            }
        }
    }
}

/// The greatest base at or below `requested`, but not below `floor`.
pub open spec fn boundary_of(bases: Seq<u64>, floor: u64, requested: u64) -> u64
    decreases bases.len(),
{
    if bases.len() == 0 {
        floor
    } else {
        let before = boundary_of(bases.drop_last(), floor, requested);
        if bases.last() <= requested && bases.last() > before {
            bases.last()
        } else {
            before
        }
    }
}

/// The closed segments below `boundary` whose size is known, with it.
pub open spec fn reclaimable_of(closed: Seq<(u64, Seq<char>)>, sizes: Seq<Option<u64>>, boundary: u64) -> Seq<(u64, u64)>
    decreases closed.len(),
{
    if closed.len() == 0 {
        Seq::empty()
    } else {
        let i = closed.len() - 1;
        let before = reclaimable_of(closed.drop_last(), sizes, boundary);
        match sizes[i] {
            Some(bytes) => if closed[i].0 < boundary {
                before.push((closed[i].0, bytes))
            } else {
                before
            },
            None => before,
        }
    }
}

/// The sizes of segments together.
pub open spec fn total_bytes(segments: Seq<(u64, u64)>) -> int
    decreases segments.len(),
{
    if segments.len() == 0 {
        0
    } else {
        segments[0].1 + total_bytes(segments.skip(1))
    }
}

/// The first base from which the segments take at most `target` bytes, what
/// they take, and whether that fits; the last segment stays in any case.
pub open spec fn fitting(segments: Seq<(u64, u64)>, target: u64) -> (u64, int, bool)
    decreases segments.len(),
{
    if segments.len() <= 1 {
        (segments[0].0, segments[0].1 as int, segments[0].1 <= target)
    } else if total_bytes(segments) <= target {
        (segments[0].0, total_bytes(segments), true)
    } else {
        fitting(segments.skip(1), target)
    }
}

/// The segments that lie at or above the floor, with their sizes, the active
/// one last.
pub open spec fn sized_segments(log: LogView, sizes: Seq<u64>) -> Seq<(u64, u64)> {
    sized_closed(log.closed, sizes, log.manifest.retention_floor).push((log.active.base_offset, log.active.len_bytes))
}

/// The closed segments at or above `floor`, with their sizes.
pub open spec fn sized_closed(closed: Seq<(u64, Seq<char>)>, sizes: Seq<u64>, floor: u64) -> Seq<(u64, u64)>
    decreases closed.len(),
{
    if closed.len() == 0 {
        Seq::empty()
    } else {
        let i = closed.len() - 1;
        let before = sized_closed(closed.drop_last(), sizes, floor);
        if closed[i].0 >= floor {
            before.push((closed[i].0, sizes[i]))
        } else {
            before
        }
    }
}

/// A log after a roll.
pub open spec fn rolled(log: LogView, path: Seq<char>) -> LogView {
    let base = log.active.next_offset;
    LogView {
        manifest: Manifest { active_segment_base: base, next_offset: base, ..log.manifest },
        closed: log.closed.push((log.active.base_offset, path)),
        active: Segment { base_offset: base, len_bytes: 0, next_offset: base },
        ..log
    }
}

impl Log {
    /// Whether the log is valid, which every operation keeps.
    pub open spec fn wf(&self) -> bool {
        log_valid(self@)
    }

    /// Opens a log.
    pub fn open(manifest: Manifest, found: &Vec<DiscoveredSegment>, active: &[u8], segment_max_bytes: u64) -> (r: Result<Opened>)
        requires
            found_sorted(found_views(found@)),
            manifest.active_segment_base + active@.len() <= u64::MAX,
        ensures
            match opening(manifest, found_views(found@), active@, segment_max_bytes) {
                Ok(o) => r matches Ok(opened) && opened.log@ == o.log && text_views(opened.orphans@) == o.orphans && opened.stop
                    == o.stop && opened.log.wf(),
                Err(e) => r matches Err(error) && error@ == e,
            },
    {
        let base: u64 = manifest.active_segment_base;
        if manifest.storage_format_version != STORAGE_FORMAT_VERSION {
            return Err(
                SalamanderError::UnsupportedStorageFormat {
                    found: manifest.storage_format_version,
                    supported: STORAGE_FORMAT_VERSION,
                },
            );
        }
        if manifest.payload_format_version != PAYLOAD_FORMAT_VERSION {
            return Err(
                SalamanderError::UnsupportedFormat {
                    found: manifest.payload_format_version,
                    supported: PAYLOAD_FORMAT_VERSION,
                },
            );
        }
        let sorted = sort_out(found, base);
        let recovered: Option<(Segment, ScanStop)> = if sorted.has_active {
            match Segment::recover(active, base) {
                Err(e) => return Err(e),
                Ok(pair) => Some(pair),
            }
        } else {
            None
        };
        match sorted.full {
            Some(i) => {
                let mut message = join4(
                    "orphaned segment ",
                    quote(found[i].path.as_str()).as_str(),
                    " beyond the active one is non-empty (",
                    decimal_string(found[i].len).as_str(),
                );
                message.append(" bytes) \u{2014} refusing to delete");
                return Err(SalamanderError::Manifest(message));
            },
            None => {},
        }
        let (segment, stop) = match recovered {
            None => return Err(
                SalamanderError::Manifest(
                    join2("manifest points at missing active segment base ", decimal_string(base).as_str()),
                ),
            ),
            Some(pair) => pair,
        };
        if manifest.retention_floor > segment.next_offset {
            return Err(
                SalamanderError::Manifest(
                    join4(
                        "retention floor ",
                        decimal_string(manifest.retention_floor).as_str(),
                        " is beyond head ",
                        decimal_string(segment.next_offset).as_str(),
                    ),
                ),
            );
        }
        proof {
            crate::log::segment::lemma_scan_advances(active@, crate::log::segment::scan_start(base as int));
        }
        let mut manifest = manifest;
        manifest.next_offset = segment.next_offset;
        let log = Log { manifest, closed: sorted.closed, active: segment, segment_max_bytes };
        proof {
            let bases = bases_of(log@);
            assert forall|i: int, j: int| 0 <= i < j < bases.len() implies #[trigger] bases[i] <= #[trigger] bases[j] by {
                assert(bases[i] == log.closed@[i].base_offset);
                if j < log.closed@.len() {
                    assert(bases[j] == log.closed@[j].base_offset);
                }
            }
        }
        Ok(Opened { log, orphans: sorted.orphans, stop })
    }

    /// The position that the next event takes.
    pub fn head(&self) -> (r: u64)
        ensures
            r == self@.active.next_offset,
    {
        self.active.next_offset
    }

    pub fn retention_floor(&self) -> (r: u64)
        ensures
            r == self@.manifest.retention_floor,
    {
        self.manifest.retention_floor
    }

    pub fn manifest(&self) -> (r: Manifest)
        ensures
            r == self@.manifest,
    {
        self.manifest
    }

    pub fn active(&self) -> (r: Segment)
        ensures
            r == self@.active,
    {
        self.active
    }

    pub fn closed_len(&self) -> (n: usize)
        ensures
            n == self@.closed.len(),
    {
        self.closed.len()
    }

    pub fn closed_at(&self, i: usize) -> (r: &SegmentMeta)
        requires
            i < self@.closed.len(),
        ensures
            (r.base_offset, r.path@) == self@.closed[i as int],
    {
        &self.closed[i]
    }

    /// Whether the active segment is full, so that a roll comes first.
    pub fn needs_roll(&self) -> (r: bool)
        ensures
            r == (self@.active.len_bytes >= self@.segment_max_bytes),
    {
        self.active.len_bytes >= self.segment_max_bytes
    }

    /// Closes the active segment, whose file is at `path`, and begins the next.
    pub fn roll(&mut self, path: String)
        requires
            old(self).wf(),
        ensures
            final(self).wf(),
            final(self)@ == rolled(old(self)@, path@),
    {
        let ghost before = self@;
        let base: u64 = self.active.next_offset;
        self.closed.push(SegmentMeta { base_offset: self.active.base_offset, path });
        self.active = Segment::create(base);
        self.manifest.active_segment_base = base;
        self.manifest.next_offset = base;
        proof {
            assert(self@.closed =~= before.closed.push((before.active.base_offset, path@)));
            let old_bases = bases_of(before);
            let bases = bases_of(self@);
            assert forall|i: int, j: int| 0 <= i < j < bases.len() implies #[trigger] bases[i] <= #[trigger] bases[j] by {
                assert(bases[i] == old_bases[i]);
                if j < old_bases.len() {
                    assert(bases[j] == old_bases[j]);
                } else if i < old_bases.len() - 1 {
                    assert(old_bases[i] <= old_bases[old_bases.len() - 1]);
                }
            }
        }
    }

    /// Appends one event to a log whose active segment is not full.
    pub fn append_enveloped(&mut self, envelope: &RecordEnvelopeV2, payload: &[u8], out: &mut Vec<u8>) -> (r: Result<u64>)
        requires
            old(self).wf(),
            old(self)@.active.next_offset < u64::MAX,
            old(self)@.active.len_bytes + MAX_FRAME_BYTES <= u64::MAX,
        ensures
            final(self).wf(),
            final(self)@ == (LogView { active: final(self)@.active, ..old(self)@ }),
            match record_encoding(FrameKind::Event, old(self)@.active.next_offset, envelope@, payload@) {
                Ok(bytes) => r == Ok::<u64, SalamanderError>(old(self)@.active.next_offset) && final(out)@ == old(out)@ + bytes
                    && appended(old(self)@.active, final(self)@.active, bytes, 1),
                Err(e) => r matches Err(error) && error@ == e && final(out)@ == old(out)@ && final(self)@ == old(self)@,
            },
    {
        let r = self.active.append_enveloped(envelope, payload, out);
        r
    }

    /// Appends a batch to a log whose active segment is not full.
    pub fn append_batch(&mut self, events: &Vec<(RecordEnvelopeV2, Vec<u8>)>, out: &mut Vec<u8>) -> (r: Result<(u64, u64)>)
        requires
            old(self).wf(),
            old(self)@.active.next_offset + events@.len() <= u64::MAX,
            old(self)@.active.len_bytes + MAX_FRAME_BYTES * (events@.len() + 2) <= u64::MAX,
        ensures
            final(self).wf(),
            final(self)@ == (LogView { active: final(self)@.active, ..old(self)@ }),
            match batch_encoding(old(self)@.active.next_offset as int, event_views(events@)) {
                Ok(bytes) => r matches Ok((first, last)) && first == old(self)@.active.next_offset && last == first + events@.len()
                    - 1 && final(out)@ == old(out)@ + bytes && appended(
                    old(self)@.active,
                    final(self)@.active,
                    bytes,
                    events@.len() as int,
                ),
                Err(e) => r matches Err(error) && error@ == e && final(out)@ == old(out)@ && final(self)@ == old(self)@,
            },
    {
        let r = self.active.append_batch(events, out);
        r
    }

    /// Appends a system record to a log whose active segment is not full.
    pub fn append_system(&mut self, envelope: &RecordEnvelopeV2, payload: &[u8], out: &mut Vec<u8>) -> (r: Result<()>)
        requires
            old(self).wf(),
            old(self)@.active.len_bytes + MAX_FRAME_BYTES <= u64::MAX,
        ensures
            final(self).wf(),
            final(self)@ == (LogView { active: final(self)@.active, ..old(self)@ }),
            match record_encoding(FrameKind::System, old(self)@.active.next_offset, envelope@, payload@) {
                Ok(bytes) => r is Ok && final(out)@ == old(out)@ + bytes && appended(
                    old(self)@.active,
                    final(self)@.active,
                    bytes,
                    0,
                ),
                Err(e) => r matches Err(error) && error@ == e && final(out)@ == old(out)@ && final(self)@ == old(self)@,
            },
    {
        let r = self.active.append_system(envelope, payload, out);
        r
    }

    /// Raises the retention floor. The manifest that results is the one to store.
    pub fn activate_retention(&mut self, floor: u64, checksum: u32) -> (r: Result<()>)
        requires
            old(self).wf(),
        ensures
            final(self).wf(),
            old(self)@.manifest.retention_floor <= floor <= old(self)@.active.next_offset ==> r is Ok && final(self)@ == (LogView {
                manifest: Manifest {
                    retention_floor: floor,
                    retention_generation: if old(self)@.manifest.retention_generation < u64::MAX {
                        (old(self)@.manifest.retention_generation + 1) as u64
                    } else {
                        u64::MAX
                    },
                    retention_anchor_checksum: Some(checksum),
                    next_offset: old(self)@.active.next_offset,
                    ..old(self)@.manifest
                },
                ..old(self)@
            }),
            !(old(self)@.manifest.retention_floor <= floor <= old(self)@.active.next_offset) ==> final(self)@ == old(self)@ && (
            r matches Err(e) && e@ == ErrorView::InvalidArgument(
                "invalid retention floor "@ + decimal(floor as nat) + " for current floor "@ + decimal(
                    old(self)@.manifest.retention_floor as nat,
                ) + " and head "@ + decimal(old(self)@.active.next_offset as nat),
            )),
    {
        let head: u64 = self.active.next_offset;
        if floor < self.manifest.retention_floor || floor > head {
            let mut message = join4(
                "invalid retention floor ",
                decimal_string(floor).as_str(),
                " for current floor ",
                decimal_string(self.manifest.retention_floor).as_str(),
            );
            message.append(" and head ");
            message.append(decimal_string(head).as_str());
            return Err(SalamanderError::InvalidArgument(message));
        }
        self.manifest.retention_floor = floor;
        self.manifest.retention_generation = self.manifest.retention_generation.saturating_add(1);
        self.manifest.retention_anchor_checksum = Some(checksum);
        self.manifest.next_offset = head;
        Ok(())
    }

    /// Lets go of the closed segments below the floor whose files are gone, and
    /// says how many bytes that gave back.
    pub fn reclaim_below_retention_floor(&mut self, outcomes: &Vec<Removal>) -> (r: u64)
        requires
            old(self).wf(),
            outcomes@.len() == old(self)@.closed.len(),
        ensures
            final(self).wf(),
            final(self)@ == (LogView {
                closed: kept_segments(old(self)@.closed, old(self)@.manifest.retention_floor, outcomes@),
                ..old(self)@
            }),
            r == reclaimed_bytes(old(self)@.closed, old(self)@.manifest.retention_floor, outcomes@),
    {
        let ghost before = self@;
        let floor: u64 = self.manifest.retention_floor;
        let mut kept: Vec<SegmentMeta> = Vec::new();
        let mut reclaimed: u64 = 0;
        let mut i: usize = 0;
        assert(before.closed.take(0) =~= Seq::empty());
        assert(meta_views(kept@) =~= Seq::empty());
        while i < self.closed.len()
            invariant
                i <= self.closed@.len(),
                before == self@,
                log_valid(before),
                outcomes@.len() == self.closed@.len(),
                meta_views(kept@) == kept_segments(before.closed.take(i as int), floor, outcomes@),
                reclaimed == reclaimed_bytes(before.closed.take(i as int), floor, outcomes@),
                forall|a: int, b: int| 0 <= a < b < kept@.len() ==> (#[trigger] kept@[a]).base_offset <= (#[trigger] kept@[b]).base_offset,
                forall|a: int, b: int| 0 <= a < kept@.len() && i <= b < bases_of(before).len() ==> (#[trigger] kept@[a]).base_offset
                    <= #[trigger] bases_of(before)[b],
            decreases self.closed@.len() - i,
        {
            proof {
                let upto = before.closed.take(i + 1);
                assert(upto.drop_last() =~= before.closed.take(i as int));
                assert(upto[i as int] == (self.closed@[i as int].base_offset, self.closed@[i as int].path@));
                assert(bases_of(before)[i as int] == self.closed@[i as int].base_offset);
            }
            let segment = &self.closed[i];
            let failed = match outcomes[i] {
                Removal::Failed => true,
                _ => false,
            };
            if segment.base_offset >= floor || failed {
                let ghost metas = meta_views(kept@);
                kept.push(SegmentMeta { base_offset: segment.base_offset, path: segment.path.clone() });
                assert(meta_views(kept@) =~= metas.push((segment.base_offset, segment.path@)));
            } else {
                match outcomes[i] {
                    Removal::Removed(bytes) => {
                        reclaimed = reclaimed.saturating_add(bytes);
                    },
                    _ => {},
                }
            }
            i = i + 1;
        }
        assert(before.closed.take(i as int) =~= before.closed);
        self.closed = kept;
        proof {
            let bases = bases_of(self@);
            let last = bases_of(before).len() - 1;
            assert forall|a: int, b: int| 0 <= a < b < bases.len() implies #[trigger] bases[a] <= #[trigger] bases[b] by {
                assert(bases[a] == kept@[a].base_offset);
                if b < kept@.len() {
                    assert(bases[b] == kept@[b].base_offset);
                } else {
                    assert(kept@[a].base_offset <= bases_of(before)[last]);
                }
            }
        }
        reclaimed
    }

    /// Whether the log reaches back to its very beginning.
    pub fn has_complete_prefix(&self) -> (r: bool)
        ensures
            r == (bases_of(self@)[0] == 0),
    {
        if self.closed.len() == 0 {
            self.active.base_offset == 0
        } else {
            assert(bases_of(self@)[0] == self.closed@[0].base_offset);
            self.closed[0].base_offset == 0
        }
    }

    fn bases(&self) -> (r: Vec<u64>)
        ensures
            r@ == bases_of(self@),
    {
        let mut bases: Vec<u64> = Vec::new();
        let mut i: usize = 0;
        while i < self.closed.len()
            invariant
                i <= self.closed@.len(),
                bases@.len() == i,
                forall|k: int| 0 <= k < i ==> #[trigger] bases@[k] == self.closed@[k].base_offset,
            decreases self.closed@.len() - i,
        {
            bases.push(self.closed[i].base_offset);
            i = i + 1;
        }
        bases.push(self.active.base_offset);
        assert(bases@ =~= bases_of(self@));
        bases
    }

    /// The segment boundary that a retention down to `requested` comes to, and
    /// the closed segments below it whose sizes are known.
    pub fn retention_boundary(&self, requested: u64, sizes: &Vec<Option<u64>>) -> (r: (u64, Vec<(u64, u64)>))
        requires
            sizes@.len() == self@.closed.len(),
        ensures
            r.0 == boundary_of(bases_of(self@), self@.manifest.retention_floor, requested),
            r.1@ == reclaimable_of(self@.closed, sizes@, r.0),
    {
        let bases = self.bases();
        let mut effective: u64 = self.manifest.retention_floor;
        let ghost floor = effective;
        let mut i: usize = 0;
        assert(bases@.take(0) =~= Seq::empty());
        while i < bases.len()
            invariant
                i <= bases@.len(),
                effective == boundary_of(bases@.take(i as int), floor, requested),
            decreases bases@.len() - i,
        {
            proof {
                assert(bases@.take(i + 1).drop_last() =~= bases@.take(i as int));
            }
            if bases[i] <= requested && bases[i] > effective {
                effective = bases[i];
            }
            i = i + 1;
        }
        assert(bases@.take(i as int) =~= bases@);
        let mut out: Vec<(u64, u64)> = Vec::new();
        let mut k: usize = 0;
        assert(self@.closed.take(0) =~= Seq::empty());
        while k < self.closed.len()
            invariant
                k <= self.closed@.len(),
                sizes@.len() == self@.closed.len(),
                self@.closed.len() == self.closed@.len(),
                out@ == reclaimable_of(self@.closed.take(k as int), sizes@, effective),
            decreases self.closed@.len() - k,
        {
            proof {
                let upto = self@.closed.take(k + 1);
                assert(upto.drop_last() =~= self@.closed.take(k as int));
                assert(upto[k as int].0 == self.closed@[k as int].base_offset);
            }
            if self.closed[k].base_offset < effective {
                match sizes[k] {
                    Some(bytes) => out.push((self.closed[k].base_offset, bytes)),
                    None => {},
                }
            }
            k = k + 1;
        }
        assert(self@.closed.take(k as int) =~= self@.closed);
        (effective, out)
    }

    /// The earliest segment boundary from which the log takes at most
    /// `target_bytes`, what it then takes, and whether that fits.
    pub fn retention_floor_for_bytes(&self, target_bytes: u64, sizes: &Vec<u64>) -> (r: (u64, u64, bool))
        requires
            sizes@.len() == self@.closed.len(),
            total_bytes(sized_segments(self@, sizes@)) <= u64::MAX,
        ensures
            (r.0, r.1 as int, r.2) == fitting(sized_segments(self@, sizes@), target_bytes),
    {
        let floor: u64 = self.manifest.retention_floor;
        let mut segments: Vec<(u64, u64)> = Vec::new();
        let mut i: usize = 0;
        assert(self@.closed.take(0) =~= Seq::empty());
        while i < self.closed.len()
            invariant
                i <= self.closed@.len(),
                sizes@.len() == self@.closed.len(),
                self@.closed.len() == self.closed@.len(),
                segments@ == sized_closed(self@.closed.take(i as int), sizes@, floor),
            decreases self.closed@.len() - i,
        {
            proof {
                let upto = self@.closed.take(i + 1);
                assert(upto.drop_last() =~= self@.closed.take(i as int));
                assert(upto[i as int].0 == self.closed@[i as int].base_offset);
            }
            if self.closed[i].base_offset >= floor {
                segments.push((self.closed[i].base_offset, sizes[i]));
            }
            i = i + 1;
        }
        assert(self@.closed.take(i as int) =~= self@.closed);
        segments.push((self.active.base_offset, self.active.len_bytes));
        let ghost all = sized_segments(self@, sizes@);
        assert(segments@ =~= all);
        let mut retained: u64 = 0;
        let mut k: usize = segments.len();
        assert(all.skip(k as int) =~= Seq::empty());
        while k > 0
            invariant
                k <= segments@.len(),
                segments@ == all,
                total_bytes(all) <= u64::MAX,
                retained == total_bytes(all.skip(k as int)),
            decreases k,
        {
            proof {
                assert(all.skip(k - 1).skip(1) =~= all.skip(k as int));
                lemma_total_tail(all, k - 1);
            }
            retained = retained + segments[k - 1].1;
            k = k - 1;
        }
        assert(all.skip(0) =~= all);
        let mut at: usize = 0;
        while at + 1 < segments.len()
            invariant
                at < segments@.len(),
                segments@ == all,
                all == sized_segments(self@, sizes@),
                retained == total_bytes(all.skip(at as int)),
                fitting(all, target_bytes) == fitting(all.skip(at as int), target_bytes),
            decreases segments@.len() - at,
        {
            if retained <= target_bytes {
                return (segments[at].0, retained, true);
            }
            proof {
                assert(all.skip(at as int).skip(1) =~= all.skip(at + 1));
                lemma_total_tail(all.skip(at as int), 1);
            }
            retained = retained - segments[at].1;
            at = at + 1;
        }
        (segments[at].0, segments[at].1, segments[at].1 <= target_bytes)
    }

    /// The segments that a read has to look at, in order. System records take no
    /// position, so a read of them looks at every segment.
    pub fn plan_reader(&self, filter: &ResolvedFilter) -> (r: Vec<PlannedSegment>)
        requires
            self.wf(),
        ensures
            filter.kinds is SystemOnly ==> r@ == planned_range(self@, 0, bases_of(self@).len() as int),
            filter.kinds is UserEvents ==> exists|start: int, end: int|
                #![trigger planned_range(self@, start, end)]
                range_selected(bases_of(self@), self@.active.next_offset, filter.from, filter.until, start, end) && r@
                    == planned_range(self@, start, end),
    {
        let bases = self.bases();
        let head: u64 = self.active.next_offset;
        let range: core::ops::Range<usize> = match filter.kinds {
            FrameFilter::SystemOnly => 0..bases.len(),
            FrameFilter::UserEvents => intersecting_range(&bases, head, filter.from, filter.until),
        };
        let start: usize = range.start;
        let end: usize = range.end;
        let mut out: Vec<PlannedSegment> = Vec::new();
        let mut i: usize = start;
        while i < end
            invariant
                start <= i <= end <= bases@.len(),
                bases@ == bases_of(self@),
                head == self@.active.next_offset,
                bases@.len() == self.closed@.len() + 1,
                self.closed@.len() == self@.closed.len(),
                out@.len() == i - start,
                forall|k: int| 0 <= k < out@.len() ==> #[trigger] out@[k] == planned_at(self@, start + k),
            decreases end - i,
        {
            let seg_end: u64 = if i < bases.len() - 1 {
                bases[i + 1]
            } else {
                head
            };
            let index: Option<usize> = if i < self.closed.len() {
                Some(i)
            } else {
                None
            };
            out.push(PlannedSegment { base: bases[i], end: seg_end, index });
            i = i + 1;
        }
        assert(out@ =~= planned_range(self@, start as int, end as int));
        out
    }
}

proof fn lemma_total_tail(segments: Seq<(u64, u64)>, k: int)
    requires
        0 <= k <= segments.len(),
    ensures
        0 <= total_bytes(segments.skip(k)) <= total_bytes(segments),
    decreases segments.len(),
{
    if k == 0 {
        assert(segments.skip(0) =~= segments);
        if segments.len() > 0 {
            lemma_total_tail(segments.skip(1), 0);
            assert(segments.skip(1).skip(0) =~= segments.skip(1));
        }
    } else {
        lemma_total_tail(segments.skip(1), k - 1);
        assert(segments.skip(1).skip(k - 1) =~= segments.skip(k));
    }
}

/// A read of events looks at every segment that can hold one it asks for.
pub proof fn lemma_plan_complete(log: LogView, from: u64, until: u64, start: int, end: int, i: int, p: u64)
    requires
        log_valid(log),
        range_selected(bases_of(log), log.active.next_offset, from, until, start, end),
        0 <= i < bases_of(log).len(),
        planned_at(log, i).base <= p < planned_at(log, i).end,
        from <= p < until,
    ensures
        planned_range(log, start, end).contains(planned_at(log, i)),
{
    crate::log::select::lemma_range_covers(bases_of(log), log.active.next_offset, from, until, start, end, i, p);
    assert(planned_range(log, start, end)[i - start] == planned_at(log, i));
}

/// The sidecar to use for the closed segment `base..end`: the stored one where
/// it is whole and is this segment's, else one built from the segment's bytes
/// where that spans the segment. A fresh one is to be stored.
pub open spec fn sidecar_choice(stored: Option<Seq<u8>>, bytes: Seq<u8>, base: u64, end: u64) -> Option<(SidecarView, bool)> {
    let good = stored matches Some(s) && (sidecar_decoding(s) matches Ok(sc) && sc.base == base && sc.end == end);
    if good {
        Some((sidecar_decoding(stored->0)->Ok_0, false))
    } else {
        match sidecar_of(bytes, base) {
            Ok(sc) => if sc.end == end {
                Some((sc, true))
            } else {
                None
            },
            Err(_) => None,
        }
    }
}

/// Chooses the sidecar of a closed segment; see `sidecar_choice`.
pub fn choose_sidecar(stored: Option<&[u8]>, bytes: &[u8], base: u64, end: u64) -> (r: Option<(Sidecar, bool)>)
    requires
        base + bytes@.len() < u64::MAX,
    ensures
        match sidecar_choice(
            match stored {
                Some(s) => Some(s@),
                None => None,
            },
            bytes@,
            base,
            end,
        ) {
            Some((sc, fresh)) => r matches Some((sidecar, is_fresh)) && sidecar@ == sc && is_fresh == fresh,
            None => r is None,
        },
{
    match stored {
        Some(s) => match Sidecar::accept(s, base, end) {
            Some(sidecar) => return Some((sidecar, false)),
            None => {},
        },
        None => {},
    }
    match build_sidecar(bytes, base) {
        Ok(sidecar) => if sidecar.end == end {
            Some((sidecar, true))
        } else {
            None
        },
        Err(_) => None,
    }
}

} // verus!
