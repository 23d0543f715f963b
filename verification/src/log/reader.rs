//! Reading a log frame by frame: the continuity and batch rules that every
//! traversed frame must meet, the filters, and where a later read resumes.
use crate::checksum::{crc32c_append, crc32c_of};
use crate::error::{corrupt, ErrorView, Result, SalamanderError};
use crate::format::envelope::{default_limits, FormatLimits};
use crate::format::frame::{frame_decoding, frame_sizing, frame_total_len, FrameKind, RecordView, StoredRecord};
use crate::format::ids::BatchId;
use crate::log::record::record_decoding;
use crate::log::segment::{control_of, parse_batch_control};
use crate::log::select::{passes, selector_counts, FilterView, ResolvedFilter, VerificationMode};
use crate::text::{decimal, decimal_string, join3, join4};
use vstd::prelude::*;
use vstd::slice::slice_subrange;

verus! {

/// How much a cursor reads ahead.
pub const READ_CHUNK: usize = 131_072;

/// The integrity check of an open batch: what its begin frame announces, and
/// the event frames met so far.
#[verifier::ext_equal]
pub struct CheckView {
    pub count: u32,
    pub digest: u32,
    pub bytes: Seq<u8>,
}

/// An open batch.
#[verifier::ext_equal]
pub struct TrackView {
    pub first: int,
    pub batch_id: Seq<u8>,
    pub seen: int,
    pub check: Option<CheckView>,
}

/// How far a read has come: the position that the next frame outside a batch
/// must carry, an open batch, how much was yielded, where to resume, and
/// whether the read is over.
#[verifier::ext_equal]
pub struct WalkView {
    pub expected: int,
    pub batch: Option<TrackView>,
    pub yielded: int,
    pub continuation: int,
    pub finished: bool,
}

/// What a frame does to a read.
pub enum WalkStep {
    Skip(WalkView),
    Match(WalkView),
    Finish(WalkView),
    Fail(ErrorView),
}

/// The greater of two numbers.
pub open spec fn max_of(a: int, b: int) -> int {
    if a < b {
        b
    } else {
        a
    }
}

/// The error for a frame that is not at its position.
pub open spec fn sequence_error(position: u64, expected: int) -> ErrorView {
    ErrorView::Corrupt {
        offset: position,
        reason: "position "@ + decimal(position as nat) + " breaks expected sequence "@ + decimal(expected as nat),
    }
}

pub(crate) fn corrupt_sequence(position: u64, expected: u64) -> (e: SalamanderError)
    ensures
        e@ == sequence_error(position, expected as int),
{
    SalamanderError::Corrupt {
        offset: position,
        reason: join4(
            "position ",
            decimal_string(position).as_str(),
            " breaks expected sequence ",
            decimal_string(expected).as_str(),
        ),
    }
}

/// What the begin frame of a batch does.
pub open spec fn walk_begin(w: WalkView, f: FilterView, rec: RecordView) -> WalkStep {
    if w.batch is Some || rec.position != w.expected {
        WalkStep::Fail(sequence_error(rec.position, w.expected))
    } else {
        let track = TrackView { first: rec.position as int, batch_id: rec.envelope.batch_id, seen: 0, check: None };
        if f.verification is BatchDigests {
            match control_of(rec.payload) {
                Err(e) => WalkStep::Fail(e),
                Ok((count, digest)) => WalkStep::Skip(
                    WalkView {
                        batch: Some(TrackView { check: Some(CheckView { count, digest, bytes: Seq::empty() }), ..track }),
                        ..w
                    },
                ),
            }
        } else {
            WalkStep::Skip(WalkView { batch: Some(track), ..w })
        }
    }
}

/// Whether a commit frame's payload confirms what was met of its batch.
pub open spec fn confirms(track: TrackView, check: CheckView, count: u32, digest: u32) -> bool {
    &&& count == check.count
    &&& digest == check.digest
    &&& track.seen == check.count
    &&& crc32c_of(check.bytes) == check.digest
}

/// What the commit frame of a batch does.
pub open spec fn walk_commit(w: WalkView, rec: RecordView) -> WalkStep {
    let at = rec.position;
    match w.batch {
        None => WalkStep::Fail(ErrorView::Corrupt { offset: at, reason: "batch commit without begin"@ }),
        Some(track) => {
            let done = WalkView { expected: track.first + track.seen, batch: None, ..w };
            let empty = WalkStep::Fail(ErrorView::Corrupt { offset: at, reason: "batch committed zero events"@ });
            if at != track.first || rec.envelope.batch_id != track.batch_id {
                WalkStep::Fail(ErrorView::Corrupt { offset: at, reason: "batch commit does not match its begin"@ })
            } else {
                match track.check {
                    Some(check) => match control_of(rec.payload) {
                        Err(e) => WalkStep::Fail(e),
                        Ok((count, digest)) => if !confirms(track, check, count, digest) {
                            WalkStep::Fail(ErrorView::Corrupt { offset: at, reason: "batch digest verification failed"@ })
                        } else if track.seen == 0 {
                            empty
                        } else {
                            WalkStep::Skip(done)
                        },
                    },
                    None => if track.seen == 0 {
                        empty
                    } else {
                        WalkStep::Skip(done)
                    },
                }
            }
        },
    }
}

/// What the filters make of an event or system frame that is in order.
pub open spec fn walk_filter(w: WalkView, f: FilterView, rec: RecordView) -> WalkStep {
    if rec.kind is Event && rec.position >= f.until {
        WalkStep::Finish(WalkView { finished: true, continuation: max_of(w.continuation, f.until as int), ..w })
    } else {
        let on = WalkView {
            continuation: if rec.kind is Event {
                max_of(w.continuation, rec.position + 1)
            } else {
                w.continuation
            },
            ..w
        };
        if passes(f, rec.kind, rec.position, rec.envelope) {
            WalkStep::Match(WalkView { yielded: w.yielded + 1, ..on })
        } else {
            WalkStep::Skip(on)
        }
    }
}

/// What an event frame does, `frame` being its bytes.
pub open spec fn walk_event(w: WalkView, f: FilterView, rec: RecordView, frame: Seq<u8>) -> WalkStep {
    match w.batch {
        Some(track) => {
            let slot = track.first + track.seen;
            if rec.position != slot || rec.envelope.batch_id != track.batch_id || rec.envelope.batch_index != track.seen {
                WalkStep::Fail(sequence_error(rec.position, slot))
            } else {
                let next = TrackView {
                    seen: track.seen + 1,
                    check: match track.check {
                        Some(check) => Some(CheckView { bytes: check.bytes + frame, ..check }),
                        None => None,
                    },
                    ..track
                };
                walk_filter(WalkView { batch: Some(next), ..w }, f, rec)
            }
        },
        None => if rec.position != w.expected {
            WalkStep::Fail(sequence_error(rec.position, w.expected))
        } else {
            walk_filter(WalkView { expected: w.expected + 1, ..w }, f, rec)
        },
    }
}

/// What a frame does to a read.
pub open spec fn walk_frame(w: WalkView, f: FilterView, rec: RecordView, frame: Seq<u8>) -> WalkStep {
    match rec.kind {
        FrameKind::BatchBegin => walk_begin(w, f, rec),
        FrameKind::BatchCommit => walk_commit(w, rec),
        FrameKind::System => if w.batch is Some || rec.position != w.expected {
            WalkStep::Fail(sequence_error(rec.position, w.expected))
        } else {
            walk_filter(w, f, rec)
        },
        FrameKind::Event => walk_event(w, f, rec, frame),
    }
}

/// What one look at the bytes at hand leads to.
pub enum AdvanceView {
    /// More bytes are needed, so many in all.
    Need(int),
    /// The segment is read to its end.
    SegmentEnd,
    /// The read is over.
    Finished(WalkView),
    /// A frame was passed over.
    Skipped(WalkView, int),
    /// A record is yielded.
    Matched(WalkView, RecordView, int),
    Fail(ErrorView),
}

/// Whether a read has yielded as much as it was asked for.
pub open spec fn limit_reached(w: WalkView, f: FilterView) -> bool {
    f.max_events matches Some(max) && w.yielded >= max
}

/// The outcome at the end of a segment's bytes, `left` of them being no frame.
pub open spec fn segment_stop(w: WalkView, left: int, closed: bool, seg_end: u64) -> AdvanceView {
    if left != 0 && closed {
        AdvanceView::Fail(
            ErrorView::Corrupt {
                offset: w.expected as u64,
                reason: "closed segment has "@ + decimal(left as nat) + " trailing byte(s)"@,
            },
        )
    } else if closed && w.expected < seg_end {
        AdvanceView::Fail(
            ErrorView::Corrupt {
                offset: w.expected as u64,
                reason: "closed segment ended at position "@ + decimal(w.expected as nat) + " before its recorded end "@
                    + decimal(seg_end as nat),
            },
        )
    } else {
        AdvanceView::SegmentEnd
    }
}

/// What the unread bytes `avail` of a segment lead to, `eof` telling whether
/// they are all there is. A closed segment must end with a frame, at its end.
pub open spec fn advance_of(w: WalkView, f: FilterView, avail: Seq<u8>, eof: bool, closed: bool, seg_end: u64) -> AdvanceView {
    if w.finished {
        AdvanceView::Finished(w)
    } else if limit_reached(w, f) {
        AdvanceView::Finished(WalkView { finished: true, ..w })
    } else if avail.len() < 32 {
        if !eof {
            AdvanceView::Need(32)
        } else {
            segment_stop(w, avail.len() as int, closed, seg_end)
        }
    } else {
        match frame_sizing(avail, default_limits()) {
            Err(e) => AdvanceView::Fail(e),
            Ok(None) => AdvanceView::Need(32),
            Ok(Some(total)) => if avail.len() < total {
                if !eof {
                    AdvanceView::Need(total)
                } else if closed {
                    AdvanceView::Fail(
                        ErrorView::Corrupt { offset: w.expected as u64, reason: "closed segment ends mid-frame"@ },
                    )
                } else {
                    AdvanceView::SegmentEnd
                }
            } else {
                match record_decoding(avail) {
                    Err(e) => AdvanceView::Fail(e),
                    Ok(None) => AdvanceView::Need(total),
                    Ok(Some((rec, n))) => match walk_frame(w, f, rec, avail.take(n)) {
                        WalkStep::Fail(e) => AdvanceView::Fail(e),
                        WalkStep::Finish(next) => AdvanceView::Finished(next),
                        WalkStep::Skip(next) => AdvanceView::Skipped(next, n),
                        WalkStep::Match(next) => AdvanceView::Matched(next, rec, n),
                    },
                }
            },
        }
    }
}

/// A read of a segment goes the same way however its bytes come in: what a
/// window of unread bytes leads to, short of a demand for more, is what any
/// longer window leads to.
pub proof fn lemma_window_invisible(w: WalkView, f: FilterView, avail: Seq<u8>, more: Seq<u8>, eof: bool, closed: bool, seg_end: u64)
    requires
        !(advance_of(w, f, avail, false, closed, seg_end) is Need),
    ensures
        advance_of(w, f, avail + more, eof, closed, seg_end) == advance_of(w, f, avail, false, closed, seg_end),
{
    reveal(record_decoding);
    if !w.finished && !limit_reached(w, f) {
        let longer = avail + more;
        lemma_sizing_local(avail, more);
        match frame_sizing(avail, default_limits()) {
            Ok(Some(total)) => {
                match frame_decoding(avail, default_limits()) {
                    Ok(Some((rec, n))) => {
                        crate::format::frame::lemma_decoding_local(avail, default_limits(), more);
                        crate::format::frame::lemma_sizing_agrees(avail, default_limits());
                        assert(longer.take(n) =~= avail.take(n));
                    },
                    _ => {
                        lemma_decoding_error_local(avail, more);
                    },
                }
            },
            _ => {},
        }
    }
}

/// The header alone decides how a frame is sized.
proof fn lemma_sizing_local(avail: Seq<u8>, more: Seq<u8>)
    requires
        avail.len() >= 32,
    ensures
        frame_sizing(avail + more, default_limits()) == frame_sizing(avail, default_limits()),
{
    let longer = avail + more;
    assert(longer.subrange(0, 4) =~= avail.subrange(0, 4));
    assert(longer.subrange(4, 6) =~= avail.subrange(4, 6));
    assert(longer.subrange(8, 12) =~= avail.subrange(8, 12));
    assert(longer.subrange(12, 16) =~= avail.subrange(12, 16));
    assert(longer[6] == avail[6] && longer[7] == avail[7]);
}

/// A whole frame that is refused is refused whatever follows it.
proof fn lemma_decoding_error_local(avail: Seq<u8>, more: Seq<u8>)
    requires
        avail.len() >= 32,
        frame_sizing(avail, default_limits()) matches Ok(Some(total)) && total <= avail.len(),
    ensures
        frame_decoding(avail + more, default_limits()) == frame_decoding(avail, default_limits()),
{
    let longer = avail + more;
    let total = crate::format::frame::announced_len(avail);
    let envelope_end = 32 + crate::bytes::u32_at(avail, 8) as int;
    lemma_sizing_local(avail, more);
    assert(longer.subrange(0, 4) =~= avail.subrange(0, 4));
    assert(longer.subrange(4, 6) =~= avail.subrange(4, 6));
    assert(longer.subrange(8, 12) =~= avail.subrange(8, 12));
    assert(longer.subrange(12, 16) =~= avail.subrange(12, 16));
    assert(longer.subrange(16, 24) =~= avail.subrange(16, 24));
    assert(longer.subrange(24, 28) =~= avail.subrange(24, 28));
    assert(longer.subrange(28, 32) =~= avail.subrange(28, 32));
    assert(longer.take(total) =~= avail.take(total));
    assert(longer.subrange(32, envelope_end) =~= avail.subrange(32, envelope_end));
    assert(longer.subrange(envelope_end, total) =~= avail.subrange(envelope_end, total));
}

struct BatchCheck {
    count: u32,
    digest: u32,
    running: u32,
    bytes: Ghost<Seq<u8>>,
}

struct BatchTrack {
    first: u64,
    batch_id: BatchId,
    seen: u64,
    check: Option<BatchCheck>,
}

impl BatchCheck {
    spec fn view(&self) -> CheckView {
        CheckView { count: self.count, digest: self.digest, bytes: self.bytes@ }
    }

    /// The running checksum is that of the frames met.
    spec fn wf(&self) -> bool {
        self.running == if self.bytes@.len() == 0 {
            0
        } else {
            crc32c_of(self.bytes@)
        }
    }
}

impl BatchTrack {
    spec fn view(&self) -> TrackView {
        TrackView {
            first: self.first as int,
            batch_id: self.batch_id@,
            seen: self.seen as int,
            check: match self.check {
                Some(check) => Some(check@),
                None => None,
            },
        }
    }

    spec fn wf(&self) -> bool {
        &&& self.seen <= 0x1_0000_0000
        &&& self.check matches Some(check) ==> check.wf() && (check.bytes@.len() == 0 <==> self.seen == 0)
    }
}

/// The state of a read.
pub struct Walk {
    expected: u64,
    batch: Option<BatchTrack>,
    yielded: u64,
    continuation: u64,
    finished: bool,
}

/// What one look at the bytes at hand led to.
#[derive(Debug)]
pub enum Advance<'a> {
    Need(usize),
    SegmentEnd,
    Finished,
    Skipped(usize),
    Matched(StoredRecord<'a>, usize),
}

enum Outcome {
    Skip,
    Match,
    Finish,
}

/// Whether there is room for one more position.
pub open spec fn walk_room(w: WalkView) -> bool {
    &&& w.expected < u64::MAX
    &&& w.yielded < u64::MAX
    &&& w.batch matches Some(track) ==> track.first == w.expected && track.first + track.seen < u64::MAX
}

impl View for Walk {
    type V = WalkView;

    closed spec fn view(&self) -> WalkView {
        WalkView {
            expected: self.expected as int,
            batch: match self.batch {
                Some(batch) => Some(batch@),
                None => None,
            },
            yielded: self.yielded as int,
            continuation: self.continuation as int,
            finished: self.finished,
        }
    }
}

/// A read that is about to enter its first segment.
pub open spec fn walk_start(from: u64) -> WalkView {
    WalkView { expected: 0, batch: None, yielded: 0, continuation: from as int, finished: false }
}

/// A read that enters a segment, or a seek point in it, at `position`.
pub open spec fn walk_enter(w: WalkView, position: u64) -> WalkView {
    WalkView { expected: position as int, batch: None, ..w }
}

/// A read that has no segment left.
pub open spec fn walk_exhausted(w: WalkView, f: FilterView, head: u64) -> WalkView {
    let until = if f.until < head {
        f.until
    } else {
        head
    };
    WalkView { finished: true, continuation: max_of(w.continuation, until as int), ..w }
}

impl Walk {
    /// What holds of the state between calls.
    pub closed spec fn wf(&self) -> bool {
        self.batch matches Some(batch) ==> batch.wf() && batch.first == self.expected
    }

    /// The start of a read whose first position is `from`.
    pub fn new(from: u64) -> (r: Self)
        ensures
            r.wf(),
            r@ == walk_start(from),
    {
        Walk { expected: 0, batch: None, yielded: 0, continuation: from, finished: false }
    }

    /// The first position that was neither yielded nor passed over: a read
    /// that begins there goes on without a gap and without a repetition.
    pub fn continuation(&self) -> (r: u64)
        ensures
            r == self@.continuation,
    {
        self.continuation
    }

    pub fn is_finished(&self) -> (r: bool)
        ensures
            r == self@.finished,
    {
        self.finished
    }

    pub fn yielded(&self) -> (r: u64)
        ensures
            r == self@.yielded,
    {
        self.yielded
    }

    /// Whether positions and counts leave room for another record.
    pub fn has_room(&self) -> (r: bool)
        requires
            self.wf(),
        ensures
            r == walk_room(self@),
    {
        match &self.batch {
            Some(batch) => self.expected < u64::MAX && self.yielded < u64::MAX && batch.seen < u64::MAX - batch.first,
            None => self.expected < u64::MAX && self.yielded < u64::MAX,
        }
    }

    /// Enters a segment, or a seek point in it, at `position`.
    pub fn enter(&mut self, position: u64)
        ensures
            final(self).wf(),
            final(self)@ == walk_enter(old(self)@, position),
    {
        self.expected = position;
        self.batch = None;
    }

    /// Ends a read that has no segment left.
    pub fn exhausted(&mut self, filter: &ResolvedFilter, head: u64)
        requires
            old(self).wf(),
        ensures
            final(self).wf(),
            final(self)@ == walk_exhausted(old(self)@, filter@, head),
    {
        let until: u64 = if filter.until < head {
            filter.until
        } else {
            head
        };
        self.finished = true;
        if self.continuation < until {
            self.continuation = until;
        }
    }

    fn begin(&mut self, filter: &ResolvedFilter, rec: &StoredRecord<'_>) -> (r: Result<Outcome>)
        requires
            old(self).wf(),
            rec@.kind is BatchBegin,
        ensures
            final(self).wf(),
            match walk_begin(old(self)@, filter@, rec@) {
                WalkStep::Fail(e) => r matches Err(error) && error@ == e && *final(self) == *old(self),
                WalkStep::Skip(w) => r matches Ok(Outcome::Skip) && final(self)@ == w,
                _ => false,
            },
    {
        if self.batch.is_some() || rec.position != self.expected {
            return Err(corrupt_sequence(rec.position, self.expected));
        }
        let check = if filter.verification == VerificationMode::BatchDigests {
            match parse_batch_control(rec.payload) {
                Err(e) => return Err(e),
                Ok((count, digest)) => Some(BatchCheck { count, digest, running: 0, bytes: Ghost(Seq::empty()) }),
            }
        } else {
            None
        };
        self.batch = Some(BatchTrack { first: rec.position, batch_id: rec.envelope.batch_id, seen: 0, check });
        Ok(Outcome::Skip)
    }

    fn commit(&mut self, rec: &StoredRecord<'_>) -> (r: Result<Outcome>)
        requires
            old(self).wf(),
            walk_room(old(self)@),
            rec@.kind is BatchCommit,
        ensures
            final(self).wf(),
            match walk_commit(old(self)@, rec@) {
                WalkStep::Fail(e) => r matches Err(error) && error@ == e && *final(self) == *old(self),
                WalkStep::Skip(w) => r matches Ok(Outcome::Skip) && final(self)@ == w,
                _ => false,
            },
    {
        let at: u64 = rec.position;
        let next: u64 = match &self.batch {
            None => return Err(corrupt(at, "batch commit without begin")),
            Some(batch) => {
                if at != batch.first || rec.envelope.batch_id != batch.batch_id {
                    return Err(corrupt(at, "batch commit does not match its begin"));
                }
                match &batch.check {
                    Some(check) => match parse_batch_control(rec.payload) {
                        Err(e) => return Err(e),
                        Ok((count, digest)) => {
                            let confirmed = count == check.count && digest == check.digest && batch.seen == check.count as u64
                                && check.running == check.digest;
                            if !confirmed {
                                return Err(corrupt(at, "batch digest verification failed"));
                            }
                        },
                    },
                    None => {},
                }
                if batch.seen == 0 {
                    return Err(corrupt(at, "batch committed zero events"));
                }
                batch.first + batch.seen
            },
        };
        self.batch = None;
        self.expected = next;
        Ok(Outcome::Skip)
    }

    fn filter(&mut self, filter: &ResolvedFilter, rec: &StoredRecord<'_>) -> (r: Outcome)
        requires
            old(self).wf(),
            selector_counts(filter@.selector),
            rec.position < u64::MAX,
            old(self)@.yielded < u64::MAX,
        ensures
            final(self).wf(),
            match walk_filter(old(self)@, filter@, rec@) {
                WalkStep::Finish(w) => r is Finish && final(self)@ == w,
                WalkStep::Skip(w) => r is Skip && final(self)@ == w,
                WalkStep::Match(w) => r is Match && final(self)@ == w,
                WalkStep::Fail(_) => false,
            },
    {
        let is_event = rec.kind == FrameKind::Event;
        if is_event && rec.position >= filter.until {
            self.finished = true;
            if self.continuation < filter.until {
                self.continuation = filter.until;
            }
            return Outcome::Finish;
        }
        if is_event && self.continuation < rec.position + 1 {
            self.continuation = rec.position + 1;
        }
        if filter.accepts(rec.kind, rec.position, &rec.envelope) {
            self.yielded = self.yielded + 1;
            Outcome::Match
        } else {
            Outcome::Skip
        }
    }

    fn event(&mut self, filter: &ResolvedFilter, rec: &StoredRecord<'_>, frame: &[u8]) -> (r: Result<Outcome>)
        requires
            old(self).wf(),
            walk_room(old(self)@),
            selector_counts(filter@.selector),
            rec@.kind is Event,
            frame@.len() > 0,
        ensures
            final(self).wf(),
            match walk_event(old(self)@, filter@, rec@, frame@) {
                WalkStep::Fail(e) => r matches Err(error) && error@ == e,
                WalkStep::Finish(w) => r matches Ok(Outcome::Finish) && final(self)@ == w,
                WalkStep::Skip(w) => r matches Ok(Outcome::Skip) && final(self)@ == w,
                WalkStep::Match(w) => r matches Ok(Outcome::Match) && final(self)@ == w,
            },
    {
        let ghost before = self@;
        match self.batch.take() {
            Some(batch) => {
                let mut batch = batch;
                let ghost track = batch@;
                let slot: u64 = batch.first + batch.seen;
                if rec.position != slot || rec.envelope.batch_id != batch.batch_id || rec.envelope.batch_index as u64 != batch.seen {
                    self.batch = Some(batch);
                    return Err(corrupt_sequence(rec.position, slot));
                }
                match batch.check.take() {
                    Some(check) => {
                        let mut check = check;
                        let ghost old_bytes = check.bytes@;
                        let running: u32 = crc32c_append(check.running, frame);
                        proof {
                            if old_bytes.len() == 0 {
                                assert(old_bytes + frame@ =~= frame@);
                            }
                        }
                        check.running = running;
                        check.bytes = Ghost(old_bytes + frame@);
                        batch.check = Some(check);
                    },
                    None => {},
                }
                batch.seen = batch.seen + 1;
                self.batch = Some(batch);
            },
            None => {
                if rec.position != self.expected {
                    return Err(corrupt_sequence(rec.position, self.expected));
                }
                self.expected = self.expected + 1;
            },
        }
        Ok(self.filter(filter, rec))
    }

    fn frame(&mut self, filter: &ResolvedFilter, rec: &StoredRecord<'_>, frame: &[u8]) -> (r: Result<Outcome>)
        requires
            old(self).wf(),
            walk_room(old(self)@),
            selector_counts(filter@.selector),
            frame@.len() > 0,
        ensures
            final(self).wf(),
            match walk_frame(old(self)@, filter@, rec@, frame@) {
                WalkStep::Fail(e) => r matches Err(error) && error@ == e,
                WalkStep::Finish(w) => r matches Ok(Outcome::Finish) && final(self)@ == w,
                WalkStep::Skip(w) => r matches Ok(Outcome::Skip) && final(self)@ == w,
                WalkStep::Match(w) => r matches Ok(Outcome::Match) && final(self)@ == w,
            },
    {
        match rec.kind {
            FrameKind::BatchBegin => self.begin(filter, rec),
            FrameKind::BatchCommit => self.commit(rec),
            FrameKind::System => {
                if self.batch.is_some() || rec.position != self.expected {
                    return Err(corrupt_sequence(rec.position, self.expected));
                }
                Ok(self.filter(filter, rec))
            },
            FrameKind::Event => self.event(filter, rec, frame),
        }
    }

    fn stop_at_end(&self, left: usize, closed: bool, seg_end: u64) -> (r: Result<()>)
        ensures
            match segment_stop(self@, left as int, closed, seg_end) {
                AdvanceView::SegmentEnd => r is Ok,
                AdvanceView::Fail(e) => r matches Err(error) && error@ == e,
                _ => false,
            },
    {
        if left != 0 && closed {
            return Err(
                SalamanderError::Corrupt {
                    offset: self.expected,
                    reason: join3("closed segment has ", decimal_string(left as u64).as_str(), " trailing byte(s)"),
                },
            );
        }
        if closed && self.expected < seg_end {
            return Err(
                SalamanderError::Corrupt {
                    offset: self.expected,
                    reason: join4(
                        "closed segment ended at position ",
                        decimal_string(self.expected).as_str(),
                        " before its recorded end ",
                        decimal_string(seg_end).as_str(),
                    ),
                },
            );
        }
        Ok(())
    }

    /// Looks at the unread bytes `avail` of a segment and takes at most one
    /// frame; see `advance_of`.
    pub fn advance<'a>(&mut self, filter: &ResolvedFilter, avail: &'a [u8], eof: bool, closed: bool, seg_end: u64) -> (r: Result<
        Advance<'a>,
    >)
        requires
            old(self).wf(),
            walk_room(old(self)@),
            selector_counts(filter@.selector),
        ensures
            final(self).wf(),
            match advance_of(old(self)@, filter@, avail@, eof, closed, seg_end) {
                AdvanceView::Need(n) => r matches Ok(Advance::Need(need)) && need == n && final(self)@ == old(self)@,
                AdvanceView::SegmentEnd => r matches Ok(Advance::SegmentEnd) && final(self)@ == old(self)@,
                AdvanceView::Finished(w) => r matches Ok(Advance::Finished) && final(self)@ == w,
                AdvanceView::Skipped(w, n) => r matches Ok(Advance::Skipped(used)) && used == n && final(self)@ == w && 32 <= n
                    <= avail@.len(),
                AdvanceView::Matched(w, rec, n) => r matches Ok(Advance::Matched(record, used)) && record@ == rec && used == n
                    && final(self)@ == w && 32 <= n <= avail@.len(),
                AdvanceView::Fail(e) => r matches Err(error) && error@ == e,
            },
    {
        if self.finished {
            return Ok(Advance::Finished);
        }
        match filter.max_events {
            Some(max) => {
                if self.yielded >= max {
                    self.finished = true;
                    return Ok(Advance::Finished);
                }
            },
            None => {},
        }
        if avail.len() < 32 {
            if !eof {
                return Ok(Advance::Need(32));
            }
            match self.stop_at_end(avail.len(), closed, seg_end) {
                Ok(()) => {},
                Err(e) => return Err(e),
            }
            return Ok(Advance::SegmentEnd);
        }
        let limits = FormatLimits::default();
        let total: usize = match frame_total_len(avail, limits) {
            Err(e) => return Err(e),
            Ok(None) => return Ok(Advance::Need(32)),
            Ok(Some(total)) => total,
        };
        if avail.len() < total {
            if !eof {
                return Ok(Advance::Need(total));
            }
            if closed {
                return Err(corrupt(self.expected, "closed segment ends mid-frame"));
            }
            return Ok(Advance::SegmentEnd);
        }
        proof {
            reveal(record_decoding);
            crate::format::frame::lemma_sizing_agrees(avail@, default_limits());
        }
        match crate::format::frame::decode(avail, limits) {
            Err(e) => Err(e),
            Ok(None) => Ok(Advance::Need(total)),
            Ok(Some((record, used))) => {
                let frame = slice_subrange(avail, 0, used);
                assert(frame@ =~= avail@.take(used as int));
                match self.frame(filter, &record, frame) {
                    Err(e) => Err(e),
                    Ok(Outcome::Finish) => Ok(Advance::Finished),
                    Ok(Outcome::Skip) => Ok(Advance::Skipped(used)),
                    Ok(Outcome::Match) => Ok(Advance::Matched(record, used)),
                }
            },
        }
    }
}

/// The unread bytes of a segment, as they come in piece by piece. What has been
/// read is let go when more comes in, so no more is held than one piece and
/// one frame.
#[derive(Debug)]
pub struct SegmentCursor {
    buf: Vec<u8>,
    start: usize,
    eof: bool,
}

impl View for SegmentCursor {
    type V = Seq<u8>;

    closed spec fn view(&self) -> Seq<u8> {
        self.buf@.skip(self.start as int)
    }
}

impl SegmentCursor {
    /// Whether the unread bytes lie in the buffer.
    pub closed spec fn wf(&self) -> bool {
        self.start <= self.buf@.len()
    }

    /// How many bytes are held.
    pub closed spec fn held(&self) -> nat {
        self.buf@.len()
    }

    /// Whether the segment has no more bytes to come.
    pub closed spec fn at_end(&self) -> bool {
        self.eof
    }

    pub fn new() -> (r: Self)
        ensures
            r.wf(),
            r@ == Seq::<u8>::empty(),
            r.held() == 0,
            !r.at_end(),
    {
        let r = SegmentCursor { buf: Vec::new(), start: 0, eof: false };
        assert(r@ =~= Seq::<u8>::empty());
        r
    }

    /// The unread bytes.
    pub fn available(&self) -> (r: &[u8])
        requires
            self.wf(),
        ensures
            r@ == self@,
    {
        let r = slice_subrange(self.buf.as_slice(), self.start, self.buf.len());
        assert(r@ =~= self@);
        r
    }

    pub fn is_at_end(&self) -> (r: bool)
        ensures
            r == self.at_end(),
    {
        self.eof
    }

    /// How many bytes to bring so that `need` are there: a whole piece, or
    /// what is missing where that is more.
    pub fn wanted(&self, need: usize) -> (n: usize)
        requires
            self.wf(),
        ensures
            n >= READ_CHUNK,
            self@.len() + n >= need,
            n > READ_CHUNK ==> self@.len() + n == need,
    {
        let have: usize = self.buf.len() - self.start;
        if need > have && need - have > READ_CHUNK {
            need - have
        } else {
            READ_CHUNK
        }
    }

    /// Takes in the next bytes of the segment; none means that it has ended.
    pub fn supply(&mut self, bytes: &[u8])
        requires
            old(self).wf(),
        ensures
            final(self).wf(),
            final(self)@ == old(self)@ + bytes@,
            final(self).held() == final(self)@.len(),
            final(self).at_end() == (old(self).at_end() || bytes@.len() == 0),
    {
        let mut rest = self.buf.split_off(self.start);
        assert(rest@ =~= old(self)@);
        crate::bytes::put(&mut rest, bytes);
        self.buf = rest;
        self.start = 0;
        if bytes.len() == 0 {
            self.eof = true;
        }
        assert(self@ =~= old(self)@ + bytes@);
    }

    /// Lets go of the next `n` bytes.
    pub fn consume(&mut self, n: usize)
        requires
            old(self).wf(),
            n <= old(self)@.len(),
        ensures
            final(self).wf(),
            final(self)@ == old(self)@.skip(n as int),
            final(self).held() == old(self).held(),
            final(self).at_end() == old(self).at_end(),
    {
        let end: usize = self.buf.len();
        assert(n <= end - self.start);
        self.start = self.start + n;
        assert(self@ =~= old(self)@.skip(n as int));
    }
}

/// What entering a closed segment comes to: nothing, where its sidecar proves
/// that nothing in it is selected, else the position and the byte to begin at.
pub open spec fn entry_of(f: FilterView, base: u64, sidecar: Option<crate::log::index::SidecarView>, r: Option<(u64, u64)>) -> bool {
    match sidecar {
        None => r == Some((base, 0u64)),
        Some(s) => if crate::log::select::skips_segment(f, s) {
            r is None
        } else if f.from <= base {
            r == Some((base, 0u64))
        } else if forall|i: int| 0 <= i < s.seek_points.len() ==> (#[trigger] s.seek_points[i]).0 > f.from {
            r == Some((base, 0u64))
        } else {
            r matches Some(point) && point.0 <= f.from && exists|k: int|
                0 <= k < s.seek_points.len() && #[trigger] s.seek_points[k] == point && (forall|i: int|
                    k < i < s.seek_points.len() ==> (#[trigger] s.seek_points[i]).0 > f.from)
        },
    }
}

/// Where to begin in the segment at `base`, or `None` where it can be skipped.
pub fn segment_entry(filter: &ResolvedFilter, base: u64, sidecar: Option<&crate::log::index::Sidecar>) -> (r: Option<(u64, u64)>)
    requires
        selector_counts(filter@.selector),
        sidecar matches Some(s) ==> crate::log::index::seek_sorted(s@.seek_points),
    ensures
        entry_of(
            filter@,
            base,
            match sidecar {
                Some(s) => Some(s@),
                None => None,
            },
            r,
        ),
{
    match sidecar {
        None => Some((base, 0)),
        Some(s) => {
            if filter.skippable(s) {
                return None;
            }
            if filter.from > base {
                match s.seek_point_before(filter.from) {
                    Some(point) => {
                        proof {
                            let k = choose|k: int|
                                0 <= k < s@.seek_points.len() && #[trigger] s@.seek_points[k] == point && (forall|i: int|
                                    k < i < s@.seek_points.len() ==> (#[trigger] s@.seek_points[i]).0 > filter.from);
                            assert(s@.seek_points[k].0 <= filter.from);
                        }
                        return Some(point);
                    },
                    None => {},
                }
            }
            Some((base, 0))
        },
    }
}

} // verus!
