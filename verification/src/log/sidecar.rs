//! Building a segment's sidecar by one walk over its bytes, and the promise
//! that a sidecar saves work without changing an answer.
use crate::bytes::{lemma_lex_asymmetric, lemma_lex_total, lemma_lex_transitive, lex_lt};
use crate::checksum::crc32c_of;
use crate::error::{corrupt, ErrorView, Result};
use crate::format::envelope::{default_limits, FormatLimits};
use crate::format::frame::{frame_sizing, frame_total_len, FrameKind, RecordView, StoredRecord};
use crate::format::ids::StreamId;
use crate::log::index::{
    posting_views, postings_sorted, seek_sorted, sidecar_sorted, PostingEntry, PostingView, Sidecar, SidecarView,
    SEEK_POINT_SPACING,
};
use crate::log::reader::{corrupt_sequence, sequence_error, walk_enter, walk_start, WalkView};
use crate::log::record::{lemma_record_read, log_record, record_decoding};
use crate::log::recovery::{all_written, lemma_log_prefix, lemma_whole_frame, log_bytes, state_after, write_events, LogWrite};
use crate::log::replay::{
    chosen, consecutive, lemma_batch_begin_place, lemma_batch_commit_place, lemma_batch_event_place, lemma_boundary_read,
    lemma_log_consecutive, lemma_write_place, reads_as, segment_read,
};
use crate::log::segment::{control_encoding, control_envelope, control_payload, events_encoding, EventView};
use crate::log::select::{covers, is_posted, FilterView};
use vstd::prelude::*;
use vstd::slice::slice_subrange;

verus! {

/// The postings after one more event of `stream` at `position`.
pub open spec fn posted(postings: Seq<PostingView>, stream: Seq<u8>, position: u64) -> Seq<PostingView>
    decreases postings.len(),
{
    let fresh = PostingView { stream, first: position, last: position, count: 1 };
    if postings.len() == 0 {
        seq![fresh]
    } else {
        let end = postings.last();
        if end.stream == stream {
            postings.drop_last().push(PostingView { last: position, count: (end.count + 1) as u64, ..end })
        } else if lex_lt(end.stream, stream) {
            postings.push(fresh)
        } else {
            posted(postings.drop_last(), stream, position).push(end)
        }
    }
}

/// How far the walk over a segment has come.
#[verifier::ext_equal]
pub struct BuildView {
    pub pos: int,
    pub expected: int,
    /// The first position of an open batch and how many events it has so far.
    pub batch: Option<(int, int)>,
    pub min_ts: i64,
    pub max_ts: i64,
    pub system: int,
    pub seeks: Seq<(u64, u64)>,
    pub last_seek: int,
    pub postings: Seq<PostingView>,
}

/// What one frame does to the walk.
pub enum BuildStep {
    More(BuildView),
    Done,
    Fail(ErrorView),
}

/// The walk before a frame, with a seek point added where the last one is far
/// enough behind and no batch is open.
pub open spec fn with_seek(b: BuildView) -> BuildView {
    if b.batch is None && b.pos > 0 && b.pos - b.last_seek >= SEEK_POINT_SPACING {
        BuildView { seeks: b.seeks.push((b.expected as u64, b.pos as u64)), last_seek: b.pos, ..b }
    } else {
        b
    }
}

/// What the frame `rec`, which ends at `end`, does to the walk.
pub open spec fn build_frame(b: BuildView, rec: RecordView, end: int) -> BuildStep {
    let at = rec.position;
    match rec.kind {
        FrameKind::BatchBegin => if b.batch is Some || at != b.expected {
            BuildStep::Fail(sequence_error(at, b.expected))
        } else {
            BuildStep::More(BuildView { pos: end, batch: Some((at as int, 0)), ..b })
        },
        FrameKind::BatchCommit => match b.batch {
            None => BuildStep::Fail(ErrorView::Corrupt { offset: at, reason: "batch commit without begin"@ }),
            Some((first, seen)) => if at != first || seen == 0 {
                BuildStep::Fail(sequence_error(at, first))
            } else {
                BuildStep::More(BuildView { pos: end, batch: None, expected: first + seen, ..b })
            },
        },
        FrameKind::System => if b.batch is Some || at != b.expected {
            BuildStep::Fail(sequence_error(at, b.expected))
        } else {
            BuildStep::More(BuildView { pos: end, system: b.system + 1, ..b })
        },
        FrameKind::Event => {
            let slot = match b.batch {
                Some((first, seen)) => first + seen,
                None => b.expected,
            };
            let ts = rec.envelope.timestamp;
            if at != slot {
                BuildStep::Fail(sequence_error(at, slot))
            } else {
                BuildStep::More(
                    BuildView {
                        pos: end,
                        expected: if b.batch is None {
                            b.expected + 1
                        } else {
                            b.expected
                        },
                        batch: match b.batch {
                            Some((first, seen)) => Some((first, seen + 1)),
                            None => None,
                        },
                        min_ts: if ts < b.min_ts {
                            ts
                        } else {
                            b.min_ts
                        },
                        max_ts: if ts > b.max_ts {
                            ts
                        } else {
                            b.max_ts
                        },
                        postings: posted(b.postings, rec.envelope.stream_id, at),
                        ..b
                    },
                )
            }
        },
    }
}

/// One step of the walk.
pub open spec fn build_step(bytes: Seq<u8>, b: BuildView) -> BuildStep {
    let rest = bytes.skip(b.pos);
    if rest.len() < 32 {
        if rest.len() > 0 {
            BuildStep::Fail(ErrorView::Corrupt { offset: b.expected as u64, reason: "segment has trailing bytes"@ })
        } else if b.batch is Some {
            BuildStep::Fail(
                ErrorView::Corrupt { offset: b.expected as u64, reason: "segment ends inside an uncommitted batch"@ },
            )
        } else {
            BuildStep::Done
        }
    } else {
        match frame_sizing(rest, default_limits()) {
            Err(e) => BuildStep::Fail(e),
            Ok(None) => BuildStep::Done,
            Ok(Some(total)) => if rest.len() < total {
                BuildStep::Fail(ErrorView::Corrupt { offset: b.expected as u64, reason: "segment ends mid-frame"@ })
            } else {
                match record_decoding(rest) {
                    Err(e) => BuildStep::Fail(e),
                    Ok(None) => BuildStep::Done,
                    Ok(Some((rec, n))) => build_frame(with_seek(b), rec, b.pos + n),
                }
            },
        }
    }
}

/// What the walk from `b` on comes to.
pub open spec fn build_from(bytes: Seq<u8>, b: BuildView, base: u64) -> core::result::Result<SidecarView, ErrorView>
    decreases bytes.len() - b.pos,
{
    if !(0 <= b.pos <= bytes.len()) {
        Err(arbitrary())
    } else {
        match build_step(bytes, b) {
            BuildStep::More(next) => {
                proof {
                    lemma_record_read(bytes.skip(b.pos));
                }
                build_from(bytes, next, base)
            },
            BuildStep::Done => Ok(
                SidecarView {
                    base,
                    end: b.expected as u64,
                    min_ts: b.min_ts,
                    max_ts: b.max_ts,
                    system_frames: b.system as u64,
                    seek_points: b.seeks,
                    postings: b.postings,
                },
            ),
            BuildStep::Fail(e) => Err(e),
        }
    }
}

/// Where the walk begins.
pub open spec fn build_start(base: u64) -> BuildView {
    BuildView {
        pos: 0,
        expected: base as int,
        batch: None,
        min_ts: i64::MAX,
        max_ts: i64::MIN,
        system: 0,
        seeks: seq![(base, 0u64)],
        last_seek: 0,
        postings: Seq::empty(),
    }
}

/// The sidecar of the segment that begins at `base`.
pub open spec fn sidecar_of(bytes: Seq<u8>, base: u64) -> core::result::Result<SidecarView, ErrorView> {
    build_from(bytes, build_start(base), base)
}

/// Positions and counts never outrun bytes.
pub open spec fn build_bounded(b: BuildView, base: int) -> bool {
    &&& base <= b.expected
    &&& 0 <= b.last_seek <= b.pos
    &&& 0 <= b.system <= b.pos
    &&& match b.batch {
        Some((first, seen)) => first == b.expected && 0 <= seen && b.expected - base + seen <= b.pos,
        None => b.expected - base <= b.pos,
    }
    &&& forall|i: int| 0 <= i < b.postings.len() ==> (#[trigger] b.postings[i]).count <= b.pos
}

/// What holds of the postings after one more event.
#[verifier::spinoff_prover]
#[verifier::rlimit(40)]
pub proof fn lemma_posted(postings: Seq<PostingView>, stream: Seq<u8>, position: u64, limit: int)
    requires
        postings_sorted(postings),
        0 <= limit < u64::MAX,
        forall|i: int| 0 <= i < postings.len() ==> (#[trigger] postings[i]).count <= limit,
    ensures
        postings_sorted(posted(postings, stream, position)),
        forall|i: int| 0 <= i < posted(postings, stream, position).len() ==> (#[trigger] posted(postings, stream, position)[i]).count
            <= limit + 1,
        exists|k: int| 0 <= k < posted(postings, stream, position).len() && (#[trigger] posted(postings, stream, position)[k]).stream == stream,
        forall|i: int|
            0 <= i < postings.len() ==> exists|k: int|
                0 <= k < posted(postings, stream, position).len() && (#[trigger] posted(postings, stream, position)[k]).stream == (
                #[trigger] postings[i]).stream,
        forall|k: int|
            0 <= k < posted(postings, stream, position).len() ==> (#[trigger] posted(postings, stream, position)[k]).stream == stream || exists|i: int|
                0 <= i < postings.len() && (#[trigger] postings[i]).stream == posted(postings, stream, position)[k].stream,
    decreases postings.len(),
{
    let out = posted(postings, stream, position);
    if postings.len() == 0 {
        assert(out[0].stream == stream);
    } else {
        let end = postings.last();
        let n = postings.len() - 1;
        assert(end.count <= limit) by {
            assert(postings[n].count <= limit);
        }
        if end.stream == stream {
            assert(out[n].stream == stream);
            assert forall|i: int, j: int| 0 <= i < j < out.len() implies lex_lt((#[trigger] out[i]).stream, (#[trigger] out[j]).stream) by {
                assert(out[i].stream == postings[i].stream && out[j].stream == postings[j].stream);
            }
            assert forall|i: int| 0 <= i < postings.len() implies exists|k: int|
                0 <= k < out.len() && (#[trigger] out[k]).stream == (#[trigger] postings[i]).stream by {
                assert(out[i].stream == postings[i].stream);
            }
            assert forall|k: int| 0 <= k < out.len() implies (#[trigger] out[k]).stream == stream || exists|i: int|
                0 <= i < postings.len() && (#[trigger] postings[i]).stream == out[k].stream by {
                assert(out[k].stream == postings[k].stream);
            }
        } else if lex_lt(end.stream, stream) {
            assert(out[n + 1].stream == stream);
            assert forall|i: int, j: int| 0 <= i < j < out.len() implies lex_lt((#[trigger] out[i]).stream, (#[trigger] out[j]).stream) by {
                assert(out[i] == postings[i]);
                if j <= n {
                    assert(out[j] == postings[j]);
                } else if i < n {
                    assert(lex_lt(postings[i].stream, postings[n].stream));
                    lemma_lex_transitive(postings[i].stream, end.stream, stream);
                }
            }
            assert forall|i: int| 0 <= i < postings.len() implies exists|k: int|
                0 <= k < out.len() && (#[trigger] out[k]).stream == (#[trigger] postings[i]).stream by {
                assert(out[i].stream == postings[i].stream);
            }
            assert forall|k: int| 0 <= k < out.len() implies (#[trigger] out[k]).stream == stream || exists|i: int|
                0 <= i < postings.len() && (#[trigger] postings[i]).stream == out[k].stream by {
                if k <= n {
                    assert(out[k].stream == postings[k].stream);
                }
            }
        } else {
            let front = postings.drop_last();
            let inner = posted(front, stream, position);
            assert forall|i: int| 0 <= i < front.len() implies (#[trigger] front[i]).count <= limit by {
                assert(front[i] == postings[i]);
            }
            assert(postings_sorted(front)) by {
                assert forall|i: int, j: int| 0 <= i < j < front.len() implies lex_lt((#[trigger] front[i]).stream, (#[trigger] front[j]).stream) by {
                    assert(front[i] == postings[i] && front[j] == postings[j]);
                }
            }
            lemma_posted(front, stream, position, limit);
            lemma_lex_total(end.stream, stream);
            assert(lex_lt(stream, end.stream));
            let m = inner.len() as int;
            assert(out[m] == end);
            assert forall|i: int, j: int| 0 <= i < j < out.len() implies lex_lt((#[trigger] out[i]).stream, (#[trigger] out[j]).stream) by {
                assert(out[i] == inner[i]);
                if j < m {
                    assert(out[j] == inner[j]);
                } else if inner[i].stream != stream {
                    let p = choose|p: int| 0 <= p < front.len() && (#[trigger] front[p]).stream == inner[i].stream;
                    assert(front[p] == postings[p]);
                    assert(lex_lt(postings[p].stream, postings[n].stream));
                }
            }
            let q = choose|q: int| 0 <= q < inner.len() && (#[trigger] inner[q]).stream == stream;
            assert(out[q] == inner[q]);
            assert forall|i: int| 0 <= i < out.len() implies (#[trigger] out[i]).count <= limit + 1 by {
                if i < m {
                    assert(out[i] == inner[i]);
                }
            }
            assert forall|i: int| 0 <= i < postings.len() implies exists|k: int|
                0 <= k < out.len() && (#[trigger] out[k]).stream == (#[trigger] postings[i]).stream by {
                if i == n {
                    assert(out[m].stream == postings[i].stream);
                } else {
                    assert(front[i] == postings[i]);
                    let k = choose|k: int| 0 <= k < inner.len() && (#[trigger] inner[k]).stream == front[i].stream;
                    assert(out[k] == inner[k]);
                }
            }
            assert forall|k: int| 0 <= k < out.len() implies (#[trigger] out[k]).stream == stream || exists|i: int|
                0 <= i < postings.len() && (#[trigger] postings[i]).stream == out[k].stream by {
                if k == m {
                    assert(postings[n].stream == out[k].stream);
                } else {
                    assert(out[k] == inner[k]);
                    if inner[k].stream != stream {
                        let p = choose|p: int| 0 <= p < front.len() && (#[trigger] front[p]).stream == inner[k].stream;
                        assert(front[p] == postings[p]);
                    }
                }
            }
        }
    }
}

/// Where the posting of `stream` is or belongs.
proof fn lemma_posted_at(postings: Seq<PostingView>, stream: Seq<u8>, position: u64, at: int)
    requires
        0 <= at <= postings.len(),
        at == 0 || lex_lt(postings[at - 1].stream, stream),
        forall|j: int| at <= j < postings.len() ==> lex_lt(stream, (#[trigger] postings[j]).stream),
    ensures
        posted(postings, stream, position) == postings.insert(
            at,
            PostingView { stream, first: position, last: position, count: 1 },
        ),
    decreases postings.len(),
{
    let fresh = PostingView { stream, first: position, last: position, count: 1 };
    if postings.len() == 0 {
        assert(postings.insert(at, fresh) =~= seq![fresh]);
    } else if at == postings.len() {
        lemma_lex_asymmetric(postings.last().stream, stream);
        assert(postings.insert(at, fresh) =~= postings.push(fresh));
    } else {
        let front = postings.drop_last();
        assert(lex_lt(stream, postings[postings.len() - 1].stream));
        lemma_lex_asymmetric(stream, postings.last().stream);
        assert forall|j: int| at <= j < front.len() implies lex_lt(stream, (#[trigger] front[j]).stream) by {
            assert(front[j] == postings[j]);
        }
        lemma_posted_at(front, stream, position, at);
        assert(postings.insert(at, fresh) =~= front.insert(at, fresh).push(postings.last()));
    }
}

proof fn lemma_posted_over(postings: Seq<PostingView>, stream: Seq<u8>, position: u64, at: int)
    requires
        0 <= at < postings.len(),
        postings[at].stream == stream,
        forall|j: int| at < j < postings.len() ==> lex_lt(stream, (#[trigger] postings[j]).stream),
    ensures
        posted(postings, stream, position) == postings.update(
            at,
            PostingView { last: position, count: (postings[at].count + 1) as u64, ..postings[at] },
        ),
    decreases postings.len(),
{
    let changed = PostingView { last: position, count: (postings[at].count + 1) as u64, ..postings[at] };
    if at == postings.len() - 1 {
        assert(postings.update(at, changed) =~= postings.drop_last().push(changed));
    } else {
        let front = postings.drop_last();
        assert(lex_lt(stream, postings[postings.len() - 1].stream));
        lemma_lex_asymmetric(stream, postings.last().stream);
        assert forall|j: int| at < j < front.len() implies lex_lt(stream, (#[trigger] front[j]).stream) by {
            assert(front[j] == postings[j]);
        }
        lemma_posted_over(front, stream, position, at);
        assert(postings.update(at, changed) =~= front.update(at, changed).push(postings.last()));
    }
}

fn post(postings: &mut Vec<PostingEntry>, stream: StreamId, position: u64)
    requires
        forall|i: int| 0 <= i < old(postings)@.len() ==> (#[trigger] posting_views(old(postings)@)[i]).count < u64::MAX,
    ensures
        posting_views(final(postings)@) == posted(posting_views(old(postings)@), stream@, position),
{
    let ghost views = posting_views(postings@);
    let mut at: usize = postings.len();
    while at > 0 && stream.less(&postings[at - 1].stream)
        invariant
            at <= postings@.len(),
            views == posting_views(postings@),
            forall|j: int| at <= j < views.len() ==> lex_lt(stream@, (#[trigger] views[j]).stream),
        decreases at,
    {
        assert(views[at - 1] == postings@[at - 1]@);
        at = at - 1;
    }
    if at > 0 && postings[at - 1].stream == stream {
        let entry = postings[at - 1];
        proof {
            assert(views[at - 1] == entry@);
            lemma_posted_over(views, stream@, position, at - 1);
        }
        let changed = PostingEntry { stream: entry.stream, first: entry.first, last: position, count: entry.count + 1 };
        postings.set(at - 1, changed);
        assert(posting_views(postings@) =~= views.update(at - 1, changed@));
    } else {
        proof {
            if at > 0 {
                assert(views[at - 1] == postings@[at - 1]@);
                lemma_lex_total(views[at - 1].stream, stream@);
            }
            lemma_posted_at(views, stream@, position, at as int);
        }
        let fresh = PostingEntry { stream, first: position, last: position, count: 1 };
        postings.insert(at, fresh);
        assert(posting_views(postings@) =~= views.insert(at as int, fresh@));
    }
}

struct Build {
    pos: usize,
    expected: u64,
    batch: Option<(u64, u64)>,
    min_ts: i64,
    max_ts: i64,
    system: u64,
    seeks: Vec<(u64, u64)>,
    last_seek: usize,
    postings: Vec<PostingEntry>,
}

impl Build {
    spec fn view(&self) -> BuildView {
        BuildView {
            pos: self.pos as int,
            expected: self.expected as int,
            batch: match self.batch {
                Some((first, seen)) => Some((first as int, seen as int)),
                None => None,
            },
            min_ts: self.min_ts,
            max_ts: self.max_ts,
            system: self.system as int,
            seeks: self.seeks@,
            last_seek: self.last_seek as int,
            postings: posting_views(self.postings@),
        }
    }

    fn add_seek(&mut self)
        requires
            old(self)@.last_seek <= old(self)@.pos,
        ensures
            final(self)@ == with_seek(old(self)@),
    {
        if self.batch.is_none() && self.pos > 0 && (self.pos - self.last_seek) as u64 >= SEEK_POINT_SPACING {
            self.seeks.push((self.expected, self.pos as u64));
            self.last_seek = self.pos;
        }
    }

    fn event(&mut self, rec: &StoredRecord<'_>, end: usize, Ghost(base): Ghost<int>) -> (r: Result<()>)
        requires
            rec@.kind is Event,
            old(self)@.pos < end,
            build_bounded(old(self)@, base),
            postings_sorted(old(self)@.postings),
            base + end < u64::MAX,
            0 <= base,
        ensures
            match build_frame(old(self)@, rec@, end as int) {
                BuildStep::More(next) => r is Ok && final(self)@ == next && build_bounded(next, base) && postings_sorted(next.postings),
                BuildStep::Done => false,
                BuildStep::Fail(e) => r matches Err(error) && error@ == e,
            },
    {
        let slot: u64 = match self.batch {
            Some((first, seen)) => first + seen,
            None => self.expected,
        };
        if rec.position != slot {
            return Err(corrupt_sequence(rec.position, slot));
        }
        proof {
            lemma_posted(self@.postings, rec.envelope.stream_id@, rec.position, self@.pos);
        }
        let ts: i64 = rec.envelope.timestamp_unix_nanos;
        match self.batch {
            Some((first, seen)) => {
                self.batch = Some((first, seen + 1));
            },
            None => {
                self.expected = self.expected + 1;
            },
        }
        if ts < self.min_ts {
            self.min_ts = ts;
        }
        if ts > self.max_ts {
            self.max_ts = ts;
        }
        post(&mut self.postings, rec.envelope.stream_id, rec.position);
        self.pos = end;
        Ok(())
    }

    fn frame(&mut self, rec: &StoredRecord<'_>, end: usize, Ghost(base): Ghost<int>) -> (r: Result<()>)
        requires
            old(self)@.pos < end,
            build_bounded(old(self)@, base),
            postings_sorted(old(self)@.postings),
            base + end < u64::MAX,
            0 <= base,
        ensures
            match build_frame(old(self)@, rec@, end as int) {
                BuildStep::More(next) => r is Ok && final(self)@ == next && build_bounded(next, base) && postings_sorted(next.postings),
                BuildStep::Done => false,
                BuildStep::Fail(e) => r matches Err(error) && error@ == e,
            },
    {
        let at: u64 = rec.position;
        match rec.kind {
            FrameKind::BatchBegin => {
                if self.batch.is_some() || at != self.expected {
                    return Err(corrupt_sequence(at, self.expected));
                }
                self.batch = Some((at, 0));
                self.pos = end;
                Ok(())
            },
            FrameKind::BatchCommit => match self.batch {
                None => Err(corrupt(at, "batch commit without begin")),
                Some((first, seen)) => {
                    if at != first || seen == 0 {
                        return Err(corrupt_sequence(at, first));
                    }
                    self.batch = None;
                    self.expected = first + seen;
                    self.pos = end;
                    Ok(())
                },
            },
            FrameKind::System => {
                if self.batch.is_some() || at != self.expected {
                    return Err(corrupt_sequence(at, self.expected));
                }
                self.system = self.system + 1;
                self.pos = end;
                Ok(())
            },
            FrameKind::Event => self.event(rec, end, Ghost(base)),
        }
    }
}

/// Builds the sidecar of the segment whose bytes are `bytes`. A damaged segment
/// gets none.
pub fn build_sidecar(bytes: &[u8], base: u64) -> (r: Result<Sidecar>)
    requires
        base + bytes@.len() < u64::MAX,
    ensures
        match sidecar_of(bytes@, base) {
            Ok(s) => r matches Ok(sidecar) && sidecar@ == s,
            Err(e) => r matches Err(error) && error@ == e,
        },
{
    let mut seeks: Vec<(u64, u64)> = Vec::new();
    seeks.push((base, 0));
    let mut b = Build {
        pos: 0,
        expected: base,
        batch: None,
        min_ts: i64::MAX,
        max_ts: i64::MIN,
        system: 0,
        seeks,
        last_seek: 0,
        postings: Vec::new(),
    };
    assert(b@ =~= build_start(base)) by {
        assert(posting_views(b.postings@) =~= Seq::empty());
        assert(b.seeks@ =~= seq![(base, 0u64)]);
    }
    let limits = FormatLimits::default();
    loop
        invariant
            base + bytes@.len() < u64::MAX,
            limits == default_limits(),
            0 <= b@.pos <= bytes@.len(),
            build_bounded(b@, base as int),
            postings_sorted(b@.postings),
            sidecar_of(bytes@, base) == build_from(bytes@, b@, base),
        ensures
            build_step(bytes@, b@) is Done,
        decreases bytes@.len() - b@.pos,
    {
        let ghost before = b@;
        let rest = slice_subrange(bytes, b.pos, bytes.len());
        assert(rest@ =~= bytes@.skip(before.pos));
        proof {
            lemma_record_read(rest@);
        }
        if rest.len() < 32 {
            if rest.len() > 0 {
                return Err(corrupt(b.expected, "segment has trailing bytes"));
            }
            if b.batch.is_some() {
                return Err(corrupt(b.expected, "segment ends inside an uncommitted batch"));
            }
            break;
        }
        let total: usize = match frame_total_len(rest, limits) {
            Err(e) => return Err(e),
            Ok(None) => break,
            Ok(Some(total)) => total,
        };
        if rest.len() < total {
            return Err(corrupt(b.expected, "segment ends mid-frame"));
        }
        proof {
            reveal(record_decoding);
        }
        match crate::format::frame::decode(rest, limits) {
            Err(e) => return Err(e),
            Ok(None) => break,
            Ok(Some((rec, used))) => {
                let end: usize = b.pos + used;
                b.add_seek();
                match b.frame(&rec, end, Ghost(base as int)) {
                    Err(e) => return Err(e),
                    Ok(()) => {},
                }
            },
        }
    }
    Ok(
        Sidecar {
            base,
            end: b.expected,
            min_ts: b.min_ts,
            max_ts: b.max_ts,
            system_frames: b.system,
            seek_points: b.seeks,
            postings: b.postings,
        },
    )
}

/// Whether every seek point names the byte and the position where one of the
/// writes begins.
pub open spec fn seeks_at_writes(seeks: Seq<(u64, u64)>, ws: Seq<LogWrite>, base: int) -> bool {
    forall|i: int| 0 <= i < seeks.len() ==> names_write(#[trigger] seeks[i], ws, base)
}

/// Whether a seek point names where one of the writes begins.
pub open spec fn names_write(point: (u64, u64), ws: Seq<LogWrite>, base: int) -> bool {
    exists|k: int| 0 <= k <= ws.len() && #[trigger] seek_at(point, ws, base, k)
}

/// Whether a seek point names where write `k` begins.
pub open spec fn seek_at(point: (u64, u64), ws: Seq<LogWrite>, base: int, k: int) -> bool {
    let s = state_after(ws.take(k), base);
    point.0 == s.next && point.1 == s.pos
}

/// What is known of the walk after the events `records` and `system` system
/// frames.
#[verifier::opaque]
spec fn collected(b: BuildView, records: Seq<RecordView>, system: int, ws: Seq<LogWrite>, base: int) -> bool {
    &&& forall|i: int| 0 <= i < records.len() ==> is_posted(b.postings, (#[trigger] records[i]).envelope.stream_id)
    &&& forall|i: int| 0 <= i < records.len() ==> b.min_ts <= (#[trigger] records[i]).envelope.timestamp <= b.max_ts
    &&& b.system == system
    &&& b.seeks.len() > 0
    &&& seek_sorted(b.seeks)
    &&& b.seeks.last().0 <= b.expected
    &&& postings_sorted(b.postings)
    &&& seeks_at_writes(b.seeks, ws, base)
    &&& build_bounded(b, base)
}

proof fn lemma_posted_keeps(postings: Seq<PostingView>, stream: Seq<u8>, position: u64, limit: int, other: Seq<u8>)
    requires
        postings_sorted(postings),
        0 <= limit < u64::MAX,
        forall|i: int| 0 <= i < postings.len() ==> (#[trigger] postings[i]).count <= limit,
        other == stream || is_posted(postings, other),
    ensures
        is_posted(posted(postings, stream, position), other),
{
    reveal(is_posted);
    lemma_posted(postings, stream, position, limit);
    if other != stream {
        let i = choose|i: int| 0 <= i < postings.len() && (#[trigger] postings[i]).stream == other;
        assert(postings[i].stream == other);
    }
}

proof fn lemma_collect_event(b: BuildView, records: Seq<RecordView>, system: int, ws: Seq<LogWrite>, base: int, rec: RecordView, end: int)
    requires
        0 <= base,
        collected(b, records, system, ws, base),
        rec.kind is Event,
        0 <= b.pos < end <= u64::MAX,
        build_frame(b, rec, end) is More,
    ensures
        collected(build_frame(b, rec, end)->More_0, records.push(rec), system, ws, base),
{
    reveal(collected);
    let next = build_frame(b, rec, end)->More_0;
    let all = records.push(rec);
    assert forall|i: int| 0 <= i < all.len() implies is_posted(next.postings, (#[trigger] all[i]).envelope.stream_id) by {
        if i < records.len() {
            assert(is_posted(b.postings, records[i].envelope.stream_id));
        }
        lemma_posted_keeps(b.postings, rec.envelope.stream_id, rec.position, b.pos, all[i].envelope.stream_id);
    }
    assert forall|i: int| 0 <= i < all.len() implies next.min_ts <= (#[trigger] all[i]).envelope.timestamp <= next.max_ts by {
        if i < records.len() {
            assert(all[i] == records[i]);
        }
    }
    assert(postings_sorted(next.postings) && build_bounded(next, base)) by {
        lemma_posted(b.postings, rec.envelope.stream_id, rec.position, b.pos);
    }
}

/// A frame that is no event leaves what was collected as it is.
proof fn lemma_collect_control(b: BuildView, next: BuildView, records: Seq<RecordView>, system: int, more: int, ws: Seq<LogWrite>, base: int)
    requires
        collected(b, records, system, ws, base),
        0 <= more <= 1,
        next.postings == b.postings,
        next.seeks == b.seeks,
        next.last_seek == b.last_seek,
        next.min_ts == b.min_ts,
        next.max_ts == b.max_ts,
        next.system == b.system + more,
        next.pos > b.pos,
        next.expected >= b.expected,
        match next.batch {
            Some((first, seen)) => first == next.expected && 0 <= seen && next.expected - base + seen <= next.pos,
            None => next.expected - base <= next.pos,
        },
    ensures
        collected(next, records, system + more, ws, base),
{
    reveal(collected);
}

proof fn lemma_collected_bounds(b: BuildView, records: Seq<RecordView>, system: int, ws: Seq<LogWrite>, base: int)
    requires
        collected(b, records, system, ws, base),
    ensures
        build_bounded(b, base),
        b.system == system,
{
    reveal(collected);
}

/// A seek point that is added between two writes names the second.
proof fn lemma_collect_seek(b: BuildView, records: Seq<RecordView>, system: int, ws: Seq<LogWrite>, base: int, k: int)
    requires
        collected(b, records, system, ws, base),
        0 <= k <= ws.len(),
        b.batch is None,
        b.pos == state_after(ws.take(k), base).pos,
        b.expected == state_after(ws.take(k), base).next,
        0 <= b.pos <= u64::MAX,
        0 <= b.expected <= u64::MAX,
    ensures
        collected(with_seek(b), records, system, ws, base),
{
    reveal(collected);
    let next = with_seek(b);
    assert forall|i: int| 0 <= i < next.seeks.len() implies names_write(#[trigger] next.seeks[i], ws, base) by {
        if i < b.seeks.len() {
            assert(next.seeks[i] == b.seeks[i]);
        } else {
            assert(seek_at(next.seeks[i], ws, base, k));
        }
    }
    assert forall|i: int, j: int| 0 <= i < j < next.seeks.len() implies (#[trigger] next.seeks[i]).0 <= (#[trigger] next.seeks[j]).0 by {
        if j == b.seeks.len() {
            assert(b.seeks[b.seeks.len() - 1].0 <= b.expected);
            if i < b.seeks.len() - 1 {
                assert(b.seeks[i].0 <= b.seeks[b.seeks.len() - 1].0);
            }
        }
    }
    assert(next.seeks.last().0 <= next.expected);
}

proof fn lemma_build_step_frame(bytes: Seq<u8>, b: BuildView, rec: RecordView, n: int)
    requires
        0 <= b.pos <= bytes.len(),
        record_decoding(bytes.skip(b.pos)) == Ok::<Option<(RecordView, int)>, ErrorView>(Some((rec, n))),
    ensures
        32 <= n <= bytes.len() - b.pos,
        build_step(bytes, b) == build_frame(with_seek(b), rec, b.pos + n),
{
    reveal(record_decoding);
    lemma_record_read(bytes.skip(b.pos));
    crate::format::frame::lemma_sizing_agrees(bytes.skip(b.pos), default_limits());
}

/// Whether the walk came to a sidecar that covers the whole log.
spec fn built_well(result: core::result::Result<SidecarView, ErrorView>, ws: Seq<LogWrite>, base: int) -> bool {
    let s = state_after(ws, base);
    match result {
        Err(_) => false,
        Ok(sc) => {
            &&& sc.base == base
            &&& sc.end == s.next
            &&& sidecar_sorted(sc)
            &&& covers(sc, s.records, s.system.len() as int)
            &&& seeks_at_writes(sc.seek_points, ws, base)
        },
    }
}

proof fn lemma_build_boundary(ws: Seq<LogWrite>, base: int, k: int, b: BuildView)
    requires
        all_written(ws, base),
        log_bytes(ws, base).len() <= usize::MAX,
        0 <= k <= ws.len(),
        b.batch is None,
        b.pos == state_after(ws.take(k), base).pos,
        b.expected == state_after(ws.take(k), base).next,
        collected(b, state_after(ws.take(k), base).records, state_after(ws.take(k), base).system.len() as int, ws, base),
    ensures
        built_well(build_from(log_bytes(ws, base), b, base as u64), ws, base),
    decreases ws.len() - k, 1int, 0int,
{
    let bytes = log_bytes(ws, base);
    let s = state_after(ws.take(k), base);
    lemma_log_prefix(ws, base, k);
    lemma_log_prefix(ws, base, 0);
    if k == ws.len() {
        assert(ws.take(k) =~= ws);
        assert(bytes.skip(b.pos).len() == 0);
        assert(build_step(bytes, b) is Done);
        reveal(collected);
    } else {
        lemma_write_place(ws, base, k);
        lemma_collect_seek(b, s.records, s.system.len() as int, ws, base, k);
        lemma_collected_bounds(b, s.records, s.system.len() as int, ws, base);
        let c = with_seek(b);
        let t = state_after(ws.take(k + 1), base);
        match ws[k] {
            LogWrite::System(event) => {
                lemma_whole_frame(bytes, s.pos, FrameKind::System, s.next as u64, event);
                let rec = log_record(FrameKind::System, s.next as u64, event.0, event.1);
                lemma_build_step_frame(bytes, b, rec, t.pos - s.pos);
                let next = BuildView { pos: t.pos, system: c.system + 1, ..c };
                assert(build_step(bytes, b) == BuildStep::More(next));
                assert(t.records =~= s.records);
                assert(ws.take(k + 1).drop_last() =~= ws.take(k));
                assert(t.system.len() == s.system.len() + 1);
                lemma_collect_control(c, next, s.records, s.system.len() as int, 1, ws, base);
                lemma_build_boundary(ws, base, k + 1, next);
            },
            LogWrite::Event(event) => {
                lemma_whole_frame(bytes, s.pos, FrameKind::Event, s.next as u64, event);
                let rec = log_record(FrameKind::Event, s.next as u64, event.0, event.1);
                lemma_build_step_frame(bytes, b, rec, t.pos - s.pos);
                lemma_collect_event(c, s.records, s.system.len() as int, ws, base, rec, t.pos);
                assert(t.records =~= s.records.push(rec));
                assert(ws.take(k + 1).drop_last() =~= ws.take(k));
                assert(t.system.len() == s.system.len());
                lemma_build_boundary(ws, base, k + 1, build_frame(c, rec, t.pos)->More_0);
            },
            LogWrite::Batch(events) => {
                lemma_batch_begin_place(ws, base, k, events);
                let count = events.len() as u32;
                let digest = crc32c_of(events_encoding(s.next, events)->Ok_0);
                let begin = control_encoding(FrameKind::BatchBegin, s.next, events[0].0, count, digest)->Ok_0;
                let rec = log_record(
                    FrameKind::BatchBegin,
                    s.next as u64,
                    control_envelope(events[0].0, count, digest),
                    control_payload(count, digest),
                );
                lemma_build_step_frame(bytes, b, rec, begin.len() as int);
                let next = BuildView { pos: s.pos + begin.len(), batch: Some((s.next, 0int)), ..c };
                assert(build_step(bytes, b) == BuildStep::More(next));
                lemma_collect_control(c, next, s.records, s.system.len() as int, 0, ws, base);
                assert(events.take(0) =~= Seq::empty());
                assert(s.records =~= s.records + write_events(ws[k], s.next).take(0));
                lemma_build_batch(ws, base, k, events, 0, next);
            },
        }
    }
}

proof fn lemma_build_batch(ws: Seq<LogWrite>, base: int, k: int, events: Seq<EventView>, j: int, b: BuildView)
    requires
        all_written(ws, base),
        log_bytes(ws, base).len() <= usize::MAX,
        0 <= k < ws.len(),
        ws[k] == LogWrite::Batch(events),
        0 <= j <= events.len(),
        ({
            let s = state_after(ws.take(k), base);
            let count = events.len() as u32;
            let digest = crc32c_of(events_encoding(s.next, events)->Ok_0);
            let begin = control_encoding(FrameKind::BatchBegin, s.next, events[0].0, count, digest)->Ok_0;
            &&& b.batch == Some((s.next, j))
            &&& b.expected == s.next
            &&& b.pos == s.pos + begin.len() + events_encoding(s.next, events.take(j))->Ok_0.len()
            &&& collected(b, s.records + write_events(ws[k], s.next).take(j), s.system.len() as int, ws, base)
        }),
    ensures
        built_well(build_from(log_bytes(ws, base), b, base as u64), ws, base),
    decreases ws.len() - k, 0int, events.len() - j,
{
    let bytes = log_bytes(ws, base);
    let s = state_after(ws.take(k), base);
    let t = state_after(ws.take(k + 1), base);
    lemma_write_place(ws, base, k);
    lemma_log_prefix(ws, base, 0);
    let body = events_encoding(s.next, events)->Ok_0;
    let count = events.len() as u32;
    let digest = crc32c_of(body);
    let begin = control_encoding(FrameKind::BatchBegin, s.next, events[0].0, count, digest)->Ok_0;
    let commit = control_encoding(FrameKind::BatchCommit, s.next, events[0].0, count, digest)->Ok_0;
    let records = write_events(ws[k], s.next);
    lemma_collected_bounds(b, s.records + records.take(j), s.system.len() as int, ws, base);
    if j < events.len() {
        lemma_batch_event_place(ws, base, k, events, j);
        crate::log::recovery::lemma_event_frame(s.next, events, j);
        let frame = crate::log::record::record_encoding(FrameKind::Event, (s.next + j) as u64, events[j].0, events[j].1)->Ok_0;
        let rec = log_record(FrameKind::Event, (s.next + j) as u64, events[j].0, events[j].1);
        lemma_build_step_frame(bytes, b, rec, frame.len() as int);
        let so_far = s.records + records.take(j);
        lemma_collect_event(b, so_far, s.system.len() as int, ws, base, rec, b.pos + frame.len());
        let next = build_frame(b, rec, b.pos + frame.len())->More_0;
        assert(records[j] == rec);
        assert(so_far.push(rec) =~= s.records + records.take(j + 1));
        lemma_build_batch(ws, base, k, events, j + 1, next);
    } else {
        lemma_batch_commit_place(ws, base, k, events);
        assert(events.take(j) =~= events);
        let rec = log_record(
            FrameKind::BatchCommit,
            s.next as u64,
            control_envelope(events[0].0, count, digest),
            control_payload(count, digest),
        );
        lemma_build_step_frame(bytes, b, rec, commit.len() as int);
        let next = BuildView { pos: t.pos, batch: None, expected: s.next + j, ..b };
        assert(build_step(bytes, b) == BuildStep::More(next));
        assert(records.take(j) =~= records);
        assert(ws.take(k + 1).drop_last() =~= ws.take(k));
        assert(t.system =~= s.system);
        lemma_collect_control(b, next, s.records + records, s.system.len() as int, 0, ws, base);
        lemma_build_boundary(ws, base, k + 1, next);
    }
}

/// The sidecar of a segment that was written covers it: it spans exactly the
/// segment's positions, every event's stream is posted, every event's time
/// lies in the range, the system frames are counted, its lists are sorted, and
/// every seek point names where a write begins.
pub proof fn lemma_sidecar_covers(ws: Seq<LogWrite>, base: int)
    requires
        all_written(ws, base),
        log_bytes(ws, base).len() <= usize::MAX,
    ensures
        sidecar_of(log_bytes(ws, base), base as u64) matches Ok(sc) && {
            &&& sc.base == base
            &&& sc.end == state_after(ws, base).next
            &&& sidecar_sorted(sc)
            &&& covers(sc, state_after(ws, base).records, state_after(ws, base).system.len() as int)
            &&& seeks_at_writes(sc.seek_points, ws, base)
        },
{
    lemma_log_prefix(ws, base, 0);
    assert(ws.take(0) =~= Seq::empty());
    let b = build_start(base as u64);
    assert(seek_at(b.seeks[0], ws, base, 0));
    assert(collected(b, Seq::empty(), 0, ws, base)) by {
        reveal(collected);
    }
    lemma_build_boundary(ws, base, 0, b);
}

proof fn lemma_chosen_from(f: FilterView, records: Seq<RecordView>, base: int, n: int)
    requires
        consecutive(records, base),
        f.kinds is UserEvents,
        0 <= n <= records.len(),
        base + n <= f.from,
    ensures
        chosen(f, records) == chosen(f, records.skip(n)),
    decreases n,
{
    if n == 0 {
        assert(records.skip(0) =~= records);
    } else {
        let rest = records.skip(1);
        assert(records[0].position == base);
        assert forall|i: int| 0 <= i < rest.len() implies (#[trigger] rest[i]).kind is Event && rest[i].position == base + 1 + i by {
            assert(rest[i] == records[i + 1]);
        }
        lemma_chosen_from(f, rest, base + 1, n - 1);
        assert(rest.skip(n - 1) =~= records.skip(n));
    }
}

/// A read that enters a segment at one of its sidecar's seek points at or
/// before the first position asked for reads what the filter yields of it all.
pub(crate) proof fn lemma_seek_read(
    ws: Seq<LogWrite>,
    base: int,
    f: FilterView,
    point: (u64, u64),
    w: WalkView,
    closed: bool,
    seg_end: u64,
)
    requires
        all_written(ws, base),
        log_bytes(ws, base).len() <= usize::MAX,
        f.kinds is UserEvents,
        seg_end <= state_after(ws, base).next,
        sidecar_of(log_bytes(ws, base), base as u64) matches Ok(sc) && sc.seek_points.contains(point),
        point.0 <= f.from,
        !w.finished,
        w.continuation <= f.from,
        f.max_events matches Some(max) ==> w.yielded <= max,
    ensures
        reads_as(
            segment_read(log_bytes(ws, base), point.1 as int, walk_enter(w, point.0), f, closed, seg_end),
            walk_enter(w, point.0),
            f,
            state_after(ws, base).records,
        ),
{
    lemma_sidecar_covers(ws, base);
    let sc = sidecar_of(log_bytes(ws, base), base as u64)->Ok_0;
    let i = choose|i: int| 0 <= i < sc.seek_points.len() && sc.seek_points[i] == point;
    let k = choose|k: int| 0 <= k <= ws.len() && #[trigger] seek_at(sc.seek_points[i], ws, base, k);
    let s = state_after(ws.take(k), base);
    let all = state_after(ws, base).records;
    lemma_log_prefix(ws, base, k);
    lemma_log_consecutive(ws.take(k), base);
    lemma_log_consecutive(ws, base);
    crate::log::replay::lemma_records_prefix(ws, base, k);
    lemma_boundary_read(ws, base, f, k, walk_enter(w, point.0), closed, seg_end);
    lemma_chosen_from(f, all, base, s.next - base);
    reveal(crate::log::replay::settled);
    if s.next - base < all.len() {
        assert(all.skip(s.next - base).last() == all.last());
    }
}

/// Seeking is sound. A segment that is entered at one of its sidecar's seek
/// points at or before the first position asked for yields what it yields when
/// it is read from its start.
pub proof fn lemma_seek_sound(ws: Seq<LogWrite>, base: int, f: FilterView, point: (u64, u64), closed: bool, seg_end: u64)
    requires
        all_written(ws, base),
        log_bytes(ws, base).len() <= usize::MAX,
        f.kinds is UserEvents,
        seg_end <= state_after(ws, base).next,
        sidecar_of(log_bytes(ws, base), base as u64) matches Ok(sc) && sc.seek_points.contains(point),
        point.0 <= f.from,
    ensures
        reads_as(
            segment_read(log_bytes(ws, base), point.1 as int, walk_enter(walk_start(f.from), point.0), f, closed, seg_end),
            walk_enter(walk_start(f.from), point.0),
            f,
            state_after(ws, base).records,
        ),
{
    lemma_seek_read(ws, base, f, point, walk_start(f.from), closed, seg_end);
}

} // verus!
