//! What a read selects: streams, branches, times and positions, and which
//! segments can hold any of it.
use crate::bytes::u64_at;
use crate::error::{ErrorView, Result, SalamanderError};
use crate::format::frame::{FrameKind, RecordView};
use crate::format::envelope::{EnvelopeView, RecordEnvelopeV2};
use crate::format::ids::{BranchId, StreamId};
use crate::log::index::{posting_views, times_apart, PostingEntry, PostingView, Sidecar, SidecarView};
use crate::text::{decimal, decimal_string, join4};
use vstd::prelude::*;

verus! {

/// Where a replay begins.
#[derive(Debug, Clone, Copy, PartialEq, Eq, Structural)]
pub enum ReplayStart {
    Unbounded,
    Included(u64),
    Excluded(u64),
}

/// The first position of a replay.
pub open spec fn start_position(start: ReplayStart) -> u64 {
    match start {
        ReplayStart::Unbounded => 0,
        ReplayStart::Included(position) => position,
        ReplayStart::Excluded(position) => if position == u64::MAX {
            u64::MAX
        } else {
            (position + 1) as u64
        },
    }
}

impl ReplayStart {
    pub fn position(self) -> (r: u64)
        ensures
            r == start_position(self),
    {
        match self {
            ReplayStart::Unbounded => 0,
            ReplayStart::Included(position) => position,
            ReplayStart::Excluded(position) => position.saturating_add(1),
        }
    }
}

/// Where a replay ends, exclusively.
#[derive(Debug, Clone, Copy, PartialEq, Eq, Structural)]
pub enum ReplayEnd {
    /// The head when the reader is made.
    Head,
    At(u64),
}

/// How much a reader checks beyond the checksum of every frame.
#[derive(Debug, Clone, Copy, PartialEq, Eq, Structural)]
pub enum VerificationMode {
    FrameCrc,
    /// Also the counts and digests of batches.
    BatchDigests,
}

/// Which frames a reader yields.
#[derive(Debug, Clone, Copy, PartialEq, Eq, Structural)]
pub enum FrameFilter {
    UserEvents,
    SystemOnly,
}

/// Which streams a read selects.
#[derive(Debug, PartialEq, Eq)]
pub enum StreamSelector {
    All,
    Streams(Vec<StreamId>),
    /// The streams whose identities fall into class `index` of `count`.
    PartitionClass { count: u32, index: u32 },
}

/// A selector as plain values.
#[verifier::ext_equal]
pub enum SelectorView {
    All,
    Streams(Seq<Seq<u8>>),
    PartitionClass { count: u32, index: u32 },
}

/// The identities of a list as plain values.
pub open spec fn stream_views(ids: Seq<StreamId>) -> Seq<Seq<u8>> {
    Seq::new(ids.len(), |i: int| ids[i]@)
}

impl View for StreamSelector {
    type V = SelectorView;

    open spec fn view(&self) -> SelectorView {
        match *self {
            StreamSelector::All => SelectorView::All,
            StreamSelector::Streams(ids) => SelectorView::Streams(stream_views(ids@)),
            StreamSelector::PartitionClass { count, index } => SelectorView::PartitionClass { count, index },
        }
    }
}

impl Clone for StreamSelector {
    fn clone(&self) -> (r: Self)
        ensures
            r@ == self@,
    {
        match self {
            StreamSelector::All => StreamSelector::All,
            StreamSelector::Streams(ids) => {
                let copy = ids.clone();
                assert(copy@ =~= ids@);
                StreamSelector::Streams(copy)
            },
            StreamSelector::PartitionClass { count, index } => StreamSelector::PartitionClass { count: *count, index: *index },
        }
    }
}

/// The class of a stream: the first eight bytes of its identity, as a
/// little-endian number, modulo the number of classes.
pub open spec fn class_of(stream: Seq<u8>, count: u32) -> u32 {
    (u64_at(stream, 0) % (count as u64)) as u32
}

/// Whether a selector names a class that exists.
pub open spec fn selector_valid(s: SelectorView) -> bool {
    match s {
        SelectorView::PartitionClass { count, index } => 0 < count && index < count,
        _ => true,
    }
}

/// Whether a selector by class counts at least one class.
pub open spec fn selector_counts(s: SelectorView) -> bool {
    s matches SelectorView::PartitionClass { count, .. } ==> count > 0
}

/// Whether a selector selects a stream.
pub open spec fn selects(s: SelectorView, stream: Seq<u8>) -> bool {
    match s {
        SelectorView::All => true,
        SelectorView::Streams(ids) => ids.contains(stream),
        SelectorView::PartitionClass { count, index } => class_of(stream, count) == index,
    }
}

/// Whether the postings of a segment prove that it holds no selected stream.
/// A selector of all streams never proves that.
pub open spec fn proves_disjoint(s: SelectorView, postings: Seq<PostingView>) -> bool {
    !(s is All) && forall|i: int| 0 <= i < postings.len() ==> !selects(s, (#[trigger] postings[i]).stream)
}

/// The class of `stream` among `count`.
pub fn partition_of(stream: StreamId, count: u32) -> (r: u32)
    requires
        count > 0,
    ensures
        r == class_of(stream@, count),
        r < count,
{
    broadcast use crate::format::ids::group_id_lengths;

    let bytes = stream.into_bytes();
    let head: u64 = crate::bytes::read_u64(&bytes, 0);
    (head % (count as u64)) as u32
}

impl StreamSelector {
    pub fn validate(&self) -> (r: Result<()>)
        ensures
            r is Ok <==> selector_valid(self@),
            r matches Err(e) ==> self@ matches SelectorView::PartitionClass { count, index } && e@ == ErrorView::InvalidArgument(
                "partition class "@ + decimal(index as nat) + " of "@ + decimal(count as nat) + " is not a valid partition"@,
            ),
    {
        match self {
            StreamSelector::PartitionClass { count, index } => {
                if *count == 0 || *index >= *count {
                    let mut message = join4(
                        "partition class ",
                        decimal_string(*index as u64).as_str(),
                        " of ",
                        decimal_string(*count as u64).as_str(),
                    );
                    message.append(" is not a valid partition");
                    return Err(SalamanderError::InvalidArgument(message));
                }
                Ok(())
            },
            _ => Ok(()),
        }
    }

    pub fn matches(&self, stream: StreamId) -> (r: bool)
        requires
            selector_counts(self@),
        ensures
            r == selects(self@, stream@),
    {
        match self {
            StreamSelector::All => true,
            StreamSelector::Streams(ids) => contains_stream(ids, stream),
            StreamSelector::PartitionClass { count, index } => partition_of(stream, *count) == *index,
        }
    }

    /// Whether `postings` prove that a segment holds no selected stream.
    pub fn disjoint_from(&self, postings: &Vec<PostingEntry>) -> (r: bool)
        requires
            selector_counts(self@),
        ensures
            r == proves_disjoint(self@, posting_views(postings@)),
    {
        match self {
            StreamSelector::All => false,
            _ => {
                let ghost views = posting_views(postings@);
                let mut i: usize = 0;
                while i < postings.len()
                    invariant
                        i <= postings@.len(),
                        selector_counts(self@),
                        !(self@ is All),
                        views == posting_views(postings@),
                        forall|j: int| 0 <= j < i ==> !selects(self@, (#[trigger] views[j]).stream),
                    decreases postings@.len() - i,
                {
                    if self.matches(postings[i].stream) {
                        assert(selects(self@, views[i as int].stream));
                        return false;
                    }
                    i = i + 1;
                }
                true
            },
        }
    }
}

fn contains_stream(ids: &Vec<StreamId>, stream: StreamId) -> (r: bool)
    ensures
        r == stream_views(ids@).contains(stream@),
{
    let ghost views = stream_views(ids@);
    let mut i: usize = 0;
    while i < ids.len()
        invariant
            i <= ids@.len(),
            views == stream_views(ids@),
            forall|j: int| 0 <= j < i ==> #[trigger] views[j] != stream@,
        decreases ids@.len() - i,
    {
        if ids[i] == stream {
            assert(views[i as int] == stream@);
            return true;
        }
        i = i + 1;
    }
    false
}

/// A replay as it is asked for.
#[derive(Debug)]
pub struct ReplayPlan {
    pub branch: BranchId,
    pub streams: StreamSelector,
    pub from: ReplayStart,
    pub until: ReplayEnd,
    /// A half-open range of event timestamps.
    pub time: Option<core::ops::Range<i64>>,
    pub max_events: Option<u64>,
    pub verification: VerificationMode,
}

impl Default for ReplayPlan {
    fn default() -> (r: Self)
        ensures
            r.branch@ == crate::bytes::zero16(),
            r.streams@ == SelectorView::All,
            r.from is Unbounded,
            r.until is Head,
            r.time is None,
            r.max_events is None,
            r.verification is FrameCrc,
    {
        ReplayPlan {
            branch: BranchId::zero(),
            streams: StreamSelector::All,
            from: ReplayStart::Unbounded,
            until: ReplayEnd::Head,
            time: None,
            max_events: None,
            verification: VerificationMode::FrameCrc,
        }
    }
}

/// A replay that has been resolved against a log and its branches.
#[derive(Debug)]
pub struct ResolvedFilter {
    pub from: u64,
    pub until: u64,
    pub selector: StreamSelector,
    /// The branches that are visible, each below a position; `None` does not
    /// look at branches.
    pub scopes: Option<Vec<(BranchId, u64)>>,
    pub time: Option<core::ops::Range<i64>>,
    pub kinds: FrameFilter,
    pub max_events: Option<u64>,
    pub verification: VerificationMode,
}

/// A filter as plain values.
#[verifier::ext_equal]
pub struct FilterView {
    pub from: u64,
    pub until: u64,
    pub selector: SelectorView,
    pub scopes: Option<Seq<(Seq<u8>, u64)>>,
    pub time: Option<(i64, i64)>,
    pub kinds: FrameFilter,
    pub max_events: Option<u64>,
    pub verification: VerificationMode,
}

/// Branches and their bounds as plain values.
pub open spec fn scope_views(scopes: Seq<(BranchId, u64)>) -> Seq<(Seq<u8>, u64)> {
    Seq::new(scopes.len(), |i: int| (scopes[i].0@, scopes[i].1))
}

impl View for ResolvedFilter {
    type V = FilterView;

    open spec fn view(&self) -> FilterView {
        FilterView {
            from: self.from,
            until: self.until,
            selector: self.selector@,
            scopes: match self.scopes {
                Some(scopes) => Some(scope_views(scopes@)),
                None => None,
            },
            time: match self.time {
                Some(range) => Some((range.start, range.end)),
                None => None,
            },
            kinds: self.kinds,
            max_events: self.max_events,
            verification: self.verification,
        }
    }
}

impl ResolvedFilter {
    /// A filter that looks at positions and frame kinds alone.
    pub fn raw(from: u64, until: u64, kinds: FrameFilter) -> (r: Self)
        ensures
            r@ == (FilterView {
                from,
                until,
                selector: SelectorView::All,
                scopes: None,
                time: None,
                kinds,
                max_events: None,
                verification: VerificationMode::FrameCrc,
            }),
    {
        ResolvedFilter {
            from,
            until,
            selector: StreamSelector::All,
            scopes: None,
            time: None,
            kinds,
            max_events: None,
            verification: VerificationMode::FrameCrc,
        }
    }
}

/// Whether a branch is visible at a position.
pub open spec fn in_scopes(scopes: Seq<(Seq<u8>, u64)>, branch: Seq<u8>, position: u64) -> bool {
    exists|i: int| 0 <= i < scopes.len() && (#[trigger] scopes[i]).0 == branch && position < scopes[i].1
}

/// Whether a frame is of the kind that a filter yields.
pub open spec fn kind_wanted(f: FilterView, kind: FrameKind) -> bool {
    match f.kinds {
        FrameFilter::UserEvents => kind is Event,
        FrameFilter::SystemOnly => kind is System,
    }
}

/// Whether a filter yields a record, its upper position bound aside.
pub open spec fn passes(f: FilterView, kind: FrameKind, position: u64, env: EnvelopeView) -> bool {
    &&& kind_wanted(f, kind)
    &&& kind is Event ==> position >= f.from
    &&& selects(f.selector, env.stream_id)
    &&& f.scopes matches Some(scopes) ==> in_scopes(scopes, env.branch_id, position)
    &&& f.time matches Some((start, end)) ==> start <= env.timestamp < end
}

fn scopes_hold(scopes: &Vec<(BranchId, u64)>, branch: BranchId, position: u64) -> (r: bool)
    ensures
        r == in_scopes(scope_views(scopes@), branch@, position),
{
    let ghost views = scope_views(scopes@);
    let mut i: usize = 0;
    while i < scopes.len()
        invariant
            i <= scopes@.len(),
            views == scope_views(scopes@),
            forall|j: int| 0 <= j < i ==> !((#[trigger] views[j]).0 == branch@ && position < views[j].1),
        decreases scopes@.len() - i,
    {
        if scopes[i].0 == branch && position < scopes[i].1 {
            assert(views[i as int].0 == branch@);
            return true;
        }
        i = i + 1;
    }
    false
}

impl ResolvedFilter {
    /// Whether the filter yields a record, its upper position bound aside.
    pub fn accepts(&self, kind: FrameKind, position: u64, envelope: &RecordEnvelopeV2) -> (r: bool)
        requires
            selector_counts(self@.selector),
        ensures
            r == passes(self@, kind, position, envelope@),
    {
        let wanted = match self.kinds {
            FrameFilter::UserEvents => kind == FrameKind::Event,
            FrameFilter::SystemOnly => kind == FrameKind::System,
        };
        if !wanted {
            return false;
        }
        if kind == FrameKind::Event && position < self.from {
            return false;
        }
        if !self.selector.matches(envelope.stream_id) {
            return false;
        }
        match &self.scopes {
            Some(scopes) => {
                if !scopes_hold(scopes, envelope.branch_id, position) {
                    return false;
                }
            },
            None => {},
        }
        match &self.time {
            Some(range) => range.start <= envelope.timestamp_unix_nanos && envelope.timestamp_unix_nanos < range.end,
            None => true,
        }
    }

    /// Whether a sidecar alone proves that its segment holds nothing that the
    /// filter yields.
    pub fn skippable(&self, sidecar: &Sidecar) -> (r: bool)
        requires
            selector_counts(self@.selector),
        ensures
            r == skips_segment(self@, sidecar@),
    {
        match self.kinds {
            FrameFilter::SystemOnly => sidecar.system_frames == 0,
            FrameFilter::UserEvents => {
                if self.selector.disjoint_from(&sidecar.postings) {
                    return true;
                }
                match &self.time {
                    Some(range) => sidecar.time_disjoint(range),
                    None => false,
                }
            },
        }
    }
}

/// Whether a sidecar proves that its segment holds nothing that a filter yields.
pub open spec fn skips_segment(f: FilterView, s: SidecarView) -> bool {
    match f.kinds {
        FrameFilter::SystemOnly => s.system_frames == 0,
        FrameFilter::UserEvents => proves_disjoint(f.selector, s.postings) || (f.time matches Some((start, end)) && times_apart(
            s,
            start,
            end,
        )),
    }
}

/// Whether a stream is among the postings.
#[verifier::opaque]
pub open spec fn is_posted(postings: Seq<PostingView>, stream: Seq<u8>) -> bool {
    exists|k: int| 0 <= k < postings.len() && (#[trigger] postings[k]).stream == stream
}

/// Whether a sidecar covers a segment's records: every event's stream is
/// posted, every event's time lies in the range, and system frames are counted.
pub open spec fn covers(s: SidecarView, events: Seq<RecordView>, system: int) -> bool {
    &&& forall|i: int| 0 <= i < events.len() ==> is_posted(s.postings, (#[trigger] events[i]).envelope.stream_id)
    &&& forall|i: int| 0 <= i < events.len() ==> s.min_ts <= (#[trigger] events[i]).envelope.timestamp <= s.max_ts
    &&& s.system_frames == system
}

/// A segment that is skipped by a sidecar that covers it loses no answer: no
/// event of it passes an event filter, and a filter for system frames finds
/// that there are none.
pub proof fn lemma_skip_sound(f: FilterView, s: SidecarView, events: Seq<RecordView>, system: int)
    requires
        covers(s, events, system),
        skips_segment(f, s),
    ensures
        f.kinds is UserEvents ==> forall|i: int| 0 <= i < events.len() ==> !passes(
            f,
            FrameKind::Event,
            (#[trigger] events[i]).position,
            events[i].envelope,
        ),
        f.kinds is SystemOnly ==> system == 0,
{
    if f.kinds is UserEvents {
        assert forall|i: int| 0 <= i < events.len() implies !passes(
            f,
            FrameKind::Event,
            (#[trigger] events[i]).position,
            events[i].envelope,
        ) by {
            if proves_disjoint(f.selector, s.postings) {
                reveal(is_posted);
                assert(is_posted(s.postings, events[i].envelope.stream_id));
                let k = choose|k: int| 0 <= k < s.postings.len() && (#[trigger] s.postings[k]).stream == events[i].envelope.stream_id;
                assert(!selects(f.selector, s.postings[k].stream));
            }
        }
    }
}

/// Whether segment bases never descend.
pub open spec fn bases_ascend(bases: Seq<u64>) -> bool {
    forall|i: int, j: int| 0 <= i < j < bases.len() ==> #[trigger] bases[i] <= #[trigger] bases[j]
}

/// Whether `start..end` are the segments that can hold a position in
/// `from..until`: the last one that begins at or before `from`, and all after
/// it that begin before `until`.
pub open spec fn range_selected(bases: Seq<u64>, overall_end: u64, from: u64, until: u64, start: int, end: int) -> bool {
    &&& 0 <= start <= end <= bases.len()
    &&& (bases.len() == 0 || from >= overall_end || from >= until) ==> start == 0 && end == 0
    &&& !(bases.len() == 0 || from >= overall_end || from >= until) ==> {
        &&& start < bases.len()
        &&& start == 0 || bases[start] <= from
        &&& from < segment_end(bases, overall_end, start)
        &&& forall|i: int| start < i < bases.len() ==> (i < end <==> #[trigger] bases[i] < until)
        &&& end > start <==> bases[start] < until
    }
}

/// Every segment that holds a position in `from..until` is selected.
pub proof fn lemma_range_covers(bases: Seq<u64>, overall_end: u64, from: u64, until: u64, start: int, end: int, i: int, p: u64)
    requires
        bases_ascend(bases),
        bases.len() > 0 ==> bases[bases.len() - 1] <= overall_end,
        range_selected(bases, overall_end, from, until, start, end),
        0 <= i < bases.len(),
        bases[i] <= p < segment_end(bases, overall_end, i),
        from <= p < until,
    ensures
        start <= i < end,
{
    if i + 1 < bases.len() {
        assert(bases[i + 1] <= bases[bases.len() - 1]);
    }
    if i < start {
        if i + 1 < start {
            assert(bases[i + 1] <= bases[start]);
        }
        assert(bases[start] <= from);
    }
    if start < i {
        assert(bases[i] < until);
    }
}

/// One past the last position of segment `i`: the next base, or the log's end.
pub open spec fn segment_end(bases: Seq<u64>, overall_end: u64, i: int) -> u64 {
    if i + 1 < bases.len() {
        bases[i + 1]
    } else {
        overall_end
    }
}

/// How many of the ascending `bases` are at most `x`, or below it.
fn count_bases(bases: &Vec<u64>, x: u64, inclusive: bool) -> (n: usize)
    requires
        bases_ascend(bases@),
    ensures
        n <= bases@.len(),
        forall|i: int| 0 <= i < n ==> if inclusive {
            #[trigger] bases@[i] <= x
        } else {
            bases@[i] < x
        },
        forall|i: int| n <= i < bases@.len() ==> if inclusive {
            #[trigger] bases@[i] > x
        } else {
            bases@[i] >= x
        },
{
    let mut low: usize = 0;
    let mut high: usize = bases.len();
    while low < high
        invariant
            low <= high <= bases@.len(),
            bases_ascend(bases@),
            forall|i: int| 0 <= i < low ==> if inclusive {
                #[trigger] bases@[i] <= x
            } else {
                bases@[i] < x
            },
            forall|i: int| high <= i < bases@.len() ==> if inclusive {
                #[trigger] bases@[i] > x
            } else {
                bases@[i] >= x
            },
        decreases high - low,
    {
        let middle: usize = low + (high - low) / 2;
        let before = if inclusive {
            bases[middle] <= x
        } else {
            bases[middle] < x
        };
        if before {
            low = middle + 1;
        } else {
            high = middle;
        }
    }
    low
}

/// Which of the contiguous segments that begin at `bases` and end at
/// `overall_end` can hold a position in `from..until`: the segment that holds
/// `from` and all after it that begin before `until`.
pub fn intersecting_range(bases: &Vec<u64>, overall_end: u64, from: u64, until: u64) -> (r: core::ops::Range<usize>)
    requires
        bases_ascend(bases@),
        bases@.len() > 0 ==> bases@[bases@.len() - 1] <= overall_end,
    ensures
        range_selected(bases@, overall_end, from, until, r.start as int, r.end as int),
{
    let limit: u64 = if overall_end < until {
        overall_end
    } else {
        until
    };
    if bases.len() == 0 || from >= limit {
        return 0..0;
    }
    let at_most: usize = count_bases(bases, from, true);
    let start: usize = if at_most == 0 {
        0
    } else {
        at_most - 1
    };
    let stop: usize = count_bases(bases, until, false);
    let end: usize = if stop < start {
        start
    } else {
        stop
    };
    start..end
}

/// The classes share the streams out: every stream is in one class, and in no
/// other.
pub proof fn lemma_one_class(stream: Seq<u8>, count: u32, index: u32)
    requires
        index < count,
    ensures
        class_of(stream, count) < count,
        selects(SelectorView::PartitionClass { count, index }, stream) <==> index == class_of(stream, count),
{
}

} // verus!
