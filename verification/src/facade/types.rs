//! Requests and replies as they cross the service boundary.
use crate::format::metadata::{Metadata, MetadataView};
use crate::log::store::text_views;
use vstd::prelude::*;

verus! {

/// The most payload bytes of one event.
pub const MAX_FACADE_PAYLOAD_BYTES: usize = 8 * 1024 * 1024;

/// The most payload bytes of one batch.
pub const MAX_FACADE_BATCH_BYTES: usize = 16 * 1024 * 1024;

/// The most events of one page.
pub const MAX_REPLAY_PAGE_EVENTS: u32 = 4096;

/// The most bytes of one page.
pub const MAX_REPLAY_PAGE_BYTES: usize = 16 * 1024 * 1024;

/// How a payload is written.
#[derive(Debug, Clone, Copy, PartialEq, Eq, Structural)]
pub enum PayloadCodec {
    Bytes,
    Json,
}

/// How an engine is opened.
#[derive(Debug)]
pub struct EngineOptions {
    pub path: String,
    pub commit_every_bytes: Option<u64>,
    pub commit_every_count: Option<u64>,
    pub commit_every_millis: Option<u64>,
    pub snapshot_every_events: Option<u64>,
    pub snapshot_every_bytes: Option<u64>,
    pub snapshot_every_millis: Option<u64>,
}

impl EngineOptions {
    /// No automatic commits and no automatic snapshots.
    pub fn new(path: String) -> (r: Self)
        ensures
            r == (EngineOptions {
                path,
                commit_every_bytes: None,
                commit_every_count: None,
                commit_every_millis: None,
                snapshot_every_events: None,
                snapshot_every_bytes: None,
                snapshot_every_millis: None,
            }),
    {
        EngineOptions {
            path,
            commit_every_bytes: None,
            commit_every_count: None,
            commit_every_millis: None,
            snapshot_every_events: None,
            snapshot_every_bytes: None,
            snapshot_every_millis: None,
        }
    }

    /// When appending commits on the caller's behalf.
    pub fn commit_policy(&self) -> (r: crate::commit::CommitPolicy)
        ensures
            r@ == (crate::commit::PolicyView {
                bytes: self.commit_every_bytes,
                count: self.commit_every_count,
                millis: self.commit_every_millis,
            }),
    {
        let mut policy = crate::commit::CommitPolicy::manual();
        match self.commit_every_bytes {
            Some(value) => {
                policy = policy.and_bytes(value);
            },
            None => {},
        }
        match self.commit_every_count {
            Some(value) => {
                policy = policy.and_count(value);
            },
            None => {},
        }
        match self.commit_every_millis {
            Some(value) => {
                policy = policy.and_millis(value);
            },
            None => {},
        }
        policy
    }
}

/// What a writer expects of a stream's revision.
#[derive(Debug, Clone, Copy, PartialEq, Eq, Structural)]
pub enum ExpectedRevisionDto {
    Any,
    NoStream,
    Exact(u64),
}

/// How durable an append is to be, or was.
#[derive(Debug, Clone, Copy, PartialEq, Eq, Structural)]
pub enum DurabilityDto {
    Buffered,
    Flush,
    Sync,
}

/// An event to append.
#[derive(Debug)]
pub struct EventData {
    pub event_id: Option<[u8; 16]>,
    pub event_type: String,
    pub schema_version: u32,
    pub metadata: Metadata,
    pub codec: PayloadCodec,
    pub payload: Vec<u8>,
}

/// An event to append, as plain values.
#[verifier::ext_equal]
pub struct EventDataView {
    pub event_id: Option<Seq<u8>>,
    pub event_type: Seq<char>,
    pub schema_version: u32,
    pub metadata: MetadataView,
    pub codec: PayloadCodec,
    pub payload: Seq<u8>,
}

/// An optional identity as plain bytes.
pub open spec fn raw_id_view(id: Option<[u8; 16]>) -> Option<Seq<u8>> {
    match id {
        Some(id) => Some(id@),
        None => None,
    }
}

/// The identities of a list as plain bytes.
pub open spec fn raw_id_views(ids: Seq<[u8; 16]>) -> Seq<Seq<u8>> {
    Seq::new(ids.len(), |i: int| ids[i]@)
}

impl View for EventData {
    type V = EventDataView;

    open spec fn view(&self) -> EventDataView {
        EventDataView {
            event_id: raw_id_view(self.event_id),
            event_type: self.event_type@,
            schema_version: self.schema_version,
            metadata: self.metadata@,
            codec: self.codec,
            payload: self.payload@,
        }
    }
}

impl EventData {
    /// A JSON event of the default type.
    pub fn json(payload: Vec<u8>) -> (r: Self)
        ensures
            r@ == (EventDataView {
                event_id: None,
                event_type: "application.json"@,
                schema_version: 1,
                metadata: MetadataView::empty(),
                codec: PayloadCodec::Json,
                payload: payload@,
            }),
    {
        EventData {
            event_id: None,
            event_type: "application.json".to_owned(),
            schema_version: 1,
            metadata: Metadata::new(),
            codec: PayloadCodec::Json,
            payload,
        }
    }
}

/// The events of a list as plain values.
pub open spec fn event_data_views(events: Seq<EventData>) -> Seq<EventDataView> {
    Seq::new(events.len(), |i: int| events[i]@)
}

/// A batch to append.
#[derive(Debug)]
pub struct AppendBatch {
    pub branch_id: [u8; 16],
    pub stream: String,
    pub expected: ExpectedRevisionDto,
    pub idempotency_key: Option<Vec<u8>>,
    pub events: Vec<EventData>,
    pub durability: DurabilityDto,
}

/// The acknowledgement of an append.
#[derive(Debug, Clone, Copy, PartialEq, Eq)]
pub struct AppendReceiptDto {
    pub batch_id: [u8; 16],
    pub first_position: u64,
    pub last_position: u64,
    pub stream_id: [u8; 16],
    pub previous_revision: Option<u64>,
    pub current_revision: u64,
    pub durability: DurabilityDto,
}

/// A branch.
#[derive(Debug, PartialEq, Eq)]
pub struct BranchDto {
    pub id: [u8; 16],
    pub name: String,
    pub parent_id: Option<[u8; 16]>,
    pub fork_position: Option<u64>,
    pub created_at_unix_nanos: i64,
    pub metadata: Metadata,
    pub archived: bool,
}

/// What a replay reads, and how large its pages may be.
#[derive(Debug)]
pub struct ReplayRequest {
    pub branch_id: [u8; 16],
    pub stream: Option<String>,
    pub from: u64,
    pub until: Option<u64>,
    pub page_events: u32,
    pub page_bytes: usize,
}

/// An optional text as plain characters.
pub open spec fn opt_text_view(text: Option<String>) -> Option<Seq<char>> {
    match text {
        Some(text) => Some(text@),
        None => None,
    }
}

impl Default for ReplayRequest {
    fn default() -> (r: Self)
        ensures
            r.branch_id@ == crate::bytes::zero16(),
            r.stream is None,
            r.from == 0,
            r.until is None,
            r.page_events == 256,
            r.page_bytes == 1024 * 1024,
    {
        let r = ReplayRequest { branch_id: [0u8; 16], stream: None, from: 0, until: None, page_events: 256, page_bytes: 1024 * 1024 };
        assert(r.branch_id@ =~= crate::bytes::zero16());
        r
    }
}

/// An open reader.
#[derive(Debug, Clone, Copy, PartialEq, Eq, Hash, Structural)]
pub struct ReaderHandle(pub u64);

/// A registered query.
#[derive(Debug, Clone, Copy, PartialEq, Eq, Hash, Structural)]
pub struct QueryHandle(pub u64);

/// An open feed.
#[derive(Debug, Clone, Copy, PartialEq, Eq, Hash, Structural)]
pub struct FeedHandle(pub u64);

/// An event as it is handed out.
#[derive(Debug, PartialEq, Eq)]
pub struct RecordDto {
    pub database_id: [u8; 16],
    pub batch_id: [u8; 16],
    pub batch_index: u32,
    pub position: u64,
    pub timestamp_unix_nanos: i64,
    pub event_id: [u8; 16],
    pub branch_id: [u8; 16],
    pub stream_id: [u8; 16],
    pub stream_revision: u64,
    pub event_type: String,
    pub schema_version: u32,
    pub metadata: Metadata,
    pub codec: PayloadCodec,
    pub payload: Vec<u8>,
}

/// An event that is handed out, as plain values.
#[verifier::ext_equal]
pub struct RecordDtoView {
    pub database_id: Seq<u8>,
    pub batch_id: Seq<u8>,
    pub batch_index: u32,
    pub position: u64,
    pub timestamp: i64,
    pub event_id: Seq<u8>,
    pub branch_id: Seq<u8>,
    pub stream_id: Seq<u8>,
    pub stream_revision: u64,
    pub event_type: Seq<char>,
    pub schema_version: u32,
    pub metadata: MetadataView,
    pub codec: PayloadCodec,
    pub payload: Seq<u8>,
}

impl View for RecordDto {
    type V = RecordDtoView;

    open spec fn view(&self) -> RecordDtoView {
        RecordDtoView {
            database_id: self.database_id@,
            batch_id: self.batch_id@,
            batch_index: self.batch_index,
            position: self.position,
            timestamp: self.timestamp_unix_nanos,
            event_id: self.event_id@,
            branch_id: self.branch_id@,
            stream_id: self.stream_id@,
            stream_revision: self.stream_revision,
            event_type: self.event_type@,
            schema_version: self.schema_version,
            metadata: self.metadata@,
            codec: self.codec,
            payload: self.payload@,
        }
    }
}

/// The events of a list as plain values.
pub open spec fn dto_views(records: Seq<RecordDto>) -> Seq<RecordDtoView> {
    Seq::new(records.len(), |i: int| records[i]@)
}

/// A page of a replay, and where the next one begins.
#[derive(Debug, PartialEq, Eq)]
pub struct ReplayPage {
    pub records: Vec<RecordDto>,
    pub continuation: u64,
    pub done: bool,
}

/// Which batches a feed selects. An empty list selects all. A batch is handed
/// out whole or not at all.
#[derive(Debug, PartialEq, Eq)]
pub struct FeedFilter {
    pub branches: Vec<[u8; 16]>,
    pub streams: Vec<[u8; 16]>,
    pub event_types: Vec<String>,
}

/// A filter as plain values.
#[verifier::ext_equal]
pub struct FeedFilterView {
    pub branches: Seq<Seq<u8>>,
    pub streams: Seq<Seq<u8>>,
    pub event_types: Seq<Seq<char>>,
}

impl View for FeedFilter {
    type V = FeedFilterView;

    open spec fn view(&self) -> FeedFilterView {
        FeedFilterView {
            branches: raw_id_views(self.branches@),
            streams: raw_id_views(self.streams@),
            event_types: text_views(self.event_types@),
        }
    }
}

impl Default for FeedFilter {
    fn default() -> (r: Self)
        ensures
            r@ == (FeedFilterView { branches: Seq::empty(), streams: Seq::empty(), event_types: Seq::empty() }),
    {
        let r = FeedFilter { branches: Vec::new(), streams: Vec::new(), event_types: Vec::new() };
        assert(r@.branches =~= Seq::empty());
        assert(r@.streams =~= Seq::empty());
        assert(r@.event_types =~= Seq::empty());
        r
    }
}

/// What a feed reads, for whom, and how large its pages may be.
#[derive(Debug)]
pub struct FeedRequest {
    pub from: Option<u64>,
    pub consumer_id: Option<String>,
    pub filter: FeedFilter,
    pub page_batches: u32,
    pub page_bytes: usize,
}

impl Default for FeedRequest {
    fn default() -> (r: Self)
        ensures
            r.from == Some(0u64),
            r.consumer_id is None,
            r.filter@ == (FeedFilterView { branches: Seq::empty(), streams: Seq::empty(), event_types: Seq::empty() }),
            r.page_batches == 128,
            r.page_bytes == 1024 * 1024,
    {
        FeedRequest { from: Some(0), consumer_id: None, filter: FeedFilter::default(), page_batches: 128, page_bytes: 1024 * 1024 }
    }
}

/// A batch as it was committed.
#[derive(Debug, PartialEq, Eq)]
pub struct CommittedBatch {
    pub database_id: [u8; 16],
    pub batch_id: [u8; 16],
    pub first_position: u64,
    pub last_position: u64,
    pub branch_id: [u8; 16],
    /// The streams of its events, in order and without repetition.
    pub stream_ids: Vec<[u8; 16]>,
    pub events: Vec<RecordDto>,
}

/// A committed batch as plain values.
#[verifier::ext_equal]
pub struct CommittedView {
    pub database_id: Seq<u8>,
    pub batch_id: Seq<u8>,
    pub first: u64,
    pub last: u64,
    pub branch_id: Seq<u8>,
    pub stream_ids: Seq<Seq<u8>>,
    pub events: Seq<RecordDtoView>,
}

impl View for CommittedBatch {
    type V = CommittedView;

    open spec fn view(&self) -> CommittedView {
        CommittedView {
            database_id: self.database_id@,
            batch_id: self.batch_id@,
            first: self.first_position,
            last: self.last_position,
            branch_id: self.branch_id@,
            stream_ids: raw_id_views(self.stream_ids@),
            events: dto_views(self.events@),
        }
    }
}

/// The batches of a list as plain values.
pub open spec fn committed_views(batches: Seq<CommittedBatch>) -> Seq<CommittedView> {
    Seq::new(batches.len(), |i: int| batches[i]@)
}

/// A page of a feed, and where the next one begins.
#[derive(Debug, PartialEq, Eq)]
pub struct FeedPage {
    pub batches: Vec<CommittedBatch>,
    pub continuation: u64,
    pub durable_head: u64,
    pub timed_out: bool,
}

/// Whether `id` is among `ids`.
pub fn has_id(ids: &Vec<[u8; 16]>, id: &[u8; 16]) -> (r: bool)
    ensures
        r == raw_id_views(ids@).contains(id@),
{
    let mut i: usize = 0;
    while i < ids.len()
        invariant
            i <= ids@.len(),
            forall|j: int| 0 <= j < i ==> #[trigger] raw_id_views(ids@)[j] != id@,
        decreases ids@.len() - i,
    {
        if crate::bytes::same16(&ids[i], id) {
            assert(raw_id_views(ids@)[i as int] == id@);
            return true;
        }
        i = i + 1;
    }
    false
}

/// Whether `text` is among `texts`.
pub fn has_text(texts: &Vec<String>, text: &str) -> (r: bool)
    ensures
        r == text_views(texts@).contains(text@),
{
    let mut i: usize = 0;
    while i < texts.len()
        invariant
            i <= texts@.len(),
            forall|j: int| 0 <= j < i ==> #[trigger] text_views(texts@)[j] != text@,
        decreases texts@.len() - i,
    {
        if crate::text::same_text(texts[i].as_str(), text) {
            assert(text_views(texts@)[i as int] == text@);
            return true;
        }
        i = i + 1;
    }
    false
}

/// The bytes that an event counts for on a page: its payload and its metadata
/// values, at most as many as a `usize` holds.
pub open spec fn dto_size(record: RecordDtoView) -> int {
    let size = record.payload.len() + values_size(record.metadata);
    if size > usize::MAX {
        usize::MAX as int
    } else {
        size
    }
}

/// The bytes of metadata values together.
pub open spec fn values_size(m: MetadataView) -> int
    decreases m.len(),
{
    if m.len() == 0 {
        0
    } else {
        values_size(m.drop_last()) + m.last().1.len()
    }
}

impl RecordDto {
    /// The bytes that the event counts for on a page.
    pub fn size(&self) -> (r: usize)
        ensures
            r == dto_size(self@),
    {
        let ghost m = self.metadata@;
        let mut total: usize = 0;
        let mut i: usize = 0;
        assert(m.take(0) =~= MetadataView::empty());
        while i < self.metadata.len()
            invariant
                i <= m.len(),
                m == self.metadata@,
                total == (if values_size(m.take(i as int)) > usize::MAX { usize::MAX as int } else { values_size(m.take(i as int)) }),
            decreases m.len() - i,
        {
            proof {
                assert(m.take(i + 1).drop_last() =~= m.take(i as int));
                assert(m.take(i + 1).last() == m[i as int]);
            }
            total = total.saturating_add(self.metadata.entry(i).value.len());
            i = i + 1;
        }
        assert(m.take(i as int) =~= m);
        total.saturating_add(self.payload.len())
    }
}

impl Clone for RecordDto {
    fn clone(&self) -> (r: Self)
        ensures
            r@ == self@,
    {
        RecordDto {
            database_id: self.database_id,
            batch_id: self.batch_id,
            batch_index: self.batch_index,
            position: self.position,
            timestamp_unix_nanos: self.timestamp_unix_nanos,
            event_id: self.event_id,
            branch_id: self.branch_id,
            stream_id: self.stream_id,
            stream_revision: self.stream_revision,
            event_type: self.event_type.clone(),
            schema_version: self.schema_version,
            metadata: self.metadata.clone(),
            codec: self.codec,
            payload: crate::bytes::copy_bytes(&self.payload),
        }
    }
}

} // verus!
