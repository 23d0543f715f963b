//! The feed of committed batches: which ones a consumer gets, in whole batches,
//! and where it goes on.
use crate::bytes::{bytes_less, lex_lt, same16};
use crate::facade::error::{cancelled_error, invalid_error, resource_error, EngineError, EngineErrorView, ErrorCategory};
use crate::facade::page::{dto_of, is_payload, record_dto};
use crate::facade::types::{
    committed_views, dto_size, dto_views, has_id, has_text, opt_text_view, raw_id_views, CommittedBatch, CommittedView, FeedFilter,
    FeedFilterView, FeedPage, FeedRequest, RecordDto, RecordDtoView, MAX_REPLAY_PAGE_BYTES, MAX_REPLAY_PAGE_EVENTS,
};
use crate::format::frame::OwnedStoredRecord;
use crate::text::{decimal, decimal_string, join2, same_text, utf8_text};
use vstd::prelude::*;
use vstd::utf8::{decode_utf8, encode_utf8, valid_utf8};

verus! {

/// Why a feed cannot be opened, if it cannot.
pub open spec fn feed_error(request: FeedRequest, durable_head: u64) -> Option<EngineErrorView> {
    if request.page_batches == 0 || request.page_batches > MAX_REPLAY_PAGE_EVENTS {
        Some(resource_error("feed page batches"@, request.page_batches as int, MAX_REPLAY_PAGE_EVENTS as int))
    } else if request.page_bytes == 0 || request.page_bytes > MAX_REPLAY_PAGE_BYTES {
        Some(resource_error("feed page bytes"@, request.page_bytes as int, MAX_REPLAY_PAGE_BYTES as int))
    } else if request.from matches Some(position) && position > durable_head {
        Some(
            EngineErrorView {
                category: ErrorCategory::InvalidArgument,
                code: "position_unavailable"@,
                message: "feed position is beyond durable head "@ + decimal(durable_head as nat),
            },
        )
    } else if opt_text_view(request.consumer_id) matches Some(id) && (id.len() == 0 || encode_utf8(id).len() > 1024) {
        Some(invalid_error("consumer ID must contain 1 to 1024 bytes"@))
    } else {
        None
    }
}

/// Checks whether a feed can be opened.
pub fn validate_feed(request: &FeedRequest, durable_head: u64) -> (r: core::result::Result<(), EngineError>)
    ensures
        r is Ok <==> feed_error(*request, durable_head) is None,
        r matches Err(e) ==> Some(e@) == feed_error(*request, durable_head),
{
    if request.page_batches == 0 || request.page_batches > MAX_REPLAY_PAGE_EVENTS {
        return Err(EngineError::resource("feed page batches", request.page_batches as usize, MAX_REPLAY_PAGE_EVENTS as usize));
    }
    if request.page_bytes == 0 || request.page_bytes > MAX_REPLAY_PAGE_BYTES {
        return Err(EngineError::resource("feed page bytes", request.page_bytes, MAX_REPLAY_PAGE_BYTES));
    }
    match request.from {
        Some(position) => if position > durable_head {
            return Err(
                EngineError {
                    category: ErrorCategory::InvalidArgument,
                    code: "position_unavailable",
                    message: join2("feed position is beyond durable head ", decimal_string(durable_head).as_str()),
                },
            );
        },
        None => {},
    }
    match &request.consumer_id {
        Some(id) => if id.as_str().is_empty() || id.as_str().as_bytes().len() > 1024 {
            return Err(EngineError::invalid("consumer ID must contain 1 to 1024 bytes"));
        },
        None => {},
    }
    Ok(())
}

/// Whether a filter selects a batch: its branch, and any event's stream and
/// type.
pub open spec fn batch_selected(filter: FeedFilterView, events: Seq<RecordDtoView>) -> bool {
    &&& filter.branches.len() == 0 || filter.branches.contains(events[0].branch_id)
    &&& filter.streams.len() == 0 || exists|i: int| 0 <= i < events.len() && filter.streams.contains((#[trigger] events[i]).stream_id)
    &&& filter.event_types.len() == 0 || exists|i: int|
        0 <= i < events.len() && filter.event_types.contains((#[trigger] events[i]).event_type)
}

fn any_stream(filter: &FeedFilter, events: &Vec<RecordDto>) -> (r: bool)
    ensures
        r == exists|i: int| 0 <= i < events@.len() && filter@.streams.contains((#[trigger] dto_views(events@)[i]).stream_id),
{
    let mut i: usize = 0;
    while i < events.len()
        invariant
            i <= events@.len(),
            forall|j: int| 0 <= j < i ==> !filter@.streams.contains((#[trigger] dto_views(events@)[j]).stream_id),
        decreases events@.len() - i,
    {
        if has_id(&filter.streams, &events[i].stream_id) {
            assert(filter@.streams.contains(dto_views(events@)[i as int].stream_id));
            return true;
        }
        i = i + 1;
    }
    false
}

fn any_type(filter: &FeedFilter, events: &Vec<RecordDto>) -> (r: bool)
    ensures
        r == exists|i: int| 0 <= i < events@.len() && filter@.event_types.contains((#[trigger] dto_views(events@)[i]).event_type),
{
    let mut i: usize = 0;
    while i < events.len()
        invariant
            i <= events@.len(),
            forall|j: int| 0 <= j < i ==> !filter@.event_types.contains((#[trigger] dto_views(events@)[j]).event_type),
        decreases events@.len() - i,
    {
        if has_text(&filter.event_types, events[i].event_type.as_str()) {
            assert(filter@.event_types.contains(dto_views(events@)[i as int].event_type));
            return true;
        }
        i = i + 1;
    }
    false
}

/// Identities in strict order with one more, unless it is there already.
pub open spec fn id_inserted(ids: Seq<Seq<u8>>, id: Seq<u8>) -> Seq<Seq<u8>>
    decreases ids.len(),
{
    if ids.len() == 0 {
        seq![id]
    } else if ids.last() == id {
        ids
    } else if lex_lt(ids.last(), id) {
        ids.push(id)
    } else {
        id_inserted(ids.drop_last(), id).push(ids.last())
    }
}

/// The streams of events, in strict order.
pub open spec fn streams_of(events: Seq<RecordDtoView>) -> Seq<Seq<u8>>
    decreases events.len(),
{
    if events.len() == 0 {
        Seq::empty()
    } else {
        id_inserted(streams_of(events.drop_last()), events.last().stream_id)
    }
}

/// Whether identities stand in strict order.
pub open spec fn ids_ascend(ids: Seq<Seq<u8>>) -> bool {
    forall|i: int, j: int| 0 <= i < j < ids.len() ==> lex_lt(#[trigger] ids[i], #[trigger] ids[j])
}

proof fn lemma_id_inserted(ids: Seq<Seq<u8>>, id: Seq<u8>)
    requires
        ids_ascend(ids),
    ensures
        ids_ascend(id_inserted(ids, id)),
        forall|x: Seq<u8>| #[trigger] id_inserted(ids, id).contains(x) <==> x == id || ids.contains(x),
        ids.len() <= id_inserted(ids, id).len() <= ids.len() + 1,
    decreases ids.len(),
{
    let out = id_inserted(ids, id);
    if ids.len() == 0 {
        assert(out[0] == id);
    } else {
        let shorter = ids.drop_last();
        let last = ids.last();
        assert forall|x: Seq<u8>| ids.contains(x) <==> x == last || #[trigger] shorter.contains(x) by {
            if ids.contains(x) {
                let i = ids.index_of(x);
                if i < ids.len() - 1 {
                    assert(shorter[i] == x);
                }
            }
            if shorter.contains(x) {
                let i = shorter.index_of(x);
                assert(ids[i] == x);
            }
            assert(ids[ids.len() - 1] == last);
        }
        if last == id {
        } else if lex_lt(last, id) {
            assert forall|i: int, j: int| 0 <= i < j < out.len() implies lex_lt(#[trigger] out[i], #[trigger] out[j]) by {
                if j == out.len() - 1 && i < ids.len() - 1 {
                    crate::bytes::lemma_lex_transitive(ids[i], last, id);
                }
            }
            assert forall|x: Seq<u8>| #[trigger] out.contains(x) <==> x == id || ids.contains(x) by {
                assert(out[out.len() - 1] == id);
                if ids.contains(x) {
                    assert(out[ids.index_of(x)] == x);
                }
                if out.contains(x) {
                    let i = out.index_of(x);
                    if i < ids.len() {
                        assert(ids[i] == x);
                    }
                }
            }
        } else {
            assert(ids_ascend(shorter)) by {
                assert forall|i: int, j: int| 0 <= i < j < shorter.len() implies lex_lt(#[trigger] shorter[i], #[trigger] shorter[j]) by {
                    assert(shorter[i] == ids[i] && shorter[j] == ids[j]);
                }
            }
            lemma_id_inserted(shorter, id);
            crate::bytes::lemma_lex_total(last, id);
            let inner = id_inserted(shorter, id);
            assert(out == inner.push(last));
            assert forall|i: int, j: int| 0 <= i < j < out.len() implies lex_lt(#[trigger] out[i], #[trigger] out[j]) by {
                if j == out.len() - 1 {
                    assert(inner.contains(inner[i]));
                    if inner[i] != id {
                        let k = shorter.index_of(inner[i]);
                        assert(ids[k] == inner[i]);
                        assert(lex_lt(ids[k], ids[ids.len() - 1]));
                    }
                } else {
                    assert(out[i] == inner[i] && out[j] == inner[j]);
                }
            }
            assert forall|x: Seq<u8>| #[trigger] out.contains(x) <==> x == id || ids.contains(x) by {
                assert(out[out.len() - 1] == last);
                if inner.contains(x) {
                    assert(out[inner.index_of(x)] == x);
                }
                if out.contains(x) {
                    let i = out.index_of(x);
                    if i < inner.len() {
                        assert(inner[i] == x);
                    }
                }
                assert(inner.contains(x) <==> x == id || shorter.contains(x));
            }
        }
    }
}

/// The streams of a batch stand in strict order, and are those of its events.
pub proof fn lemma_streams_of(events: Seq<RecordDtoView>)
    ensures
        ids_ascend(streams_of(events)),
        forall|id: Seq<u8>| #[trigger] streams_of(events).contains(id) <==> exists|i: int|
            0 <= i < events.len() && (#[trigger] events[i]).stream_id == id,
    decreases events.len(),
{
    if events.len() > 0 {
        let shorter = events.drop_last();
        lemma_streams_of(shorter);
        lemma_id_inserted(streams_of(shorter), events.last().stream_id);
        assert forall|id: Seq<u8>| #[trigger] streams_of(events).contains(id) <==> exists|i: int|
            0 <= i < events.len() && (#[trigger] events[i]).stream_id == id by {
            if streams_of(events).contains(id) {
                if id != events.last().stream_id {
                    assert(streams_of(shorter).contains(id));
                    let i = choose|i: int| 0 <= i < shorter.len() && (#[trigger] shorter[i]).stream_id == id;
                    assert(events[i].stream_id == id);
                } else {
                    assert(events[events.len() - 1].stream_id == id);
                }
            }
            if exists|i: int| 0 <= i < events.len() && (#[trigger] events[i]).stream_id == id {
                let i = choose|i: int| 0 <= i < events.len() && (#[trigger] events[i]).stream_id == id;
                if i < shorter.len() {
                    assert(shorter[i].stream_id == id);
                    assert(streams_of(shorter).contains(id));
                }
            }
        }
    }
}

fn insert_id(ids: &mut Vec<[u8; 16]>, id: [u8; 16])
    requires
        old(ids)@.len() < usize::MAX,
    ensures
        raw_id_views(final(ids)@) == id_inserted(raw_id_views(old(ids)@), id@),
        final(ids)@.len() <= old(ids)@.len() + 1,
    decreases old(ids)@.len(),
{
    let ghost before = raw_id_views(ids@);
    if ids.len() == 0 {
        ids.push(id);
        assert(raw_id_views(ids@) =~= seq![id@]);
        return;
    }
    assert(before.last() == ids@.last()@);
    let last = ids[ids.len() - 1];
    if same16(&last, &id) {
        return;
    }
    if bytes_less(&last, &id) {
        ids.push(id);
        assert(raw_id_views(ids@) =~= before.push(id@));
        return;
    }
    let _ = ids.pop();
    assert(raw_id_views(ids@) =~= before.drop_last());
    insert_id(ids, id);
    let ghost inner = raw_id_views(ids@);
    ids.push(last);
    assert(raw_id_views(ids@) =~= inner.push(last@));
}

/// The bytes that events count for on a page, at most as many as a `usize`
/// holds.
pub open spec fn events_size(events: Seq<RecordDtoView>) -> int
    decreases events.len(),
{
    if events.len() == 0 {
        0
    } else {
        capped(events_size(events.drop_last()) + dto_size(events.last()))
    }
}

/// A number, at most as large as a `usize` holds.
pub open spec fn capped(n: int) -> int {
    if n > usize::MAX {
        usize::MAX as int
    } else {
        n
    }
}

/// A batch as it is handed out.
pub open spec fn committed_of(events: Seq<RecordDtoView>) -> CommittedView {
    CommittedView {
        database_id: events[0].database_id,
        batch_id: events[0].batch_id,
        first: events[0].position,
        last: events.last().position,
        branch_id: events[0].branch_id,
        stream_ids: streams_of(events),
        events,
    }
}

/// What a page of a feed may hold.
#[verifier::ext_equal]
pub struct FeedLimits {
    pub filter: FeedFilterView,
    pub batches: u32,
    pub bytes: usize,
}

/// The batches of a page and the bytes they count for, after one more batch;
/// none where that batch has to wait for the next page.
pub open spec fn batch_offered(limits: FeedLimits, batches: Seq<CommittedView>, bytes: int, events: Seq<RecordDtoView>) -> Option<
    (Seq<CommittedView>, int),
> {
    let size = events_size(events);
    if !batch_selected(limits.filter, events) {
        Some((batches, bytes))
    } else if batches.len() > 0 && (batches.len() >= limits.batches || capped(bytes + size) > limits.bytes) {
        None
    } else {
        Some((batches.push(committed_of(events)), capped(bytes + size)))
    }
}

/// Puts a batch onto a page, unless it has to wait for the next one.
pub fn finish_feed_batch(
    filter: &FeedFilter,
    output: &mut Vec<CommittedBatch>,
    page_bytes: &mut usize,
    events: &Vec<RecordDto>,
    maximum_batches: u32,
    maximum_bytes: usize,
) -> (r: bool)
    requires
        events@.len() > 0,
    ensures
        ({
            let limits = FeedLimits { filter: filter@, batches: maximum_batches, bytes: maximum_bytes };
            match batch_offered(limits, committed_views(old(output)@), *old(page_bytes) as int, dto_views(events@)) {
                Some((batches, bytes)) => r && committed_views(final(output)@) == batches && *final(page_bytes) == bytes,
                None => !r && final(output)@ == old(output)@ && *final(page_bytes) == *old(page_bytes),
            }
        }),
{
    let ghost views = dto_views(events@);
    let first = &events[0];
    assert(views[0] == first@);
    let selected = (filter.branches.len() == 0 || has_id(&filter.branches, &first.branch_id)) && (filter.streams.len() == 0
        || any_stream(filter, events)) && (filter.event_types.len() == 0 || any_type(filter, events));
    assert(selected == batch_selected(filter@, views));
    if !selected {
        return true;
    }
    let mut size: usize = 0;
    let mut streams: Vec<[u8; 16]> = Vec::new();
    let mut copies: Vec<RecordDto> = Vec::new();
    let mut i: usize = 0;
    assert(views.take(0) =~= Seq::empty());
    assert(raw_id_views(streams@) =~= Seq::empty());
    assert(dto_views(copies@) =~= views.take(0));
    while i < events.len()
        invariant
            i <= events@.len(),
            views == dto_views(events@),
            size == events_size(views.take(i as int)),
            raw_id_views(streams@) == streams_of(views.take(i as int)),
            streams@.len() <= i,
            dto_views(copies@) == views.take(i as int),
        decreases events@.len() - i,
    {
        proof {
            assert(views.take(i + 1).drop_last() =~= views.take(i as int));
            assert(views.take(i + 1).last() == events@[i as int]@);
        }
        let event = &events[i];
        size = size.saturating_add(event.size());
        insert_id(&mut streams, event.stream_id);
        let ghost before = dto_views(copies@);
        copies.push(event.clone());
        assert(dto_views(copies@) =~= before.push(views[i as int]));
        assert(views.take(i + 1) =~= views.take(i as int).push(views[i as int]));
        i = i + 1;
    }
    assert(views.take(i as int) =~= views);
    if output.len() > 0 && (output.len() as u64 >= maximum_batches as u64 || page_bytes.saturating_add(size) > maximum_bytes) {
        return false;
    }
    let ghost before = committed_views(output@);
    let batch = CommittedBatch {
        database_id: first.database_id,
        batch_id: first.batch_id,
        first_position: first.position,
        last_position: events[events.len() - 1].position,
        branch_id: first.branch_id,
        stream_ids: streams,
        events: copies,
    };
    assert(batch@ =~= committed_of(views));
    output.push(batch);
    assert(committed_views(output@) =~= before.push(committed_of(views)));
    *page_bytes = page_bytes.saturating_add(size);
    true
}

/// A page of a feed as it fills.
#[verifier::ext_equal]
pub struct FeedView {
    pub batches: Seq<CommittedView>,
    pub bytes: int,
    /// The records of the batch that is not known to be whole yet.
    pub current: Seq<RecordDtoView>,
    pub continuation: u64,
    /// Nothing more goes onto the page.
    pub full: bool,
}

/// A page that is yet empty.
pub open spec fn feed_begun(continuation: u64) -> FeedView {
    FeedView { batches: Seq::empty(), bytes: 0, current: Seq::empty(), continuation, full: false }
}

/// A page after a batch turned out to be whole.
pub open spec fn feed_closed(f: FeedView, limits: FeedLimits) -> FeedView {
    match batch_offered(limits, f.batches, f.bytes, f.current) {
        None => FeedView { continuation: f.current[0].position, full: true, ..f },
        Some((batches, bytes)) => FeedView {
            batches,
            bytes,
            current: Seq::empty(),
            continuation: (f.current.last().position + 1) as u64,
            full: false,
        },
    }
}

/// A page after a record came by. A record of another batch shows that the
/// batch before it is whole.
pub open spec fn feed_offered(f: FeedView, limits: FeedLimits, record: RecordDtoView) -> FeedView {
    if f.current.len() > 0 && f.current.last().batch_id != record.batch_id {
        let closed = feed_closed(f, limits);
        if closed.full {
            closed
        } else {
            FeedView { current: closed.current.push(record), ..closed }
        }
    } else {
        FeedView { current: f.current.push(record), ..f }
    }
}

/// A page when nothing more is to be read below the durable head.
pub open spec fn feed_ended(f: FeedView, limits: FeedLimits, durable_head: u64) -> FeedView {
    if f.full {
        f
    } else if f.current.len() > 0 {
        feed_closed(f, limits)
    } else if f.continuation < durable_head {
        FeedView { continuation: durable_head, ..f }
    } else {
        f
    }
}

/// A feed that is read in pages.
#[derive(Debug)]
pub struct FeedState {
    pub request: FeedRequest,
    pub continuation: u64,
    pub cancelled: bool,
}

/// A page of a feed as it fills.
#[derive(Debug)]
pub struct FeedBuilder {
    batches: Vec<CommittedBatch>,
    bytes: usize,
    current: Vec<RecordDto>,
    continuation: u64,
    full: bool,
    durable_head: u64,
}

impl View for FeedBuilder {
    type V = FeedView;

    closed spec fn view(&self) -> FeedView {
        FeedView {
            batches: committed_views(self.batches@),
            bytes: self.bytes as int,
            current: dto_views(self.current@),
            continuation: self.continuation,
            full: self.full,
        }
    }
}

/// The limits of a request's pages.
pub open spec fn feed_limits(request: FeedRequest) -> FeedLimits {
    FeedLimits { filter: request.filter@, batches: request.page_batches, bytes: request.page_bytes }
}

impl FeedState {
    /// A feed that goes on from where its request says, else from the consumer's
    /// checkpoint, else from the beginning.
    pub fn open(request: FeedRequest, checkpoint: Option<u64>) -> (r: Self)
        ensures
            r.continuation == (match request.from {
                Some(from) => from,
                None => match checkpoint {
                    Some(position) => position,
                    None => 0,
                },
            }),
            r.request == (FeedRequest { from: Some(r.continuation), ..request }),
            !r.cancelled,
    {
        let continuation: u64 = match request.from {
            Some(from) => from,
            None => match checkpoint {
                Some(position) => position,
                None => 0,
            },
        };
        let mut request = request;
        request.from = Some(continuation);
        FeedState { request, continuation, cancelled: false }
    }

    /// Begins the next page.
    pub fn begin_page(&self, durable_head: u64) -> (r: core::result::Result<FeedBuilder, EngineError>)
        ensures
            r is Ok <==> !self.cancelled,
            r matches Ok(page) ==> page@ == feed_begun(self.continuation) && page.limit() == durable_head,
            r matches Err(e) ==> e@ == cancelled_error("feed was cancelled"@),
    {
        if self.cancelled {
            return Err(EngineError::cancelled("feed was cancelled"));
        }
        let page = FeedBuilder {
            batches: Vec::new(),
            bytes: 0,
            current: Vec::new(),
            continuation: self.continuation,
            full: false,
            durable_head,
        };
        assert(page@.batches =~= Seq::empty());
        assert(page@.current =~= Seq::empty());
        Ok(page)
    }

    /// Ends a page: the feed goes on where it ended.
    pub fn end_page(&mut self, page: FeedBuilder) -> (r: FeedPage)
        requires
            forall|i: int| 0 <= i < page@.current.len() ==> (#[trigger] page@.current[i]).position < page.limit(),
        ensures
            ({
                let ended = feed_ended(page@, feed_limits(old(self).request), page.limit());
                &&& final(self).request == old(self).request
                &&& final(self).cancelled == old(self).cancelled
                &&& final(self).continuation == ended.continuation
                &&& committed_views(r.batches@) == ended.batches
                &&& r.continuation == ended.continuation
                &&& r.durable_head == page.limit()
                &&& !r.timed_out
            }),
    {
        let mut page = page;
        if page.full {
        } else if page.current.len() > 0 {
            page.close(&self.request);
        } else if page.continuation < page.durable_head {
            page.continuation = page.durable_head;
        }
        self.continuation = page.continuation;
        FeedPage { batches: page.batches, continuation: page.continuation, durable_head: page.durable_head, timed_out: false }
    }
}

impl FeedBuilder {
    /// The durable head, at and above which nothing is handed out.
    pub closed spec fn limit(&self) -> u64 {
        self.durable_head
    }

    pub fn is_full(&self) -> (r: bool)
        ensures
            r == self@.full,
    {
        self.full
    }

    fn close(&mut self, request: &FeedRequest)
        requires
            old(self)@.current.len() > 0,
            !old(self)@.full,
            old(self)@.current.last().position < u64::MAX,
        ensures
            final(self)@ == feed_closed(old(self)@, feed_limits(*request)),
            final(self).limit() == old(self).limit(),
    {
        let ghost before = self@;
        let n: usize = self.current.len();
        assert(before.current[0] == self.current@[0]@);
        assert(before.current.last() == self.current@[n - 1]@);
        let first: u64 = self.current[0].position;
        let last: u64 = self.current[n - 1].position;
        if finish_feed_batch(
            &request.filter,
            &mut self.batches,
            &mut self.bytes,
            &self.current,
            request.page_batches,
            request.page_bytes,
        ) {
            self.continuation = last + 1;
            self.current = Vec::new();
            assert(dto_views(self.current@) =~= Seq::empty());
        } else {
            self.continuation = first;
            self.full = true;
        }
    }

    /// Offers a record to the page. What is not durable yet stays off it, and
    /// the answer is then that there is nothing more to offer.
    pub fn offer(&mut self, request: &FeedRequest, record: OwnedStoredRecord) -> (r: core::result::Result<bool, EngineError>)
        requires
            !old(self)@.full,
            forall|i: int| 0 <= i < old(self)@.current.len() ==> (#[trigger] old(self)@.current[i]).position < old(self).limit(),
        ensures
            final(self).limit() == old(self).limit(),
            forall|i: int| 0 <= i < final(self)@.current.len() ==> (#[trigger] final(self)@.current[i]).position < final(self).limit(),
            record@.position >= old(self).limit() ==> r == Ok::<bool, EngineError>(false) && final(self)@ == old(self)@,
            record@.position < old(self).limit() ==> ({
                let offered = feed_offered(old(self)@, feed_limits(*request), dto_of(record@));
                &&& is_payload(record@.payload) || offered.full ==> final(self)@ == offered && r == Ok::<bool, EngineError>(!offered.full)
                &&& !is_payload(record@.payload) && !offered.full ==> (r matches Err(e) && e.category is Codec && e.code@ == "codec"@)
            }),
    {
        let ghost before = self@;
        if record.position >= self.durable_head {
            return Ok(false);
        }
        let n: usize = self.current.len();
        if n > 0 {
            assert(before.current.last() == self.current@[n - 1]@);
            if !same16(&self.current[n - 1].batch_id, record.envelope.batch_id.as_bytes()) {
                self.close(request);
                if self.full {
                    return Ok(false);
                }
            }
        }
        let ghost closed = self@;
        match record_dto(record) {
            Ok(dto) => {
                self.current.push(dto);
                assert(dto_views(self.current@) =~= closed.current.push(dto@));
                Ok(true)
            },
            Err(e) => Err(e),
        }
    }
}

/// A page after records came by, up to the one that showed it to be full.
pub open spec fn feed_after(start: u64, limits: FeedLimits, records: Seq<RecordDtoView>) -> FeedView
    decreases records.len(),
{
    if records.len() == 0 {
        feed_begun(start)
    } else {
        let f = feed_after(start, limits, records.drop_last());
        if f.full {
            f
        } else {
            feed_offered(f, limits, records.last())
        }
    }
}

/// Records in their batches: the longest runs with one batch identity.
pub open spec fn batches_of(records: Seq<RecordDtoView>) -> Seq<Seq<RecordDtoView>>
    decreases records.len(),
{
    if records.len() == 0 {
        Seq::empty()
    } else {
        let before = batches_of(records.drop_last());
        let record = records.last();
        if before.len() > 0 && before.last().last().batch_id == record.batch_id {
            before.drop_last().push(before.last().push(record))
        } else {
            before.push(seq![record])
        }
    }
}

/// The batches that a filter selects, as they are handed out.
pub open spec fn handed_out(filter: FeedFilterView, batches: Seq<Seq<RecordDtoView>>) -> Seq<CommittedView>
    decreases batches.len(),
{
    if batches.len() == 0 {
        Seq::empty()
    } else {
        let before = handed_out(filter, batches.drop_last());
        if batch_selected(filter, batches.last()) {
            before.push(committed_of(batches.last()))
        } else {
            before
        }
    }
}

proof fn lemma_batches_nonempty(records: Seq<RecordDtoView>)
    ensures
        records.len() > 0 ==> batches_of(records).len() > 0 && batches_of(records).last().len() > 0 && batches_of(records).last().last()
            == records.last(),
        forall|i: int| 0 <= i < batches_of(records).len() ==> (#[trigger] batches_of(records)[i]).len() > 0,
    decreases records.len(),
{
    if records.len() > 0 {
        lemma_batches_nonempty(records.drop_last());
        let before = batches_of(records.drop_last());
        let all = batches_of(records);
        assert forall|i: int| 0 <= i < all.len() implies (#[trigger] all[i]).len() > 0 by {
            if i < before.len() {
                assert(before[i].len() > 0);
            }
        }
    }
}

/// A feed splits no batch: what a page holds are the selected ones among the
/// first so many batches, each whole; the batch behind them is either still
/// open, or the one at which the next page begins.
pub proof fn lemma_feed_whole(start: u64, limits: FeedLimits, records: Seq<RecordDtoView>) -> (k: int)
    requires
        limits.batches > 0,
        forall|i: int| 0 <= i < records.len() ==> (#[trigger] records[i]).position < u64::MAX,
    ensures
        ({
            let f = feed_after(start, limits, records);
            let batches = batches_of(records);
            &&& 0 <= k <= batches.len()
            &&& f.batches == handed_out(limits.filter, batches.take(k))
            &&& f.full ==> k < batches.len() - 1 && f.continuation == batches[k][0].position && f.batches.len() > 0
            &&& !f.full && records.len() > 0 ==> k == batches.len() - 1 && f.current == batches.last()
            &&& records.len() == 0 ==> f == feed_begun(start)
            &&& !f.full && k > 0 ==> f.continuation == batches[k - 1].last().position + 1
            &&& !f.full && k == 0 ==> f.continuation == start
        }),
    decreases records.len(),
{
    let batches = batches_of(records);
    if records.len() == 0 {
        assert(batches.take(0) =~= batches);
        0
    } else {
        let shorter = records.drop_last();
        let record = records.last();
        assert forall|i: int| 0 <= i < shorter.len() implies (#[trigger] shorter[i]).position < u64::MAX by {
            assert(shorter[i] == records[i]);
        }
        let k = lemma_feed_whole(start, limits, shorter);
        let f = feed_after(start, limits, shorter);
        let before = batches_of(shorter);
        lemma_batches_nonempty(shorter);
        if f.full {
            assert(batches.take(k) =~= before.take(k));
            assert(batches[k] == before[k]);
            k
        } else if shorter.len() == 0 {
            assert(batches =~= seq![seq![record]]);
            assert(f.current.push(record) =~= seq![record]);
            assert(batches.take(0) =~= Seq::empty());
            0
        } else {
            assert(f.current == before.last());
            assert(f.current.last() == shorter.last());
            if f.current.last().batch_id == record.batch_id {
                assert(batches.take(k) =~= before.take(k));
                if k > 0 {
                    assert(batches[k - 1] == before[k - 1]);
                }
                k
            } else {
                let closed = feed_closed(f, limits);
                assert(shorter.last() == records[records.len() - 2]);
                if closed.full {
                    assert(batches.take(k) =~= before.take(k));
                    assert(batches[k] == before[k]);
                    k
                } else {
                    assert(batches.take(k + 1) =~= before);
                    assert(before.drop_last() =~= before.take(k));
                    assert(closed.current.push(record) =~= seq![record]);
                    assert(batches[k] == before[k]);
                    k + 1
                }
            }
        }
    }
}

/// What a system record says of a consumer.
#[derive(Debug)]
pub enum ConsumerRecord {
    Checkpoint { consumer_id: String, position: u64 },
    /// The checkpoint of the consumer that these bytes name is void.
    Cleared(Vec<u8>),
}

/// A consumer record as plain values.
#[verifier::ext_equal]
pub enum ConsumerView {
    Checkpoint { consumer_id: Seq<char>, position: u64 },
    Cleared(Seq<u8>),
}

impl View for ConsumerRecord {
    type V = ConsumerView;

    open spec fn view(&self) -> ConsumerView {
        match *self {
            ConsumerRecord::Checkpoint { consumer_id, position } => ConsumerView::Checkpoint { consumer_id: consumer_id@, position },
            ConsumerRecord::Cleared(name) => ConsumerView::Cleared(name@),
        }
    }
}

/// The records of a list as plain values.
pub open spec fn consumer_views(records: Seq<ConsumerRecord>) -> Seq<ConsumerView> {
    Seq::new(records.len(), |i: int| records[i]@)
}

/// Where a consumer stands after records.
pub open spec fn checkpoint_after(records: Seq<ConsumerView>, id: Seq<char>) -> Option<u64>
    decreases records.len(),
{
    if records.len() == 0 {
        None
    } else {
        let before = checkpoint_after(records.drop_last(), id);
        match records.last() {
            ConsumerView::Checkpoint { consumer_id, position } => if consumer_id == id {
                Some(position)
            } else {
                before
            },
            ConsumerView::Cleared(name) => if valid_utf8(name) && decode_utf8(name) == id {
                None
            } else {
                before
            },
        }
    }
}

/// Where each consumer stands.
#[derive(Debug)]
pub struct ConsumerCheckpoints {
    entries: Vec<(String, u64)>,
}

/// The last entry of an identity.
spec fn entry_for(entries: Seq<(String, u64)>, id: Seq<char>) -> Option<u64>
    decreases entries.len(),
{
    if entries.len() == 0 {
        None
    } else if entries.last().0@ == id {
        Some(entries.last().1)
    } else {
        entry_for(entries.drop_last(), id)
    }
}

impl ConsumerCheckpoints {
    /// Where a consumer stands.
    pub closed spec fn of(&self, id: Seq<char>) -> Option<u64> {
        entry_for(self.entries@, id)
    }

    pub fn new() -> (r: Self)
        ensures
            forall|id: Seq<char>| #[trigger] r.of(id) is None,
    {
        ConsumerCheckpoints { entries: Vec::new() }
    }

    pub fn get(&self, id: &str) -> (r: Option<u64>)
        ensures
            r == self.of(id@),
    {
        let ghost all = self.entries@;
        let mut i: usize = self.entries.len();
        assert(all.take(i as int) =~= all);
        while i > 0
            invariant
                i <= all.len(),
                all == self.entries@,
                entry_for(all, id@) == entry_for(all.take(i as int), id@),
            decreases i,
        {
            assert(all.take(i as int).last() == all[i - 1]);
            assert(all.take(i as int).drop_last() =~= all.take(i - 1));
            if same_text(self.entries[i - 1].0.as_str(), id) {
                return Some(self.entries[i - 1].1);
            }
            i = i - 1;
        }
        None
    }

    /// Sets where a consumer stands.
    pub fn set(&mut self, id: String, position: u64)
        ensures
            forall|other: Seq<char>| #[trigger]
                final(self).of(other) == (if other == id@ {
                    Some(position)
                } else {
                    old(self).of(other)
                }),
    {
        let ghost before = self.entries@;
        self.entries.push((id, position));
        assert(self.entries@.drop_last() =~= before);
    }

    /// Forgets where a consumer stands.
    pub fn remove(&mut self, id: &str)
        ensures
            forall|other: Seq<char>| #[trigger]
                final(self).of(other) == (if other == id@ {
                    None
                } else {
                    old(self).of(other)
                }),
    {
        let ghost all = self.entries@;
        let mut kept: Vec<(String, u64)> = Vec::new();
        let mut i: usize = 0;
        while i < self.entries.len()
            invariant
                i <= all.len(),
                all == self.entries@,
                forall|other: Seq<char>| #[trigger]
                    entry_for(kept@, other) == (if other == id@ {
                        None
                    } else {
                        entry_for(all.take(i as int), other)
                    }),
            decreases all.len() - i,
        {
            let ghost before = kept@;
            assert(all.take(i + 1).last() == all[i as int]);
            assert(all.take(i + 1).drop_last() =~= all.take(i as int));
            if !same_text(self.entries[i].0.as_str(), id) {
                kept.push((self.entries[i].0.clone(), self.entries[i].1));
                assert(kept@.drop_last() =~= before);
                assert(kept@.last().0@ == all[i as int].0@);
            }
            assert forall|other: Seq<char>| #[trigger]
                entry_for(kept@, other) == (if other == id@ {
                    None
                } else {
                    entry_for(all.take(i + 1), other)
                }) by {
                let _ = entry_for(before, other);
            }
            i = i + 1;
        }
        assert(all.take(i as int) =~= all);
        self.entries = kept;
    }

    /// Where consumers stand after records.
    pub fn restore(records: &Vec<ConsumerRecord>) -> (r: Self)
        ensures
            forall|id: Seq<char>| #[trigger] r.of(id) == checkpoint_after(consumer_views(records@), id),
    {
        let ghost views = consumer_views(records@);
        let mut r = ConsumerCheckpoints::new();
        let mut i: usize = 0;
        assert(views.take(0) =~= Seq::empty());
        while i < records.len()
            invariant
                i <= records@.len(),
                views == consumer_views(records@),
                forall|id: Seq<char>| #[trigger] r.of(id) == checkpoint_after(views.take(i as int), id),
            decreases records@.len() - i,
        {
            assert(views.take(i + 1).last() == records@[i as int]@);
            assert(views.take(i + 1).drop_last() =~= views.take(i as int));
            match &records[i] {
                ConsumerRecord::Checkpoint { consumer_id, position } => {
                    r.set(consumer_id.clone(), *position);
                },
                ConsumerRecord::Cleared(name) => {
                    match utf8_text(name.as_slice()) {
                        Some(id) => {
                            r.remove(id.as_str());
                        },
                        None => {},
                    }
                },
            }
            i = i + 1;
        }
        assert(views.take(i as int) =~= views);
        r
    }
}

} // verus!
