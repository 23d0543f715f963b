//! Replay in pages: what a page takes, and where the next one begins.
use crate::bytes::u32_at;
use crate::facade::error::{cancelled_error, resource_error, EngineError, EngineErrorView, ErrorCategory};
use crate::facade::json::{is_tagged, read_tagged, tagged_bytes, write_tagged};
use crate::facade::types::{
    dto_size, dto_views, opt_text_view, PayloadCodec, RecordDto, RecordDtoView, ReplayPage, ReplayRequest, MAX_REPLAY_PAGE_BYTES,
    MAX_REPLAY_PAGE_EVENTS,
};
use crate::format::frame::{OwnedStoredRecord, RecordView};
use crate::format::metadata::{value_of, Metadata, MetadataView};
use crate::text::{decimal, decimal_string, join3, same_text, utf8_text};
use vstd::prelude::*;
use vstd::utf8::{decode_utf8, valid_utf8};

verus! {

/// The number of a payload codec in the stored form.
pub open spec fn codec_tag(codec: PayloadCodec) -> u32 {
    match codec {
        PayloadCodec::Bytes => 0,
        PayloadCodec::Json => 1,
    }
}

/// The stored form of an event's payload.
pub fn encode_payload(codec: PayloadCodec, bytes: &[u8]) -> (r: Vec<u8>)
    ensures
        r@ == tagged_bytes(codec_tag(codec), bytes@),
{
    match codec {
        PayloadCodec::Bytes => write_tagged(0, bytes),
        PayloadCodec::Json => write_tagged(1, bytes),
    }
}

/// The error for a payload that cannot be read.
pub open spec fn codec_error(message: Seq<char>) -> EngineErrorView {
    EngineErrorView { category: ErrorCategory::Codec, code: "codec"@, message }
}

/// Whether bytes are the stored form of an event's payload.
pub open spec fn is_payload(bytes: Seq<u8>) -> bool {
    is_tagged(bytes) && u32_at(bytes, 0) < 2
}

/// The codec of a stored payload.
pub open spec fn payload_codec(bytes: Seq<u8>) -> PayloadCodec {
    if u32_at(bytes, 0) == 0 {
        PayloadCodec::Bytes
    } else {
        PayloadCodec::Json
    }
}

/// The bytes of a stored payload.
pub open spec fn payload_bytes(bytes: Seq<u8>) -> Seq<u8> {
    bytes.subrange(12, 12 + crate::bytes::u64_at(bytes, 4))
}

/// Reads the stored form of an event's payload.
pub fn decode_payload(bytes: &[u8]) -> (r: core::result::Result<(PayloadCodec, Vec<u8>), EngineError>)
    ensures
        r is Ok <==> is_payload(bytes@),
        r matches Ok((codec, payload)) ==> codec == payload_codec(bytes@) && payload@ == payload_bytes(bytes@),
        r matches Err(e) ==> e.category is Codec && e.code@ == "codec"@ && (bytes@.len() >= 4 && u32_at(bytes@, 0) >= 2 ==> e@
            == codec_error(
            "invalid value: integer `"@ + decimal(u32_at(bytes@, 0) as nat) + "`, expected variant index 0 <= i < 2"@,
        )),
{
    if bytes.len() >= 4 {
        let tag: u32 = crate::bytes::read_u32(bytes, 0);
        if tag >= 2 {
            let message = join3(
                "invalid value: integer `",
                decimal_string(tag as u64).as_str(),
                "`, expected variant index 0 <= i < 2",
            );
            return Err(EngineError { category: ErrorCategory::Codec, code: "codec", message });
        }
    }
    match read_tagged(bytes) {
        Ok((tag, payload)) => {
            let codec = if tag == 0 {
                PayloadCodec::Bytes
            } else {
                PayloadCodec::Json
            };
            Ok((codec, payload))
        },
        Err(message) => Err(EngineError { category: ErrorCategory::Codec, code: "codec", message }),
    }
}

/// A payload is read as it was written.
pub proof fn lemma_payload_round_trip(codec: PayloadCodec, bytes: Seq<u8>)
    requires
        bytes.len() <= u64::MAX,
    ensures
        is_payload(tagged_bytes(codec_tag(codec), bytes)),
        payload_codec(tagged_bytes(codec_tag(codec), bytes)) == codec,
        payload_bytes(tagged_bytes(codec_tag(codec), bytes)) == bytes,
{
    crate::bytes::lemma_le_codec();
    let tag = codec_tag(codec);
    let n = bytes.len() as u64;
    let all = tagged_bytes(tag, bytes);
    assert(vstd::bytes::spec_u32_to_le_bytes(tag).len() == 4);
    assert(vstd::bytes::spec_u64_to_le_bytes(n).len() == 8);
    assert(all.subrange(0, 4) =~= vstd::bytes::spec_u32_to_le_bytes(tag));
    assert(all.subrange(4, 12) =~= vstd::bytes::spec_u64_to_le_bytes(n));
    assert(all.subrange(12, 12 + bytes.len() as int) =~= bytes);
}

/// A stored record as it is handed out.
pub open spec fn dto_of(record: RecordView) -> RecordDtoView {
    RecordDtoView {
        database_id: record.envelope.database_id,
        batch_id: record.envelope.batch_id,
        batch_index: record.envelope.batch_index,
        position: record.position,
        timestamp: record.envelope.timestamp,
        event_id: record.envelope.event_id,
        branch_id: record.envelope.branch_id,
        stream_id: record.envelope.stream_id,
        stream_revision: record.envelope.stream_revision,
        event_type: record.envelope.event_type,
        schema_version: record.envelope.schema_version,
        metadata: record.envelope.metadata,
        codec: payload_codec(record.payload),
        payload: payload_bytes(record.payload),
    }
}

/// Hands out a stored record.
pub fn record_dto(record: OwnedStoredRecord) -> (r: core::result::Result<RecordDto, EngineError>)
    ensures
        r is Ok <==> is_payload(record@.payload),
        r matches Ok(dto) ==> dto@ == dto_of(record@),
        r matches Err(e) ==> e.category is Codec && e.code@ == "codec"@,
{
    let (codec, payload) = match decode_payload(record.payload.as_slice()) {
        Ok(pair) => pair,
        Err(e) => return Err(e),
    };
    let position: u64 = record.position;
    let envelope = record.envelope;
    Ok(
        RecordDto {
            database_id: envelope.database_id.into_bytes(),
            batch_id: envelope.batch_id.into_bytes(),
            batch_index: envelope.batch_index,
            position,
            timestamp_unix_nanos: envelope.timestamp_unix_nanos,
            event_id: envelope.event_id.into_bytes(),
            branch_id: envelope.branch_id.into_bytes(),
            stream_id: envelope.stream_id.into_bytes(),
            stream_revision: envelope.stream_revision.0,
            event_type: envelope.event_type.as_str().to_owned(),
            schema_version: envelope.schema_version,
            metadata: envelope.metadata,
            codec,
            payload,
        },
    )
}

/// The stream that metadata names, if it names one in text.
pub open spec fn named_stream(metadata: MetadataView) -> Option<Seq<char>> {
    match value_of(metadata, "salamander.stream_name"@) {
        Some(bytes) => if valid_utf8(bytes) {
            Some(decode_utf8(bytes))
        } else {
            None
        },
        None => None,
    }
}

/// The stream that metadata names, if it names one in text.
pub fn stream_named(metadata: &Metadata) -> (r: Option<String>)
    ensures
        opt_text_view(r) == named_stream(metadata@),
{
    match metadata.get("salamander.stream_name") {
        Some(bytes) => utf8_text(bytes.as_slice()),
        None => None,
    }
}

/// Whether metadata names the stream that is wanted, if one is wanted.
pub open spec fn stream_wanted(wanted: Option<Seq<char>>, metadata: MetadataView) -> bool {
    wanted is None || named_stream(metadata) == wanted
}

/// Whether metadata names the stream that is wanted, if one is wanted.
pub fn wants_stream(wanted: &Option<String>, metadata: &Metadata) -> (r: bool)
    ensures
        r == stream_wanted(opt_text_view(*wanted), metadata@),
{
    match wanted {
        None => true,
        Some(name) => match stream_named(metadata) {
            Some(found) => same_text(found.as_str(), name.as_str()),
            None => false,
        },
    }
}

/// Why pages of a replay cannot be that large, if they cannot.
pub open spec fn page_error(events: u32, bytes: usize) -> Option<EngineErrorView> {
    if events == 0 || events > MAX_REPLAY_PAGE_EVENTS {
        Some(resource_error("page events"@, events as int, MAX_REPLAY_PAGE_EVENTS as int))
    } else if bytes == 0 || bytes > MAX_REPLAY_PAGE_BYTES {
        Some(resource_error("page bytes"@, bytes as int, MAX_REPLAY_PAGE_BYTES as int))
    } else {
        None
    }
}

/// Checks the limits of a replay's pages.
pub fn validate_page(request: &ReplayRequest) -> (r: core::result::Result<(), EngineError>)
    ensures
        r is Ok <==> page_error(request.page_events, request.page_bytes) is None,
        r matches Err(e) ==> Some(e@) == page_error(request.page_events, request.page_bytes),
{
    if request.page_events == 0 || request.page_events > MAX_REPLAY_PAGE_EVENTS {
        return Err(EngineError::resource("page events", request.page_events as usize, MAX_REPLAY_PAGE_EVENTS as usize));
    }
    if request.page_bytes == 0 || request.page_bytes > MAX_REPLAY_PAGE_BYTES {
        return Err(EngineError::resource("page bytes", request.page_bytes, MAX_REPLAY_PAGE_BYTES));
    }
    Ok(())
}

/// What a page may hold.
#[verifier::ext_equal]
pub struct PageLimits {
    pub stream: Option<Seq<char>>,
    pub events: u32,
    pub bytes: usize,
}

/// A page as it fills.
#[verifier::ext_equal]
pub struct PageView {
    pub records: Seq<RecordDtoView>,
    pub bytes: int,
    pub continuation: u64,
    /// Nothing more goes onto the page.
    pub full: bool,
}

/// A page that is yet empty.
pub open spec fn page_begun(continuation: u64) -> PageView {
    PageView { records: Seq::empty(), bytes: 0, continuation, full: false }
}

/// Whether a page keeps to its bytes. A first record goes onto a page whatever
/// its size.
pub open spec fn page_fits(p: PageView, bytes: usize) -> bool {
    &&& p.records.len() == 0 ==> p.bytes == 0
    &&& p.records.len() > 1 ==> p.bytes <= bytes
}

/// A page after a record came by; `after` is the position behind it.
pub open spec fn page_offered(p: PageView, limits: PageLimits, record: RecordDtoView, after: u64) -> PageView {
    let size = dto_size(record);
    if !stream_wanted(limits.stream, record.metadata) {
        PageView { continuation: after, ..p }
    } else if p.records.len() > 0 && (p.records.len() >= limits.events || p.bytes + size > limits.bytes) {
        PageView { continuation: record.position, full: true, ..p }
    } else {
        PageView {
            records: p.records.push(record),
            bytes: p.bytes + size,
            continuation: after,
            full: p.records.len() + 1 >= limits.events,
        }
    }
}

/// A reader that is read in pages.
#[derive(Debug)]
pub struct ReaderState {
    pub request: ReplayRequest,
    pub continuation: u64,
    pub cancelled: bool,
}

/// A page as it fills.
#[derive(Debug)]
pub struct PageBuilder {
    records: Vec<RecordDto>,
    bytes: usize,
    continuation: u64,
    full: bool,
}

impl View for PageBuilder {
    type V = PageView;

    closed spec fn view(&self) -> PageView {
        PageView {
            records: dto_views(self.records@),
            bytes: self.bytes as int,
            continuation: self.continuation,
            full: self.full,
        }
    }
}

/// The limits of a request's pages.
pub open spec fn limits_of(request: ReplayRequest) -> PageLimits {
    PageLimits { stream: opt_text_view(request.stream), events: request.page_events, bytes: request.page_bytes }
}

impl ReaderState {
    /// A reader at the start of what it reads.
    pub fn open(request: ReplayRequest) -> (r: Self)
        ensures
            r == (ReaderState { request, continuation: request.from, cancelled: false }),
    {
        let continuation: u64 = request.from;
        ReaderState { request, continuation, cancelled: false }
    }

    /// Begins the next page.
    pub fn begin_page(&self) -> (r: core::result::Result<PageBuilder, EngineError>)
        ensures
            r is Ok <==> !self.cancelled,
            r matches Ok(page) ==> page@ == page_begun(self.continuation),
            r matches Err(e) ==> e@ == cancelled_error("reader was cancelled"@),
    {
        if self.cancelled {
            return Err(EngineError::cancelled("reader was cancelled"));
        }
        let page = PageBuilder { records: Vec::new(), bytes: 0, continuation: self.continuation, full: false };
        assert(page@.records =~= Seq::empty());
        Ok(page)
    }

    /// Ends a page: the reader goes on where it ended.
    pub fn end_page(&mut self, page: PageBuilder, head: u64) -> (r: ReplayPage)
        ensures
            final(self).request == old(self).request,
            final(self).cancelled == old(self).cancelled,
            final(self).continuation == page@.continuation,
            dto_views(r.records@) == page@.records,
            r.continuation == page@.continuation,
            r.done == (page@.continuation >= (match old(self).request.until {
                Some(until) => until,
                None => head,
            })),
    {
        let end: u64 = match self.request.until {
            Some(until) => until,
            None => head,
        };
        self.continuation = page.continuation;
        ReplayPage { records: page.records, continuation: page.continuation, done: page.continuation >= end }
    }
}

impl PageBuilder {
    pub fn is_full(&self) -> (r: bool)
        ensures
            r == self@.full,
    {
        self.full
    }

    /// Offers a record to the page; `after` is the position behind it.
    pub fn offer(&mut self, request: &ReplayRequest, record: OwnedStoredRecord, after: u64) -> (r: core::result::Result<(), EngineError>)
        requires
            !old(self)@.full,
            page_fits(old(self)@, request.page_bytes),
        ensures
            !stream_wanted(opt_text_view(request.stream), record@.envelope.metadata) || is_payload(record@.payload) ==> r is Ok
                && final(self)@ == page_offered(old(self)@, limits_of(*request), dto_of(record@), after),
            stream_wanted(opt_text_view(request.stream), record@.envelope.metadata) && !is_payload(record@.payload) ==> (r matches Err(e)
                && e.category is Codec && e.code@ == "codec"@) && final(self)@ == old(self)@,
            page_fits(final(self)@, request.page_bytes),
    {
        let ghost before = self@;
        if !wants_stream(&request.stream, &record.envelope.metadata) {
            self.continuation = after;
            return Ok(());
        }
        let dto = match record_dto(record) {
            Ok(dto) => dto,
            Err(e) => return Err(e),
        };
        let size: usize = dto.size();
        let room = self.bytes <= request.page_bytes && size <= request.page_bytes - self.bytes;
        if self.records.len() > 0 && (self.records.len() as u64 >= request.page_events as u64 || !room) {
            self.continuation = dto.position;
            self.full = true;
            return Ok(());
        }
        self.bytes = self.bytes.saturating_add(size);
        self.continuation = after;
        self.records.push(dto);
        self.full = self.records.len() as u64 >= request.page_events as u64;
        assert(self@.records =~= before.records.push(dto@));
        Ok(())
    }

    /// Takes note that nothing more is to be read.
    pub fn exhausted(&mut self, reader_continuation: u64)
        ensures
            final(self)@ == (PageView {
                continuation: if reader_continuation > old(self)@.continuation {
                    reader_continuation
                } else {
                    old(self)@.continuation
                },
                ..old(self)@
            }),
    {
        if reader_continuation > self.continuation {
            self.continuation = reader_continuation;
        }
    }
}

/// A record that a reader yields, and the position behind it.
pub type Passing = (RecordDtoView, u64);

/// A page after records came by, up to the one that it turned away or that
/// filled it.
pub open spec fn page_after(start: u64, limits: PageLimits, passing: Seq<Passing>) -> PageView
    decreases passing.len(),
{
    if passing.len() == 0 {
        page_begun(start)
    } else {
        let p = page_after(start, limits, passing.drop_last());
        if p.full {
            p
        } else {
            page_offered(p, limits, passing.last().0, passing.last().1)
        }
    }
}

/// The records of the stream that is wanted.
pub open spec fn wanted_records(limits: PageLimits, passing: Seq<Passing>) -> Seq<RecordDtoView>
    decreases passing.len(),
{
    if passing.len() == 0 {
        Seq::empty()
    } else {
        let before = wanted_records(limits, passing.drop_last());
        if stream_wanted(limits.stream, passing.last().0.metadata) {
            before.push(passing.last().0)
        } else {
            before
        }
    }
}

/// Whether records pass in order, each behind what came before it.
pub open spec fn pass_in_order(start: u64, passing: Seq<Passing>) -> bool {
    &&& forall|i: int| 0 <= i < passing.len() ==> start <= (#[trigger] passing[i]).0.position < passing[i].1
    &&& forall|i: int, j: int| 0 <= i < j < passing.len() ==> (#[trigger] passing[i]).1 <= (#[trigger] passing[j]).0.position
}

/// Where the next page begins among the records that pass.
pub open spec fn divides(passing: Seq<Passing>, k: int, continuation: u64) -> bool {
    &&& 0 <= k <= passing.len()
    &&& forall|i: int| 0 <= i < k ==> (#[trigger] passing[i]).0.position < continuation
    &&& forall|i: int| k <= i < passing.len() ==> continuation <= (#[trigger] passing[i]).0.position
}

/// Paging loses nothing and repeats nothing: a page holds the wanted ones among
/// the first so many of the records that pass, and the next page begins with the
/// record behind those. A full page holds at least one record, so that paging
/// comes to an end, and no page holds more events than it may, nor more bytes
/// unless it holds a single event.
pub proof fn lemma_page_complete(start: u64, limits: PageLimits, passing: Seq<Passing>) -> (k: int)
    requires
        limits.events > 0,
        pass_in_order(start, passing),
    ensures
        ({
            let p = page_after(start, limits, passing);
            &&& p.records == wanted_records(limits, passing.take(k))
            &&& divides(passing, k, p.continuation)
            &&& !p.full ==> k == passing.len()
            &&& p.full ==> p.records.len() > 0
            &&& p.records.len() <= limits.events
            &&& page_fits(p, limits.bytes)
        }),
    decreases passing.len(),
{
    if passing.len() == 0 {
        assert(passing.take(0) =~= passing);
        0
    } else {
        let shorter = passing.drop_last();
        let n = passing.len() - 1;
        assert(pass_in_order(start, shorter)) by {
            assert forall|i: int| 0 <= i < shorter.len() implies start <= (#[trigger] shorter[i]).0.position < shorter[i].1 by {
                assert(shorter[i] == passing[i]);
            }
            assert forall|i: int, j: int| 0 <= i < j < shorter.len() implies (#[trigger] shorter[i]).1 <= (#[trigger] shorter[j]).0.position by {
                assert(shorter[i] == passing[i] && shorter[j] == passing[j]);
            }
        }
        let k = lemma_page_complete(start, limits, shorter);
        let p = page_after(start, limits, shorter);
        let last = passing[n];
        assert(shorter.take(k) =~= passing.take(k));
        assert forall|i: int| 0 <= i < n implies (#[trigger] passing[i]).0.position < last.0.position by {
            assert(passing[i].1 <= passing[n].0.position);
        }
        if p.full {
            assert forall|i: int| k <= i < passing.len() implies p.continuation <= (#[trigger] passing[i]).0.position by {
                if i < n {
                    assert(shorter[i] == passing[i]);
                } else if k < n {
                    assert(shorter[k] == passing[k]);
                } else {
                    lemma_continuation_bound(start, limits, shorter, last.0.position);
                }
            }
            assert forall|i: int| 0 <= i < k implies (#[trigger] passing[i]).0.position < p.continuation by {
                assert(shorter[i] == passing[i]);
            }
            k
        } else {
            assert(passing.take(passing.len() as int) =~= passing);
            let q = page_offered(p, limits, last.0, last.1);
            if !stream_wanted(limits.stream, last.0.metadata) || !q.full || q.records.len() > p.records.len() {
                assert(q.continuation == last.1);
                assert forall|i: int| 0 <= i < passing.len() implies (#[trigger] passing[i]).0.position < q.continuation by {
                    assert(passing[i].0.position <= last.0.position);
                }
                passing.len() as int
            } else {
                assert(q.continuation == last.0.position);
                assert(passing.take(n) =~= shorter);
                n
            }
        }
    }
}

/// The next page does not begin behind what is yet to come.
proof fn lemma_continuation_bound(start: u64, limits: PageLimits, passing: Seq<Passing>, next: u64)
    requires
        pass_in_order(start, passing),
        start <= next,
        forall|i: int| 0 <= i < passing.len() ==> (#[trigger] passing[i]).1 <= next,
    ensures
        page_after(start, limits, passing).continuation <= next,
    decreases passing.len(),
{
    if passing.len() > 0 {
        let shorter = passing.drop_last();
        let n = passing.len() - 1;
        assert forall|i: int| 0 <= i < shorter.len() implies (#[trigger] shorter[i]).1 <= next && start <= shorter[i].0.position
            < shorter[i].1 by {
            assert(shorter[i] == passing[i]);
        }
        assert forall|i: int, j: int| 0 <= i < j < shorter.len() implies (#[trigger] shorter[i]).1 <= (#[trigger] shorter[j]).0.position by {
            assert(shorter[i] == passing[i] && shorter[j] == passing[j]);
        }
        lemma_continuation_bound(start, limits, shorter, next);
        assert(passing[n].1 <= next);
    }
}

} // verus!
