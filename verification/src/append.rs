//! What an append comes to: a batch to write, the receipt of one that was
//! written before, or a conflict.
use crate::branch::{find, BranchCatalog, BranchStatus, BranchView};
use crate::bytes::copy_bytes;
use crate::error::{ErrorView, Result, SalamanderError};
use crate::format::derive::{derive_stream_id, twin_hash};
use crate::format::envelope::{EnvelopeView, RecordEnvelopeV2};
use crate::format::frame::{FrameKind, RecordView};
use crate::format::ids::{RUST_BINCODE_V1, BatchId, BranchId, CodecId, DatabaseId, EventId, StreamId, StreamRevision};
use crate::format::metadata::{has_key, inserted, keys_ascend, lemma_inserted, value_of, Metadata, MetadataView};
use crate::log::segment::{event_views, EventView};
use crate::stream::{
    batch_in, digest_in, digest_views, entry_begun, entry_extended, event_digest_of, event_fingerprint, event_in, history_of, key_in,
    key_stored, last_of_stream, stream_name_of,
    request_digest, request_error, request_fingerprint, revision_error, revision_expected, revision_view, stream_revision_in,
    validate_expected, AppendReceipt, AppendRequest, BatchEntry, Durability, EntryView, ReceiptDurability, ReceiptView,
    RequestView, StreamCatalog,
};
use crate::text::{hex_string, hex_text, lemma_utf8_round_trip};
use vstd::bytes::{spec_u32_to_le_bytes, u32_to_le_bytes};
use vstd::prelude::*;
use vstd::utf8::encode_utf8;

verus! {

/// Milliseconds as nanoseconds, at most as many as an `i64` holds.
pub open spec fn nanos_of(millis: u64) -> i64 {
    let signed = #[verifier::truncate] (millis as i64);
    if signed * 1_000_000 > i64::MAX {
        i64::MAX
    } else if signed * 1_000_000 < i64::MIN {
        i64::MIN
    } else {
        (signed * 1_000_000) as i64
    }
}

/// Milliseconds as nanoseconds, at most as many as an `i64` holds.
pub fn nanos(millis: u64) -> (r: i64)
    ensures
        r == nanos_of(millis),
{
    let signed: i64 = #[verifier::truncate] (millis as i64);
    match signed.checked_mul(1_000_000) {
        Some(nanos) => nanos,
        None => if signed > 0 {
            i64::MAX
        } else {
            i64::MIN
        },
    }
}

/// Identities that nothing has used: one for a batch, one for each event.
#[derive(Debug)]
pub struct FreshIds {
    pub batch: BatchId,
    pub events: Vec<EventId>,
}

/// What the envelopes of a batch share.
#[verifier::ext_equal]
pub struct StampView {
    pub database: Seq<u8>,
    pub stream_id: Seq<u8>,
    pub batch_id: Seq<u8>,
    pub first_revision: u64,
    pub timestamp: i64,
    pub digest: u32,
    pub fresh: Seq<Seq<u8>>,
}

/// An event's metadata with what the engine adds to it.
pub open spec fn stamped_metadata(m: MetadataView, request: RequestView, digest: u32) -> MetadataView {
    let named = inserted(m, "salamander.stream_name"@, encode_utf8(request.stream));
    match request.key {
        Some(key) => inserted(
            inserted(named, "salamander.idempotency_key"@, key),
            "salamander.request_digest"@,
            spec_u32_to_le_bytes(digest),
        ),
        None => named,
    }
}

/// The identity that event `i` of a request is stored under.
pub open spec fn event_id_at(request: RequestView, fresh: Seq<Seq<u8>>, i: int) -> Seq<u8> {
    match request.events[i].event_id {
        Some(id) => id,
        None => fresh[i],
    }
}

/// The envelope of event `i` of a request.
pub open spec fn envelope_at(request: RequestView, stamp: StampView, i: int) -> EnvelopeView {
    let event = request.events[i];
    EnvelopeView {
        event_id: event_id_at(request, stamp.fresh, i),
        database_id: stamp.database,
        branch_id: request.branch,
        stream_id: stamp.stream_id,
        stream_revision: (stamp.first_revision + i) as u64,
        timestamp: stamp.timestamp,
        event_type: event.event_type,
        schema_version: event.schema_version,
        codec: RUST_BINCODE_V1,
        batch_id: stamp.batch_id,
        batch_index: #[verifier::truncate] (i as u32),
        metadata: stamped_metadata(event.metadata, request, stamp.digest),
    }
}

/// The events of a request as they are stored.
pub open spec fn stored_events(request: RequestView, stamp: StampView) -> Seq<EventView> {
    Seq::new(request.events.len(), |i: int| (envelope_at(request, stamp, i), request.events[i].payload))
}

/// The identities and digests of stored events.
pub open spec fn stored_digests(events: Seq<EventView>) -> Seq<(Seq<u8>, u32)> {
    Seq::new(events.len(), |i: int| (events[i].0.event_id, event_digest_of(events[i].0, events[i].1)))
}

/// Whether an event's identity is known for other content.
pub open spec fn known_otherwise(h: Seq<EntryView>, id: Seq<u8>, digest: u32) -> bool {
    event_in(h, id) matches Some((old, _)) && old != digest
}

/// Whether an event of a batch has an identity that is taken by other content,
/// in the history or earlier in the batch.
pub open spec fn clashes(h: Seq<EntryView>, digests: Seq<(Seq<u8>, u32)>) -> bool {
    exists|i: int| 0 <= i < digests.len() && #[trigger] clash_at(h, digests, i)
}

/// Whether event `i` of a batch has an identity that is taken by other content.
pub open spec fn clash_at(h: Seq<EntryView>, digests: Seq<(Seq<u8>, u32)>, i: int) -> bool {
    known_otherwise(h, digests[i].0, digests[i].1) || exists|j: int|
        0 <= j < i && (#[trigger] digests[j]).0 == digests[i].0 && digests[j].1 != digests[i].1
}

/// Whether a writer named an event that is in the history.
pub open spec fn known_at(h: Seq<EntryView>, request: RequestView, i: int) -> bool {
    request.events[i].event_id matches Some(id) && event_in(h, id) is Some
}

/// Whether a writer named any event that is in the history.
pub open spec fn any_known(h: Seq<EntryView>, request: RequestView) -> bool {
    exists|i: int| 0 <= i < request.events.len() && #[trigger] known_at(h, request, i)
}

/// The receipt of the batch in which event `i` of a request stands.
pub open spec fn receipt_at(h: Seq<EntryView>, request: RequestView, i: int) -> ReceiptView {
    let (_, receipt) = event_in(h, request.events[i].event_id->0)->0;
    receipt
}

/// Whether the history holds every event of a request, all in one batch.
pub open spec fn all_known(h: Seq<EntryView>, request: RequestView) -> bool {
    &&& forall|i: int| 0 <= i < request.events.len() ==> #[trigger] known_at(h, request, i)
    &&& forall|i: int|
        0 <= i < request.events.len() ==> (#[trigger] receipt_at(h, request, i)).batch_id == receipt_at(h, request, 0).batch_id
}

/// A batch that is ready to be written.
#[verifier::ext_equal]
pub struct PreparedView {
    pub branch: Seq<u8>,
    pub stream: Seq<char>,
    pub stream_id: Seq<u8>,
    pub batch_id: Seq<u8>,
    pub previous: Option<u64>,
    pub events: Seq<EventView>,
    pub digests: Seq<(Seq<u8>, u32)>,
    pub key: Option<(Seq<u8>, u32)>,
    pub durability: Durability,
}

/// What an append comes to.
#[verifier::ext_equal]
pub enum PlanView {
    /// It was done before. `sync` says whether it has yet to be made durable.
    Existing { receipt: ReceiptView, sync: bool },
    Write(PreparedView),
}

/// A receipt handed out again, after a sync where one is wanted.
pub open spec fn receipt_again(receipt: ReceiptView, durability: Durability) -> PlanView {
    let sync = durability is Sync && !(receipt.durability is Synced);
    PlanView::Existing {
        receipt: if sync {
            ReceiptView { durability: ReceiptDurability::Synced, ..receipt }
        } else {
            receipt
        },
        sync,
    }
}

/// The first revision that a batch takes in a stream.
pub open spec fn next_revision(previous: Option<u64>) -> int {
    match previous {
        Some(revision) => revision + 1,
        None => 0,
    }
}

/// The identity of the stream that a request names: the one it has, or the one
/// that is derived for it.
pub open spec fn stream_id_for(h: Seq<EntryView>, database: Seq<u8>, request: RequestView) -> Seq<u8> {
    match last_of_stream(h, request.branch, request.stream) {
        Some(entry) => entry.stream_id,
        None => twin_hash(database + request.branch + encode_utf8(request.stream)),
    }
}

/// What the envelopes of a request's batch share.
pub open spec fn stamp_for(
    h: Seq<EntryView>,
    database: Seq<u8>,
    request: RequestView,
    batch: Seq<u8>,
    fresh: Seq<Seq<u8>>,
    millis: u64,
) -> StampView {
    StampView {
        database,
        stream_id: stream_id_for(h, database, request),
        batch_id: batch,
        first_revision: next_revision(stream_revision_in(h, request.branch, request.stream)) as u64,
        timestamp: nanos_of(millis),
        digest: request_digest(request),
        fresh,
    }
}

/// What an append that no key answers for comes to, its events stamped.
pub open spec fn plan_stamped(
    h: Seq<EntryView>,
    request: RequestView,
    supplied: Option<Seq<u8>>,
    stamp: StampView,
) -> core::result::Result<PlanView, ErrorView> {
    let events = stored_events(request, stamp);
    let digests = stored_digests(events);
    if clashes(h, digests) {
        Err(ErrorView::EventIdConflict)
    } else if any_known(h, request) {
        if !all_known(h, request) {
            Err(ErrorView::EventIdConflict)
        } else {
            let receipt = receipt_at(h, request, request.events.len() - 1);
            if supplied is Some && supplied != Some(receipt.batch_id) {
                Err(ErrorView::BatchIdConflict)
            } else {
                Ok(receipt_again(receipt, request.durability))
            }
        }
    } else if batch_in(h, stamp.batch_id) {
        Err(ErrorView::BatchIdConflict)
    } else {
        Ok(
            PlanView::Write(
                PreparedView {
                    branch: request.branch,
                    stream: request.stream,
                    stream_id: stamp.stream_id,
                    batch_id: stamp.batch_id,
                    previous: stream_revision_in(h, request.branch, request.stream),
                    events,
                    digests,
                    key: match request.key {
                        Some(key) => Some((key, stamp.digest)),
                        None => None,
                    },
                    durability: request.durability,
                },
            ),
        )
    }
}

/// Why a branch takes no events, if it does not.
pub open spec fn branch_error(branches: Seq<BranchView>, branch: Seq<u8>) -> Option<ErrorView> {
    match find(branches, branch) {
        None => Some(ErrorView::BranchNotFound(hex_text(branch))),
        Some(i) => if branches[i].status is Archived {
            Some(ErrorView::BranchArchived(branches[i].name))
        } else {
            None
        },
    }
}

/// What an append comes to.
pub open spec fn append_plan(
    h: Seq<EntryView>,
    branches: Seq<BranchView>,
    database: Seq<u8>,
    request: RequestView,
    supplied: Option<Seq<u8>>,
    batch: Seq<u8>,
    fresh: Seq<Seq<u8>>,
    millis: u64,
) -> core::result::Result<PlanView, ErrorView> {
    let previous = stream_revision_in(h, request.branch, request.stream);
    let digest = request_digest(request);
    let chosen = match supplied {
        Some(id) => id,
        None => batch,
    };
    if request_error(request) is Some {
        Err(request_error(request)->0)
    } else if branch_error(branches, request.branch) is Some {
        Err(branch_error(branches, request.branch)->0)
    } else if request.key is Some && key_in(h, request.branch, request.key->0) is Some {
        let (known, receipt) = key_in(h, request.branch, request.key->0)->0;
        if known != digest {
            Err(ErrorView::IdempotencyConflict)
        } else {
            Ok(receipt_again(receipt, request.durability))
        }
    } else if !revision_expected(request.expected, previous) {
        Err(revision_error(request.expected, previous))
    } else {
        plan_stamped(h, request, supplied, stamp_for(h, database, request, chosen, fresh, millis))
    }
}

/// A batch that is ready to be written.
#[derive(Debug)]
pub struct PreparedAppend {
    pub branch: BranchId,
    pub stream: String,
    pub stream_id: StreamId,
    pub batch_id: BatchId,
    pub previous: Option<StreamRevision>,
    pub events: Vec<(RecordEnvelopeV2, Vec<u8>)>,
    pub digests: Vec<(EventId, u32)>,
    pub key: Option<(Vec<u8>, u32)>,
    pub durability: Durability,
}

/// A key and digest as plain values.
pub open spec fn keyed_view(key: Option<(Vec<u8>, u32)>) -> Option<(Seq<u8>, u32)> {
    match key {
        Some((key, digest)) => Some((key@, digest)),
        None => None,
    }
}

impl View for PreparedAppend {
    type V = PreparedView;

    open spec fn view(&self) -> PreparedView {
        PreparedView {
            branch: self.branch@,
            stream: self.stream@,
            stream_id: self.stream_id@,
            batch_id: self.batch_id@,
            previous: revision_view(self.previous),
            events: event_views(self.events@),
            digests: digest_views(self.digests@),
            key: keyed_view(self.key),
            durability: self.durability,
        }
    }
}

/// What an append comes to.
#[derive(Debug)]
pub enum AppendPlan {
    /// It was done before. `sync` says whether it has yet to be made durable.
    Existing { receipt: AppendReceipt, sync: bool },
    Write(PreparedAppend),
}

impl View for AppendPlan {
    type V = PlanView;

    open spec fn view(&self) -> PlanView {
        match *self {
            AppendPlan::Existing { receipt, sync } => PlanView::Existing { receipt: receipt@, sync },
            AppendPlan::Write(prepared) => PlanView::Write(prepared@),
        }
    }
}

/// The identities of a list as plain values.
pub open spec fn event_id_views(ids: Seq<EventId>) -> Seq<Seq<u8>> {
    Seq::new(ids.len(), |i: int| ids[i]@)
}

/// An optional batch identity as plain bytes.
pub open spec fn batch_id_view(id: Option<BatchId>) -> Option<Seq<u8>> {
    match id {
        Some(id) => Some(id@),
        None => None,
    }
}

fn again(receipt: AppendReceipt, durability: Durability) -> (r: AppendPlan)
    ensures
        r@ == receipt_again(receipt@, durability),
{
    let synced = match receipt.durability {
        ReceiptDurability::Synced => true,
        _ => false,
    };
    let wanted = match durability {
        Durability::Sync => true,
        _ => false,
    };
    if wanted && !synced {
        let mut receipt = receipt;
        receipt.durability = ReceiptDurability::Synced;
        AppendPlan::Existing { receipt, sync: true }
    } else {
        AppendPlan::Existing { receipt, sync: false }
    }
}

fn stamp_metadata(metadata: &Metadata, request: &AppendRequest, digest: u32) -> (r: Metadata)
    ensures
        r@ == stamped_metadata(metadata@, request@, digest),
{
    let mut m = metadata.clone();
    let name = vstd::slice::slice_to_vec(request.stream.as_str().as_bytes());
    let _ = m.insert("salamander.stream_name".to_owned(), name);
    match &request.idempotency_key {
        Some(key) => {
            let _ = m.insert("salamander.idempotency_key".to_owned(), vstd::slice::slice_to_vec(key.as_bytes()));
            let _ = m.insert("salamander.request_digest".to_owned(), u32_to_le_bytes(digest));
        },
        None => {},
    }
    m
}

/// What the envelopes of a batch share.
struct Stamp<'a> {
    database: DatabaseId,
    stream_id: StreamId,
    batch_id: BatchId,
    first_revision: u64,
    timestamp: i64,
    digest: u32,
    fresh: &'a Vec<EventId>,
}

impl<'a> View for Stamp<'a> {
    type V = StampView;

    closed spec fn view(&self) -> StampView {
        StampView {
            database: self.database@,
            stream_id: self.stream_id@,
            batch_id: self.batch_id@,
            first_revision: self.first_revision,
            timestamp: self.timestamp,
            digest: self.digest,
            fresh: event_id_views(self.fresh@),
        }
    }
}

fn stamp_event(request: &AppendRequest, stamp: &Stamp, i: usize) -> (r: RecordEnvelopeV2)
    requires
        i < request.events@.len(),
        i < stamp.fresh@.len(),
        stamp.first_revision + i <= u64::MAX,
    ensures
        r@ == envelope_at(request@, stamp@, i as int),
{
    let event = &request.events[i];
    let event_id: EventId = match event.event_id {
        Some(id) => id,
        None => stamp.fresh[i],
    };
    let envelope = RecordEnvelopeV2 {
        event_id,
        database_id: stamp.database,
        branch_id: request.branch,
        stream_id: stamp.stream_id,
        stream_revision: StreamRevision(stamp.first_revision + i as u64),
        timestamp_unix_nanos: stamp.timestamp,
        event_type: event.event_type.clone(),
        schema_version: event.schema_version,
        codec: CodecId::rust_bincode_v1(),
        batch_id: stamp.batch_id,
        batch_index: #[verifier::truncate] (i as u32),
        metadata: stamp_metadata(&event.metadata, request, stamp.digest),
    };
    assert(request@.events[i as int] == event@);
    assert(envelope@ =~= envelope_at(request@, stamp@, i as int));
    envelope
}

fn taken_earlier(digests: &Vec<(EventId, u32)>, id: EventId, digest: u32) -> (r: bool)
    ensures
        r == exists|j: int| 0 <= j < digests@.len() && (#[trigger] digest_views(digests@)[j]).0 == id@ && digest_views(digests@)[j].1 != digest,
{
    let mut j: usize = 0;
    while j < digests.len()
        invariant
            j <= digests@.len(),
            forall|k: int| 0 <= k < j ==> !((#[trigger] digest_views(digests@)[k]).0 == id@ && digest_views(digests@)[k].1 != digest),
        decreases digests@.len() - j,
    {
        if digests[j].0 == id && digests[j].1 != digest {
            assert(digest_views(digests@)[j as int].0 == id@);
            return true;
        }
        j = j + 1;
    }
    false
}

/// The events of a request, stamped, with their digests; none where one has an
/// identity that is taken by other content.
fn stamp_events(catalog: &StreamCatalog, request: &AppendRequest, stamp: &Stamp) -> (r: Option<
    (Vec<(RecordEnvelopeV2, Vec<u8>)>, Vec<(EventId, u32)>),
>)
    requires
        request.events@.len() <= stamp.fresh@.len(),
        stamp.first_revision + request.events@.len() <= u64::MAX + 1,
    ensures
        r is None <==> clashes(catalog@, stored_digests(stored_events(request@, stamp@))),
        r matches Some((events, digests)) ==> event_views(events@) == stored_events(request@, stamp@) && digest_views(digests@)
            == stored_digests(stored_events(request@, stamp@)),
{
    let ghost h = catalog@;
    let ghost stored = stored_events(request@, stamp@);
    let ghost all = stored_digests(stored);
    let mut events: Vec<(RecordEnvelopeV2, Vec<u8>)> = Vec::new();
    let mut digests: Vec<(EventId, u32)> = Vec::new();
    let mut i: usize = 0;
    assert(event_views(events@) =~= stored.take(0));
    assert(digest_views(digests@) =~= all.take(0));
    while i < request.events.len()
        invariant
            i <= request.events@.len(),
            request.events@.len() <= stamp.fresh@.len(),
            stamp.first_revision + request.events@.len() <= u64::MAX + 1,
            h == catalog@,
            stored == stored_events(request@, stamp@),
            all == stored_digests(stored),
            event_views(events@) == stored.take(i as int),
            digest_views(digests@) == all.take(i as int),
            forall|k: int| 0 <= k < i ==> !#[trigger] clash_at(h, all, k),
        decreases request.events@.len() - i,
    {
        let envelope = stamp_event(request, stamp, i);
        let event_id = envelope.event_id;
        let digest: u32 = event_fingerprint(&envelope, request.events[i].payload.as_slice());
        proof {
            assert(request@.events[i as int] == request.events@[i as int]@);
            assert(stored[i as int] == (envelope@, request.events@[i as int].payload@));
            assert(all[i as int] == (event_id@, digest));
        }
        let otherwise = match catalog.event_receipt(event_id) {
            Some((old, _)) => old != digest,
            None => false,
        };
        let ghost seen = digest_views(digests@);
        let taken = taken_earlier(&digests, event_id, digest);
        proof {
            assert forall|j: int| 0 <= j < i implies #[trigger] seen[j] == all[j] by {
                assert(all.take(i as int)[j] == all[j]);
            }
            if taken {
                let j = choose|j: int| 0 <= j < seen.len() && (#[trigger] seen[j]).0 == event_id@ && seen[j].1 != digest;
                assert(all[j].0 == all[i as int].0 && all[j].1 != all[i as int].1);
                assert(clash_at(h, all, i as int));
            } else if clash_at(h, all, i as int) && !known_otherwise(h, event_id@, digest) {
                let j = choose|j: int| 0 <= j < i && (#[trigger] all[j]).0 == all[i as int].0 && all[j].1 != all[i as int].1;
                assert(seen[j] == all[j]);
            }
        }
        if otherwise || taken {
            assert(clash_at(h, all, i as int));
            return None;
        }
        let ghost views = event_views(events@);
        events.push((envelope, copy_bytes(&request.events[i].payload)));
        digests.push((event_id, digest));
        assert(event_views(events@) =~= views.push(stored[i as int]));
        assert(stored.take(i + 1) =~= stored.take(i as int).push(stored[i as int]));
        assert(digest_views(digests@) =~= seen.push(all[i as int]));
        assert(all.take(i + 1) =~= all.take(i as int).push(all[i as int]));
        i = i + 1;
    }
    assert(stored.take(i as int) =~= stored);
    assert(all.take(i as int) =~= all);
    Some((events, digests))
}

fn names_known(catalog: &StreamCatalog, request: &AppendRequest) -> (r: bool)
    ensures
        r == any_known(catalog@, request@),
{
    let mut i: usize = 0;
    while i < request.events.len()
        invariant
            i <= request.events@.len(),
            forall|k: int| 0 <= k < i ==> !#[trigger] known_at(catalog@, request@, k),
        decreases request.events@.len() - i,
    {
        assert(request@.events[i as int] == request.events@[i as int]@);
        match request.events[i].event_id {
            Some(id) => match catalog.event_receipt(id) {
                Some(_) => {
                    assert(known_at(catalog@, request@, i as int));
                    return true;
                },
                None => {},
            },
            None => {},
        }
        i = i + 1;
    }
    false
}

/// The receipt of the one batch that holds every event of a request.
fn original_receipt(catalog: &StreamCatalog, request: &AppendRequest) -> (r: Option<AppendReceipt>)
    requires
        request.events@.len() > 0,
    ensures
        r is Some <==> all_known(catalog@, request@),
        r matches Some(receipt) ==> receipt@ == receipt_at(catalog@, request@, request@.events.len() - 1),
{
    let ghost h = catalog@;
    let ghost q = request@;
    let mut original: Option<AppendReceipt> = None;
    let mut i: usize = 0;
    while i < request.events.len()
        invariant
            i <= request.events@.len(),
            h == catalog@,
            q == request@,
            original is Some <==> i > 0,
            original matches Some(receipt) ==> receipt@ == receipt_at(h, q, i - 1),
            forall|k: int| 0 <= k < i ==> #[trigger] known_at(h, q, k),
            forall|k: int| 0 <= k < i ==> (#[trigger] receipt_at(h, q, k)).batch_id == receipt_at(h, q, 0).batch_id,
        decreases request.events@.len() - i,
    {
        assert(q.events[i as int] == request.events@[i as int]@);
        let found = match request.events[i].event_id {
            Some(id) => catalog.event_receipt(id),
            None => None,
        };
        match found {
            None => {
                assert(!known_at(h, q, i as int));
                return None;
            },
            Some((_, receipt)) => {
                assert(known_at(h, q, i as int));
                assert(receipt@ == receipt_at(h, q, i as int));
                match original {
                    Some(existing) => {
                        assert(existing@.batch_id == receipt_at(h, q, i - 1).batch_id);
                        if existing.batch_id != receipt.batch_id {
                            return None;
                        }
                    },
                    None => {},
                }
                original = Some(receipt);
            },
        }
        i = i + 1;
    }
    original
}

/// Decides what an append comes to. Nothing is written.
pub fn plan_append(
    catalog: &StreamCatalog,
    branches: &BranchCatalog,
    database: DatabaseId,
    request: &AppendRequest,
    supplied_batch_id: Option<BatchId>,
    fresh: &FreshIds,
    timestamp_ms: u64,
) -> (r: Result<AppendPlan>)
    requires
        request.events@.len() <= fresh.events@.len(),
        next_revision(stream_revision_in(catalog@, request.branch@, request.stream@)) + request.events@.len() <= u64::MAX + 1,
    ensures
        match append_plan(
            catalog@,
            branches@,
            database@,
            request@,
            batch_id_view(supplied_batch_id),
            fresh.batch@,
            event_id_views(fresh.events@),
            timestamp_ms,
        ) {
            Ok(plan) => r matches Ok(found) && found@ == plan,
            Err(e) => r matches Err(error) && error@ == e,
        },
{
    match request.validate() {
        Ok(()) => {},
        Err(e) => return Err(e),
    }
    match branches.get(request.branch) {
        None => return Err(SalamanderError::BranchNotFound(hex_string(request.branch.as_bytes()))),
        Some(branch) => match branch.status {
            BranchStatus::Archived => return Err(SalamanderError::BranchArchived(branch.name.as_str().to_owned())),
            BranchStatus::Active => {},
        },
    }
    let previous = catalog.revision(request.branch, request.stream.as_str());
    let digest: u32 = request_fingerprint(request);
    match &request.idempotency_key {
        Some(key) => match catalog.idempotent(request.branch, key.as_bytes()) {
            Some((known, receipt)) => {
                if known != digest {
                    return Err(SalamanderError::IdempotencyConflict);
                }
                return Ok(again(receipt, request.durability));
            },
            None => {},
        },
        None => {},
    }
    match validate_expected(request.expected, previous) {
        Ok(()) => {},
        Err(e) => return Err(e),
    }
    let stream_id: StreamId = match catalog.stream_id(request.branch, request.stream.as_str()) {
        Some(id) => id,
        None => derive_stream_id(database, request.branch, request.stream.as_str()),
    };
    let batch_id: BatchId = match supplied_batch_id {
        Some(id) => id,
        None => fresh.batch,
    };
    let first_revision: u64 = match previous {
        Some(revision) => revision.0 + 1,
        None => 0,
    };
    let stamp = Stamp {
        database,
        stream_id,
        batch_id,
        first_revision,
        timestamp: nanos(timestamp_ms),
        digest,
        fresh: &fresh.events,
    };
    let (events, digests) = match stamp_events(catalog, request, &stamp) {
        Some(pair) => pair,
        None => return Err(SalamanderError::EventIdConflict),
    };
    if names_known(catalog, request) {
        let receipt: AppendReceipt = match original_receipt(catalog, request) {
            Some(receipt) => receipt,
            None => return Err(SalamanderError::EventIdConflict),
        };
        match supplied_batch_id {
            Some(id) => if id != receipt.batch_id {
                return Err(SalamanderError::BatchIdConflict);
            },
            None => {},
        }
        return Ok(again(receipt, request.durability));
    }
    if catalog.has_batch(batch_id) {
        return Err(SalamanderError::BatchIdConflict);
    }
    let key = match &request.idempotency_key {
        Some(key) => Some((vstd::slice::slice_to_vec(key.as_bytes()), digest)),
        None => None,
    };
    Ok(
        AppendPlan::Write(
            PreparedAppend {
                branch: request.branch,
                stream: request.stream.as_str().to_owned(),
                stream_id,
                batch_id,
                previous,
                events,
                digests,
                key,
                durability: request.durability,
            },
        ),
    )
}

/// The receipt of a batch that was written from position `first` on.
pub open spec fn receipt_of(p: PreparedView, first: u64, durability: ReceiptDurability) -> ReceiptView {
    ReceiptView {
        batch_id: p.batch_id,
        first,
        last: (first + p.events.len() - 1) as u64,
        stream_id: p.stream_id,
        previous: p.previous,
        current: (next_revision(p.previous) + p.events.len() - 1) as u64,
        durability,
    }
}

/// What the catalog notes of a batch that was written.
pub open spec fn entry_of(p: PreparedView, first: u64, durability: ReceiptDurability) -> EntryView {
    EntryView {
        branch: p.branch,
        stream: p.stream,
        stream_id: p.stream_id,
        digests: p.digests,
        key: p.key,
        receipt: receipt_of(p, first, durability),
    }
}

impl PreparedAppend {
    /// What the catalog notes of the batch, once it is written.
    pub fn into_entry(self, first: u64, durability: ReceiptDurability) -> (r: BatchEntry)
        requires
            self.events@.len() > 0,
            first + self.events@.len() - 1 <= u64::MAX,
            next_revision(revision_view(self.previous)) + self.events@.len() - 1 <= u64::MAX,
        ensures
            r@ == entry_of(self@, first, durability),
    {
        let more: u64 = (self.events.len() - 1) as u64;
        let first_revision: u64 = match self.previous {
            Some(revision) => revision.0 + 1,
            None => 0,
        };
        let r = BatchEntry {
            branch: self.branch,
            stream: self.stream,
            stream_id: self.stream_id,
            digests: self.digests,
            key: self.key,
            receipt: AppendReceipt {
                batch_id: self.batch_id,
                first_position: first,
                last_position: first + more,
                stream_id: self.stream_id,
                previous_revision: self.previous,
                current_revision: StreamRevision(first_revision + more),
                durability,
            },
        };
        assert(r@ =~= entry_of(self@, first, durability));
        r
    }
}

proof fn lemma_key_in_later(h: Seq<EntryView>, later: Seq<EntryView>, branch: Seq<u8>, key: Seq<u8>)
    ensures
        key_in(h + later, branch, key) == (if key_in(later, branch, key) is Some {
            key_in(later, branch, key)
        } else {
            key_in(h, branch, key)
        }),
    decreases later.len(),
{
    if later.len() == 0 {
        assert(h + later =~= h);
    } else {
        assert((h + later).last() == later.last());
        assert((h + later).drop_last() =~= h + later.drop_last());
        lemma_key_in_later(h, later.drop_last(), branch, key);
    }
}

/// An idempotency key answers for its request ever after: the same request
/// again gets the receipt of the first, and any other request under that key is
/// refused, whatever was appended in between under other keys.
pub proof fn lemma_retry_by_key(
    h: Seq<EntryView>,
    branches: Seq<BranchView>,
    database: Seq<u8>,
    request: RequestView,
    p: PreparedView,
    first: u64,
    durability: ReceiptDurability,
    later: Seq<EntryView>,
    again: RequestView,
    supplied: Option<Seq<u8>>,
    batch: Seq<u8>,
    fresh: Seq<Seq<u8>>,
    millis: u64,
)
    requires
        request.key is Some,
        p.branch == request.branch,
        p.key == Some((request.key->0, request_digest(request))),
        key_in(later, request.branch, request.key->0) is None,
        again.branch == request.branch,
        again.key == request.key,
        request_error(again) is None,
        branch_error(branches, again.branch) is None,
    ensures
        request_digest(again) == request_digest(request) ==> append_plan(
            h.push(entry_of(p, first, durability)) + later,
            branches,
            database,
            again,
            supplied,
            batch,
            fresh,
            millis,
        ) == Ok::<PlanView, ErrorView>(receipt_again(receipt_of(p, first, durability), again.durability)),
        request_digest(again) != request_digest(request) ==> append_plan(
            h.push(entry_of(p, first, durability)) + later,
            branches,
            database,
            again,
            supplied,
            batch,
            fresh,
            millis,
        ) == Err::<PlanView, ErrorView>(ErrorView::IdempotencyConflict),
{
    let entry = entry_of(p, first, durability);
    let now = h.push(entry);
    lemma_key_in_later(now, later, request.branch, request.key->0);
    assert(now.last() == entry);
}

/// A batch moves its own stream to its last revision, and no other stream; a
/// writer that still expects the revision from before is then refused.
pub proof fn lemma_revision_advances(
    h: Seq<EntryView>,
    p: PreparedView,
    first: u64,
    durability: ReceiptDurability,
    branch: Seq<u8>,
    stream: Seq<char>,
)
    requires
        p.events.len() > 0,
        p.previous == stream_revision_in(h, p.branch, p.stream),
        next_revision(p.previous) + p.events.len() - 1 <= u64::MAX,
    ensures
        ({
            let now = h.push(entry_of(p, first, durability));
            let reached = stream_revision_in(now, p.branch, p.stream);
            &&& reached == Some((next_revision(p.previous) + p.events.len() - 1) as u64)
            &&& !(branch == p.branch && stream == p.stream) ==> stream_revision_in(now, branch, stream) == stream_revision_in(
                h,
                branch,
                stream,
            )
            &&& !revision_expected(crate::stream::ExpectedRevision::NoStream, reached)
            &&& p.previous matches Some(r) ==> !revision_expected(crate::stream::ExpectedRevision::Exact(StreamRevision(r)), reached)
        }),
{
    let now = h.push(entry_of(p, first, durability));
    assert(now.drop_last() =~= h);
}

proof fn lemma_digest_in(digests: Seq<(Seq<u8>, u32)>, i: int)
    requires
        0 <= i < digests.len(),
    ensures
        digest_in(digests, digests[i].0) is Some,
        exists|k: int|
            0 <= k < digests.len() && (#[trigger] digests[k]).0 == digests[i].0 && digest_in(digests, digests[i].0) == Some(digests[k].1),
    decreases digests.len(),
{
    let last = digests.len() - 1;
    if digests.last().0 == digests[i].0 {
        assert(digests[last].0 == digests[i].0);
    } else {
        let shorter = digests.drop_last();
        assert(shorter[i] == digests[i]);
        lemma_digest_in(shorter, i);
        let k = choose|k: int|
            0 <= k < shorter.len() && (#[trigger] shorter[k]).0 == shorter[i].0 && digest_in(shorter, shorter[i].0) == Some(shorter[k].1);
        assert(digests[k] == shorter[k]);
    }
}

/// A request that names every event it holds can be sent again without a key:
/// it gets the receipt of the batch that holds those events, whatever the clock
/// says by then and whatever new identities were drawn for it.
pub proof fn lemma_retry_by_event_ids(
    h: Seq<EntryView>,
    branches: Seq<BranchView>,
    database: Seq<u8>,
    request: RequestView,
    stamp: StampView,
    p: PreparedView,
    supplied: Option<Seq<u8>>,
    first: u64,
    durability: ReceiptDurability,
    supplied_again: Option<Seq<u8>>,
    batch: Seq<u8>,
    fresh: Seq<Seq<u8>>,
    millis: u64,
)
    requires
        request_error(request) is None,
        branch_error(branches, request.branch) is None,
        request.key is None,
        request.expected is Any,
        forall|i: int| 0 <= i < request.events.len() ==> (#[trigger] request.events[i]).event_id is Some,
        stamp.digest == request_digest(request),
        plan_stamped(h, request, supplied, stamp) == Ok::<PlanView, ErrorView>(PlanView::Write(p)),
        supplied_again is None || supplied_again == Some(p.batch_id),
    ensures
        append_plan(
            h.push(entry_of(p, first, durability)),
            branches,
            database,
            request,
            supplied_again,
            batch,
            fresh,
            millis,
        ) == Ok::<PlanView, ErrorView>(receipt_again(receipt_of(p, first, durability), request.durability)),
{
    let entry = entry_of(p, first, durability);
    let now = h.push(entry);
    let chosen = match supplied_again {
        Some(id) => id,
        None => batch,
    };
    let next = stamp_for(now, database, request, chosen, fresh, millis);
    assert(next.stream_id == p.stream_id);
    let events = stored_events(request, stamp);
    let digests = stored_digests(events);
    let events2 = stored_events(request, next);
    let digests2 = stored_digests(events2);
    assert(digests2 =~= digests) by {
        assert forall|i: int| 0 <= i < digests.len() implies #[trigger] digests2[i] == digests[i] by {
            assert(request.events[i].event_id is Some);
            assert(events2[i].0.metadata == events[i].0.metadata);
        }
    }
    assert forall|i: int| 0 <= i < digests.len() implies event_in(now, #[trigger] digests[i].0) == Some((digests[i].1, entry.receipt)) by {
        lemma_digest_in(digests, i);
        let k = choose|k: int|
            0 <= k < digests.len() && (#[trigger] digests[k]).0 == digests[i].0 && digest_in(digests, digests[i].0) == Some(digests[k].1);
        assert(!clash_at(h, digests, i) && !clash_at(h, digests, k));
        assert(digests[k].1 == digests[i].1);
        assert(now.last() == entry);
    }
    assert(!clashes(now, digests2)) by {
        assert forall|i: int| 0 <= i < digests.len() implies !#[trigger] clash_at(now, digests2, i) by {
            assert(!clash_at(h, digests, i));
            assert(event_in(now, digests[i].0) == Some((digests[i].1, entry.receipt)));
        }
    }
    assert forall|i: int| 0 <= i < request.events.len() implies #[trigger] known_at(now, request, i) && receipt_at(now, request, i)
        == entry.receipt by {
        assert(request.events[i].event_id is Some);
        assert(digests[i].0 == request.events[i].event_id->0);
        assert(event_in(now, digests[i].0) == Some((digests[i].1, entry.receipt)));
    }
    assert(known_at(now, request, 0));
    assert forall|i: int| 0 <= i < request.events.len() implies (#[trigger] receipt_at(now, request, i)).batch_id == receipt_at(
        now,
        request,
        0,
    ).batch_id by {
        assert(known_at(now, request, i));
    }
    assert(known_at(now, request, request.events.len() - 1));
}

/// The records of a batch that was written from position `first` on.
pub open spec fn batch_records(p: PreparedView, first: u64) -> Seq<RecordView> {
    Seq::new(
        p.events.len(),
        |i: int|
            RecordView {
                kind: FrameKind::Event,
                flags: 0,
                position: (first + i) as u64,
                envelope: p.events[i].0,
                payload: p.events[i].1,
            },
    )
}

proof fn lemma_stamped_metadata(m: MetadataView, request: RequestView, digest: u32)
    requires
        keys_ascend(m),
        request.key is None ==> !has_key(m, "salamander.idempotency_key"@),
    ensures
        value_of(stamped_metadata(m, request, digest), "salamander.stream_name"@) == Some(encode_utf8(request.stream)),
        key_stored(stamped_metadata(m, request, digest)) == (match request.key {
            Some(key) => Some((key, digest)),
            None => None,
        }),
{
    reveal_strlit("salamander.stream_name");
    reveal_strlit("salamander.idempotency_key");
    reveal_strlit("salamander.request_digest");
    assert("salamander.stream_name"@.len() == 22);
    assert("salamander.idempotency_key"@.len() == 26);
    assert("salamander.request_digest"@.len() == 25);
    let named = inserted(m, "salamander.stream_name"@, encode_utf8(request.stream));
    lemma_inserted(m, "salamander.stream_name"@, encode_utf8(request.stream));
    match request.key {
        None => {
            assert(value_of(named, "salamander.idempotency_key"@) == value_of(m, "salamander.idempotency_key"@));
        },
        Some(key) => {
            let keyed = inserted(named, "salamander.idempotency_key"@, key);
            lemma_inserted(named, "salamander.idempotency_key"@, key);
            lemma_inserted(keyed, "salamander.request_digest"@, spec_u32_to_le_bytes(digest));
            assert(value_of(keyed, "salamander.stream_name"@) == value_of(named, "salamander.stream_name"@));
            let all = inserted(keyed, "salamander.request_digest"@, spec_u32_to_le_bytes(digest));
            assert(value_of(all, "salamander.stream_name"@) == value_of(keyed, "salamander.stream_name"@));
            assert(value_of(all, "salamander.idempotency_key"@) == value_of(keyed, "salamander.idempotency_key"@));
            crate::bytes::lemma_le_codec();
            assert(spec_u32_to_le_bytes(digest).subrange(0, 4) =~= spec_u32_to_le_bytes(digest));
        },
    }
}

/// A batch whose first `n` records were read back.
spec fn partial_entry(p: PreparedView, first: u64, n: int) -> EntryView {
    EntryView {
        digests: p.digests.take(n),
        receipt: ReceiptView {
            last: (first + n - 1) as u64,
            current: (next_revision(p.previous) + n - 1) as u64,
            ..receipt_of(p, first, ReceiptDurability::Synced)
        },
        ..entry_of(p, first, ReceiptDurability::Synced)
    }
}

proof fn lemma_rebuilt_partly(
    h: Seq<EntryView>,
    before: Seq<RecordView>,
    request: RequestView,
    supplied: Option<Seq<u8>>,
    stamp: StampView,
    p: PreparedView,
    first: u64,
    n: int,
)
    requires
        history_of(before) == Ok::<Seq<EntryView>, ErrorView>(h),
        plan_stamped(h, request, supplied, stamp) == Ok::<PlanView, ErrorView>(PlanView::Write(p)),
        stamp.first_revision == next_revision(p.previous),
        stamp.first_revision + p.events.len() <= u64::MAX + 1,
        first + p.events.len() <= u64::MAX,
        forall|i: int| 0 <= i < request.events.len() ==> keys_ascend((#[trigger] request.events[i]).metadata),
        request.key is None ==> forall|i: int|
            0 <= i < request.events.len() ==> !has_key((#[trigger] request.events[i]).metadata, "salamander.idempotency_key"@),
        1 <= n <= p.events.len(),
    ensures
        history_of(before + batch_records(p, first).take(n)) == Ok::<Seq<EntryView>, ErrorView>(h.push(partial_entry(p, first, n))),
    decreases n,
{
    let records = batch_records(p, first);
    let all = before + records.take(n);
    let record = records[n - 1];
    let event = request.events[n - 1];
    assert(all.last() == record);
    assert(all.drop_last() =~= before + records.take(n - 1));
    assert(p.events[n - 1] == (envelope_at(request, stamp, n - 1), event.payload));
    lemma_stamped_metadata(event.metadata, request, stamp.digest);
    lemma_utf8_round_trip(request.stream);
    assert(stream_name_of(record.position, record.envelope.metadata) == Ok::<Seq<char>, ErrorView>(request.stream));
    if n == 1 {
        assert(before + records.take(0) =~= before);
        if h.len() > 0 {
            assert(h[h.len() - 1].receipt.batch_id != stamp.batch_id);
        }
        assert(p.digests.take(1) =~= seq![p.digests[0]]);
        assert(entry_begun(record, request.stream) =~= partial_entry(p, first, 1));
    } else {
        lemma_rebuilt_partly(h, before, request, supplied, stamp, p, first, n - 1);
        let part = partial_entry(p, first, n - 1);
        assert(h.push(part).last() == part);
        assert(h.push(part).drop_last() =~= h);
        assert(p.digests.take(n) =~= p.digests.take(n - 1).push(p.digests[n - 1]));
        assert(entry_extended(part, record) =~= partial_entry(p, first, n));
    }
}

/// What is read back of a log agrees with what was noted as it was written:
/// the records of a batch, after those of a history, tell that history and the
/// batch, and that it is durable. Where no key was given, no event's own
/// metadata may pose as one.
pub proof fn lemma_catalog_rebuilt(
    h: Seq<EntryView>,
    before: Seq<RecordView>,
    request: RequestView,
    supplied: Option<Seq<u8>>,
    stamp: StampView,
    p: PreparedView,
    first: u64,
)
    requires
        history_of(before) == Ok::<Seq<EntryView>, ErrorView>(h),
        request.events.len() > 0,
        plan_stamped(h, request, supplied, stamp) == Ok::<PlanView, ErrorView>(PlanView::Write(p)),
        stamp.first_revision == next_revision(p.previous),
        stamp.first_revision + p.events.len() <= u64::MAX + 1,
        first + p.events.len() <= u64::MAX,
        forall|i: int| 0 <= i < request.events.len() ==> keys_ascend((#[trigger] request.events[i]).metadata),
        request.key is None ==> forall|i: int|
            0 <= i < request.events.len() ==> !has_key((#[trigger] request.events[i]).metadata, "salamander.idempotency_key"@),
    ensures
        history_of(before + batch_records(p, first)) == Ok::<Seq<EntryView>, ErrorView>(
            h.push(entry_of(p, first, ReceiptDurability::Synced)),
        ),
{
    let n = p.events.len() as int;
    lemma_rebuilt_partly(h, before, request, supplied, stamp, p, first, n);
    assert(batch_records(p, first).take(n) =~= batch_records(p, first));
    assert(p.digests.take(n) =~= p.digests);
    assert(partial_entry(p, first, n) =~= entry_of(p, first, ReceiptDurability::Synced));
}

} // verus!
