//! What an append promises: which events are stored, what their envelopes say,
//! and when a request is refused or answered from before.
use crate::append::{
    all_known, any_known, append_plan, batch_records, clash_at, clashes, entry_of, known_at, receipt_at, stamp_for, stamped_metadata,
    stored_digests, stored_events, PlanView, PreparedView,
};
use crate::branch::{find, BranchView};
use crate::error::ErrorView;
use crate::format::derive::twin_hash;
use crate::format::metadata::{inserted, keys_ascend, lemma_inserted, value_of, MetadataView};
use crate::stream::{
    batch_in, digest_in, event_in, key_in, last_of_stream, AppendRequest, Durability, EntryView, ExpectedRevision, ReceiptDurability,
    ReceiptView, RequestView,
};
use vstd::bytes::spec_u32_to_le_bytes;
use vstd::prelude::*;
use vstd::utf8::encode_utf8;

verus! {

/// Whether a key of metadata is one of those that the engine writes.
pub open spec fn engine_key(key: Seq<char>) -> bool {
    key == "salamander.stream_name"@ || key == "salamander.idempotency_key"@ || key == "salamander.request_digest"@
}

/// The engine's keys are three.
proof fn lemma_engine_keys()
    ensures
        "salamander.stream_name"@ != "salamander.idempotency_key"@,
        "salamander.stream_name"@ != "salamander.request_digest"@,
        "salamander.idempotency_key"@ != "salamander.request_digest"@,
{
    reveal_strlit("salamander.stream_name");
    reveal_strlit("salamander.idempotency_key");
    reveal_strlit("salamander.request_digest");
    assert("salamander.stream_name"@.len() == 22);
    assert("salamander.idempotency_key"@.len() == 26);
    assert("salamander.request_digest"@.len() == 25);
}

/// Whether metadata, as it is stored, says what a writer's own metadata says,
/// and beside it the stream and, where a key was given, the key and a digest.
pub open spec fn metadata_stored(own: MetadataView, stored: MetadataView, stream: Seq<char>, key: Option<Seq<u8>>, digest: u32) -> bool {
    &&& keys_ascend(stored)
    &&& forall|name: Seq<char>| !engine_key(name) ==> #[trigger] value_of(stored, name) == value_of(own, name)
    &&& value_of(stored, "salamander.stream_name"@) == Some(encode_utf8(stream))
    &&& match key {
        Some(bytes) => value_of(stored, "salamander.idempotency_key"@) == Some(bytes) && value_of(stored, "salamander.request_digest"@)
            == Some(spec_u32_to_le_bytes(digest)),
        None => value_of(stored, "salamander.idempotency_key"@) == value_of(own, "salamander.idempotency_key"@) && value_of(
            stored,
            "salamander.request_digest"@,
        ) == value_of(own, "salamander.request_digest"@),
    }
}

/// A writer's own metadata is stored as it was given: the engine adds its keys
/// and changes no other.
pub proof fn lemma_metadata_kept(own: MetadataView, request: RequestView, digest: u32)
    requires
        keys_ascend(own),
    ensures
        metadata_stored(own, stamped_metadata(own, request, digest), request.stream, request.key, digest),
{
    lemma_engine_keys();
    let named = inserted(own, "salamander.stream_name"@, encode_utf8(request.stream));
    lemma_inserted(own, "salamander.stream_name"@, encode_utf8(request.stream));
    match request.key {
        None => {},
        Some(key) => {
            let keyed = inserted(named, "salamander.idempotency_key"@, key);
            let all = inserted(keyed, "salamander.request_digest"@, spec_u32_to_le_bytes(digest));
            lemma_inserted(named, "salamander.idempotency_key"@, key);
            lemma_inserted(keyed, "salamander.request_digest"@, spec_u32_to_le_bytes(digest));
            assert forall|name: Seq<char>| !engine_key(name) implies #[trigger] value_of(all, name) == value_of(own, name) by {
                assert(value_of(all, name) == value_of(keyed, name));
                assert(value_of(keyed, name) == value_of(named, name));
                assert(value_of(named, name) == value_of(own, name));
            }
            assert(value_of(all, "salamander.stream_name"@) == value_of(keyed, "salamander.stream_name"@));
            assert(value_of(keyed, "salamander.stream_name"@) == value_of(named, "salamander.stream_name"@));
            assert(value_of(all, "salamander.idempotency_key"@) == value_of(keyed, "salamander.idempotency_key"@));
        },
    }
}

/// Whether entry `k` is the last of its stream.
pub open spec fn last_at(h: Seq<EntryView>, branch: Seq<u8>, stream: Seq<char>, k: int) -> bool {
    &&& 0 <= k < h.len()
    &&& h[k].branch == branch && h[k].stream == stream
    &&& forall|j: int| k < j < h.len() ==> !((#[trigger] h[j]).branch == branch && h[j].stream == stream)
}

/// Whether no entry is of a stream.
pub open spec fn none_of(h: Seq<EntryView>, branch: Seq<u8>, stream: Seq<char>) -> bool {
    forall|j: int| 0 <= j < h.len() ==> !((#[trigger] h[j]).branch == branch && h[j].stream == stream)
}

/// The last batch of a stream is the last that was appended to it.
pub proof fn lemma_last_of_stream(h: Seq<EntryView>, branch: Seq<u8>, stream: Seq<char>)
    ensures
        match last_of_stream(h, branch, stream) {
            Some(entry) => exists|k: int| #[trigger] last_at(h, branch, stream, k) && entry == h[k],
            None => none_of(h, branch, stream),
        },
    decreases h.len(),
{
    if h.len() > 0 {
        let n = h.len() - 1;
        if h.last().branch == branch && h.last().stream == stream {
            assert(last_at(h, branch, stream, n));
        } else {
            lemma_last_of_stream(h.drop_last(), branch, stream);
            match last_of_stream(h.drop_last(), branch, stream) {
                Some(entry) => {
                    let k = choose|k: int| #[trigger] last_at(h.drop_last(), branch, stream, k) && entry == h.drop_last()[k];
                    assert forall|j: int| k < j < h.len() implies !((#[trigger] h[j]).branch == branch && h[j].stream == stream) by {
                        if j < n {
                            assert(h.drop_last()[j] == h[j]);
                        }
                    }
                    assert(last_at(h, branch, stream, k));
                },
                None => {
                    assert forall|j: int| 0 <= j < h.len() implies !((#[trigger] h[j]).branch == branch && h[j].stream == stream) by {
                        if j < n {
                            assert(h.drop_last()[j] == h[j]);
                        }
                    }
                },
            }
        }
    }
}

/// Whether entry `k` is the last under a branch's idempotency key.
pub open spec fn keyed_at(h: Seq<EntryView>, branch: Seq<u8>, key: Seq<u8>, k: int) -> bool {
    &&& 0 <= k < h.len()
    &&& under_key(h[k], branch, key)
    &&& forall|j: int| k < j < h.len() ==> !under_key(#[trigger] h[j], branch, key)
}

/// Whether a batch was appended under a branch's idempotency key.
pub open spec fn under_key(entry: EntryView, branch: Seq<u8>, key: Seq<u8>) -> bool {
    entry.branch == branch && (entry.key matches Some((k, _)) && k == key)
}

/// An idempotency key is known exactly where a batch of that branch was
/// appended under it, and then with that batch's digest and receipt.
pub proof fn lemma_key_known(h: Seq<EntryView>, branch: Seq<u8>, key: Seq<u8>)
    ensures
        match key_in(h, branch, key) {
            Some((digest, receipt)) => exists|k: int| #[trigger]
                keyed_at(h, branch, key, k) && h[k].key == Some((key, digest)) && receipt == h[k].receipt,
            None => forall|j: int| 0 <= j < h.len() ==> !under_key(#[trigger] h[j], branch, key),
        },
    decreases h.len(),
{
    if h.len() > 0 {
        let n = h.len() - 1;
        if under_key(h.last(), branch, key) {
            assert(keyed_at(h, branch, key, n));
        } else {
            lemma_key_known(h.drop_last(), branch, key);
            match key_in(h.drop_last(), branch, key) {
                Some((digest, receipt)) => {
                    let k = choose|k: int| #[trigger]
                        keyed_at(h.drop_last(), branch, key, k) && h.drop_last()[k].key == Some((key, digest)) && receipt
                            == h.drop_last()[k].receipt;
                    assert forall|j: int| k < j < h.len() implies !under_key(#[trigger] h[j], branch, key) by {
                        if j < n {
                            assert(h.drop_last()[j] == h[j]);
                        }
                    }
                    assert(keyed_at(h, branch, key, k));
                },
                None => {
                    assert forall|j: int| 0 <= j < h.len() implies !under_key(#[trigger] h[j], branch, key) by {
                        if j < n {
                            assert(h.drop_last()[j] == h[j]);
                        }
                    }
                },
            }
        }
    }
}

/// Whether a batch holds an event with an identity.
pub open spec fn holds_event(entry: EntryView, id: Seq<u8>) -> bool {
    exists|i: int| 0 <= i < entry.digests.len() && (#[trigger] entry.digests[i]).0 == id
}

proof fn lemma_digest_found(digests: Seq<(Seq<u8>, u32)>, id: Seq<u8>)
    ensures
        match digest_in(digests, id) {
            Some(digest) => digests.contains((id, digest)),
            None => forall|i: int| 0 <= i < digests.len() ==> (#[trigger] digests[i]).0 != id,
        },
    decreases digests.len(),
{
    if digests.len() > 0 {
        let n = digests.len() - 1;
        if digests.last().0 == id {
            assert(digests[n] == (id, digests[n].1));
        } else {
            lemma_digest_found(digests.drop_last(), id);
            match digest_in(digests.drop_last(), id) {
                Some(digest) => {
                    let i = choose|i: int| 0 <= i < n && digests.drop_last()[i] == (id, digest);
                    assert(digests[i] == (id, digest));
                },
                None => {
                    assert forall|i: int| 0 <= i < digests.len() implies (#[trigger] digests[i]).0 != id by {
                        if i < n {
                            assert(digests.drop_last()[i] == digests[i]);
                        }
                    }
                },
            }
        }
    }
}

/// An event is known exactly where a batch holds its identity, and then with a
/// digest and the receipt of such a batch, the last.
pub proof fn lemma_event_known(h: Seq<EntryView>, id: Seq<u8>)
    ensures
        match event_in(h, id) {
            Some((digest, receipt)) => exists|k: int|
                0 <= k < h.len() && (#[trigger] h[k]).digests.contains((id, digest)) && receipt == h[k].receipt && (forall|j: int|
                    k < j < h.len() ==> !holds_event(#[trigger] h[j], id)),
            None => forall|j: int| 0 <= j < h.len() ==> !holds_event(#[trigger] h[j], id),
        },
    decreases h.len(),
{
    if h.len() > 0 {
        let n = h.len() - 1;
        lemma_digest_found(h.last().digests, id);
        match digest_in(h.last().digests, id) {
            Some(digest) => {
                assert(h[n].digests.contains((id, digest)));
            },
            None => {
                assert(!holds_event(h[n], id));
                lemma_event_known(h.drop_last(), id);
                match event_in(h.drop_last(), id) {
                    Some((digest, receipt)) => {
                        let k = choose|k: int|
                            0 <= k < n && (#[trigger] h.drop_last()[k]).digests.contains((id, digest)) && receipt
                                == h.drop_last()[k].receipt && (forall|j: int| k < j < n ==> !holds_event(#[trigger] h.drop_last()[j], id));
                        assert(h[k].digests.contains((id, digest)));
                        assert forall|j: int| k < j < h.len() implies !holds_event(#[trigger] h[j], id) by {
                            if j < n {
                                assert(h.drop_last()[j] == h[j]);
                            }
                        }
                    },
                    None => {
                        assert forall|j: int| 0 <= j < h.len() implies !holds_event(#[trigger] h[j], id) by {
                            if j < n {
                                assert(h.drop_last()[j] == h[j]);
                            }
                        }
                    },
                }
            },
        }
    }
}

/// Milliseconds as nanoseconds: a thousand thousand to one, as far as an `i64`
/// holds them; a number of milliseconds beyond an `i64` counts as one below
/// zero.
pub open spec fn is_nanos(millis: u64, nanos: i64) -> bool {
    let signed: int = if millis <= i64::MAX {
        millis as int
    } else {
        millis - 0x1_0000_0000_0000_0000
    };
    if signed * 1_000_000 > i64::MAX {
        nanos == i64::MAX
    } else if signed * 1_000_000 < i64::MIN {
        nanos == i64::MIN
    } else {
        nanos == signed * 1_000_000
    }
}

/// The clock that an append is stamped with is counted in nanoseconds.
pub proof fn lemma_clock(millis: u64)
    ensures
        is_nanos(millis, crate::append::nanos_of(millis)),
{
    assert(millis <= 0x7fff_ffff_ffff_ffff ==> (millis as i64) == millis) by (bit_vector);
    assert(millis > 0x7fff_ffff_ffff_ffff ==> (millis as i64) == millis - 0x1_0000_0000_0000_0000) by (bit_vector);
}

/// The revision that the first event of a batch takes in its stream: the next
/// after the last batch of the stream, or the first.
pub open spec fn takes_revision(h: Seq<EntryView>, branch: Seq<u8>, stream: Seq<char>, first: int) -> bool {
    if none_of(h, branch, stream) {
        first == 0
    } else {
        exists|k: int| #[trigger] last_at(h, branch, stream, k) && first == h[k].receipt.current + 1
    }
}

/// Whether event `i` of a request is stored as `p` stores it.
pub open spec fn event_stored(
    h: Seq<EntryView>,
    database: Seq<u8>,
    request: AppendRequest,
    supplied: Option<Seq<u8>>,
    batch: Seq<u8>,
    fresh: Seq<Seq<u8>>,
    millis: u64,
    p: PreparedView,
    i: int,
) -> bool {
    let event = request.events@[i];
    let (env, payload) = p.events[i];
    &&& payload == event.payload@
    &&& env.event_id == match event.event_id {
        Some(id) => id@,
        None => fresh[i],
    }
    &&& env.database_id == database
    &&& env.branch_id == request.branch@
    &&& env.stream_id == p.stream_id
    &&& takes_revision(h, request.branch@, request.stream@, env.stream_revision - i)
    &&& is_nanos(millis, env.timestamp)
    &&& env.event_type == event.event_type@
    &&& env.schema_version == event.schema_version
    &&& env.codec == 0x8000_0001u32
    &&& env.batch_id == match supplied {
        Some(id) => id,
        None => batch,
    }
    &&& env.batch_index == i
    &&& keys_ascend(event.metadata@) ==> metadata_stored(
        event.metadata@,
        env.metadata,
        request.stream@,
        match request.idempotency_key {
            Some(key) => Some(key@),
            None => None,
        },
        crate::stream::request_digest(request@),
    )
}

/// What is written of a request is that request: its events, all of them and in
/// order, each with its payload, its type, its schema version, its metadata and
/// its identity (a new one where it has none), at consecutive revisions of its
/// stream, in one batch.
pub proof fn lemma_request_written(
    h: Seq<EntryView>,
    branches: Seq<BranchView>,
    database: Seq<u8>,
    request: AppendRequest,
    supplied: Option<Seq<u8>>,
    batch: Seq<u8>,
    fresh: Seq<Seq<u8>>,
    millis: u64,
    p: PreparedView,
)
    requires
        append_plan(h, branches, database, request@, supplied, batch, fresh, millis) == Ok::<PlanView, ErrorView>(PlanView::Write(p)),
        crate::append::next_revision(crate::stream::stream_revision_in(h, request.branch@, request.stream@)) + request.events@.len()
            <= u64::MAX + 1,
        request.events@.len() <= u32::MAX,
    ensures
        p.branch == request.branch@,
        p.stream == request.stream@,
        p.durability == request.durability,
        p.batch_id == (match supplied {
            Some(id) => id,
            None => batch,
        }),
        p.events.len() == request.events@.len(),
        forall|i: int|
            0 <= i < request.events@.len() ==> #[trigger] event_stored(h, database, request, supplied, batch, fresh, millis, p, i),
        p.digests.len() == request.events@.len(),
        forall|i: int|
            0 <= i < request.events@.len() ==> (#[trigger] p.digests[i]) == (
                p.events[i].0.event_id,
                crate::stream::event_digest_of(p.events[i].0, p.events[i].1),
            ),
        match request.idempotency_key {
            Some(key) => p.key matches Some((bytes, digest)) && bytes == key@ && digest == crate::stream::request_digest(request@),
            None => p.key is None,
        },
        match p.previous {
            Some(r) => exists|k: int| #[trigger] last_at(h, request.branch@, request.stream@, k) && r == h[k].receipt.current,
            None => none_of(h, request.branch@, request.stream@),
        },
        if none_of(h, request.branch@, request.stream@) {
            p.stream_id == twin_hash(database + request.branch@ + encode_utf8(request.stream@))
        } else {
            exists|k: int| #[trigger] last_at(h, request.branch@, request.stream@, k) && p.stream_id == h[k].stream_id
        },
{
    lemma_last_of_stream(h, request.branch@, request.stream@);
    lemma_clock(millis);
    assert forall|i: int| 0 <= i < request.events@.len() implies #[trigger] event_stored(
        h,
        database,
        request,
        supplied,
        batch,
        fresh,
        millis,
        p,
        i,
    ) by {
        let event = request.events@[i];
        assert(request@.events[i] == event@);
        if keys_ascend(event.metadata@) {
            lemma_metadata_kept(event.metadata@, request@, crate::stream::request_digest(request@));
        }
        let first = crate::append::next_revision(crate::stream::stream_revision_in(h, request.branch@, request.stream@));
        assert(p.events[i].0.stream_revision - i == first);
    }
}

/// Whether a branch is listed and takes events.
pub open spec fn takes_events(branches: Seq<BranchView>, branch: Seq<u8>) -> bool {
    exists|b: int| #[trigger] listed_last(branches, branch, b) && branches[b].status is Active
}

/// Whether place `b` is the last that lists a branch.
pub open spec fn listed_last(branches: Seq<BranchView>, branch: Seq<u8>, b: int) -> bool {
    &&& 0 <= b < branches.len()
    &&& branches[b].id == branch
    &&& forall|c: int| b < c < branches.len() ==> (#[trigger] branches[c]).id != branch
}

proof fn lemma_listed(branches: Seq<BranchView>, branch: Seq<u8>)
    ensures
        match find(branches, branch) {
            Some(b) => listed_last(branches, branch, b),
            None => forall|c: int| 0 <= c < branches.len() ==> (#[trigger] branches[c]).id != branch,
        },
    decreases branches.len(),
{
    if branches.len() > 0 && branches.last().id != branch {
        let n = branches.len() - 1;
        lemma_listed(branches.drop_last(), branch);
        match find(branches.drop_last(), branch) {
            Some(b) => {
                assert forall|c: int| b < c < branches.len() implies (#[trigger] branches[c]).id != branch by {
                    if c < n {
                        assert(branches.drop_last()[c] == branches[c]);
                    }
                }
            },
            None => {
                assert forall|c: int| 0 <= c < branches.len() implies (#[trigger] branches[c]).id != branch by {
                    if c < n {
                        assert(branches.drop_last()[c] == branches[c]);
                    }
                }
            },
        }
    }
}

/// Whether a stream is as a writer expects it.
pub open spec fn as_expected(h: Seq<EntryView>, branch: Seq<u8>, stream: Seq<char>, expected: ExpectedRevision) -> bool {
    match expected {
        ExpectedRevision::Any => true,
        ExpectedRevision::NoStream => none_of(h, branch, stream),
        ExpectedRevision::Exact(r) => exists|k: int| #[trigger] last_at(h, branch, stream, k) && h[k].receipt.current == r.0,
    }
}

/// Whether a plan hands out again the receipt of an earlier batch: unchanged,
/// but that a writer who wants it durable makes it so.
pub open spec fn handed_again(plan: PlanView, receipt: ReceiptView, durability: Durability) -> bool {
    plan matches PlanView::Existing { receipt: out, sync } && {
        &&& out.batch_id == receipt.batch_id
        &&& out.first == receipt.first && out.last == receipt.last
        &&& out.stream_id == receipt.stream_id
        &&& out.previous == receipt.previous && out.current == receipt.current
        &&& sync <==> durability is Sync && !(receipt.durability is Synced)
        &&& sync ==> out.durability is Synced
        &&& !sync ==> out.durability == receipt.durability
    }
}

/// How an append is decided before its events are looked at: an empty one is
/// refused, then one to a branch that is unknown or archived, then a known key
/// answers for the request it was given with and for no other, and then the
/// stream must be as the writer expects it.
pub proof fn lemma_append_decided(
    h: Seq<EntryView>,
    branches: Seq<BranchView>,
    database: Seq<u8>,
    request: AppendRequest,
    supplied: Option<Seq<u8>>,
    batch: Seq<u8>,
    fresh: Seq<Seq<u8>>,
    millis: u64,
)
    ensures
        ({
            let plan = append_plan(h, branches, database, request@, supplied, batch, fresh, millis);
            let branch = request.branch@;
            let stream = request.stream@;
            let digest = crate::stream::request_digest(request@);
            if request.events@.len() == 0 {
                plan is Err && plan->Err_0 is InvalidArgument
            } else if forall|b: int| 0 <= b < branches.len() ==> (#[trigger] branches[b]).id != branch {
                plan is Err && plan->Err_0 is BranchNotFound
            } else if !takes_events(branches, branch) {
                plan is Err && plan->Err_0 is BranchArchived
            } else if request.idempotency_key is Some && exists|k: int| #[trigger]
                keyed_at(h, branch, request.idempotency_key->0@, k) {
                exists|k: int| #[trigger]
                    keyed_at(h, branch, request.idempotency_key->0@, k) && (if h[k].key == Some((request.idempotency_key->0@, digest)) {
                        plan is Ok && handed_again(plan->Ok_0, h[k].receipt, request.durability)
                    } else {
                        plan is Err && plan->Err_0 is IdempotencyConflict
                    })
            } else if !as_expected(h, branch, stream, request.expected) {
                plan is Err && plan->Err_0 is RevisionConflict
            } else {
                plan is Err ==> plan->Err_0 is EventIdConflict || plan->Err_0 is BatchIdConflict
            }
        }),
{
    let branch = request.branch@;
    let stream = request.stream@;
    lemma_listed(branches, branch);
    lemma_last_of_stream(h, branch, stream);
    if let Some(key) = request.idempotency_key {
        lemma_key_known(h, branch, key@);
        if let Some((digest, receipt)) = key_in(h, branch, key@) {
            let k = choose|k: int| #[trigger] keyed_at(h, branch, key@, k) && h[k].key == Some((key@, digest)) && receipt == h[k].receipt;
            assert(keyed_at(h, branch, key@, k));
        }
    }
    if !none_of(h, branch, stream) {
        let k = choose|k: int| #[trigger] last_at(h, branch, stream, k) && last_of_stream(h, branch, stream) == Some(h[k]);
        assert(last_at(h, branch, stream, k));
        assert forall|j: int| #[trigger] last_at(h, branch, stream, j) implies j == k by {}
    }
}

/// Whether a batch of the history holds an event with an identity.
pub open spec fn was_appended(h: Seq<EntryView>, id: Seq<u8>) -> bool {
    exists|k: int| 0 <= k < h.len() && holds_event(#[trigger] h[k], id)
}

/// The identity that event `i` is stored under.
pub open spec fn identity(request: AppendRequest, fresh: Seq<Seq<u8>>, i: int) -> Seq<u8> {
    match request.events@[i].event_id {
        Some(id) => id@,
        None => fresh[i],
    }
}

/// An append writes exactly where it is a first one: a nonempty request, to a
/// branch that takes events, under a key that is new, to a stream as the writer
/// expects it, of events and with a batch identity that were not appended
/// before. New identities are none of the history's, and no two events of the
/// request share one.
pub proof fn lemma_first_append_writes(
    h: Seq<EntryView>,
    branches: Seq<BranchView>,
    database: Seq<u8>,
    request: AppendRequest,
    supplied: Option<Seq<u8>>,
    batch: Seq<u8>,
    fresh: Seq<Seq<u8>>,
    millis: u64,
)
    requires
        forall|i: int| 0 <= i < request.events@.len() ==> !was_appended(h, #[trigger] fresh[i]),
        forall|i: int, j: int|
            0 <= i < j < request.events@.len() ==> #[trigger] identity(request, fresh, i) != #[trigger] identity(request, fresh, j),
    ensures
        ({
            let plan = append_plan(h, branches, database, request@, supplied, batch, fresh, millis);
            let id = match supplied {
                Some(id) => id,
                None => batch,
            };
            (plan is Ok && plan->Ok_0 is Write) <==> {
                &&& request.events@.len() > 0
                &&& takes_events(branches, request.branch@)
                &&& request.idempotency_key is Some ==> forall|k: int|
                    0 <= k < h.len() ==> !under_key(#[trigger] h[k], request.branch@, request.idempotency_key->0@)
                &&& as_expected(h, request.branch@, request.stream@, request.expected)
                &&& forall|i: int| 0 <= i < request.events@.len() ==> !was_appended(h, #[trigger] identity(request, fresh, i))
                &&& forall|k: int| 0 <= k < h.len() ==> (#[trigger] h[k]).receipt.batch_id != id
            }
        }),
{
    let q = request@;
    let n = request.events@.len() as int;
    lemma_append_decided(h, branches, database, request, supplied, batch, fresh, millis);
    lemma_listed(branches, request.branch@);
    lemma_last_of_stream(h, request.branch@, request.stream@);
    if !none_of(h, request.branch@, request.stream@) {
        let k = choose|k: int| #[trigger]
            last_at(h, request.branch@, request.stream@, k) && last_of_stream(h, request.branch@, request.stream@) == Some(h[k]);
        assert forall|j: int| #[trigger] last_at(h, request.branch@, request.stream@, j) implies j == k by {}
    }
    if let Some(key) = request.idempotency_key {
        lemma_key_known(h, request.branch@, key@);
    }
    let chosen = match supplied {
        Some(id) => id,
        None => batch,
    };
    let stamp = stamp_for(h, database, q, chosen, fresh, millis);
    let events = stored_events(q, stamp);
    let digests = stored_digests(events);
    assert forall|i: int| 0 <= i < n implies (#[trigger] digests[i]).0 == identity(request, fresh, i) && (event_in(
        h,
        identity(request, fresh, i),
    ) is Some <==> was_appended(h, identity(request, fresh, i))) && (known_at(h, q, i) <==> was_appended(
        h,
        identity(request, fresh, i),
    )) by {
        assert(q.events[i] == request.events@[i]@);
        let id = identity(request, fresh, i);
        lemma_event_known(h, id);
        assert(!was_appended(h, fresh[i]));
        if let Some((digest, receipt)) = event_in(h, id) {
            let k = choose|k: int|
                0 <= k < h.len() && (#[trigger] h[k]).digests.contains((id, digest)) && receipt == h[k].receipt && (forall|j: int|
                    k < j < h.len() ==> !holds_event(#[trigger] h[j], id));
            let m = choose|m: int| 0 <= m < h[k].digests.len() && h[k].digests[m] == (id, digest);
            assert(h[k].digests[m].0 == id);
            assert(holds_event(h[k], id));
        }
    }
    if forall|i: int| 0 <= i < n ==> !was_appended(h, #[trigger] identity(request, fresh, i)) {
        assert forall|i: int| 0 <= i < n implies !#[trigger] clash_at(h, digests, i) && !known_at(h, q, i) by {
            assert(digests[i].0 == identity(request, fresh, i));
            assert forall|j: int| 0 <= j < i implies (#[trigger] digests[j]).0 != digests[i].0 by {
                assert(identity(request, fresh, j) != identity(request, fresh, i));
            }
        }
        assert(!clashes(h, digests));
        assert forall|i: int| 0 <= i < n implies !#[trigger] known_at(h, q, i) by {
            assert(digests[i].0 == identity(request, fresh, i));
        }
        assert(!any_known(h, q));
    } else {
        let i = choose|i: int| 0 <= i < n && was_appended(h, #[trigger] identity(request, fresh, i));
        assert(digests[i].0 == identity(request, fresh, i));
        assert(known_at(h, q, i));
        assert(any_known(h, q));
    }
    assert(batch_in(h, chosen) <==> !(forall|k: int| 0 <= k < h.len() ==> (#[trigger] h[k]).receipt.batch_id != chosen));
}

/// An append that names events from before writes nothing: it is refused, or it
/// gets the receipt of a batch that holds every one of its events under its own
/// name.
pub proof fn lemma_named_events_answer(
    h: Seq<EntryView>,
    branches: Seq<BranchView>,
    database: Seq<u8>,
    request: AppendRequest,
    supplied: Option<Seq<u8>>,
    batch: Seq<u8>,
    fresh: Seq<Seq<u8>>,
    millis: u64,
    i: int,
)
    requires
        request.idempotency_key is None,
        0 <= i < request.events@.len(),
        request.events@[i].event_id is Some,
        was_appended(h, request.events@[i].event_id->0@),
    ensures
        match append_plan(h, branches, database, request@, supplied, batch, fresh, millis) {
            Err(_) => true,
            Ok(PlanView::Write(_)) => false,
            Ok(PlanView::Existing { receipt, sync }) => {
                &&& supplied is Some ==> supplied == Some(receipt.batch_id)
                &&& forall|j: int|
                    0 <= j < request.events@.len() ==> (#[trigger] request.events@[j]).event_id is Some && (exists|k: int|
                        0 <= k < h.len() && holds_event(#[trigger] h[k], request.events@[j].event_id->0@) && h[k].receipt.batch_id
                            == receipt.batch_id)
            },
        },
{
    let q = request@;
    let n = request.events@.len() as int;
    assert(q.events[i] == request.events@[i]@);
    assert forall|j: int| 0 <= j < n && (#[trigger] request.events@[j]).event_id is Some implies (known_at(h, q, j) <==> was_appended(
        h,
        request.events@[j].event_id->0@,
    )) && (known_at(h, q, j) ==> exists|k: int|
        0 <= k < h.len() && holds_event(#[trigger] h[k], request.events@[j].event_id->0@) && h[k].receipt == receipt_at(h, q, j)) by {
        assert(q.events[j] == request.events@[j]@);
        let id = request.events@[j].event_id->0@;
        lemma_event_known(h, id);
        if let Some((digest, receipt)) = event_in(h, id) {
            let k = choose|k: int|
                0 <= k < h.len() && (#[trigger] h[k]).digests.contains((id, digest)) && receipt == h[k].receipt && (forall|j: int|
                    k < j < h.len() ==> !holds_event(#[trigger] h[j], id));
            let m = choose|m: int| 0 <= m < h[k].digests.len() && h[k].digests[m] == (id, digest);
            assert(h[k].digests[m].0 == id);
            assert(holds_event(h[k], id));
        }
    }
    assert(request.events@[i].event_id is Some);
    assert(known_at(h, q, i));
    assert(any_known(h, q));
    if all_known(h, q) {
        assert forall|j: int| 0 <= j < n implies (#[trigger] request.events@[j]).event_id is Some && (exists|k: int|
            0 <= k < h.len() && holds_event(#[trigger] h[k], request.events@[j].event_id->0@) && h[k].receipt.batch_id == receipt_at(
                h,
                q,
                n - 1,
            ).batch_id) by {
            assert(known_at(h, q, j));
            assert(q.events[j] == request.events@[j]@);
            assert(receipt_at(h, q, j).batch_id == receipt_at(h, q, n - 1).batch_id);
        }
    }
}

/// What is noted of a written batch is what was written: its receipt spans the
/// positions of its events and the revisions they took, and its records are its
/// events, one a position.
pub proof fn lemma_batch_noted(p: PreparedView, first: u64, durability: ReceiptDurability)
    requires
        p.events.len() > 0,
        first + p.events.len() - 1 <= u64::MAX,
        crate::append::next_revision(p.previous) + p.events.len() - 1 <= u64::MAX,
    ensures
        ({
            let entry = entry_of(p, first, durability);
            let n = p.events.len();
            &&& entry.branch == p.branch && entry.stream == p.stream && entry.stream_id == p.stream_id
            &&& entry.key == p.key && entry.digests == p.digests
            &&& entry.receipt.batch_id == p.batch_id && entry.receipt.stream_id == p.stream_id
            &&& entry.receipt.first == first && entry.receipt.last == first + n - 1
            &&& entry.receipt.previous == p.previous
            &&& entry.receipt.current == n - 1 + (match p.previous {
                Some(r) => r + 1,
                None => 0,
            })
            &&& entry.receipt.durability == durability
        }),
        batch_records(p, first).len() == p.events.len(),
        forall|i: int|
            0 <= i < p.events.len() ==> {
                let record = #[trigger] batch_records(p, first)[i];
                &&& record.kind is Event
                &&& record.position == first + i
                &&& record.envelope == p.events[i].0
                &&& record.payload == p.events[i].1
            },
{
}

/// The digest of event `i` of a request, as it would be stored.
pub open spec fn digest_now(
    h: Seq<EntryView>,
    database: Seq<u8>,
    request: AppendRequest,
    batch: Seq<u8>,
    fresh: Seq<Seq<u8>>,
    millis: u64,
    i: int,
) -> u32 {
    let (env, payload) = stored_events(request@, stamp_for(h, database, request@, batch, fresh, millis))[i];
    crate::stream::event_digest_of(env, payload)
}

/// An identity stands for one content. An append without a key is refused where
/// an event of it has an identity that was appended with other content, or that
/// an earlier event of the same append has with other content.
pub proof fn lemma_changed_event_refused(
    h: Seq<EntryView>,
    branches: Seq<BranchView>,
    database: Seq<u8>,
    request: AppendRequest,
    supplied: Option<Seq<u8>>,
    batch: Seq<u8>,
    fresh: Seq<Seq<u8>>,
    millis: u64,
    i: int,
    j: int,
    k: int,
)
    requires
        request.idempotency_key is None,
        0 <= i < request.events@.len(),
        ({
            let chosen = match supplied {
                Some(id) => id,
                None => batch,
            };
            let now = digest_now(h, database, request, chosen, fresh, millis, i);
            let id = identity(request, fresh, i);
            ||| {
                &&& 0 <= j < i
                &&& identity(request, fresh, j) == id
                &&& digest_now(h, database, request, chosen, fresh, millis, j) != now
            }
            ||| {
                &&& 0 <= k < h.len()
                &&& holds_event(h[k], id)
                &&& !h[k].digests.contains((id, now))
                &&& forall|m: int| k < m < h.len() ==> !holds_event(#[trigger] h[m], id)
            }
        }),
    ensures
        append_plan(h, branches, database, request@, supplied, batch, fresh, millis) is Err,
{
    let q = request@;
    let chosen = match supplied {
        Some(id) => id,
        None => batch,
    };
    let digests = stored_digests(stored_events(q, stamp_for(h, database, q, chosen, fresh, millis)));
    let id = identity(request, fresh, i);
    let now = digest_now(h, database, request, chosen, fresh, millis, i);
    assert(q.events[i] == request.events@[i]@);
    assert(digests[i] == (id, now));
    lemma_event_known(h, id);
    if 0 <= j < i && identity(request, fresh, j) == id && digest_now(h, database, request, chosen, fresh, millis, j) != now {
        assert(q.events[j] == request.events@[j]@);
        assert(digests[j].0 == id && digests[j].1 != now);
        assert(clash_at(h, digests, i));
    } else {
        match event_in(h, id) {
            None => {
                assert(!holds_event(h[k], id));
            },
            Some((old, receipt)) => {
                let m = choose|m: int|
                    0 <= m < h.len() && (#[trigger] h[m]).digests.contains((id, old)) && receipt == h[m].receipt && (forall|n: int|
                        m < n < h.len() ==> !holds_event(#[trigger] h[n], id));
                let x = choose|x: int| 0 <= x < h[m].digests.len() && h[m].digests[x] == (id, old);
                assert(h[m].digests[x].0 == id);
                assert(holds_event(h[m], id));
                assert(m == k);
                assert(clash_at(h, digests, i));
            },
        }
    }
    assert(clashes(h, digests));
}

} // verus!
