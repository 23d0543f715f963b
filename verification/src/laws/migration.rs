//! What imports promise: every event of the source arrives, in order, as what it
//! was.
use crate::bytes::zero16;
use crate::error::ErrorView;
use crate::format::derive::{import_id, twin_hash};
use crate::format::frame::RecordView;
use crate::format::metadata::{keys_ascend, lemma_inserted, value_of};
use crate::laws::append::{is_nanos, lemma_clock};
use crate::log::segment::EventView;
use crate::migration::branches::{is_marker, place_of, rewritten, stream_of, ForkView};
use crate::migration::import::{import_envelope_of, prefix_error};
use crate::migration::legacy::LegacyView;
use vstd::bytes::spec_u64_to_le_bytes;
use vstd::prelude::*;
use vstd::utf8::encode_utf8;

verus! {

/// An imported event stands in the stream of its namespace on the default branch,
/// at the revision of its offset and with its time, and says where it came from.
pub proof fn lemma_import_says(event: LegacyView, database: Seq<u8>, source: Seq<u8>)
    ensures
        ({
            let env = import_envelope_of(event, database, source);
            &&& env.event_id == import_id(source, event.offset) && env.batch_id == env.event_id && env.batch_index == 0
            &&& env.database_id == database && env.branch_id == zero16()
            &&& env.stream_id == twin_hash(database + zero16() + encode_utf8(event.namespace))
            &&& env.stream_revision == event.offset
            &&& is_nanos(event.timestamp_ms, env.timestamp)
            &&& env.event_type == "salamander.v1-import"@ && env.schema_version == 1 && env.codec == 0x8000_0001u32
            &&& keys_ascend(env.metadata)
            &&& value_of(env.metadata, "salamander.stream_name"@) == Some(encode_utf8(event.namespace))
            &&& value_of(env.metadata, "salamander.v1_namespace"@) == Some(encode_utf8(event.namespace))
            &&& value_of(env.metadata, "salamander.v1_offset"@) == Some(spec_u64_to_le_bytes(event.offset))
        }),
{
    lemma_clock(event.timestamp_ms);
    reveal_strlit("salamander.stream_name");
    reveal_strlit("salamander.v1_namespace");
    reveal_strlit("salamander.v1_offset");
    let a = "salamander.stream_name"@;
    let b = "salamander.v1_namespace"@;
    let c = "salamander.v1_offset"@;
    assert(a.len() == 22 && b.len() == 23 && c.len() == 20);
    let m0 = crate::format::metadata::MetadataView::empty();
    lemma_inserted(m0, a, encode_utf8(event.namespace));
    let m1 = crate::format::metadata::inserted(m0, a, encode_utf8(event.namespace));
    lemma_inserted(m1, b, encode_utf8(event.namespace));
    let m2 = crate::format::metadata::inserted(m1, b, encode_utf8(event.namespace));
    lemma_inserted(m2, c, spec_u64_to_le_bytes(event.offset));
    let m3 = crate::format::metadata::inserted(m2, c, spec_u64_to_le_bytes(event.offset));
    assert(value_of(m3, a) == value_of(m2, a));
    assert(value_of(m2, a) == value_of(m1, a));
    assert(value_of(m3, b) == value_of(m2, b));
}

/// A destination holds a prefix of the source exactly where it holds no more
/// records than the source has events, and each stands at its event's offset,
/// with its identity, its body and the offset it notes.
pub proof fn lemma_prefix_held(records: Seq<RecordView>, events: Seq<LegacyView>, source: Seq<u8>)
    ensures
        prefix_error(records, events, source) is None <==> records.len() <= events.len() && forall|i: int|
            0 <= i < records.len() ==> {
                let record = #[trigger] records[i];
                &&& record.position == events[i].offset
                &&& record.envelope.event_id == import_id(source, events[i].offset)
                &&& record.payload == events[i].body
                &&& value_of(record.envelope.metadata, "salamander.v1_offset"@) == Some(spec_u64_to_le_bytes(events[i].offset))
            },
    decreases records.len(),
{
    if records.len() > 0 {
        let front = records.drop_last();
        let n = records.len() - 1;
        lemma_prefix_held(front, events, source);
        assert forall|i: int| 0 <= i < front.len() implies #[trigger] front[i] == records[i] by {}
        assert(records[n] == records.last());
        if prefix_error(records, events, source) is None {
            assert forall|i: int| 0 <= i < records.len() implies {
                let record = #[trigger] records[i];
                &&& record.position == events[i].offset
                &&& record.envelope.event_id == import_id(source, events[i].offset)
                &&& record.payload == events[i].body
                &&& value_of(record.envelope.metadata, "salamander.v1_offset"@) == Some(spec_u64_to_le_bytes(events[i].offset))
            } by {
                if i < n {
                    assert(front[i] == records[i]);
                }
            }
        }
    }
}

/// Branches are made of a log record by record: a marker goes, and any other
/// record becomes one event behind the others, which keeps its identity, its
/// time, its type and version, its codec, its payload and its own metadata, and
/// moves to the branch and the stream of its place.
pub proof fn lemma_record_moved(records: Seq<RecordView>, last: RecordView, forks: Seq<ForkView>, database: Seq<u8>, name: Seq<char>)
    requires
        keys_ascend(last.envelope.metadata),
        rewritten(records, forks, database) is Ok,
    ensures
        rewritten(Seq::empty(), forks, database) == Ok::<Seq<EventView>, ErrorView>(Seq::empty()),
        ({
            let before = rewritten(records, forks, database)->Ok_0;
            let after = rewritten(records.push(last), forks, database);
            if is_marker(forks, last.position) {
                after == Ok::<Seq<EventView>, ErrorView>(before)
            } else if stream_of(last) is Err {
                after is Err
            } else {
                &&& after is Ok
                &&& after->Ok_0.len() == before.len() + 1
                &&& after->Ok_0.drop_last() == before
                &&& {
                    let (env, payload) = after->Ok_0.last();
                    let (branch, stream) = place_of(forks, stream_of(last)->Ok_0);
                    let old_env = last.envelope;
                    &&& payload == last.payload
                    &&& env.event_id == old_env.event_id && env.batch_id == old_env.event_id && env.batch_index == 0
                    &&& env.timestamp == old_env.timestamp && env.event_type == old_env.event_type
                    &&& env.schema_version == old_env.schema_version && env.codec == old_env.codec
                    &&& env.database_id == database && env.branch_id == branch
                    &&& env.stream_id == twin_hash(database + branch + encode_utf8(stream))
                    &&& value_of(env.metadata, "salamander.stream_name"@) == Some(encode_utf8(stream))
                    &&& name != "salamander.stream_name"@ ==> value_of(env.metadata, name) == value_of(old_env.metadata, name)
                }
            }
        }),
{
    assert(records.push(last).drop_last() =~= records);
    if let Ok(name) = stream_of(last) {
        let (branch, stream) = place_of(forks, name);
        lemma_inserted(last.envelope.metadata, "salamander.stream_name"@, encode_utf8(stream));
        let before = rewritten(records, forks, database)->Ok_0;
        if !is_marker(forks, last.position) {
            assert(rewritten(records.push(last), forks, database)->Ok_0.drop_last() =~= before);
        }
    }
}

} // verus!
