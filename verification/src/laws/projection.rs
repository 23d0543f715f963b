//! What projections promise: a replay folds every event of its range, once and
//! in order, and a projection answers for as much as its partitions have folded.
use crate::event::{stored_event, Body, Decoding};
use crate::facade::fold::{fold_step, folded, Folding};
use crate::facade::heal::{
    acceptable, aggregate_status, cursor_at, driven, first_failed, first_stale, heal_selection, heal_target, least_cursor,
    partition_acceptable, partition_healed, partition_healing, partition_restored, DriveView, HealStep, QueryView,
};
use crate::facade::projection::{
    cursor_of, descriptor_takes, partition_cursor_of, CursorView, PartitionView, ProjectionDescriptor, QueryConsistency, StatusView,
};
use crate::facade::query::{DefinitionView, FailureView, RowsView};
use crate::facade::types::RecordDto;
use crate::format::frame::{positions_ascend, RecordView};
use crate::format::metadata::value_of;
use crate::log::select::{class_of, selects};
use crate::projection::{replayed, stream_replayed, Projection, Replayed};
use vstd::prelude::*;
use vstd::utf8::{decode_utf8, valid_utf8};

verus! {

proof fn lemma_replay_one_more<P: Projection>(model: P::Model, records: Seq<RecordView>, last: RecordView, i: int, from: u64, upto: u64)
    requires
        positions_ascend(records.push(last)),
        0 <= i <= records.len(),
    ensures
        ({
            let before = replayed::<P>(model, records, i, from, upto);
            let after = replayed::<P>(model, records.push(last), i, from, upto);
            if before.fault is Some {
                after == before
            } else if last.position < from || last.position >= upto {
                after.model == before.model && after.fault is None
            } else {
                match stored_event::<P::Body>(last) {
                    Decoding::Event(event) => after.model == P::folded(before.model, event) && after.fault is None,
                    _ => after.model == before.model && after.fault == Some(records.len() as int),
                }
            }
        }),
    decreases records.len() - i,
{
    let all = records.push(last);
    if i < records.len() {
        assert(all[i] == records[i]);
        assert(all[i].position < all[records.len() as int].position);
        if records[i].position < from {
            lemma_replay_one_more::<P>(model, records, last, i + 1, from, upto);
        } else if records[i].position < upto {
            if let Decoding::Event(event) = stored_event::<P::Body>(records[i]) {
                lemma_replay_one_more::<P>(P::folded(model, event), records, last, i + 1, from, upto);
            }
        }
    } else {
        assert(all[i] == last);
        assert(replayed::<P>(model, all, i + 1, from, upto) == (Replayed { model, fault: None }));
        if let Decoding::Event(event) = stored_event::<P::Body>(last) {
            let next = P::folded(model, event);
            assert(replayed::<P>(next, all, i + 1, from, upto) == (Replayed { model: next, fault: None }));
        }
    }
}

/// A replay is folded event by event: of no records it leaves a projection as it
/// is, and one more record behind the others is folded in last where it lies in
/// the range, passed over where it does not, and a fault where it is no event.
pub proof fn lemma_replay_folds<P: Projection>(model: P::Model, records: Seq<RecordView>, last: RecordView, from: u64, upto: u64)
    requires
        positions_ascend(records.push(last)),
    ensures
        replayed::<P>(model, Seq::empty(), 0, from, upto) == (Replayed { model, fault: None }),
        ({
            let before = replayed::<P>(model, records, 0, from, upto);
            let after = replayed::<P>(model, records.push(last), 0, from, upto);
            if before.fault is Some {
                after == before
            } else if last.position < from || last.position >= upto {
                after.model == before.model && after.fault is None
            } else {
                match stored_event::<P::Body>(last) {
                    Decoding::Event(event) => after.model == P::folded(before.model, event) && after.fault is None,
                    _ => after.model == before.model && after.fault == Some(records.len() as int),
                }
            }
        }),
{
    lemma_replay_one_more::<P>(model, records, last, 0, from, upto);
}

proof fn lemma_stream_one_more<P: Projection>(
    model: P::Model,
    records: Seq<RecordView>,
    last: RecordView,
    i: int,
    namespace: Seq<char>,
    upto: u64,
)
    requires
        positions_ascend(records.push(last)),
        0 <= i <= records.len(),
    ensures
        ({
            let before = stream_replayed::<P>(model, records, i, namespace, upto);
            let after = stream_replayed::<P>(model, records.push(last), i, namespace, upto);
            if before.fault is Some {
                after == before
            } else if last.position >= upto {
                after.model == before.model && after.fault is None
            } else {
                match stored_event::<P::Body>(last) {
                    Decoding::Event(event) => after.fault is None && after.model == if event.namespace == namespace {
                        P::folded(before.model, event)
                    } else {
                        before.model
                    },
                    _ => after.model == before.model && after.fault == Some(records.len() as int),
                }
            }
        }),
    decreases records.len() - i,
{
    let all = records.push(last);
    if i < records.len() {
        assert(all[i] == records[i]);
        assert(all[i].position < all[records.len() as int].position);
        if records[i].position < upto {
            if let Decoding::Event(event) = stored_event::<P::Body>(records[i]) {
                let next = if event.namespace == namespace {
                    P::folded(model, event)
                } else {
                    model
                };
                lemma_stream_one_more::<P>(next, records, last, i + 1, namespace, upto);
            }
        }
    } else {
        assert(all[i] == last);
        if let Decoding::Event(event) = stored_event::<P::Body>(last) {
            let next = if event.namespace == namespace {
                P::folded(model, event)
            } else {
                model
            };
            assert(stream_replayed::<P>(next, all, i + 1, namespace, upto) == (Replayed { model: next, fault: None }));
        }
    }
}

/// A replay of a stream is folded event by event: one more record behind the
/// others is folded in last where it is an event of the stream below the bound,
/// passed over where it is another's, and a fault where it is no event.
pub proof fn lemma_stream_folds<P: Projection>(
    model: P::Model,
    records: Seq<RecordView>,
    last: RecordView,
    namespace: Seq<char>,
    upto: u64,
)
    requires
        positions_ascend(records.push(last)),
    ensures
        stream_replayed::<P>(model, Seq::empty(), 0, namespace, upto) == (Replayed { model, fault: None }),
        ({
            let before = stream_replayed::<P>(model, records, 0, namespace, upto);
            let after = stream_replayed::<P>(model, records.push(last), 0, namespace, upto);
            if before.fault is Some {
                after == before
            } else if last.position >= upto {
                after.model == before.model && after.fault is None
            } else {
                match stored_event::<P::Body>(last) {
                    Decoding::Event(event) => after.fault is None && after.model == if event.namespace == namespace {
                        P::folded(before.model, event)
                    } else {
                        before.model
                    },
                    _ => after.model == before.model && after.fault == Some(records.len() as int),
                }
            }
        }),
{
    lemma_stream_one_more::<P>(model, records, last, 0, namespace, upto);
}

/// An event that is read of a record stands at the record's position, belongs to
/// the stream that the record names, has the record's time in milliseconds and
/// the body that the record's payload reads as.
pub proof fn lemma_event_read<B: Body>(record: RecordView)
    requires
        record.envelope.event_type != "salamander.raw-v2"@,
    ensures
        match stored_event::<B>(record) {
            Decoding::Event(event) => {
                &&& event.offset == record.position
                &&& value_of(record.envelope.metadata, "salamander.stream_name"@) matches Some(name) && valid_utf8(name)
                    && event.namespace == decode_utf8(name)
                &&& record.envelope.timestamp >= 0 ==> event.timestamp_ms * 1_000_000 <= record.envelope.timestamp < (event.timestamp_ms
                    + 1) * 1_000_000
                &&& record.envelope.timestamp < 0 ==> event.timestamp_ms == 0
                &&& B::reading(record.payload) == Some(event.body)
                &&& record.envelope.codec == 0x8000_0001u32
            },
            _ => record.envelope.codec != 0x8000_0001u32 || B::reading(record.payload) is None || !(value_of(
                record.envelope.metadata,
                "salamander.stream_name"@,
            ) matches Some(name) && valid_utf8(name)),
        },
{
}

/// Whether one of a projection's types takes an event.
pub open spec fn type_taken(descriptor: ProjectionDescriptor, record: RecordDto) -> bool {
    descriptor.input_types@.len() == 0 || exists|i: int|
        0 <= i < descriptor.input_types@.len() && (#[trigger] descriptor.input_types@[i]).event_type@ == record.event_type@
            && descriptor.input_types@[i].min_schema_version <= record.schema_version
            && record.schema_version <= descriptor.input_types@[i].max_schema_version
}

/// A projection takes an event exactly where the event is of its stream, if it
/// is kept to one, and of one of its types and their versions, if it has any.
pub proof fn lemma_event_taken(descriptor: ProjectionDescriptor, record: RecordDto)
    ensures
        descriptor_takes(descriptor@, record@) <==> type_taken(descriptor, record) && (descriptor.scope.stream matches Some(stream)
            ==> (value_of(record.metadata@, "salamander.stream_name"@) matches Some(name) && valid_utf8(name) && decode_utf8(name)
            == stream@)),
{
    let views = descriptor@.input_types;
    if descriptor_takes(descriptor@, record@) && views.len() > 0 {
        let i = choose|i: int| 0 <= i < views.len() && crate::facade::projection::input_takes(#[trigger] views[i], record@);
        assert(descriptor.input_types@[i].event_type@ == record.event_type@);
    }
    if type_taken(descriptor, record) && descriptor.input_types@.len() > 0 {
        let i = choose|i: int|
            0 <= i < descriptor.input_types@.len() && (#[trigger] descriptor.input_types@[i]).event_type@ == record.event_type@
                && descriptor.input_types@[i].min_schema_version <= record.schema_version
                && record.schema_version <= descriptor.input_types@[i].max_schema_version;
        assert(crate::facade::projection::input_takes(views[i], record@));
    }
}

/// Rows are folded record by record, until one stops them.
pub proof fn lemma_rows_fold(
    def: DefinitionView,
    d: crate::facade::projection::DescriptorView,
    rows: RowsView,
    records: Seq<RecordView>,
    last: RecordView,
)
    ensures
        folded(def, d, rows, Seq::empty()) == (Folding { rows, stop: None }),
        folded(def, d, rows, records.push(last)) == if folded(def, d, rows, records).stop is Some {
            folded(def, d, rows, records)
        } else {
            fold_step(def, d, folded(def, d, rows, records).rows, last)
        },
{
    assert(records.push(last).drop_last() =~= records);
}

proof fn lemma_first_of(partitions: Seq<PartitionView>)
    ensures
        first_failed(partitions) is None <==> forall|i: int| 0 <= i < partitions.len() ==> !((#[trigger] partitions[i]) is Failed),
        first_failed(partitions) matches Some((cursor, error)) ==> partitions.contains(PartitionView::Failed { cursor, error }),
        first_stale(partitions) is None <==> forall|i: int| 0 <= i < partitions.len() ==> !((#[trigger] partitions[i]) is Stale),
        first_stale(partitions) matches Some((cursor, reason)) ==> partitions.contains(PartitionView::Stale { cursor, reason }),
    decreases partitions.len(),
{
    if partitions.len() > 0 {
        let rest = partitions.skip(1);
        lemma_first_of(rest);
        assert(partitions =~= seq![partitions[0]] + rest);
        assert forall|i: int| 0 <= i < rest.len() implies #[trigger] rest[i] == partitions[i + 1] by {}
        if first_failed(partitions) is None {
            assert forall|i: int| 0 <= i < partitions.len() implies !((#[trigger] partitions[i]) is Failed) by {
                if i > 0 {
                    assert(rest[i - 1] == partitions[i]);
                }
            }
        }
        if first_stale(partitions) is None {
            assert forall|i: int| 0 <= i < partitions.len() implies !((#[trigger] partitions[i]) is Stale) by {
                if i > 0 {
                    assert(rest[i - 1] == partitions[i]);
                }
            }
        }
        if let Some((cursor, error)) = first_failed(partitions) {
            if partitions[0] is Failed {
                assert(partitions[0] == (PartitionView::Failed { cursor, error }));
            } else {
                let i = choose|i: int| 0 <= i < rest.len() && rest[i] == (PartitionView::Failed { cursor, error });
                assert(partitions[i + 1] == (PartitionView::Failed { cursor, error }));
            }
        }
        if let Some((cursor, reason)) = first_stale(partitions) {
            if partitions[0] is Stale {
                assert(partitions[0] == (PartitionView::Stale { cursor, reason }));
            } else {
                let i = choose|i: int| 0 <= i < rest.len() && rest[i] == (PartitionView::Stale { cursor, reason });
                assert(partitions[i + 1] == (PartitionView::Stale { cursor, reason }));
            }
        }
    }
}

proof fn lemma_least_of(partitions: Seq<PartitionView>)
    requires
        partitions.len() > 0,
    ensures
        forall|i: int|
            0 <= i < partitions.len() ==> least_cursor(partitions).position <= partition_cursor_of(#[trigger] partitions[i]).position,
        exists|i: int| 0 <= i < partitions.len() && least_cursor(partitions) == partition_cursor_of(#[trigger] partitions[i]),
    decreases partitions.len(),
{
    if partitions.len() == 1 {
        assert(least_cursor(partitions) == partition_cursor_of(partitions[0]));
    } else {
        let front = partitions.drop_last();
        let n = partitions.len() - 1;
        lemma_least_of(front);
        let k = choose|k: int| 0 <= k < front.len() && least_cursor(front) == partition_cursor_of(#[trigger] front[k]);
        assert(partitions[k] == front[k]);
        assert(partitions[n] == partitions.last());
        assert forall|i: int| 0 <= i < partitions.len() implies least_cursor(partitions).position <= partition_cursor_of(
            #[trigger] partitions[i],
        ).position by {
            if i < n {
                assert(front[i] == partitions[i]);
            }
        }
        if partition_cursor_of(partitions.last()).position < least_cursor(front).position {
            assert(least_cursor(partitions) == partition_cursor_of(partitions[n]));
        } else {
            assert(least_cursor(partitions) == partition_cursor_of(partitions[k]));
        }
    }
}

/// A projection stands where its partitions let it: failed where any failed,
/// else stale where any is stale, else ready where all are ready and building
/// otherwise; and its cursor, then, is that of a partition that no other is
/// behind.
pub proof fn lemma_stands_by_partitions(partitions: Seq<PartitionView>)
    requires
        partitions.len() > 0,
    ensures
        ({
            let status = aggregate_status(partitions);
            let any_failed = exists|i: int| 0 <= i < partitions.len() && (#[trigger] partitions[i]) is Failed;
            let any_stale = exists|i: int| 0 <= i < partitions.len() && (#[trigger] partitions[i]) is Stale;
            let ready = forall|i: int| 0 <= i < partitions.len() ==> (#[trigger] partitions[i]) is Ready;
            &&& status is Failed <==> any_failed
            &&& status is Stale <==> !any_failed && any_stale
            &&& status is Ready <==> ready
            &&& status is Building <==> !any_failed && !any_stale && !ready
            &&& status matches StatusView::Failed { cursor, error } ==> partitions.contains(PartitionView::Failed { cursor, error })
            &&& status matches StatusView::Stale { cursor, reason } ==> partitions.contains(PartitionView::Stale { cursor, reason })
            &&& status is Ready || status is Building ==> {
                &&& forall|i: int|
                    0 <= i < partitions.len() ==> cursor_of(status).position <= partition_cursor_of(#[trigger] partitions[i]).position
                &&& exists|i: int| 0 <= i < partitions.len() && cursor_of(status) == partition_cursor_of(#[trigger] partitions[i])
            }
        }),
{
    lemma_first_of(partitions);
    lemma_least_of(partitions);
    assert(partitions[0] is Ready ==> !(partitions[0] is Failed));
}

/// Every stream is read by exactly one partition of a projection that is kept to
/// none, and by none but its own where the projection is kept to one stream.
pub proof fn lemma_partitions_read(count: u32, partition: u32, kept: Option<Seq<u8>>, stream: Seq<u8>)
    requires
        count > 0,
        partition < count,
    ensures
        class_of(stream, count) < count,
        selects(heal_selection(count, partition, kept), stream) <==> class_of(stream, count) == partition && (kept matches Some(id)
            ==> id == stream),
{
    if let Some(id) = kept {
        if class_of(id, count) == partition {
            assert(seq![id][0] == id);
        }
    }
}

/// A partition is brought to its target and no further: one that failed or is
/// stale stays as it is, one that has reached the target is ready there, and any
/// other reads on from where it stands.
pub proof fn lemma_partition_heals(q: QueryView, status: PartitionView, target: u64)
    ensures
        ({
            let (next, step) = partition_healing(q, status, target);
            let start = partition_cursor_of(status).position;
            if status is Failed || status is Stale {
                next == status && step is Settled
            } else if target <= start {
                next is Ready && partition_cursor_of(next).position == target && step is Settled
            } else {
                next is Healing && partition_cursor_of(next).position == start && step == (HealStep::Replay { start })
            }
        }),
        forall|start: u64, failure: FailureView|
            #![trigger partition_healed(q, start, target, Some(failure))]
            partition_healed(q, start, target, Some(failure)) is Failed && partition_cursor_of(
                partition_healed(q, start, target, Some(failure)),
            ).position == start && partition_healed(q, start, target, Some(failure))->error == failure,
        forall|start: u64|
            #![trigger partition_healed(q, start, target, None)]
            partition_healed(q, start, target, None) is Ready && partition_cursor_of(partition_healed(q, start, target, None)).position
                == target,
        forall|cursor: CursorView|
            #![trigger partition_restored(status, Some(cursor))]
            partition_restored(status, Some(cursor)) == if status is Cold {
                PartitionView::Ready { cursor }
            } else {
                status
            },
        partition_restored(status, None) == status,
{
}

/// An answer is up to date enough exactly where its projection, or each
/// partition it comes from, stands as far as was asked for; partitions are
/// brought to the head, or no further than a caller waits for.
pub proof fn lemma_answers_in_time(status: StatusView, partition: PartitionView, consistency: QueryConsistency, head: u64)
    ensures
        acceptable(status, consistency, head) <==> match consistency {
            QueryConsistency::AllowStale => !(status is Dropping),
            QueryConsistency::RequireHead => status is Ready && head <= cursor_of(status).position,
            QueryConsistency::WaitFor(p) => (status is Ready || status is Building || status is Stale) && p <= cursor_of(
                status,
            ).position,
        },
        partition_acceptable(partition, consistency, head) <==> (partition is Cold || partition is Healing || partition is Ready) && (
        match consistency {
            QueryConsistency::AllowStale => true,
            QueryConsistency::RequireHead => head <= partition_cursor_of(partition).position,
            QueryConsistency::WaitFor(p) => p <= partition_cursor_of(partition).position,
        }),
        heal_target(consistency, head) <= head,
        consistency matches QueryConsistency::WaitFor(p) ==> heal_target(consistency, head) <= p && (p <= head ==> heal_target(
            consistency,
            head,
        ) == p),
        !(consistency matches QueryConsistency::WaitFor(p) && p < head) ==> heal_target(consistency, head) == head,
{
}

/// A projection that is driven stands behind each event it took, at each it did
/// not take, and at the head once there are no more.
pub proof fn lemma_driven(q: QueryView, position: u64, message: Seq<char>, error: FailureView, head: u64)
    requires
        position < u64::MAX,
    ensures
        driven(q, DriveView::Applied { position }, head) is Building,
        cursor_of(driven(q, DriveView::Applied { position }, head)).position == position + 1,
        driven(q, DriveView::Refused { position, error }, head) is Failed,
        driven(q, DriveView::Refused { position, error }, head)->error == error,
        cursor_of(driven(q, DriveView::Refused { position, error }, head)).position == position,
        driven(q, DriveView::DecodeFailed { position, message }, head) is Failed,
        driven(q, DriveView::DecodeFailed { position, message }, head)->error.message == message,
        cursor_of(driven(q, DriveView::DecodeFailed { position, message }, head)).position == position,
        driven(q, DriveView::ReadFailed(message), head) is Failed,
        driven(q, DriveView::ReadFailed(message), head)->error.message == message,
        cursor_of(driven(q, DriveView::ReadFailed(message), head)) == cursor_of(q.status),
        driven(q, DriveView::Exhausted, head) is Ready,
        cursor_of(driven(q, DriveView::Exhausted, head)).position == head,
{
}

/// A cursor says whose it is: the projection's database, branch and fingerprint.
pub proof fn lemma_cursor_names(q: QueryView, position: u64)
    ensures
        cursor_at(q, position).database == q.database,
        cursor_at(q, position).branch == q.descriptor.branch,
        cursor_at(q, position).fingerprint == q.fingerprint,
        cursor_at(q, position).position == position,
{
}

/// The events of a stream are listed one by one: one more record adds its event
/// behind the others where it is an event of the stream, and nothing otherwise.
pub proof fn lemma_stream_listed<B: Body>(records: Seq<RecordView>, n: int, namespace: Seq<char>)
    requires
        0 <= n < records.len(),
    ensures
        crate::introspect::listed::<B>(records, 0, namespace).len() == 0,
        ({
            let before = crate::introspect::listed::<B>(records, n, namespace);
            let after = crate::introspect::listed::<B>(records, n + 1, namespace);
            match stored_event::<B>(records[n]) {
                Decoding::Event(event) => if event.namespace == namespace {
                    after.len() == before.len() + 1 && after.drop_last() == before && after.last() == event
                } else {
                    after == before
                },
                _ => after == before,
            }
        }),
{
    let before = crate::introspect::listed::<B>(records, n, namespace);
    if let Decoding::Event(event) = stored_event::<B>(records[n]) {
        assert(before.push(event).drop_last() =~= before);
    }
}

} // verus!
