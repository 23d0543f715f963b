//! What snapshots promise: one is taken only where it is of the same projection,
//! of the same history and not ahead of it, and its state is whole.
use crate::checksum::crc32c_of;
use crate::db::retain::{projection_covered, snapshot_covers};
use crate::facade::heal::QueryView;
use crate::facade::projection::CursorView;
use crate::retention::RetentionProjectionCoverage;
use crate::snapshot::{fits, listed, manifest_of, state_fault, ExpectationView, InfoView, SnapshotView, MAX_SNAPSHOT_STATE_BYTES};
use vstd::prelude::*;

verus! {

/// A snapshot that fits is one of the same database, projection, definition,
/// branch, line of ancestry, codec and partition, and reaches no further than
/// the log does.
pub proof fn lemma_fits_means(m: SnapshotView, e: ExpectationView)
    ensures
        fits(m, e) <==> {
            &&& 1 <= m.format_version <= 2
            &&& m.database == e.database && m.cursor.database == e.database
            &&& m.branch == e.descriptor.branch && m.cursor.branch == e.descriptor.branch && m.lineage == e.lineage
            &&& m.name == e.descriptor.name
            &&& m.fingerprint == e.fingerprint && m.cursor.fingerprint == e.fingerprint
            &&& m.definition_id == e.descriptor.definition_id && m.definition_version == e.descriptor.definition_version
            &&& m.state_codec == e.descriptor.state_codec && m.state_codec_version == e.descriptor.state_codec_version
            &&& m.cursor.position <= e.maximum_cursor
            &&& m.partition == e.partition
            &&& m.partition is None || (m.scheme_id == Some(e.descriptor.scheme.scheme_id) && m.scheme_version == Some(
                e.descriptor.scheme.version,
            ) && m.partition_count == Some(e.descriptor.scheme.count))
        },
{
}

/// What a manifest says of a snapshot is what the snapshot was made of.
pub proof fn lemma_manifest_says(q: QueryView, cursor: CursorView, lineage: Seq<u8>, partition: Option<u32>, created: i64, state: Seq<u8>)
    requires
        state.len() <= u64::MAX,
        q.partitions.len() <= u32::MAX,
    ensures
        ({
            let m = manifest_of(q, cursor, lineage, partition, created, state);
            &&& m.database == q.database && m.fingerprint == q.fingerprint && m.cursor == cursor && m.lineage == lineage
            &&& m.name == q.descriptor.name && m.branch == q.descriptor.branch
            &&& m.definition_id == q.descriptor.definition_id && m.definition_version == q.descriptor.definition_version
            &&& m.state_codec == q.descriptor.state_codec && m.state_codec_version == q.descriptor.state_codec_version
            &&& m.created == created && m.partition == partition
            &&& m.length == state.len() && m.checksum == crc32c_of(state)
            &&& partition is Some ==> m.format_version == 2 && m.scheme_id == Some(q.descriptor.scheme.scheme_id) && m.scheme_version
                == Some(q.descriptor.scheme.version) && (m.partition_count matches Some(n) && n == q.partitions.len())
            &&& partition is None ==> m.format_version == 1 && m.scheme_id is None && m.scheme_version is None && m.partition_count
                is None
        }),
{
}

/// A state is taken exactly where it has the length and the checksum that were
/// noted of it, and is not too large.
pub proof fn lemma_state_whole(length: u64, checksum: u32, state: Seq<u8>)
    ensures
        state_fault(length, checksum, state) is None <==> state.len() == length && crc32c_of(state) == checksum && state.len()
            <= MAX_SNAPSHOT_STATE_BYTES,
{
}

/// The snapshots that are listed are those of the projection, each as often as
/// it is there.
pub proof fn lemma_listed_own(items: Seq<InfoView>, fingerprint: Seq<u8>)
    ensures
        forall|i: int| 0 <= i < listed(items, fingerprint).len() ==> (#[trigger] listed(items, fingerprint)[i]).1.fingerprint == fingerprint,
        listed(items, fingerprint).len() == items.filter(|x: InfoView| x.1.fingerprint == fingerprint).len(),
    decreases items.len(),
{
    let own = |x: InfoView| x.1.fingerprint == fingerprint;
    reveal(Seq::filter);
    if items.len() > 0 {
        lemma_listed_own(items.drop_last(), fingerprint);
        if own(items.last()) {
            lemma_put(listed(items.drop_last(), fingerprint), items.last(), fingerprint);
        }
    }
}

proof fn lemma_put(items: Seq<InfoView>, x: InfoView, fingerprint: Seq<u8>)
    requires
        forall|i: int| 0 <= i < items.len() ==> (#[trigger] items[i]).1.fingerprint == fingerprint,
        x.1.fingerprint == fingerprint,
    ensures
        ({
            let out = crate::snapshot::info_inserted(items, x);
            &&& out.len() == items.len() + 1
            &&& forall|i: int| 0 <= i < out.len() ==> (#[trigger] out[i]).1.fingerprint == fingerprint
        }),
    decreases items.len(),
{
    if items.len() > 0 && crate::snapshot::older(items.last(), x) {
        let front = items.drop_last();
        assert forall|i: int| 0 <= i < front.len() implies (#[trigger] front[i]).1.fingerprint == fingerprint by {
            assert(front[i] == items[i]);
        }
        assert(items[items.len() - 1].1.fingerprint == fingerprint);
        lemma_put(front, x, fingerprint);
    }
}

/// A projection is covered at a head exactly where what is noted is of it and of
/// that head, and there is one snapshot of it, at that head, for each partition.
pub proof fn lemma_covered_means(
    coverage: RetentionProjectionCoverage,
    name: Seq<char>,
    fingerprint: Seq<u8>,
    branch: Seq<u8>,
    head: u64,
    partitions: u32,
    found: Seq<Option<SnapshotView>>,
    i: int,
    j: int,
)
    requires
        projection_covered(coverage, name, fingerprint, branch, head, partitions, found),
        0 <= i < j < found.len(),
    ensures
        coverage.name@ == name && coverage.descriptor_fingerprint@ == fingerprint && coverage.branch_id@ == branch,
        coverage.cursor == head && coverage.snapshot_ids@.len() == partitions,
        found[i] is Some && found[j] is Some,
        found[i]->0.name == name && found[i]->0.fingerprint == fingerprint && found[i]->0.branch == branch,
        found[i]->0.cursor.position == head,
        found[i]->0.partition_count matches Some(n) ==> n == partitions,
        found[i]->0.partition_count is None ==> partitions == 1,
        found[i]->0.partition != found[j]->0.partition,
{
    assert(snapshot_covers(found[i], name, fingerprint, branch, head, partitions));
    assert(snapshot_covers(found[j], name, fingerprint, branch, head, partitions));
}

} // verus!
