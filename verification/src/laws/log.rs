//! What opening a log and letting go of segments promise of the files.
use crate::log::segment::scan_of;
use crate::log::store::{
    closed_among, first_full_orphan, kept_segments, opening, orphans_among, rolled, FoundView, LogView, Manifest, Removal,
};
use vstd::prelude::*;

verus! {

/// The closed segments are those below the active one, all of them and in order,
/// and the orphans those above it.
pub proof fn lemma_segments_told(found: Seq<FoundView>, active: u64)
    ensures
        closed_among(found, active) == found.filter(|x: FoundView| x.base < active).map_values(|x: FoundView| (x.base, x.path)),
        orphans_among(found, active) == found.filter(|x: FoundView| x.base > active).map_values(|x: FoundView| x.path),
        first_full_orphan(found, active) is None <==> forall|i: int|
            0 <= i < found.len() && (#[trigger] found[i]).base > active ==> found[i].len == 0,
    decreases found.len(),
{
    let below = |x: FoundView| x.base < active;
    let above = |x: FoundView| x.base > active;
    let pair = |x: FoundView| (x.base, x.path);
    let path = |x: FoundView| x.path;
    reveal(Seq::filter);
    if found.len() > 0 {
        let front = found.drop_last();
        let n = found.len() - 1;
        lemma_segments_told(front, active);
        if below(found.last()) {
            assert(front.filter(below).push(found.last()).map_values(pair) =~= front.filter(below).map_values(pair).push(pair(found.last())));
        }
        if above(found.last()) {
            assert(front.filter(above).push(found.last()).map_values(path) =~= front.filter(above).map_values(path).push(path(found.last())));
        }
        assert(found[n] == found.last());
        assert forall|i: int| 0 <= i < front.len() implies #[trigger] front[i] == found[i] by {}
        if first_full_orphan(found, active) is None {
            assert forall|i: int| 0 <= i < found.len() && (#[trigger] found[i]).base > active implies found[i].len == 0 by {
                if i < n {
                    assert(front[i] == found[i]);
                }
            }
        } else if forall|i: int| 0 <= i < found.len() && (#[trigger] found[i]).base > active ==> found[i].len == 0 {
            assert forall|i: int| 0 <= i < front.len() && (#[trigger] front[i]).base > active implies front[i].len == 0 by {
                assert(found[i].base > active);
            }
        }
    } else {
        assert(found.filter(below).map_values(pair) =~= Seq::empty());
        assert(found.filter(above).map_values(path) =~= Seq::empty());
    }
}

/// A log is opened exactly where its versions are known, nothing above the active
/// segment holds bytes, the active segment is there and the floor is not beyond
/// what it holds. It is then what its files hold: nothing of the manifest is
/// changed but where the log ends.
pub proof fn lemma_log_opened(m: Manifest, found: Seq<FoundView>, active: Seq<u8>, max: u64)
    ensures
        opening(m, found, active, max) is Ok <==> {
            &&& m.storage_format_version == 2 && m.payload_format_version == 1
            &&& forall|i: int| 0 <= i < found.len() && (#[trigger] found[i]).base > m.active_segment_base ==> found[i].len == 0
            &&& exists|i: int| 0 <= i < found.len() && (#[trigger] found[i]).base == m.active_segment_base
            &&& m.retention_floor <= scan_of(active, m.active_segment_base as int).next_offset
        },
        opening(m, found, active, max) matches Ok(o) ==> {
            let scan = scan_of(active, m.active_segment_base as int);
            &&& o.log.active.base_offset == m.active_segment_base
            &&& o.log.active.next_offset == scan.next_offset as u64
            &&& o.log.active.len_bytes == scan.valid_bytes as u64
            &&& o.log.closed == found.filter(|x: FoundView| x.base < m.active_segment_base).map_values(|x: FoundView| (x.base, x.path))
            &&& o.orphans == found.filter(|x: FoundView| x.base > m.active_segment_base).map_values(|x: FoundView| x.path)
            &&& o.stop == scan.stop
            &&& o.log.segment_max_bytes == max
            &&& o.log.manifest == (Manifest { next_offset: scan.next_offset as u64, ..m })
        },
{
    lemma_segments_told(found, m.active_segment_base);
}

/// A roll closes the active segment and begins an empty one at the head; it
/// changes nothing else of the log.
pub proof fn lemma_rolled(log: LogView, path: Seq<char>)
    ensures
        ({
            let now = rolled(log, path);
            &&& now.active.base_offset == log.active.next_offset && now.active.next_offset == log.active.next_offset
            &&& now.active.len_bytes == 0
            &&& now.closed.len() == log.closed.len() + 1
            &&& now.closed.drop_last() == log.closed && now.closed.last() == (log.active.base_offset, path)
            &&& now.manifest.active_segment_base == log.active.next_offset
            &&& now.manifest.database_id == log.manifest.database_id
            &&& now.manifest.retention_floor == log.manifest.retention_floor
            &&& now.manifest.retention_generation == log.manifest.retention_generation
            &&& now.manifest.retention_anchor_checksum == log.manifest.retention_anchor_checksum
            &&& now.segment_max_bytes == log.segment_max_bytes
        }),
{
    assert(rolled(log, path).closed.drop_last() =~= log.closed);
}

/// A segment stays exactly where it lies at or above the floor, or where its file
/// could not be removed.
pub proof fn lemma_segments_stay(closed: Seq<(u64, Seq<char>)>, floor: u64, outcomes: Seq<Removal>, last: (u64, Seq<char>))
    requires
        outcomes.len() > closed.len(),
    ensures
        kept_segments(Seq::empty(), floor, outcomes).len() == 0,
        kept_segments(closed.push(last), floor, outcomes) == if floor <= last.0 || outcomes[closed.len() as int] is Failed {
            kept_segments(closed, floor, outcomes).push(last)
        } else {
            kept_segments(closed, floor, outcomes)
        },
{
    assert(closed.push(last).drop_last() =~= closed);
}

} // verus!
