//! Turning marked forks into branches of the engine.
use crate::branch::{branch_name_error, branch_views, BranchInfo, BranchName, BranchStatus, BranchView};
use crate::bytes::zero16;
use crate::db::fork::{branch_envelope, system_envelope};
use crate::error::{ErrorView, Result, SalamanderError};
use crate::format::derive::{derive_import_id, derive_stream_id, import_id, twin_hash};
use crate::format::envelope::{EnvelopeView, RecordEnvelopeV2};
use crate::format::frame::{positions_ascend, record_views, OwnedStoredRecord, RecordView};
use crate::format::ids::{BatchId, BranchId, DatabaseId, StreamRevision};
use crate::format::metadata::{inserted, value_of, Metadata, MetadataView};
use crate::log::record::lemma_ascii_event_type;
use crate::log::segment::{event_views, EventView};
use crate::migration::marker::{fork_marker, legacy_marker};
use crate::text::{decimal, decimal_string, join2, join3, join4, same_text, utf8_text};
use vstd::prelude::*;
use vstd::utf8::{decode_utf8, encode_utf8, valid_utf8};

verus! {

/// What turning marked forks into branches came to.
#[derive(Debug, Clone, Copy, PartialEq, Eq, Structural)]
pub struct BranchMigrationReport {
    pub source_records: u64,
    pub migrated_records: u64,
    pub removed_marker_records: u64,
    pub branches_created: u64,
    pub destination_head: u64,
}

/// A marked fork.
#[derive(Debug)]
pub struct LegacyFork {
    pub child_stream: String,
    pub parent_stream: String,
    /// The position below which the child sees the parent.
    pub source_fork_position: u64,
    /// The position of the marker.
    pub marker_position: u64,
    pub created_at_unix_nanos: i64,
    /// The identity of the branch that it becomes.
    pub id: BranchId,
}

/// A marked fork as plain values.
#[verifier::ext_equal]
pub struct ForkView {
    pub child: Seq<char>,
    pub parent: Seq<char>,
    pub at: u64,
    pub marker: u64,
    pub created: i64,
    pub id: Seq<u8>,
}

impl View for LegacyFork {
    type V = ForkView;

    open spec fn view(&self) -> ForkView {
        ForkView {
            child: self.child_stream@,
            parent: self.parent_stream@,
            at: self.source_fork_position,
            marker: self.marker_position,
            created: self.created_at_unix_nanos,
            id: self.id@,
        }
    }
}

/// The forks of a list as plain values.
pub open spec fn fork_views(forks: Seq<LegacyFork>) -> Seq<ForkView> {
    Seq::new(forks.len(), |i: int| forks[i]@)
}

/// The bytes of the stream's name that a record gives, under either key.
pub open spec fn stream_bytes(metadata: MetadataView) -> Option<Seq<u8>> {
    match value_of(metadata, "salamander.stream_name"@) {
        Some(bytes) => Some(bytes),
        None => value_of(metadata, "salamander.v1_namespace"@),
    }
}

/// The stream that a record names.
pub open spec fn stream_of(record: RecordView) -> core::result::Result<Seq<char>, ErrorView> {
    match stream_bytes(record.envelope.metadata) {
        None => Err(ErrorView::Migration("record "@ + decimal(record.position as nat) + " has no stream name"@)),
        Some(bytes) => if valid_utf8(bytes) {
            Ok(decode_utf8(bytes))
        } else {
            Err(ErrorView::Migration("record "@ + decimal(record.position as nat) + " stream name is not UTF-8"@))
        },
    }
}

/// The stream that a record names.
pub fn record_stream(record: &OwnedStoredRecord) -> (r: Result<String>)
    ensures
        match stream_of(record@) {
            Ok(name) => r matches Ok(s) && s@ == name,
            Err(e) => r matches Err(error) && error@ == e,
        },
{
    let named = match record.envelope.metadata.get("salamander.stream_name") {
        Some(bytes) => Some(bytes),
        None => record.envelope.metadata.get("salamander.v1_namespace"),
    };
    match named {
        None => Err(
            SalamanderError::Migration(join3("record ", decimal_string(record.position).as_str(), " has no stream name")),
        ),
        Some(bytes) => match utf8_text(bytes.as_slice()) {
            Some(name) => Ok(name),
            None => Err(
                SalamanderError::Migration(
                    join3("record ", decimal_string(record.position).as_str(), " stream name is not UTF-8"),
                ),
            ),
        },
    }
}

/// Whether the markers of forks ascend.
pub open spec fn markers_ascend(forks: Seq<ForkView>) -> bool {
    forall|i: int, j: int| 0 <= i < j < forks.len() ==> (#[trigger] forks[i]).marker < (#[trigger] forks[j]).marker
}

/// The fork that a record marks, in a stream.
pub open spec fn fork_of(record: RecordView, stream: Seq<char>, source: Seq<u8>) -> Option<ForkView> {
    match fork_marker(record.payload) {
        None => None,
        Some((parent, at)) => Some(
            ForkView {
                child: stream,
                parent,
                at,
                marker: record.position,
                created: record.envelope.timestamp,
                id: import_id(source, record.position),
            },
        ),
    }
}

/// The forks that records mark, in the order of the records.
pub open spec fn forks_of(records: Seq<RecordView>, source: Seq<u8>) -> core::result::Result<Seq<ForkView>, ErrorView>
    decreases records.len(),
{
    if records.len() == 0 {
        Ok(Seq::empty())
    } else {
        match forks_of(records.drop_last(), source) {
            Err(e) => Err(e),
            Ok(forks) => match stream_of(records.last()) {
                Err(e) => Err(e),
                Ok(stream) => match fork_of(records.last(), stream, source) {
                    Some(fork) => Ok(forks.push(fork)),
                    None => Ok(forks),
                },
            },
        }
    }
}

proof fn lemma_forks_error(records: Seq<RecordView>, n: int, source: Seq<u8>)
    requires
        0 <= n <= records.len(),
        forks_of(records.take(n), source) is Err,
    ensures
        forks_of(records, source) == forks_of(records.take(n), source),
    decreases records.len(),
{
    if n == records.len() {
        assert(records.take(n) =~= records);
    } else {
        assert(records.drop_last().take(n) =~= records.take(n));
        lemma_forks_error(records.drop_last(), n, source);
    }
}

/// The markers of forks ascend, and each is the position of a record.
pub proof fn lemma_forks_ascend(records: Seq<RecordView>, source: Seq<u8>)
    requires
        positions_ascend(records),
    ensures
        forks_of(records, source) matches Ok(forks) ==> markers_ascend(forks) && forks.len() <= records.len() && (forall|i: int|
            0 <= i < forks.len() ==> (#[trigger] forks[i]).marker <= records.last().position),
    decreases records.len(),
{
    if records.len() > 0 {
        let front = records.drop_last();
        assert(positions_ascend(front)) by {
            assert forall|i: int, j: int| 0 <= i < j < front.len() implies (#[trigger] front[i]).position < (#[trigger] front[j]).position by {
                assert(front[i] == records[i] && front[j] == records[j]);
            }
        }
        lemma_forks_ascend(front, source);
        if front.len() > 0 {
            assert(records[records.len() - 2].position < records[records.len() - 1].position);
        }
    }
}

/// The forks that the records of a database mark.
pub fn discover_legacy_forks(records: &Vec<OwnedStoredRecord>, source: DatabaseId) -> (r: Result<Vec<LegacyFork>>)
    requires
        positions_ascend(record_views(records@)),
    ensures
        match forks_of(record_views(records@), source@) {
            Ok(forks) => r matches Ok(out) && fork_views(out@) == forks && markers_ascend(forks),
            Err(e) => r matches Err(error) && error@ == e,
        },
{
    let ghost views = record_views(records@);
    let mut forks: Vec<LegacyFork> = Vec::new();
    let mut i: usize = 0;
    assert(views.take(0) =~= Seq::empty());
    assert(fork_views(forks@) =~= Seq::empty());
    while i < records.len()
        invariant
            i <= records@.len(),
            views == record_views(records@),
            forks_of(views.take(i as int), source@) == Ok::<Seq<ForkView>, ErrorView>(fork_views(forks@)),
        decreases records@.len() - i,
    {
        let record = &records[i];
        let ghost upto = views.take(i + 1);
        proof {
            assert(upto.drop_last() =~= views.take(i as int));
            assert(upto.last() == record@);
            if forks_of(upto, source@) is Err {
                lemma_forks_error(views, i + 1, source@);
            }
        }
        let stream = match record_stream(record) {
            Ok(stream) => stream,
            Err(e) => return Err(e),
        };
        match legacy_marker(record.payload.as_slice()) {
            Some((parent_stream, source_fork_position)) => {
                let fork = LegacyFork {
                    child_stream: stream,
                    parent_stream,
                    source_fork_position,
                    marker_position: record.position,
                    created_at_unix_nanos: record.envelope.timestamp_unix_nanos,
                    id: BranchId::from_bytes(derive_import_id(source.into_bytes(), record.position)),
                };
                let ghost before = fork_views(forks@);
                let ghost added = fork@;
                forks.push(fork);
                assert(fork_views(forks@) =~= before.push(added));
            },
            None => {},
        }
        i = i + 1;
    }
    proof {
        assert(views.take(i as int) =~= views);
        lemma_forks_ascend(views, source@);
    }
    Ok(forks)
}

/// The last of the forks whose child is a stream.
pub open spec fn fork_named(forks: Seq<ForkView>, stream: Seq<char>) -> Option<int>
    decreases forks.len(),
{
    if forks.len() == 0 {
        None
    } else if forks.last().child == stream {
        Some(forks.len() - 1)
    } else {
        fork_named(forks.drop_last(), stream)
    }
}

proof fn lemma_fork_named(forks: Seq<ForkView>, stream: Seq<char>)
    ensures
        match fork_named(forks, stream) {
            Some(i) => 0 <= i < forks.len() && forks[i].child == stream && forall|j: int|
                i < j < forks.len() ==> (#[trigger] forks[j]).child != stream,
            None => forall|j: int| 0 <= j < forks.len() ==> (#[trigger] forks[j]).child != stream,
        },
    decreases forks.len(),
{
    if forks.len() > 0 {
        lemma_fork_named(forks.drop_last(), stream);
        assert forall|j: int| 0 <= j < forks.len() - 1 implies #[trigger] forks[j] == forks.drop_last()[j] by {}
    }
}

fn find_fork(forks: &Vec<LegacyFork>, upto: usize, stream: &str) -> (r: Option<usize>)
    requires
        upto <= forks@.len(),
    ensures
        match fork_named(fork_views(forks@).take(upto as int), stream@) {
            Some(i) => r matches Some(n) && n == i && i < upto && forks@[i]@.child == stream@,
            None => r is None,
        },
{
    let ghost views = fork_views(forks@).take(upto as int);
    let mut i: usize = upto;
    while i > 0
        invariant
            i <= upto <= forks@.len(),
            views == fork_views(forks@).take(upto as int),
            forall|j: int| i <= j < upto ==> (#[trigger] views[j]).child != stream@,
        decreases i,
    {
        if same_text(forks[i - 1].child_stream.as_str(), stream) {
            proof {
                lemma_fork_named(views, stream@);
                assert(views[i - 1].child == stream@);
            }
            return Some(i - 1);
        }
        assert(views[i - 1].child != stream@);
        i = i - 1;
    }
    proof {
        lemma_fork_named(views, stream@);
    }
    None
}

/// Why the fork at `i` cannot become a branch, if it cannot.
pub open spec fn fork_error(forks: Seq<ForkView>, i: int, records: Seq<RecordView>) -> Option<ErrorView> {
    let fork = forks[i];
    if fork_named(forks.take(i), fork.child) is Some {
        Some(ErrorView::Migration("multiple legacy fork markers target stream "@ + fork.child))
    } else if fork.at > records.len() || fork.at > fork.marker {
        Some(
            ErrorView::Migration(
                "invalid fork position "@ + decimal(fork.at as nat) + " for marker at "@ + decimal(fork.marker as nat),
            ),
        )
    } else if fork_named(forks, fork.parent) is Some && fork_named(forks.take(i), fork.parent) is None {
        Some(ErrorView::Migration("legacy branch ancestry is not topological"@))
    } else if 0 < fork.at < records.len() && records[fork.at - 1].envelope.batch_id == records[fork.at as int].envelope.batch_id {
        Some(ErrorView::Migration("legacy fork position "@ + decimal(fork.at as nat) + " splits a batch"@))
    } else {
        None
    }
}

/// Why one of the first `n` forks cannot become a branch, if one cannot.
pub open spec fn forks_error(forks: Seq<ForkView>, n: nat, records: Seq<RecordView>) -> Option<ErrorView>
    decreases n,
{
    if n == 0 {
        None
    } else {
        match forks_error(forks, (n - 1) as nat, records) {
            Some(e) => Some(e),
            None => fork_error(forks, n - 1, records),
        }
    }
}

proof fn lemma_forks_error_first(forks: Seq<ForkView>, i: nat, n: nat, records: Seq<RecordView>)
    requires
        i <= n,
        forks_error(forks, i, records) is Some,
    ensures
        forks_error(forks, n, records) == forks_error(forks, i, records),
    decreases n,
{
    if i < n {
        lemma_forks_error_first(forks, i, (n - 1) as nat, records);
    }
}

/// Whether every fork can become a branch: one marker for a stream, a position
/// that exists, comes before the marker and lies between two batches, and a
/// parent that was there first.
pub fn validate_legacy_forks(forks: &Vec<LegacyFork>, records: &Vec<OwnedStoredRecord>) -> (r: Result<()>)
    ensures
        match forks_error(fork_views(forks@), forks@.len(), record_views(records@)) {
            None => r is Ok,
            Some(e) => r matches Err(error) && error@ == e,
        },
{
    let ghost views = fork_views(forks@);
    let ghost recs = record_views(records@);
    let mut i: usize = 0;
    while i < forks.len()
        invariant
            i <= forks@.len(),
            views == fork_views(forks@),
            recs == record_views(records@),
            forks_error(views, i as nat, recs) is None,
        decreases forks@.len() - i,
    {
        let fork = &forks[i];
        proof {
            assert(views[i as int] == fork@);
            assert(views.take(forks@.len() as int) =~= views);
            if forks_error(views, (i + 1) as nat, recs) is Some {
                lemma_forks_error_first(views, (i + 1) as nat, forks@.len(), recs);
            }
        }
        if find_fork(forks, i, fork.child_stream.as_str()).is_some() {
            return Err(
                SalamanderError::Migration(join2("multiple legacy fork markers target stream ", fork.child_stream.as_str())),
            );
        }
        if fork.source_fork_position > records.len() as u64 || fork.source_fork_position > fork.marker_position {
            return Err(
                SalamanderError::Migration(
                    join4(
                        "invalid fork position ",
                        decimal_string(fork.source_fork_position).as_str(),
                        " for marker at ",
                        decimal_string(fork.marker_position).as_str(),
                    ),
                ),
            );
        }
        if find_fork(forks, forks.len(), fork.parent_stream.as_str()).is_some() && find_fork(
            forks,
            i,
            fork.parent_stream.as_str(),
        ).is_none() {
            return Err(SalamanderError::Migration("legacy branch ancestry is not topological".to_owned()));
        }
        let at: usize = fork.source_fork_position as usize;
        if at > 0 && at < records.len() {
            assert(recs[at - 1] == records@[at - 1]@ && recs[at as int] == records@[at as int]@);
            if records[at - 1].envelope.batch_id == records[at].envelope.batch_id {
                return Err(
                    SalamanderError::Migration(
                        join3(
                            "legacy fork position ",
                            decimal_string(fork.source_fork_position).as_str(),
                            " splits a batch",
                        ),
                    ),
                );
            }
        }
        i = i + 1;
    }
    Ok(())
}

/// How many markers lie below a position.
pub open spec fn markers_below(forks: Seq<ForkView>, position: int) -> nat
    decreases forks.len(),
{
    if forks.len() == 0 {
        0
    } else if forks.last().marker < position {
        markers_below(forks.drop_last(), position) + 1
    } else {
        markers_below(forks.drop_last(), position)
    }
}

proof fn lemma_markers_below(forks: Seq<ForkView>, position: int)
    requires
        markers_ascend(forks),
        position >= 0,
    ensures
        markers_below(forks, position) <= position,
        markers_below(forks, position) <= forks.len(),
        forks.len() > 0 ==> markers_below(forks, position) <= forks.last().marker + 1,
    decreases forks.len(),
{
    if forks.len() > 0 {
        let front = forks.drop_last();
        assert(markers_ascend(front)) by {
            assert forall|i: int, j: int| 0 <= i < j < front.len() implies (#[trigger] front[i]).marker < (#[trigger] front[j]).marker by {
                assert(front[i] == forks[i] && front[j] == forks[j]);
            }
        }
        lemma_markers_below(front, position);
        if front.len() > 0 {
            assert(forks[forks.len() - 2].marker < forks[forks.len() - 1].marker);
        }
    }
}

/// Where a position lies once the markers are gone.
pub open spec fn moved(forks: Seq<ForkView>, position: u64) -> u64 {
    (position - markers_below(forks, position as int)) as u64
}

/// Where a position lies once the markers are gone.
pub fn destination_position(source_position: u64, forks: &Vec<LegacyFork>) -> (r: u64)
    requires
        markers_ascend(fork_views(forks@)),
    ensures
        r == moved(fork_views(forks@), source_position),
        r <= source_position,
{
    let ghost views = fork_views(forks@);
    let mut below: u64 = 0;
    let mut i: usize = 0;
    assert(views.take(0) =~= Seq::empty());
    while i < forks.len()
        invariant
            i <= forks@.len(),
            below <= i,
            views == fork_views(forks@),
            below == markers_below(views.take(i as int), source_position as int),
        decreases forks@.len() - i,
    {
        proof {
            let upto = views.take(i + 1);
            assert(upto.drop_last() =~= views.take(i as int));
            assert(upto.last() == forks@[i as int]@);
        }
        if forks[i].marker_position < source_position {
            below = below + 1;
        }
        i = i + 1;
    }
    proof {
        assert(views.take(i as int) =~= views);
        lemma_markers_below(views, source_position as int);
    }
    source_position - below
}

/// The stream that a stream continues: itself, or what the parent of its fork
/// continues.
pub open spec fn canonical(forks: Seq<ForkView>, stream: Seq<char>) -> Seq<char>
    decreases forks.len(),
{
    match fork_named(forks, stream) {
        None => stream,
        Some(i) => if 0 <= i < forks.len() {
            canonical(forks.take(i), forks[i].parent)
        } else {
            stream
        },
    }
}

/// The branch that the events of a stream belong to.
pub open spec fn branch_of(forks: Seq<ForkView>, stream: Seq<char>) -> Seq<u8> {
    match fork_named(forks, stream) {
        None => zero16(),
        Some(i) => forks[i].id,
    }
}

/// The branch that the fork at `i` becomes.
pub open spec fn branch_at(forks: Seq<ForkView>, i: int) -> BranchView {
    let fork = forks[i];
    let earlier = forks.take(i);
    BranchView {
        id: fork.id,
        name: fork.child,
        parent: Some(branch_of(earlier, fork.parent)),
        fork_position: Some(moved(forks, fork.at)),
        created: fork.created,
        metadata: inserted(
            inserted(MetadataView::empty(), "salamander.legacy_stream"@, encode_utf8(fork.child)),
            "session_stream"@,
            encode_utf8(canonical(earlier, fork.parent)),
        ),
        status: BranchStatus::Active,
    }
}

/// The branches that the first `n` forks become, or why the first of them that
/// cannot has no name.
pub open spec fn branches_of(forks: Seq<ForkView>, n: nat) -> core::result::Result<Seq<BranchView>, ErrorView>
    decreases n,
{
    if n == 0 {
        Ok(Seq::empty())
    } else {
        match branches_of(forks, (n - 1) as nat) {
            Err(e) => Err(e),
            Ok(branches) => match branch_name_error(forks[n - 1].child) {
                Some(e) => Err(e),
                None => Ok(branches.push(branch_at(forks, n - 1))),
            },
        }
    }
}

proof fn lemma_branches_error(forks: Seq<ForkView>, i: nat, n: nat)
    requires
        i <= n,
        branches_of(forks, i) is Err,
    ensures
        branches_of(forks, n) == branches_of(forks, i),
    decreases n,
{
    if i < n {
        lemma_branches_error(forks, i, (n - 1) as nat);
    }
}

fn stem_of(forks: &Vec<LegacyFork>, stems: &Vec<String>, upto: usize, stream: &str) -> (r: String)
    requires
        upto <= forks@.len(),
        upto <= stems@.len(),
        forall|j: int|
            0 <= j < upto ==> (#[trigger] stems@[j])@ == canonical(fork_views(forks@).take(j), fork_views(forks@)[j].parent),
    ensures
        r@ == canonical(fork_views(forks@).take(upto as int), stream@),
{
    let ghost views = fork_views(forks@);
    let ghost earlier = views.take(upto as int);
    match find_fork(forks, upto, stream) {
        None => stream.to_owned(),
        Some(j) => {
            assert(earlier.take(j as int) =~= views.take(j as int));
            assert(earlier[j as int] == views[j as int]);
            stems[j].clone()
        },
    }
}

fn branch_id_of(forks: &Vec<LegacyFork>, upto: usize, stream: &str) -> (r: BranchId)
    requires
        upto <= forks@.len(),
    ensures
        r@ == branch_of(fork_views(forks@).take(upto as int), stream@),
{
    match find_fork(forks, upto, stream) {
        None => BranchId::zero(),
        Some(j) => forks[j].id,
    }
}

fn find_stems(forks: &Vec<LegacyFork>) -> (stems: Vec<String>)
    ensures
        stems@.len() == forks@.len(),
        forall|j: int|
            0 <= j < forks@.len() ==> (#[trigger] stems@[j])@ == canonical(fork_views(forks@).take(j), fork_views(forks@)[j].parent),
{
    let mut stems: Vec<String> = Vec::new();
    let mut i: usize = 0;
    while i < forks.len()
        invariant
            i <= forks@.len(),
            stems@.len() == i,
            forall|j: int|
                0 <= j < i ==> (#[trigger] stems@[j])@ == canonical(fork_views(forks@).take(j), fork_views(forks@)[j].parent),
        decreases forks@.len() - i,
    {
        let stem = stem_of(forks, &stems, i, forks[i].parent_stream.as_str());
        assert(fork_views(forks@)[i as int] == forks@[i as int]@);
        stems.push(stem);
        i = i + 1;
    }
    stems
}

/// The branches that forks become.
pub fn plan_branches(forks: &Vec<LegacyFork>) -> (r: Result<Vec<BranchInfo>>)
    requires
        markers_ascend(fork_views(forks@)),
    ensures
        match branches_of(fork_views(forks@), forks@.len()) {
            Ok(branches) => r matches Ok(out) && branch_views(out@) == branches,
            Err(e) => r matches Err(error) && error@ == e,
        },
{
    let ghost views = fork_views(forks@);
    let stems = find_stems(forks);
    let mut branches: Vec<BranchInfo> = Vec::new();
    let mut i: usize = 0;
    assert(branch_views(branches@) =~= Seq::empty());
    while i < forks.len()
        invariant
            i <= forks@.len(),
            views == fork_views(forks@),
            markers_ascend(views),
            stems@.len() == forks@.len(),
            forall|j: int| 0 <= j < forks@.len() ==> (#[trigger] stems@[j])@ == canonical(views.take(j), views[j].parent),
            branches_of(views, i as nat) == Ok::<Seq<BranchView>, ErrorView>(branch_views(branches@)),
        decreases forks@.len() - i,
    {
        let fork = &forks[i];
        proof {
            assert(views[i as int] == fork@);
            if branches_of(views, (i + 1) as nat) is Err {
                lemma_branches_error(views, (i + 1) as nat, forks@.len());
            }
        }
        let parent = branch_id_of(forks, i, fork.parent_stream.as_str());
        let fork_position: u64 = destination_position(fork.source_fork_position, forks);
        let mut metadata = Metadata::new();
        let _ = metadata.insert(
            "salamander.legacy_stream".to_owned(),
            vstd::slice::slice_to_vec(fork.child_stream.as_str().as_bytes()),
        );
        let _ = metadata.insert("session_stream".to_owned(), vstd::slice::slice_to_vec(stems[i].as_str().as_bytes()));
        let name = match BranchName::new(fork.child_stream.as_str()) {
            Ok(name) => name,
            Err(e) => return Err(e),
        };
        let info = BranchInfo {
            id: fork.id,
            name,
            parent: Some(parent),
            fork_position: Some(fork_position),
            created_at_unix_nanos: fork.created_at_unix_nanos,
            metadata,
            status: BranchStatus::Active,
        };
        let ghost before = branch_views(branches@);
        let ghost added = info@;
        assert(added =~= branch_at(views, i as int));
        branches.push(info);
        assert(branch_views(branches@) =~= before.push(added));
        i = i + 1;
    }
    Ok(branches)
}

/// The envelope of the record that tells of a new branch.
pub fn creation_envelope(database: DatabaseId, info: &BranchInfo) -> (r: Result<RecordEnvelopeV2>)
    ensures
        r matches Ok(env) && env@ == branch_envelope(
            database@,
            info@.id,
            import_id(info@.id, 0),
            info@.created,
            "salamander.branch.created"@,
        ),
{
    proof {
        reveal_strlit("salamander.branch.created");
        lemma_ascii_event_type("salamander.branch.created"@);
    }
    system_envelope(
        database,
        info.id,
        derive_import_id(info.id.into_bytes(), 0),
        info.created_at_unix_nanos,
        "salamander.branch.created",
    )
}

/// Whether a position is that of a marker.
pub open spec fn is_marker(forks: Seq<ForkView>, position: u64) -> bool {
    exists|i: int| 0 <= i < forks.len() && (#[trigger] forks[i]).marker == position
}

/// The branch and the stream that a record of a stream moves to.
pub open spec fn place_of(forks: Seq<ForkView>, stream: Seq<char>) -> (Seq<u8>, Seq<char>) {
    (branch_of(forks, stream), canonical(forks, stream))
}

/// Whether a record moves to a stream of a branch.
pub open spec fn moves_to(forks: Seq<ForkView>, record: RecordView, place: (Seq<u8>, Seq<char>)) -> bool {
    !is_marker(forks, record.position) && stream_of(record) is Ok && place_of(forks, stream_of(record)->Ok_0) == place
}

/// How many records move to a stream of a branch.
pub open spec fn moved_count(forks: Seq<ForkView>, records: Seq<RecordView>, place: (Seq<u8>, Seq<char>)) -> nat
    decreases records.len(),
{
    if records.len() == 0 {
        0
    } else if moves_to(forks, records.last(), place) {
        moved_count(forks, records.drop_last(), place) + 1
    } else {
        moved_count(forks, records.drop_last(), place)
    }
}

/// The envelope of a record that moves to a stream of a branch as the event of
/// a revision. It keeps its identity, and is a batch of its own.
pub open spec fn moved_envelope(env: EnvelopeView, database: Seq<u8>, place: (Seq<u8>, Seq<char>), revision: u64) -> EnvelopeView {
    let (branch, stream) = place;
    EnvelopeView {
        database_id: database,
        branch_id: branch,
        stream_id: twin_hash(database + branch + encode_utf8(stream)),
        stream_revision: revision,
        metadata: inserted(env.metadata, "salamander.stream_name"@, encode_utf8(stream)),
        batch_id: env.event_id,
        batch_index: 0,
        ..env
    }
}

/// The events that records become: the markers go, and every other record moves
/// to its branch, where a stream's events are numbered from zero.
pub open spec fn rewritten(records: Seq<RecordView>, forks: Seq<ForkView>, database: Seq<u8>) -> core::result::Result<
    Seq<EventView>,
    ErrorView,
>
    decreases records.len(),
{
    if records.len() == 0 {
        Ok(Seq::empty())
    } else {
        let record = records.last();
        match rewritten(records.drop_last(), forks, database) {
            Err(e) => Err(e),
            Ok(events) => if is_marker(forks, record.position) {
                Ok(events)
            } else {
                match stream_of(record) {
                    Err(e) => Err(e),
                    Ok(stream) => {
                        let place = place_of(forks, stream);
                        let revision = moved_count(forks, records.drop_last(), place) as u64;
                        Ok(events.push((moved_envelope(record.envelope, database, place, revision), record.payload)))
                    },
                }
            },
        }
    }
}

proof fn lemma_rewritten_error(records: Seq<RecordView>, n: int, forks: Seq<ForkView>, database: Seq<u8>)
    requires
        0 <= n <= records.len(),
        rewritten(records.take(n), forks, database) is Err,
    ensures
        rewritten(records, forks, database) == rewritten(records.take(n), forks, database),
    decreases records.len(),
{
    if n == records.len() {
        assert(records.take(n) =~= records);
    } else {
        assert(records.drop_last().take(n) =~= records.take(n));
        lemma_rewritten_error(records.drop_last(), n, forks, database);
    }
}

proof fn lemma_moved_count(forks: Seq<ForkView>, records: Seq<RecordView>, place: (Seq<u8>, Seq<char>))
    ensures
        moved_count(forks, records, place) <= records.len(),
    decreases records.len(),
{
    if records.len() > 0 {
        lemma_moved_count(forks, records.drop_last(), place);
    }
}

fn marks(forks: &Vec<LegacyFork>, position: u64) -> (r: bool)
    ensures
        r == is_marker(fork_views(forks@), position),
{
    let ghost views = fork_views(forks@);
    let mut i: usize = 0;
    while i < forks.len()
        invariant
            i <= forks@.len(),
            views == fork_views(forks@),
            forall|j: int| 0 <= j < i ==> (#[trigger] views[j]).marker != position,
        decreases forks@.len() - i,
    {
        if forks[i].marker_position == position {
            assert(views[i as int].marker == position);
            return true;
        }
        i = i + 1;
    }
    false
}

/// How many events a stream of a branch has.
struct Tally {
    branch: BranchId,
    stream: String,
    count: u64,
}

impl Tally {
    closed spec fn place(self) -> (Seq<u8>, Seq<char>) {
        (self.branch@, self.stream@)
    }
}

spec fn tallied(tallies: Seq<Tally>, place: (Seq<u8>, Seq<char>)) -> nat
    decreases tallies.len(),
{
    if tallies.len() == 0 {
        0
    } else if tallies.last().place() == place {
        tallies.last().count as nat
    } else {
        tallied(tallies.drop_last(), place)
    }
}

proof fn lemma_tallied(tallies: Seq<Tally>, i: int, place: (Seq<u8>, Seq<char>))
    requires
        0 <= i < tallies.len(),
        tallies[i].place() == place,
        forall|j: int| i < j < tallies.len() ==> (#[trigger] tallies[j]).place() != place,
    ensures
        tallied(tallies, place) == tallies[i].count,
    decreases tallies.len(),
{
    if i < tallies.len() - 1 {
        assert(tallies[tallies.len() - 1].place() != place);
        assert forall|j: int| i < j < tallies.drop_last().len() implies (#[trigger] tallies.drop_last()[j]).place() != place by {
            assert(tallies.drop_last()[j] == tallies[j]);
        }
        lemma_tallied(tallies.drop_last(), i, place);
    }
}

proof fn lemma_not_tallied(tallies: Seq<Tally>, place: (Seq<u8>, Seq<char>))
    requires
        forall|j: int| 0 <= j < tallies.len() ==> (#[trigger] tallies[j]).place() != place,
    ensures
        tallied(tallies, place) == 0,
    decreases tallies.len(),
{
    if tallies.len() > 0 {
        assert(tallies[tallies.len() - 1].place() != place);
        assert forall|j: int| 0 <= j < tallies.drop_last().len() implies (#[trigger] tallies.drop_last()[j]).place() != place by {
            assert(tallies.drop_last()[j] == tallies[j]);
        }
        lemma_not_tallied(tallies.drop_last(), place);
    }
}

proof fn lemma_tally_kept(before: Seq<Tally>, after: Seq<Tally>, i: int, place: (Seq<u8>, Seq<char>))
    requires
        0 <= i < before.len(),
        after.len() == before.len(),
        forall|j: int| 0 <= j < before.len() && j != i ==> #[trigger] after[j] == before[j],
        after[i].place() == before[i].place(),
        before[i].place() != place,
    ensures
        tallied(after, place) == tallied(before, place),
    decreases before.len(),
{
    let n = before.len() - 1;
    if i < n {
        assert(after[n] == before[n]);
        if before[n].place() != place {
            assert forall|j: int| 0 <= j < n && j != i implies #[trigger] after.drop_last()[j] == before.drop_last()[j] by {
                assert(after[j] == before[j]);
            }
            lemma_tally_kept(before.drop_last(), after.drop_last(), i, place);
        }
    } else {
        assert(after.drop_last() =~= before.drop_last());
    }
}

/// Counts one more event of a stream, and says how many came before it.
fn tally(tallies: &mut Vec<Tally>, branch: BranchId, stream: &str) -> (count: u64)
    requires
        tallied(old(tallies)@, (branch@, stream@)) < u64::MAX,
    ensures
        count == tallied(old(tallies)@, (branch@, stream@)),
        tallied(final(tallies)@, (branch@, stream@)) == count + 1,
        forall|other: (Seq<u8>, Seq<char>)|
            other != (branch@, stream@) ==> #[trigger] tallied(final(tallies)@, other) == tallied(old(tallies)@, other),
{
    let ghost place = (branch@, stream@);
    let ghost before = tallies@;
    let mut i: usize = tallies.len();
    while i > 0
        invariant
            i <= tallies@.len(),
            tallies@ == before,
            before == old(tallies)@,
            place == (branch@, stream@),
            tallied(before, place) < u64::MAX,
            forall|j: int| i <= j < before.len() ==> (#[trigger] before[j]).place() != place,
        decreases i,
    {
        if tallies[i - 1].branch == branch && same_text(tallies[i - 1].stream.as_str(), stream) {
            let ghost at = i - 1;
            proof {
                assert(before[at].place() == place);
                lemma_tallied(before, at, place);
            }
            let count: u64 = tallies[i - 1].count;
            let next = Tally { branch, stream: stream.to_owned(), count: count + 1 };
            let ghost added = next;
            tallies.set(i - 1, next);
            proof {
                let after = tallies@;
                assert(after =~= before.update(at, added));
                assert(added.place() == place);
                assert forall|j: int| at < j < after.len() implies (#[trigger] after[j]).place() != place by {
                    assert(after[j] == before[j]);
                }
                lemma_tallied(after, at, place);
                assert forall|other: (Seq<u8>, Seq<char>)| other != place implies #[trigger] tallied(after, other) == tallied(
                    before,
                    other,
                ) by {
                    lemma_tally_kept(before, after, at, other);
                }
            }
            return count;
        }
        assert(before[i - 1].place() != place);
        i = i - 1;
    }
    proof {
        lemma_not_tallied(before, place);
    }
    let next = Tally { branch, stream: stream.to_owned(), count: 1 };
    let ghost added = next;
    tallies.push(next);
    proof {
        assert(tallies@.drop_last() =~= before);
        assert(tallies@.last() == added);
        assert(added.place() == place);
    }
    0
}

/// The events that the records of a database become in another.
#[verifier::rlimit(40)]
pub fn rewrite_records(records: &Vec<OwnedStoredRecord>, forks: &Vec<LegacyFork>, database: DatabaseId) -> (r: Result<
    Vec<(RecordEnvelopeV2, Vec<u8>)>,
>)
    ensures
        match rewritten(record_views(records@), fork_views(forks@), database@) {
            Ok(events) => r matches Ok(out) && event_views(out@) == events,
            Err(e) => r matches Err(error) && error@ == e,
        },
{
    let ghost views = record_views(records@);
    let ghost marked = fork_views(forks@);
    let stems = find_stems(forks);
    let mut tallies: Vec<Tally> = Vec::new();
    let mut events: Vec<(RecordEnvelopeV2, Vec<u8>)> = Vec::new();
    let mut i: usize = 0;
    proof {
        assert(views.take(0) =~= Seq::empty());
        assert(event_views(events@) =~= Seq::empty());
        assert(marked.take(forks@.len() as int) =~= marked);
    }
    while i < records.len()
        invariant
            i <= records@.len(),
            views == record_views(records@),
            marked == fork_views(forks@),
            marked.take(forks@.len() as int) == marked,
            stems@.len() == forks@.len(),
            forall|j: int| 0 <= j < forks@.len() ==> (#[trigger] stems@[j])@ == canonical(marked.take(j), marked[j].parent),
            rewritten(views.take(i as int), marked, database@) == Ok::<Seq<EventView>, ErrorView>(event_views(events@)),
            forall|place: (Seq<u8>, Seq<char>)| #[trigger]
                tallied(tallies@, place) == moved_count(marked, views.take(i as int), place),
        decreases records@.len() - i,
    {
        let record = &records[i];
        let ghost upto = views.take(i + 1);
        proof {
            assert(upto.drop_last() =~= views.take(i as int));
            assert(upto.last() == record@);
            if rewritten(upto, marked, database@) is Err {
                lemma_rewritten_error(views, i + 1, marked, database@);
            }
        }
        if !marks(forks, record.position) {
            let legacy_stream = match record_stream(record) {
                Ok(stream) => stream,
                Err(e) => return Err(e),
            };
            let branch = branch_id_of(forks, forks.len(), legacy_stream.as_str());
            let stream = stem_of(forks, &stems, forks.len(), legacy_stream.as_str());
            let ghost place = (branch@, stream@);
            proof {
                assert(place == place_of(marked, legacy_stream@));
                lemma_moved_count(marked, views.take(i as int), place);
            }
            let ghost counted = tallies@;
            let revision: u64 = tally(&mut tallies, branch, stream.as_str());
            let mut envelope = record.envelope.clone();
            envelope.database_id = database;
            envelope.branch_id = branch;
            envelope.stream_id = derive_stream_id(database, branch, stream.as_str());
            envelope.stream_revision = StreamRevision(revision);
            let _ = envelope.metadata.insert(
                "salamander.stream_name".to_owned(),
                vstd::slice::slice_to_vec(stream.as_str().as_bytes()),
            );
            envelope.batch_id = BatchId::from_bytes(envelope.event_id.into_bytes());
            envelope.batch_index = 0;
            let ghost before = event_views(events@);
            let ghost added = (envelope@, record.payload@);
            assert(added.0 =~= moved_envelope(record@.envelope, database@, place, revision));
            events.push((envelope, crate::bytes::copy_bytes(&record.payload)));
            proof {
                assert(event_views(events@) =~= before.push(added));
                assert forall|other: (Seq<u8>, Seq<char>)| #[trigger] tallied(tallies@, other) == moved_count(marked, upto, other) by {
                    assert(tallied(counted, other) == moved_count(marked, views.take(i as int), other));
                    assert(moves_to(marked, record@, other) <==> other == place);
                }
            }
        } else {
            assert forall|other: (Seq<u8>, Seq<char>)| #[trigger] tallied(tallies@, other) == moved_count(marked, upto, other) by {
                assert(!moves_to(marked, record@, other));
            }
        }
        i = i + 1;
    }
    assert(views.take(i as int) =~= views);
    Ok(events)
}

/// What turning marked forks into branches came to.
pub fn branch_report(records: usize, forks: usize, destination_head: u64) -> (r: BranchMigrationReport)
    ensures
        r == (BranchMigrationReport {
            source_records: records as u64,
            migrated_records: destination_head,
            removed_marker_records: forks as u64,
            branches_created: forks as u64,
            destination_head,
        }),
{
    BranchMigrationReport {
        source_records: records as u64,
        migrated_records: destination_head,
        removed_marker_records: forks as u64,
        branches_created: forks as u64,
        destination_head,
    }
}

/// Whether the position of a record is its place among the records.
pub open spec fn placed(records: Seq<RecordView>) -> bool {
    forall|i: int| 0 <= i < records.len() ==> (#[trigger] records[i]).position == i
}

proof fn lemma_below_next(forks: Seq<ForkView>, position: u64)
    requires
        markers_ascend(forks),
    ensures
        markers_below(forks, position + 1) == markers_below(forks, position as int) + if is_marker(forks, position) {
            1nat
        } else {
            0nat
        },
    decreases forks.len(),
{
    if forks.len() > 0 {
        let front = forks.drop_last();
        let n = forks.len() - 1;
        assert(markers_ascend(front)) by {
            assert forall|i: int, j: int| 0 <= i < j < front.len() implies (#[trigger] front[i]).marker < (#[trigger] front[j]).marker by {
                assert(front[i] == forks[i] && front[j] == forks[j]);
            }
        }
        lemma_below_next(front, position);
        if forks[n].marker == position {
            assert(is_marker(forks, position));
            if is_marker(front, position) {
                let k = choose|k: int| 0 <= k < front.len() && (#[trigger] front[k]).marker == position;
                assert(forks[k].marker < forks[n].marker);
            }
        } else {
            if is_marker(front, position) {
                let k = choose|k: int| 0 <= k < front.len() && (#[trigger] front[k]).marker == position;
                assert(forks[k].marker == position);
            }
            if is_marker(forks, position) {
                let k = choose|k: int| 0 <= k < forks.len() && (#[trigger] forks[k]).marker == position;
                assert(front[k].marker == position);
            }
        }
    }
}

/// A fork keeps what it saw: as many events lie below its position afterwards
/// as records that are no markers lay below it before.
pub proof fn lemma_fork_position_kept(records: Seq<RecordView>, forks: Seq<ForkView>, database: Seq<u8>, position: u64)
    requires
        placed(records),
        markers_ascend(forks),
        position <= records.len(),
    ensures
        rewritten(records.take(position as int), forks, database) matches Ok(events) ==> events.len() == moved(forks, position),
    decreases position,
{
    lemma_markers_below(forks, position as int);
    if position == 0 {
        assert(records.take(0) =~= Seq::empty());
    } else {
        let before = (position - 1) as u64;
        let upto = records.take(position as int);
        assert(upto.drop_last() =~= records.take(before as int));
        assert(upto.last() == records[before as int]);
        assert(records[before as int].position == before);
        lemma_fork_position_kept(records, forks, database, before);
        lemma_below_next(forks, before);
        lemma_markers_below(forks, before as int);
    }
}

/// Branches come after their parents: the parent of each is the default branch
/// or one of those before it.
pub proof fn lemma_parents_first(forks: Seq<ForkView>, i: int)
    requires
        0 <= i < forks.len(),
    ensures
        branch_at(forks, i).parent == Some(zero16()) || exists|j: int|
            0 <= j < i && branch_at(forks, i).parent == Some((#[trigger] branch_at(forks, j)).id),
{
    let earlier = forks.take(i);
    lemma_fork_named(earlier, forks[i].parent);
    if let Some(j) = fork_named(earlier, forks[i].parent) {
        assert(earlier[j] == forks[j]);
        assert(branch_at(forks, j).id == forks[j].id);
    }
}

} // verus!
