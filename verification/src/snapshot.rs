//! Snapshots of projection state: what a file holds, whether it fits the
//! projection that it is meant for, and which ones are kept.
use crate::bytes::{bytes_equal, contains_byte, same16};
use crate::checksum::{crc32c, crc32c_of};
use crate::facade::error::{conflict_error, resource_error, EngineError, EngineErrorView, ErrorCategory};
use crate::facade::heal::{partition_views, QueryState, QueryView};
use crate::facade::projection::{
    cursor_of, partition_cursor_of, CursorView, DescriptorView, PartitionStatus, ProjectionCursor,
    ProjectionDescriptor, ProjectionStatus,
};
use crate::facade::types::opt_text_view;
use crate::sealed::{seal, sealed, unseal, unsealing, SealFault, SealLimits, SEAL_BYTES};
use crate::text::{decimal, decimal_string, hex_string, hex_text, join2, padded, padded_string, same_text};
use vstd::prelude::*;
use vstd::utf8::encode_utf8;

verus! {

/// The first eight bytes of a snapshot, `SLMSNAP1`, as a little-endian number.
pub const SNAPSHOT_MARK: u64 = 0x3150_414e_534d_4c53;

/// The most bytes of a manifest.
pub const MAX_MANIFEST_BYTES: usize = 64 * 1024;

/// The most bytes of a projection's state.
pub const MAX_SNAPSHOT_STATE_BYTES: usize = 64 * 1024 * 1024;

/// What a snapshot is of.
#[derive(Debug, PartialEq, Eq)]
pub struct SnapshotManifest {
    pub format_version: u32,
    pub database_id: [u8; 16],
    pub projection_name: String,
    pub descriptor_fingerprint: [u8; 16],
    pub definition_id: [u8; 16],
    pub definition_version: u32,
    pub branch_id: [u8; 16],
    pub branch_lineage_fingerprint: [u8; 16],
    pub cursor: ProjectionCursor,
    pub state_codec: u32,
    pub state_codec_version: u32,
    pub created_at_unix_nanos: i64,
    pub uncompressed_len: u64,
    pub checksum: u32,
    pub partition: Option<u32>,
    pub partition_scheme_id: Option<String>,
    pub partition_scheme_version: Option<u32>,
    pub partition_count: Option<u32>,
}

/// A manifest as plain values.
#[verifier::ext_equal]
pub struct SnapshotView {
    pub format_version: u32,
    pub database: Seq<u8>,
    pub name: Seq<char>,
    pub fingerprint: Seq<u8>,
    pub definition_id: Seq<u8>,
    pub definition_version: u32,
    pub branch: Seq<u8>,
    pub lineage: Seq<u8>,
    pub cursor: CursorView,
    pub state_codec: u32,
    pub state_codec_version: u32,
    pub created: i64,
    pub length: u64,
    pub checksum: u32,
    pub partition: Option<u32>,
    pub scheme_id: Option<Seq<char>>,
    pub scheme_version: Option<u32>,
    pub partition_count: Option<u32>,
}

impl View for SnapshotManifest {
    type V = SnapshotView;

    open spec fn view(&self) -> SnapshotView {
        SnapshotView {
            format_version: self.format_version,
            database: self.database_id@,
            name: self.projection_name@,
            fingerprint: self.descriptor_fingerprint@,
            definition_id: self.definition_id@,
            definition_version: self.definition_version,
            branch: self.branch_id@,
            lineage: self.branch_lineage_fingerprint@,
            cursor: self.cursor@,
            state_codec: self.state_codec,
            state_codec_version: self.state_codec_version,
            created: self.created_at_unix_nanos,
            length: self.uncompressed_len,
            checksum: self.checksum,
            partition: self.partition,
            scheme_id: opt_text_view(self.partition_scheme_id),
            scheme_version: self.partition_scheme_version,
            partition_count: self.partition_count,
        }
    }
}

/// A snapshot that is stored.
#[derive(Debug, PartialEq, Eq)]
pub struct SnapshotInfo {
    pub id: String,
    pub manifest: SnapshotManifest,
}

/// What a projection expects of a snapshot.
#[derive(Debug)]
pub struct SnapshotExpectation<'a> {
    pub database_id: [u8; 16],
    pub descriptor: &'a ProjectionDescriptor,
    pub descriptor_fingerprint: [u8; 16],
    pub lineage_fingerprint: [u8; 16],
    pub maximum_cursor: u64,
    pub partition: Option<u32>,
}

/// An expectation as plain values.
#[verifier::ext_equal]
pub struct ExpectationView {
    pub database: Seq<u8>,
    pub descriptor: DescriptorView,
    pub fingerprint: Seq<u8>,
    pub lineage: Seq<u8>,
    pub maximum_cursor: u64,
    pub partition: Option<u32>,
}

impl<'a> View for SnapshotExpectation<'a> {
    type V = ExpectationView;

    open spec fn view(&self) -> ExpectationView {
        ExpectationView {
            database: self.database_id@,
            descriptor: self.descriptor@,
            fingerprint: self.descriptor_fingerprint@,
            lineage: self.lineage_fingerprint@,
            maximum_cursor: self.maximum_cursor,
            partition: self.partition,
        }
    }
}

/// Whether a snapshot is of what a projection expects, in every respect.
pub open spec fn fits(m: SnapshotView, e: ExpectationView) -> bool {
    &&& m.format_version == 1 || m.format_version == 2
    &&& m.database == e.database
    &&& m.name == e.descriptor.name
    &&& m.fingerprint == e.fingerprint
    &&& m.definition_id == e.descriptor.definition_id
    &&& m.definition_version == e.descriptor.definition_version
    &&& m.branch == e.descriptor.branch
    &&& m.lineage == e.lineage
    &&& m.cursor.database == e.database
    &&& m.cursor.branch == e.descriptor.branch
    &&& m.cursor.fingerprint == e.fingerprint
    &&& m.cursor.position <= e.maximum_cursor
    &&& m.state_codec == e.descriptor.state_codec
    &&& m.state_codec_version == e.descriptor.state_codec_version
    &&& m.partition == e.partition
    &&& m.partition is Some ==> m.scheme_id == Some(e.descriptor.scheme.scheme_id) && m.scheme_version == Some(
        e.descriptor.scheme.version,
    ) && m.partition_count == Some(e.descriptor.scheme.count)
}

fn same_number(a: Option<u32>, b: Option<u32>) -> (r: bool)
    ensures
        r == (a == b),
{
    match (a, b) {
        (Some(x), Some(y)) => x == y,
        (None, None) => true,
        _ => false,
    }
}

/// Whether a snapshot is of what a projection expects.
pub fn validates(manifest: &SnapshotManifest, expected: &SnapshotExpectation) -> (r: bool)
    ensures
        r == fits(manifest@, expected@),
{
    let d = expected.descriptor;
    let scheme_fits = match manifest.partition {
        None => true,
        Some(_) => (match &manifest.partition_scheme_id {
            Some(id) => same_text(id.as_str(), d.partition_scheme.scheme_id.as_str()),
            None => false,
        }) && same_number(manifest.partition_scheme_version, Some(d.partition_scheme.version)) && same_number(
            manifest.partition_count,
            Some(d.partition_scheme.partition_count),
        ),
    };
    (manifest.format_version == 1 || manifest.format_version == 2) && same16(&manifest.database_id, &expected.database_id) && same_text(
        manifest.projection_name.as_str(),
        d.name.as_str(),
    ) && same16(&manifest.descriptor_fingerprint, &expected.descriptor_fingerprint) && same16(&manifest.definition_id, &d.definition_id)
        && manifest.definition_version == d.definition_version && same16(&manifest.branch_id, &d.scope.branch_id) && same16(
        &manifest.branch_lineage_fingerprint,
        &expected.lineage_fingerprint,
    ) && same16(&manifest.cursor.database_id, &expected.database_id) && same16(&manifest.cursor.branch_id, &d.scope.branch_id) && same16(
        &manifest.cursor.descriptor_fingerprint,
        &expected.descriptor_fingerprint,
    ) && manifest.cursor.position <= expected.maximum_cursor && manifest.state_codec == d.state_codec && manifest.state_codec_version
        == d.state_codec_version && same_number(manifest.partition, expected.partition) && scheme_fits
}

/// The error for a snapshot that is not as it was written.
pub open spec fn corrupt_error(message: Seq<char>) -> EngineErrorView {
    EngineErrorView { category: ErrorCategory::Corruption, code: "snapshot_corrupt"@, message }
}

fn corrupt_snapshot(message: &str) -> (e: EngineError)
    ensures
        e@ == corrupt_error(message@),
{
    EngineError { category: ErrorCategory::Corruption, code: "snapshot_corrupt", message: message.to_owned() }
}

/// The limits of snapshot files.
pub open spec fn snapshot_limits() -> SealLimits {
    SealLimits {
        mark: SNAPSHOT_MARK,
        body: MAX_MANIFEST_BYTES,
        total: (SEAL_BYTES + MAX_MANIFEST_BYTES + MAX_SNAPSHOT_STATE_BYTES) as usize,
        exact: false,
    }
}

/// A snapshot file: the manifest's document, sealed, and the state.
pub fn encode_snapshot(manifest: &[u8], state: &[u8]) -> (r: core::result::Result<Vec<u8>, EngineError>)
    ensures
        state@.len() > MAX_SNAPSHOT_STATE_BYTES ==> (r matches Err(e) && e@ == resource_error(
            "snapshot state"@,
            state@.len() as int,
            MAX_SNAPSHOT_STATE_BYTES as int,
        )),
        state@.len() <= MAX_SNAPSHOT_STATE_BYTES && manifest@.len() > MAX_MANIFEST_BYTES ==> (r matches Err(e) && e@ == resource_error(
            "snapshot manifest"@,
            manifest@.len() as int,
            MAX_MANIFEST_BYTES as int,
        )),
        state@.len() <= MAX_SNAPSHOT_STATE_BYTES && manifest@.len() <= MAX_MANIFEST_BYTES ==> (r matches Ok(out) && out@ == sealed(
            SNAPSHOT_MARK,
            manifest@,
            state@,
        )),
{
    if state.len() > MAX_SNAPSHOT_STATE_BYTES {
        return Err(EngineError::resource("snapshot state", state.len(), MAX_SNAPSHOT_STATE_BYTES));
    }
    if manifest.len() > MAX_MANIFEST_BYTES {
        return Err(EngineError::resource("snapshot manifest", manifest.len(), MAX_MANIFEST_BYTES));
    }
    Ok(seal(SNAPSHOT_MARK, manifest, state))
}

/// What is wrong with a snapshot file.
pub open spec fn snapshot_fault(fault: SealFault) -> Seq<char> {
    match fault {
        SealFault::Length => "snapshot length is invalid"@,
        SealFault::Mark => "snapshot magic is invalid"@,
        SealFault::BodyLength => "snapshot manifest length is invalid"@,
        SealFault::Checksum => "snapshot manifest checksum mismatch"@,
    }
}

/// The length of the manifest's document in a snapshot file.
pub fn open_snapshot(bytes: &[u8]) -> (r: core::result::Result<usize, EngineError>)
    ensures
        match unsealing(snapshot_limits(), bytes@) {
            Ok(n) => r matches Ok(found) && found == n && SEAL_BYTES + found <= bytes.len(),
            Err(fault) => r matches Err(e) && e@ == corrupt_error(snapshot_fault(fault)),
        },
{
    let limits = SealLimits {
        mark: SNAPSHOT_MARK,
        body: MAX_MANIFEST_BYTES,
        total: SEAL_BYTES + MAX_MANIFEST_BYTES + MAX_SNAPSHOT_STATE_BYTES,
        exact: false,
    };
    match unseal(limits, bytes) {
        Ok(n) => Ok(n),
        Err(SealFault::Length) => Err(corrupt_snapshot("snapshot length is invalid")),
        Err(SealFault::Mark) => Err(corrupt_snapshot("snapshot magic is invalid")),
        Err(SealFault::BodyLength) => Err(corrupt_snapshot("snapshot manifest length is invalid")),
        Err(SealFault::Checksum) => Err(corrupt_snapshot("snapshot manifest checksum mismatch")),
    }
}

/// Why a state is not the one that a manifest describes, if it is not.
pub open spec fn state_fault(length: u64, checksum: u32, state: Seq<u8>) -> Option<Seq<char>> {
    if state.len() != length || state.len() > MAX_SNAPSHOT_STATE_BYTES {
        Some("snapshot state length mismatch"@)
    } else if crc32c_of(state) != checksum {
        Some("snapshot checksum mismatch"@)
    } else {
        None
    }
}

/// Checks that a state is the one that a manifest describes.
pub fn check_state(manifest: &SnapshotManifest, state: &[u8]) -> (r: core::result::Result<(), EngineError>)
    ensures
        match state_fault(manifest@.length, manifest@.checksum, state@) {
            None => r is Ok,
            Some(message) => r matches Err(e) && e@ == corrupt_error(message),
        },
{
    if state.len() as u64 != manifest.uncompressed_len || state.len() > MAX_SNAPSHOT_STATE_BYTES {
        return Err(corrupt_snapshot("snapshot state length mismatch"));
    }
    if crc32c(state) != manifest.checksum {
        return Err(corrupt_snapshot("snapshot checksum mismatch"));
    }
    Ok(())
}

/// A number in at least four digits.
pub open spec fn four_digits(n: nat) -> Seq<char> {
    if n < 10_000 {
        padded(n, 10, 4)
    } else {
        decimal(n)
    }
}

/// The name of a snapshot's file.
pub open spec fn snapshot_name(m: SnapshotView) -> Seq<char> {
    let partition = match m.partition {
        Some(p) => p,
        None => 0,
    };
    hex_text(m.fingerprint) + "-p"@ + four_digits(partition as nat) + "-"@ + padded(m.cursor.position as nat, 10, 20) + "-"@ + padded(
        #[verifier::truncate] (m.created as u64) as nat,
        16,
        16,
    ) + ".snap"@
}

/// The name of a snapshot's file.
pub fn snapshot_id(manifest: &SnapshotManifest) -> (r: String)
    ensures
        r@ == snapshot_name(manifest@),
{
    let partition: u32 = match manifest.partition {
        Some(p) => p,
        None => 0,
    };
    let digits = if partition < 10_000 {
        padded_string(partition as u64, 10, 4)
    } else {
        decimal_string(partition as u64)
    };
    let created: u64 = #[verifier::truncate] (manifest.created_at_unix_nanos as u64);
    let mut id = join2(hex_string(&manifest.descriptor_fingerprint).as_str(), "-p");
    id.append(digits.as_str());
    id.append("-");
    id.append(padded_string(manifest.cursor.position, 10, 20).as_str());
    id.append("-");
    id.append(padded_string(created, 16, 16).as_str());
    id.append(".snap");
    id
}

/// Whether a name can be that of a snapshot's file in the snapshot directory.
pub open spec fn snapshot_id_valid(id: Seq<char>) -> bool {
    let bytes = encode_utf8(id);
    let suffix = encode_utf8(".snap"@);
    &&& suffix.len() <= bytes.len()
    &&& bytes.skip(bytes.len() - suffix.len()) == suffix
    &&& !bytes.contains(0x2fu8)
    &&& !bytes.contains(0x5cu8)
}

/// Checks that a name can be that of a snapshot's file.
pub fn validate_id(id: &str) -> (r: core::result::Result<(), EngineError>)
    ensures
        r is Ok <==> snapshot_id_valid(id@),
        r matches Err(e) ==> e@ == (EngineErrorView {
            category: ErrorCategory::Internal,
            code: "snapshot_internal"@,
            message: "invalid snapshot id"@,
        }),
{
    let bytes = id.as_bytes();
    let suffix = ".snap".as_bytes();
    if suffix.len() <= bytes.len() {
        let tail = vstd::slice::slice_subrange(bytes, bytes.len() - suffix.len(), bytes.len());
        assert(tail@ =~= bytes@.skip(bytes@.len() - suffix@.len()));
        if bytes_equal(tail, suffix) && !contains_byte(bytes, 0x2f) && !contains_byte(bytes, 0x5c) {
            return Ok(());
        }
    }
    Err(EngineError { category: ErrorCategory::Internal, code: "snapshot_internal", message: "invalid snapshot id".to_owned() })
}

/// A stored snapshot as plain values.
pub type InfoView = (Seq<char>, SnapshotView);

impl View for SnapshotInfo {
    type V = InfoView;

    open spec fn view(&self) -> InfoView {
        (self.id@, self.manifest@)
    }
}

/// The snapshots of a list as plain values.
pub open spec fn info_views(items: Seq<SnapshotInfo>) -> Seq<InfoView> {
    Seq::new(items.len(), |i: int| items[i]@)
}

/// Whether a snapshot is older than another: it reaches less far, or as far and
/// was made earlier.
pub open spec fn older(a: InfoView, b: InfoView) -> bool {
    a.1.cursor.position < b.1.cursor.position || (a.1.cursor.position == b.1.cursor.position && a.1.created < b.1.created)
}

/// Snapshots, newest first, with one more, which goes behind those that are not
/// older.
pub open spec fn info_inserted(items: Seq<InfoView>, x: InfoView) -> Seq<InfoView>
    decreases items.len(),
{
    if items.len() == 0 {
        seq![x]
    } else if older(items.last(), x) {
        info_inserted(items.drop_last(), x).push(items.last())
    } else {
        items.push(x)
    }
}

/// The snapshots of a projection, newest first.
pub open spec fn listed(items: Seq<InfoView>, fingerprint: Seq<u8>) -> Seq<InfoView>
    decreases items.len(),
{
    if items.len() == 0 {
        Seq::empty()
    } else {
        let before = listed(items.drop_last(), fingerprint);
        if items.last().1.fingerprint == fingerprint {
            info_inserted(before, items.last())
        } else {
            before
        }
    }
}

/// Whether snapshots stand newest first.
pub open spec fn newest_first(items: Seq<InfoView>) -> bool {
    forall|i: int, j: int| 0 <= i < j < items.len() ==> !older(#[trigger] items[i], #[trigger] items[j])
}

proof fn lemma_info_inserted(items: Seq<InfoView>, x: InfoView)
    requires
        newest_first(items),
    ensures
        newest_first(info_inserted(items, x)),
        info_inserted(items, x).to_multiset() == items.to_multiset().insert(x),
        forall|y: InfoView| #[trigger] info_inserted(items, x).contains(y) ==> y == x || items.contains(y),
        info_inserted(items, x).len() == items.len() + 1,
    decreases items.len(),
{
    broadcast use vstd::seq_lib::group_to_multiset_ensures;

    let out = info_inserted(items, x);
    if items.len() == 0 {
        assert(out =~= Seq::<InfoView>::empty().push(x));
        assert(items =~= Seq::<InfoView>::empty());
        assert(out[0] == x);
    } else if older(items.last(), x) {
        let shorter = items.drop_last();
        let last = items.last();
        assert(newest_first(shorter)) by {
            assert forall|i: int, j: int| 0 <= i < j < shorter.len() implies !older(#[trigger] shorter[i], #[trigger] shorter[j]) by {
                assert(shorter[i] == items[i] && shorter[j] == items[j]);
            }
        }
        lemma_info_inserted(shorter, x);
        let inner = info_inserted(shorter, x);
        assert(items =~= shorter.push(last));
        assert forall|i: int, j: int| 0 <= i < j < out.len() implies !older(#[trigger] out[i], #[trigger] out[j]) by {
            if j == out.len() - 1 {
                assert(inner.contains(inner[i]));
                if inner[i] != x {
                    let k = shorter.index_of(inner[i]);
                    assert(!older(items[k], items[items.len() - 1]));
                }
            } else {
                assert(out[i] == inner[i] && out[j] == inner[j]);
            }
        }
        assert forall|y: InfoView| #[trigger] out.contains(y) implies y == x || items.contains(y) by {
            let i = out.index_of(y);
            if i < inner.len() {
                assert(inner.contains(inner[i]));
                if y != x {
                    assert(items[shorter.index_of(y)] == y);
                }
            } else {
                assert(items[items.len() - 1] == y);
            }
        }
    } else {
        assert forall|i: int, j: int| 0 <= i < j < out.len() implies !older(#[trigger] out[i], #[trigger] out[j]) by {
            if j == out.len() - 1 && i < items.len() - 1 {
                assert(!older(items[i], items[items.len() - 1]));
            } else if j < items.len() {
                assert(out[i] == items[i] && out[j] == items[j]);
            }
        }
        assert forall|y: InfoView| #[trigger] out.contains(y) implies y == x || items.contains(y) by {
            let i = out.index_of(y);
            if i < items.len() {
                assert(items[i] == y);
            }
        }
    }
}

/// The snapshots of a projection are listed newest first, each as often as it
/// is stored.
pub proof fn lemma_listed(items: Seq<InfoView>, fingerprint: Seq<u8>)
    ensures
        newest_first(listed(items, fingerprint)),
        listed(items, fingerprint).to_multiset() == items.filter(|x: InfoView| x.1.fingerprint == fingerprint).to_multiset(),
    decreases items.len(),
{
    reveal(Seq::filter);
    broadcast use vstd::seq_lib::group_to_multiset_ensures;

    let keep = |x: InfoView| x.1.fingerprint == fingerprint;
    if items.len() > 0 {
        lemma_listed(items.drop_last(), fingerprint);
        if keep(items.last()) {
            lemma_info_inserted(listed(items.drop_last(), fingerprint), items.last());
        }
    } else {
        assert(items.filter(keep) =~= Seq::<InfoView>::empty());
        assert(listed(items, fingerprint) =~= Seq::<InfoView>::empty());
    }
}

fn insert_info(items: &mut Vec<SnapshotInfo>, x: SnapshotInfo)
    ensures
        info_views(final(items)@) == info_inserted(info_views(old(items)@), x@),
    decreases old(items)@.len(),
{
    let ghost before = info_views(items@);
    let n: usize = items.len();
    if n > 0 {
        assert(before.last() == items@.last()@);
        let last_position: u64 = items[n - 1].manifest.cursor.position;
        let last_created: i64 = items[n - 1].manifest.created_at_unix_nanos;
        let position: u64 = x.manifest.cursor.position;
        if last_position < position || (last_position == position && last_created < x.manifest.created_at_unix_nanos) {
            let ghost xv = x@;
            match items.pop() {
                Some(last) => {
                    assert(info_views(items@) =~= before.drop_last());
                    insert_info(items, x);
                    let ghost inner = info_views(items@);
                    items.push(last);
                    assert(info_views(items@) =~= inner.push(before.last()));
                },
                None => {},
            }
            return;
        }
    }
    items.push(x);
    assert(info_views(items@) =~= before.push(x@));
}

/// The snapshots of a projection, newest first.
pub fn list_snapshots(items: Vec<SnapshotInfo>, fingerprint: &[u8; 16]) -> (r: Vec<SnapshotInfo>)
    ensures
        info_views(r@) == listed(info_views(items@), fingerprint@),
{
    let ghost all = info_views(items@);
    let mut items = items;
    let mut reversed: Vec<SnapshotInfo> = Vec::new();
    while items.len() > 0
        invariant
            items@.len() + reversed@.len() == all.len(),
            info_views(items@) == all.take(items@.len() as int),
            forall|k: int| 0 <= k < reversed@.len() ==> (#[trigger] reversed@[k])@ == all[all.len() - 1 - k],
        decreases items@.len(),
    {
        let ghost n = items@.len();
        assert(info_views(items@)[n - 1] == items@[n - 1]@);
        assert(all.take(n as int)[n - 1] == all[n - 1]);
        match items.pop() {
            Some(item) => {
                reversed.push(item);
            },
            None => {},
        }
        assert(info_views(items@) =~= all.take(n - 1));
    }
    let mut out: Vec<SnapshotInfo> = Vec::new();
    assert(all.take(0) =~= Seq::empty());
    assert(info_views(out@) =~= Seq::empty());
    while reversed.len() > 0
        invariant
            reversed@.len() <= all.len(),
            forall|k: int| 0 <= k < reversed@.len() ==> (#[trigger] reversed@[k])@ == all[all.len() - 1 - k],
            info_views(out@) == listed(all.take(all.len() - reversed@.len()), fingerprint@),
        decreases reversed@.len(),
    {
        let ghost done = all.len() - reversed@.len();
        assert(reversed@[reversed@.len() - 1]@ == all[done]);
        assert(all.take(done + 1).last() == all[done]);
        assert(all.take(done + 1).drop_last() =~= all.take(done));
        match reversed.pop() {
            Some(item) => {
                if same16(&item.manifest.descriptor_fingerprint, fingerprint) {
                    insert_info(&mut out, item);
                }
            },
            None => {},
        }
    }
    assert(all.take(all.len() as int) =~= all);
    out
}

/// The names of the snapshots of a partition that are not among its two newest.
pub open spec fn surplus(items: Seq<InfoView>, partition: Option<u32>) -> Seq<Seq<char>>
    decreases items.len(),
{
    if items.len() == 0 {
        Seq::empty()
    } else {
        let before = surplus(items.drop_last(), partition);
        if items.last().1.partition == partition && of_partition(items.drop_last(), partition) >= 2 {
            before.push(items.last().0)
        } else {
            before
        }
    }
}

/// How many snapshots are of a partition.
pub open spec fn of_partition(items: Seq<InfoView>, partition: Option<u32>) -> nat
    decreases items.len(),
{
    if items.len() == 0 {
        0
    } else if items.last().1.partition == partition {
        of_partition(items.drop_last(), partition) + 1
    } else {
        of_partition(items.drop_last(), partition)
    }
}

/// Which of a projection's snapshots, listed newest first, are let go: all but
/// the two newest of the partition.
pub fn surplus_snapshots(items: &Vec<SnapshotInfo>, partition: Option<u32>) -> (r: Vec<String>)
    ensures
        crate::log::store::text_views(r@) == surplus(info_views(items@), partition),
{
    let ghost all = info_views(items@);
    let mut out: Vec<String> = Vec::new();
    let mut seen: usize = 0;
    let mut i: usize = 0;
    assert(all.take(0) =~= Seq::empty());
    assert(crate::log::store::text_views(out@) =~= Seq::empty());
    while i < items.len()
        invariant
            i <= items@.len(),
            all == info_views(items@),
            seen == of_partition(all.take(i as int), partition),
            seen <= i,
            crate::log::store::text_views(out@) == surplus(all.take(i as int), partition),
        decreases items@.len() - i,
    {
        assert(all[i as int] == items@[i as int]@);
        assert(all.take(i + 1).last() == all[i as int]);
        assert(all.take(i + 1).drop_last() =~= all.take(i as int));
        if same_number(items[i].manifest.partition, partition) {
            if seen >= 2 {
                let ghost before = crate::log::store::text_views(out@);
                out.push(items[i].id.clone());
                assert(crate::log::store::text_views(out@) =~= before.push(all[i as int].0));
            }
            seen = seen + 1;
        }
        i = i + 1;
    }
    assert(all.take(i as int) =~= all);
    out
}

/// The cursor of a snapshot of a whole projection, which must be ready.
pub fn snapshot_cursor(query: &QueryState) -> (r: core::result::Result<ProjectionCursor, EngineError>)
    ensures
        r is Ok <==> query@.status is Ready,
        r matches Ok(cursor) ==> cursor@ == cursor_of(query@.status),
        r matches Err(e) ==> e@ == conflict_error("projection_not_ready"@, "only a ready projection can be snapshotted"@),
{
    match query.status() {
        ProjectionStatus::Ready { cursor } => Ok(*cursor),
        _ => Err(EngineError::conflict("projection_not_ready", "only a ready projection can be snapshotted")),
    }
}

/// The cursor of a snapshot of one partition, which must be ready.
pub fn partition_snapshot_cursor(query: &QueryState, partition: u32) -> (r: core::result::Result<ProjectionCursor, EngineError>)
    requires
        partition < query@.partitions.len(),
    ensures
        r is Ok <==> query@.partitions[partition as int] is Ready,
        r matches Ok(cursor) ==> cursor@ == partition_cursor_of(query@.partitions[partition as int]),
        r matches Err(e) ==> e@ == conflict_error("partition_not_ready"@, "only a ready partition can be snapshotted"@),
{
    let statuses = query.partitions();
    assert(partition_views(statuses@)[partition as int] == statuses@[partition as int]@);
    match &statuses[partition as usize] {
        PartitionStatus::Ready { cursor } => Ok(*cursor),
        _ => Err(EngineError::conflict("partition_not_ready", "only a ready partition can be snapshotted")),
    }
}

/// The manifest of a snapshot of a projection, or of one of its partitions.
pub open spec fn manifest_of(
    q: QueryView,
    cursor: CursorView,
    lineage: Seq<u8>,
    partition: Option<u32>,
    created: i64,
    state: Seq<u8>,
) -> SnapshotView {
    let d = q.descriptor;
    SnapshotView {
        format_version: if partition is Some {
            2
        } else {
            1
        },
        database: q.database,
        name: d.name,
        fingerprint: q.fingerprint,
        definition_id: d.definition_id,
        definition_version: d.definition_version,
        branch: d.branch,
        lineage,
        cursor,
        state_codec: d.state_codec,
        state_codec_version: d.state_codec_version,
        created,
        length: state.len() as u64,
        checksum: crc32c_of(state),
        partition,
        scheme_id: if partition is Some {
            Some(d.scheme.scheme_id)
        } else {
            None
        },
        scheme_version: if partition is Some {
            Some(d.scheme.version)
        } else {
            None
        },
        partition_count: if partition is Some {
            Some(q.partitions.len() as u32)
        } else {
            None
        },
    }
}

/// The manifest of a snapshot of a projection, or of one of its partitions.
pub fn snapshot_manifest(
    query: &QueryState,
    cursor: ProjectionCursor,
    lineage: [u8; 16],
    partition: Option<u32>,
    created_at_unix_nanos: i64,
    state: &[u8],
) -> (r: core::result::Result<SnapshotManifest, EngineError>)
    requires
        query@.partitions.len() <= u32::MAX,
    ensures
        state@.len() > MAX_SNAPSHOT_STATE_BYTES ==> (r matches Err(e) && e@ == resource_error(
            "snapshot state"@,
            state@.len() as int,
            MAX_SNAPSHOT_STATE_BYTES as int,
        )),
        state@.len() <= MAX_SNAPSHOT_STATE_BYTES ==> (r matches Ok(m) && m@ == manifest_of(
            query@,
            cursor@,
            lineage@,
            partition,
            created_at_unix_nanos,
            state@,
        )),
{
    if state.len() > MAX_SNAPSHOT_STATE_BYTES {
        return Err(EngineError::resource("snapshot state", state.len(), MAX_SNAPSHOT_STATE_BYTES));
    }
    let d = query.descriptor();
    let (format_version, scheme_id, scheme_version, count): (u32, Option<String>, Option<u32>, Option<u32>) = match partition {
        Some(_) => (
            2,
            Some(d.partition_scheme.scheme_id.clone()),
            Some(d.partition_scheme.version),
            Some(query.partitions().len() as u32),
        ),
        None => (1, None, None, None),
    };
    let manifest = SnapshotManifest {
        format_version,
        database_id: query.database(),
        projection_name: d.name.clone(),
        descriptor_fingerprint: query.fingerprint(),
        definition_id: d.definition_id,
        definition_version: d.definition_version,
        branch_id: d.scope.branch_id,
        branch_lineage_fingerprint: lineage,
        cursor,
        state_codec: d.state_codec,
        state_codec_version: d.state_codec_version,
        created_at_unix_nanos,
        uncompressed_len: state.len() as u64,
        checksum: crc32c(state),
        partition,
        partition_scheme_id: scheme_id,
        partition_scheme_version: scheme_version,
        partition_count: count,
    };
    assert(manifest@ =~= manifest_of(query@, cursor@, lineage@, partition, created_at_unix_nanos, state@));
    Ok(manifest)
}

/// A snapshot that was made of a projection fits it afterwards, on the same
/// line of ancestry, as long as the log still reaches that far; and its state is
/// found to be whole.
pub proof fn lemma_snapshot_fits(
    q: QueryView,
    cursor: CursorView,
    lineage: Seq<u8>,
    partition: Option<u32>,
    created: i64,
    state: Seq<u8>,
    head: u64,
)
    requires
        cursor == crate::facade::heal::cursor_at(q, cursor.position),
        cursor.position <= head,
        state.len() <= MAX_SNAPSHOT_STATE_BYTES,
        q.partitions.len() == q.descriptor.scheme.count,
    ensures
        ({
            let m = manifest_of(q, cursor, lineage, partition, created, state);
            let expected = ExpectationView {
                database: q.database,
                descriptor: q.descriptor,
                fingerprint: q.fingerprint,
                lineage,
                maximum_cursor: head,
                partition,
            };
            &&& fits(m, expected)
            &&& state_fault(m.length, m.checksum, state) is None
        }),
{
}

} // verus!
