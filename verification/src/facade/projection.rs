//! Projections across the service boundary: what they select, how far each has
//! come, and what it takes to bring one up to date.
use crate::branch::{branch_views, BranchInfo, BranchView};
use crate::bytes::{put, put_u64, same16, zero16};
use crate::facade::page::{stream_wanted, wants_stream};
use crate::facade::query::{FailureView, ProjectionFailure};
use crate::facade::types::{opt_text_view, RecordDto, RecordDtoView};
use crate::format::derive::{twin_hash, TwinHasher};
use crate::format::ids::JSON_UTF8;
use crate::text::same_text;
use vstd::bytes::spec_u64_to_le_bytes;
use vstd::prelude::*;
use vstd::utf8::encode_utf8;

verus! {

/// The sixteen bytes that stand for `bytes`.
pub fn fingerprint(bytes: &[u8]) -> (r: [u8; 16])
    ensures
        r@ == twin_hash(bytes@),
{
    let mut hasher = TwinHasher::new();
    hasher.absorb(bytes);
    assert(Seq::<u8>::empty() + bytes@ =~= bytes@);
    hasher.finish()
}

/// What a line of ancestry is hashed from: each branch's identity and where it
/// left its parent.
pub open spec fn lineage_bytes(line: Seq<BranchView>) -> Seq<u8>
    decreases line.len(),
{
    if line.len() == 0 {
        Seq::empty()
    } else {
        let fork = match line.last().fork_position {
            Some(position) => position,
            None => u64::MAX,
        };
        lineage_bytes(line.drop_last()) + line.last().id + spec_u64_to_le_bytes(fork)
    }
}

/// The sixteen bytes that stand for a line of ancestry.
pub fn lineage_fingerprint(line: &Vec<BranchInfo>) -> (r: [u8; 16])
    ensures
        r@ == twin_hash(lineage_bytes(branch_views(line@))),
{
    let ghost views = branch_views(line@);
    let mut bytes: Vec<u8> = Vec::new();
    let mut i: usize = 0;
    assert(views.take(0) =~= Seq::empty());
    while i < line.len()
        invariant
            i <= line@.len(),
            views == branch_views(line@),
            bytes@ == lineage_bytes(views.take(i as int)),
        decreases line@.len() - i,
    {
        assert(views.take(i + 1).drop_last() =~= views.take(i as int));
        assert(views.take(i + 1).last() == line@[i as int]@);
        put(&mut bytes, line[i].id.as_bytes());
        match line[i].fork_position {
            Some(position) => put_u64(&mut bytes, position),
            None => put_u64(&mut bytes, u64::MAX),
        }
        i = i + 1;
    }
    assert(views.take(i as int) =~= views);
    fingerprint(bytes.as_slice())
}

/// A type of events, in a range of schema versions.
#[derive(Debug, PartialEq, Eq)]
pub struct InputType {
    pub event_type: String,
    pub min_schema_version: u32,
    pub max_schema_version: u32,
}

/// A type of events as plain values.
#[verifier::ext_equal]
pub struct InputView {
    pub event_type: Seq<char>,
    pub min: u32,
    pub max: u32,
}

impl View for InputType {
    type V = InputView;

    open spec fn view(&self) -> InputView {
        InputView { event_type: self.event_type@, min: self.min_schema_version, max: self.max_schema_version }
    }
}

/// The branch, and perhaps the one stream, that a projection reads.
#[derive(Debug, PartialEq, Eq)]
pub struct ProjectionScope {
    pub branch_id: [u8; 16],
    pub stream: Option<String>,
}

impl Default for ProjectionScope {
    fn default() -> (r: Self)
        ensures
            r.branch_id@ == zero16(),
            r.stream is None,
    {
        let r = ProjectionScope { branch_id: [0u8; 16], stream: None };
        assert(r.branch_id@ =~= zero16());
        r
    }
}

/// How streams are spread over partitions.
#[derive(Debug, PartialEq, Eq)]
pub struct PartitionScheme {
    pub scheme_id: String,
    pub version: u32,
    pub partition_count: u32,
}

/// A scheme as plain values.
#[verifier::ext_equal]
pub struct SchemeView {
    pub scheme_id: Seq<char>,
    pub version: u32,
    pub count: u32,
}

impl View for PartitionScheme {
    type V = SchemeView;

    open spec fn view(&self) -> SchemeView {
        SchemeView { scheme_id: self.scheme_id@, version: self.version, count: self.partition_count }
    }
}

/// The scheme of a single partition.
pub open spec fn default_scheme() -> SchemeView {
    SchemeView { scheme_id: "stream-id-modulo"@, version: 1, count: 1 }
}

impl Default for PartitionScheme {
    fn default() -> (r: Self)
        ensures
            r@ == default_scheme(),
    {
        PartitionScheme { scheme_id: "stream-id-modulo".to_owned(), version: 1, partition_count: 1 }
    }
}

/// What a projection is.
#[derive(Debug, PartialEq, Eq)]
pub struct ProjectionDescriptor {
    pub name: String,
    pub definition_id: [u8; 16],
    pub definition_version: u32,
    pub input_types: Vec<InputType>,
    pub state_codec: u32,
    pub state_codec_version: u32,
    pub scope: ProjectionScope,
    pub partition_scheme: PartitionScheme,
}

/// A descriptor as plain values.
#[verifier::ext_equal]
pub struct DescriptorView {
    pub name: Seq<char>,
    pub definition_id: Seq<u8>,
    pub definition_version: u32,
    pub input_types: Seq<InputView>,
    pub state_codec: u32,
    pub state_codec_version: u32,
    pub branch: Seq<u8>,
    pub stream: Option<Seq<char>>,
    pub scheme: SchemeView,
}

/// The types of a list as plain values.
pub open spec fn input_views(inputs: Seq<InputType>) -> Seq<InputView> {
    Seq::new(inputs.len(), |i: int| inputs[i]@)
}

impl View for ProjectionDescriptor {
    type V = DescriptorView;

    open spec fn view(&self) -> DescriptorView {
        DescriptorView {
            name: self.name@,
            definition_id: self.definition_id@,
            definition_version: self.definition_version,
            input_types: input_views(self.input_types@),
            state_codec: self.state_codec,
            state_codec_version: self.state_codec_version,
            branch: self.scope.branch_id@,
            stream: opt_text_view(self.scope.stream),
            scheme: self.partition_scheme@,
        }
    }
}

/// The descriptor of a query, in so many partitions; `definition` is the
/// definition's JSON document.
pub fn descriptor_for_query(name: &str, definition: &[u8], partition_count: u32) -> (r: ProjectionDescriptor)
    ensures
        r@ == (DescriptorView {
            name: name@,
            definition_id: twin_hash(encode_utf8(name@) + definition@),
            definition_version: 1,
            input_types: Seq::empty(),
            state_codec: JSON_UTF8,
            state_codec_version: 1,
            branch: zero16(),
            stream: None,
            scheme: SchemeView { count: partition_count, ..default_scheme() },
        }),
{
    let mut bytes: Vec<u8> = Vec::new();
    put(&mut bytes, name.as_bytes());
    put(&mut bytes, definition);
    assert(bytes@ =~= encode_utf8(name@) + definition@);
    let mut partition_scheme = PartitionScheme::default();
    partition_scheme.partition_count = partition_count;
    let r = ProjectionDescriptor {
        name: name.to_owned(),
        definition_id: fingerprint(bytes.as_slice()),
        definition_version: 1,
        input_types: Vec::new(),
        state_codec: crate::format::ids::CodecId::json_utf8().0,
        state_codec_version: 1,
        scope: ProjectionScope::default(),
        partition_scheme,
    };
    assert(r@.input_types =~= Seq::empty());
    r
}

/// Whether a type of events takes one.
pub open spec fn input_takes(input: InputView, record: RecordDtoView) -> bool {
    input.event_type == record.event_type && input.min <= record.schema_version <= input.max
}

/// Whether a projection takes an event: its stream, where one is set, and any
/// of its types, where some are set.
pub open spec fn descriptor_takes(d: DescriptorView, record: RecordDtoView) -> bool {
    stream_wanted(d.stream, record.metadata) && (d.input_types.len() == 0 || exists|i: int|
        0 <= i < d.input_types.len() && input_takes(#[trigger] d.input_types[i], record))
}

/// Whether a projection takes an event.
pub fn projection_selects(descriptor: &ProjectionDescriptor, record: &RecordDto) -> (r: bool)
    ensures
        r == descriptor_takes(descriptor@, record@),
{
    if !wants_stream(&descriptor.scope.stream, &record.metadata) {
        return false;
    }
    if descriptor.input_types.len() == 0 {
        return true;
    }
    let mut i: usize = 0;
    while i < descriptor.input_types.len()
        invariant
            i <= descriptor.input_types@.len(),
            stream_wanted(descriptor@.stream, record@.metadata),
            forall|j: int| 0 <= j < i ==> !input_takes(#[trigger] descriptor@.input_types[j], record@),
        decreases descriptor.input_types@.len() - i,
    {
        let input = &descriptor.input_types[i];
        assert(descriptor@.input_types[i as int] == input@);
        if same_text(input.event_type.as_str(), record.event_type.as_str()) && input.min_schema_version <= record.schema_version
            && record.schema_version <= input.max_schema_version {
            assert(input_takes(descriptor@.input_types[i as int], record@));
            return true;
        }
        i = i + 1;
    }
    false
}

fn same_inputs(a: &Vec<InputType>, b: &Vec<InputType>) -> (r: bool)
    ensures
        r == (input_views(a@) == input_views(b@)),
{
    if a.len() != b.len() {
        assert(input_views(a@).len() != input_views(b@).len());
        return false;
    }
    let mut i: usize = 0;
    while i < a.len()
        invariant
            i <= a@.len(),
            a@.len() == b@.len(),
            forall|j: int| 0 <= j < i ==> #[trigger] input_views(a@)[j] == input_views(b@)[j],
        decreases a@.len() - i,
    {
        assert(input_views(a@)[i as int] == a@[i as int]@);
        assert(input_views(b@)[i as int] == b@[i as int]@);
        if !same_text(a[i].event_type.as_str(), b[i].event_type.as_str()) || a[i].min_schema_version != b[i].min_schema_version
            || a[i].max_schema_version != b[i].max_schema_version {
            return false;
        }
        i = i + 1;
    }
    assert(input_views(a@) =~= input_views(b@));
    true
}

fn same_stream(a: &Option<String>, b: &Option<String>) -> (r: bool)
    ensures
        r == (opt_text_view(*a) == opt_text_view(*b)),
{
    match (a, b) {
        (Some(x), Some(y)) => same_text(x.as_str(), y.as_str()),
        (None, None) => true,
        _ => false,
    }
}

impl ProjectionDescriptor {
    /// Whether two descriptors say the same.
    pub fn same(&self, other: &ProjectionDescriptor) -> (r: bool)
        ensures
            r == (self@ == other@),
    {
        let r = same_text(self.name.as_str(), other.name.as_str()) && same16(&self.definition_id, &other.definition_id)
            && self.definition_version == other.definition_version && same_inputs(&self.input_types, &other.input_types)
            && self.state_codec == other.state_codec && self.state_codec_version == other.state_codec_version && same16(
            &self.scope.branch_id,
            &other.scope.branch_id,
        ) && same_stream(&self.scope.stream, &other.scope.stream) && same_text(
            self.partition_scheme.scheme_id.as_str(),
            other.partition_scheme.scheme_id.as_str(),
        ) && self.partition_scheme.version == other.partition_scheme.version && self.partition_scheme.partition_count
            == other.partition_scheme.partition_count;
        proof {
            if r {
                assert(self@ =~= other@);
            }
        }
        r
    }
}

/// How far a projection has come.
#[derive(Debug, Clone, Copy, PartialEq, Eq)]
pub struct ProjectionCursor {
    pub database_id: [u8; 16],
    pub branch_id: [u8; 16],
    pub position: u64,
    pub descriptor_fingerprint: [u8; 16],
}

/// A cursor as plain values.
#[verifier::ext_equal]
pub struct CursorView {
    pub database: Seq<u8>,
    pub branch: Seq<u8>,
    pub position: u64,
    pub fingerprint: Seq<u8>,
}

impl View for ProjectionCursor {
    type V = CursorView;

    open spec fn view(&self) -> CursorView {
        CursorView {
            database: self.database_id@,
            branch: self.branch_id@,
            position: self.position,
            fingerprint: self.descriptor_fingerprint@,
        }
    }
}

/// Why a projection is stale.
#[derive(Debug, Clone, Copy, PartialEq, Eq, Structural)]
pub enum StaleReason {
    DescriptorChanged,
    BehindHead { head: u64 },
}

/// Where a projection stands.
#[derive(Debug, PartialEq, Eq)]
#[allow(inconsistent_fields)]
pub enum ProjectionStatus {
    Building { cursor: ProjectionCursor },
    Ready { cursor: ProjectionCursor },
    Stale { cursor: ProjectionCursor, reason: StaleReason },
    Failed { cursor: ProjectionCursor, error: ProjectionFailure },
    Dropping,
}

/// Where a projection stands, as plain values.
#[verifier::ext_equal]
#[allow(inconsistent_fields)]
pub enum StatusView {
    Building { cursor: CursorView },
    Ready { cursor: CursorView },
    Stale { cursor: CursorView, reason: StaleReason },
    Failed { cursor: CursorView, error: FailureView },
    Dropping,
}

impl View for ProjectionStatus {
    type V = StatusView;

    open spec fn view(&self) -> StatusView {
        match *self {
            ProjectionStatus::Building { cursor } => StatusView::Building { cursor: cursor@ },
            ProjectionStatus::Ready { cursor } => StatusView::Ready { cursor: cursor@ },
            ProjectionStatus::Stale { cursor, reason } => StatusView::Stale { cursor: cursor@, reason },
            ProjectionStatus::Failed { cursor, error } => StatusView::Failed { cursor: cursor@, error: error@ },
            ProjectionStatus::Dropping => StatusView::Dropping,
        }
    }
}

impl Clone for ProjectionStatus {
    fn clone(&self) -> (r: Self)
        ensures
            r@ == self@,
    {
        match self {
            ProjectionStatus::Building { cursor } => ProjectionStatus::Building { cursor: *cursor },
            ProjectionStatus::Ready { cursor } => ProjectionStatus::Ready { cursor: *cursor },
            ProjectionStatus::Stale { cursor, reason } => ProjectionStatus::Stale { cursor: *cursor, reason: *reason },
            ProjectionStatus::Failed { cursor, error } => ProjectionStatus::Failed { cursor: *cursor, error: error.clone() },
            ProjectionStatus::Dropping => ProjectionStatus::Dropping,
        }
    }
}

/// Where one partition of a projection stands.
#[derive(Debug, PartialEq, Eq)]
#[allow(inconsistent_fields)]
pub enum PartitionStatus {
    Cold { cursor: ProjectionCursor },
    Healing { cursor: ProjectionCursor },
    Ready { cursor: ProjectionCursor },
    Stale { cursor: ProjectionCursor, reason: StaleReason },
    Failed { cursor: ProjectionCursor, error: ProjectionFailure },
}

/// Where a partition stands, as plain values.
#[verifier::ext_equal]
#[allow(inconsistent_fields)]
pub enum PartitionView {
    Cold { cursor: CursorView },
    Healing { cursor: CursorView },
    Ready { cursor: CursorView },
    Stale { cursor: CursorView, reason: StaleReason },
    Failed { cursor: CursorView, error: FailureView },
}

impl View for PartitionStatus {
    type V = PartitionView;

    open spec fn view(&self) -> PartitionView {
        match *self {
            PartitionStatus::Cold { cursor } => PartitionView::Cold { cursor: cursor@ },
            PartitionStatus::Healing { cursor } => PartitionView::Healing { cursor: cursor@ },
            PartitionStatus::Ready { cursor } => PartitionView::Ready { cursor: cursor@ },
            PartitionStatus::Stale { cursor, reason } => PartitionView::Stale { cursor: cursor@, reason },
            PartitionStatus::Failed { cursor, error } => PartitionView::Failed { cursor: cursor@, error: error@ },
        }
    }
}

impl Clone for PartitionStatus {
    fn clone(&self) -> (r: Self)
        ensures
            r@ == self@,
    {
        match self {
            PartitionStatus::Cold { cursor } => PartitionStatus::Cold { cursor: *cursor },
            PartitionStatus::Healing { cursor } => PartitionStatus::Healing { cursor: *cursor },
            PartitionStatus::Ready { cursor } => PartitionStatus::Ready { cursor: *cursor },
            PartitionStatus::Stale { cursor, reason } => PartitionStatus::Stale { cursor: *cursor, reason: *reason },
            PartitionStatus::Failed { cursor, error } => PartitionStatus::Failed { cursor: *cursor, error: error.clone() },
        }
    }
}

/// How up to date an answer must be.
#[derive(Debug, Clone, Copy, PartialEq, Eq, Structural)]
pub enum QueryConsistency {
    RequireHead,
    AllowStale,
    WaitFor(u64),
}

/// The cursor of a status. One that is being dropped has none left.
pub open spec fn cursor_of(status: StatusView) -> CursorView {
    match status {
        StatusView::Building { cursor } => cursor,
        StatusView::Ready { cursor } => cursor,
        StatusView::Stale { cursor, .. } => cursor,
        StatusView::Failed { cursor, .. } => cursor,
        StatusView::Dropping => CursorView { database: zero16(), branch: zero16(), position: 0, fingerprint: zero16() },
    }
}

pub fn status_cursor(status: &ProjectionStatus) -> (r: ProjectionCursor)
    ensures
        r@ == cursor_of(status@),
{
    match status {
        ProjectionStatus::Building { cursor } => *cursor,
        ProjectionStatus::Ready { cursor } => *cursor,
        ProjectionStatus::Stale { cursor, .. } => *cursor,
        ProjectionStatus::Failed { cursor, .. } => *cursor,
        ProjectionStatus::Dropping => {
            let r = ProjectionCursor { database_id: [0u8; 16], branch_id: [0u8; 16], position: 0, descriptor_fingerprint: [0u8; 16] };
            assert(r.database_id@ =~= zero16());
            r
        },
    }
}

/// The cursor of a partition.
pub open spec fn partition_cursor_of(status: PartitionView) -> CursorView {
    match status {
        PartitionView::Cold { cursor } => cursor,
        PartitionView::Healing { cursor } => cursor,
        PartitionView::Ready { cursor } => cursor,
        PartitionView::Stale { cursor, .. } => cursor,
        PartitionView::Failed { cursor, .. } => cursor,
    }
}

pub fn partition_cursor(status: &PartitionStatus) -> (r: ProjectionCursor)
    ensures
        r@ == partition_cursor_of(status@),
{
    match status {
        PartitionStatus::Cold { cursor } => *cursor,
        PartitionStatus::Healing { cursor } => *cursor,
        PartitionStatus::Ready { cursor } => *cursor,
        PartitionStatus::Stale { cursor, .. } => *cursor,
        PartitionStatus::Failed { cursor, .. } => *cursor,
    }
}

} // verus!
