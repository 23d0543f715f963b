//! Queries over the rows that a projection keeps.
use crate::bytes::{begins_with, bytes_equal, bytes_less, copy_bytes};
use crate::facade::error::{invalid_error, EngineError, EngineErrorView, ErrorCategory};
use crate::facade::json::{
    check_json, json_fault, json_field_equals, json_field_matches, json_index_key, json_index_of, json_rows, json_rows_of,
    json_stream_rows, json_stream_rows_of, json_text, json_text_of, only_streams, read_rows, read_stream_rows, row_views,
    stream_lengths, stream_row_views, without_streams, write_rows, write_stream_rows,
};
use crate::facade::types::{PayloadCodec, RecordDto, RecordDtoView};
use crate::format::ids::StreamId;
use crate::format::metadata::{inserted, key_lt, keys_ascend, lemma_inserted, value_of, Metadata, MetadataView};
use crate::log::select::{class_of, partition_of};
use crate::text::{join3, same_text};
use vstd::prelude::*;
use vstd::utf8::encode_utf8;

verus! {

/// What a query keeps of the events: the field that keys a row, the fields that
/// rows can be found by, and a field that must hold a given JSON value.
#[derive(Debug)]
pub struct QueryDefinition {
    pub key_field: String,
    /// The names of indexes, each with its field.
    pub indexes: Vec<(String, String)>,
    pub filter: Option<(String, Vec<u8>)>,
}

/// A definition as plain values.
#[verifier::ext_equal]
pub struct DefinitionView {
    pub key_field: Seq<char>,
    pub indexes: Seq<(Seq<char>, Seq<char>)>,
    pub filter: Option<(Seq<char>, Seq<u8>)>,
}

impl View for QueryDefinition {
    type V = DefinitionView;

    open spec fn view(&self) -> DefinitionView {
        DefinitionView {
            key_field: self.key_field@,
            indexes: Seq::new(self.indexes@.len(), |i: int| (self.indexes@[i].0@, self.indexes@[i].1@)),
            filter: match self.filter {
                Some((field, value)) => Some((field@, value@)),
                None => None,
            },
        }
    }
}

/// The field of an index.
pub open spec fn index_field(indexes: Seq<(Seq<char>, Seq<char>)>, name: Seq<char>) -> Option<Seq<char>>
    decreases indexes.len(),
{
    if indexes.len() == 0 {
        None
    } else if indexes[0].0 == name {
        Some(indexes[0].1)
    } else {
        index_field(indexes.skip(1), name)
    }
}

/// Checks a definition.
pub fn validate_query(definition: &QueryDefinition) -> (r: core::result::Result<(), EngineError>)
    ensures
        r is Ok <==> definition@.key_field.len() > 0,
        r matches Err(e) ==> e@ == invalid_error("query key field is empty"@),
{
    if definition.key_field.as_str().is_empty() {
        Err(EngineError::invalid("query key field is empty"))
    } else {
        Ok(())
    }
}

/// A question to a query.
#[derive(Debug)]
pub enum QueryOperation {
    Get(String),
    By { index: String, key: Vec<u8> },
    Range { start: String, end: String },
    Prefix(String),
    Len,
}

/// A question as plain values.
#[verifier::ext_equal]
pub enum OperationView {
    Get(Seq<char>),
    By { index: Seq<char>, key: Seq<u8> },
    Range { start: Seq<char>, end: Seq<char> },
    Prefix(Seq<char>),
    Len,
}

impl View for QueryOperation {
    type V = OperationView;

    open spec fn view(&self) -> OperationView {
        match *self {
            QueryOperation::Get(key) => OperationView::Get(key@),
            QueryOperation::By { index, key } => OperationView::By { index: index@, key: key@ },
            QueryOperation::Range { start, end } => OperationView::Range { start: start@, end: end@ },
            QueryOperation::Prefix(prefix) => OperationView::Prefix(prefix@),
            QueryOperation::Len => OperationView::Len,
        }
    }
}

/// An answer: the rows that were asked for, and how many there are at all.
#[derive(Debug, PartialEq, Eq)]
pub struct QueryResult {
    pub rows: Vec<Vec<u8>>,
    pub len: u64,
}

/// The rows of a list as plain bytes.
pub open spec fn payload_views(rows: Seq<Vec<u8>>) -> Seq<Seq<u8>> {
    Seq::new(rows.len(), |i: int| rows[i]@)
}

/// Why a projection failed.
#[derive(Debug, PartialEq, Eq)]
pub struct ProjectionFailure {
    pub code: String,
    pub message: String,
}

/// A failure as plain values.
#[verifier::ext_equal]
pub struct FailureView {
    pub code: Seq<char>,
    pub message: Seq<char>,
}

impl View for ProjectionFailure {
    type V = FailureView;

    open spec fn view(&self) -> FailureView {
        FailureView { code: self.code@, message: self.message@ }
    }
}

impl Clone for ProjectionFailure {
    fn clone(&self) -> (r: Self)
        ensures
            r@ == self@,
    {
        ProjectionFailure { code: self.code.clone(), message: self.message.clone() }
    }
}

impl ProjectionFailure {
    pub fn new(code: &str, message: &str) -> (r: Self)
        ensures
            r@ == (FailureView { code: code@, message: message@ }),
    {
        ProjectionFailure { code: code.to_owned(), message: message.to_owned() }
    }

    /// The failure as callers see it.
    pub fn into_error(self) -> (r: EngineError)
        ensures
            r@ == (EngineErrorView {
                category: ErrorCategory::Internal,
                code: "projection"@,
                message: self@.code + ": "@ + self@.message,
            }),
    {
        EngineError {
            category: ErrorCategory::Internal,
            code: "projection",
            message: join3(self.code.as_str(), ": ", self.message.as_str()),
        }
    }
}

/// The failure of a runtime that keeps no checkpoints.
pub open spec fn checkpoint_unsupported() -> FailureView {
    FailureView { code: "checkpoint_unsupported"@, message: "runtime has no checkpoint codec"@ }
}

/// The failure of a runtime that keeps no checkpoints of single partitions.
pub open spec fn partition_unsupported() -> FailureView {
    FailureView { code: "partition_unsupported"@, message: "runtime does not implement partition checkpoints"@ }
}

/// The state of a projection, kept by whoever defines it.
pub trait ProjectionRuntime {
    fn reset(&mut self) -> core::result::Result<(), ProjectionFailure>;

    fn apply(&mut self, record: &RecordDto) -> core::result::Result<(), ProjectionFailure>;

    fn query(&self, operation: QueryOperation) -> core::result::Result<QueryResult, ProjectionFailure>;

    /// A document from which the state can be restored.
    fn checkpoint(&self) -> (r: core::result::Result<Vec<u8>, ProjectionFailure>)
        default_ensures
            r matches Err(e) && e@ == checkpoint_unsupported(),
    {
        Err(ProjectionFailure::new("checkpoint_unsupported", "runtime has no checkpoint codec"))
    }

    /// Takes the state of a document in place of its own.
    fn restore_checkpoint(&mut self, _state: &[u8]) -> (r: core::result::Result<(), ProjectionFailure>)
        default_ensures
            r matches Err(e) && e@ == checkpoint_unsupported(),
    {
        Err(ProjectionFailure::new("checkpoint_unsupported", "runtime has no checkpoint codec"))
    }

    /// A document from which one partition of the state can be restored; the
    /// only partition is the whole.
    fn checkpoint_partition(&self, partition: u32, partition_count: u32) -> (r: core::result::Result<Vec<u8>, ProjectionFailure>)
        default_ensures
            partition == 0 && partition_count == 1 ==> call_ensures(Self::checkpoint, (self,), r),
            !(partition == 0 && partition_count == 1) ==> (r matches Err(e) && e@ == partition_unsupported()),
    {
        if partition == 0 && partition_count == 1 {
            self.checkpoint()
        } else {
            Err(ProjectionFailure::new("partition_unsupported", "runtime does not implement partition checkpoints"))
        }
    }

    /// Takes one partition of the state from a document; the only partition is
    /// the whole.
    fn restore_partition(&mut self, partition: u32, partition_count: u32, state: &[u8]) -> (r: core::result::Result<
        (),
        ProjectionFailure,
    >)
        default_ensures
            !(partition == 0 && partition_count == 1) ==> (r matches Err(e) && e@ == partition_unsupported()),
    {
        if partition == 0 && partition_count == 1 {
            self.restore_checkpoint(state)
        } else {
            Err(ProjectionFailure::new("partition_unsupported", "runtime does not implement partition checkpoints"))
        }
    }
}

/// What stands for a runtime that has yet to be registered again.
pub struct MissingRuntime;

impl ProjectionRuntime for MissingRuntime {
    fn reset(&mut self) -> (r: core::result::Result<(), ProjectionFailure>)
        ensures
            r is Ok,
    {
        Ok(())
    }

    fn apply(&mut self, _record: &RecordDto) -> (r: core::result::Result<(), ProjectionFailure>)
        ensures
            r matches Err(e) && e@ == (FailureView { code: "runtime_missing"@, message: "native runtime must be re-registered"@ }),
    {
        Err(ProjectionFailure::new("runtime_missing", "native runtime must be re-registered"))
    }

    fn query(&self, _operation: QueryOperation) -> (r: core::result::Result<QueryResult, ProjectionFailure>)
        ensures
            r matches Err(e) && e@ == (FailureView { code: "runtime_missing"@, message: "native runtime must be re-registered"@ }),
    {
        Err(ProjectionFailure::new("runtime_missing", "native runtime must be re-registered"))
    }

    fn restore_partition(&mut self, partition: u32, partition_count: u32, state: &[u8]) -> (r: core::result::Result<
        (),
        ProjectionFailure,
    >)
        ensures
            r matches Err(e) && e@ == (if partition == 0 && partition_count == 1 {
                checkpoint_unsupported()
            } else {
                partition_unsupported()
            }),
    {
        if partition == 0 && partition_count == 1 {
            self.restore_checkpoint(state)
        } else {
            Err(ProjectionFailure::new("partition_unsupported", "runtime does not implement partition checkpoints"))
        }
    }
}

/// The rows of a query, by their keys, and the streams they came from.
#[derive(Debug)]
pub struct JsonIndexRuntime {
    definition: QueryDefinition,
    rows: Metadata,
    row_streams: Metadata,
}

/// Rows and streams as plain values.
#[verifier::ext_equal]
pub struct RowsView {
    pub rows: MetadataView,
    pub streams: MetadataView,
}

/// The field that a definition's filter looks at.
pub open spec fn filter_field(def: DefinitionView) -> Seq<char> {
    let (field, _) = def.filter->0;
    field
}

/// The JSON value that a definition's filter looks for.
pub open spec fn filter_value(def: DefinitionView) -> Seq<u8> {
    let (_, value) = def.filter->0;
    value
}

/// What an event does to the rows, or why it cannot be applied.
pub open spec fn rows_applied(def: DefinitionView, s: RowsView, record: RecordDtoView) -> core::result::Result<RowsView, FailureView> {
    if !(record.codec is Json) {
        Ok(s)
    } else if json_fault(record.payload) is Some {
        Err(FailureView { code: "invalid_json"@, message: json_fault(record.payload)->0 })
    } else if def.filter is Some && json_fault(filter_value(def)) is Some {
        Err(FailureView { code: "invalid_filter"@, message: json_fault(filter_value(def))->0 })
    } else if def.filter is Some && !json_field_matches(record.payload, filter_field(def), filter_value(def)) {
        Ok(s)
    } else {
        match json_text_of(record.payload, def.key_field) {
            Some(key) => Ok(
                RowsView { rows: inserted(s.rows, key, record.payload), streams: inserted(s.streams, key, record.stream_id) },
            ),
            None => Ok(s),
        }
    }
}

/// Whether a row answers a question; `field` is the field of its index.
pub open spec fn row_selected(op: OperationView, field: Seq<char>, row: (Seq<char>, Seq<u8>)) -> bool {
    match op {
        OperationView::Get(key) => row.0 == key,
        OperationView::By { index, key } => json_index_of(row.1, field) == Some(key),
        OperationView::Range { start, end } => !key_lt(row.0, start) && key_lt(row.0, end),
        OperationView::Prefix(prefix) => encode_utf8(prefix).len() <= encode_utf8(row.0).len() && encode_utf8(row.0).take(
            encode_utf8(prefix).len() as int,
        ) == encode_utf8(prefix),
        OperationView::Len => false,
    }
}

/// The rows that answer a question, in key order.
pub open spec fn rows_selected(op: OperationView, field: Seq<char>, rows: MetadataView) -> Seq<Seq<u8>>
    decreases rows.len(),
{
    if rows.len() == 0 {
        Seq::empty()
    } else {
        let before = rows_selected(op, field, rows.drop_last());
        if row_selected(op, field, rows.last()) {
            before.push(rows.last().1)
        } else {
            before
        }
    }
}

/// The rows of one class of streams, with their streams.
pub open spec fn class_rows(s: RowsView, rows: MetadataView, count: u32, partition: u32) -> Seq<(Seq<char>, Seq<u8>, Seq<u8>)>
    decreases rows.len(),
{
    if rows.len() == 0 {
        Seq::empty()
    } else {
        let before = class_rows(s, rows.drop_last(), count, partition);
        match value_of(s.streams, rows.last().0) {
            Some(stream) => if class_of(stream, count) == partition {
                before.push((rows.last().0, stream, rows.last().1))
            } else {
                before
            },
            None => before,
        }
    }
}

/// Rows with others put over them.
pub open spec fn rows_over(m: MetadataView, more: MetadataView) -> MetadataView
    decreases more.len(),
{
    if more.len() == 0 {
        m
    } else {
        inserted(rows_over(m, more.drop_last()), more.last().0, more.last().1)
    }
}

/// Whether the streams of rows are identities of sixteen bytes.
pub open spec fn stream_values(m: MetadataView) -> bool {
    forall|i: int| 0 <= i < m.len() ==> (#[trigger] m[i]).1.len() == 16
}

impl View for JsonIndexRuntime {
    type V = RowsView;

    closed spec fn view(&self) -> RowsView {
        RowsView { rows: self.rows@, streams: self.row_streams@ }
    }
}

proof fn lemma_value_len(m: MetadataView, key: Seq<char>)
    requires
        stream_values(m),
    ensures
        value_of(m, key) matches Some(v) ==> v.len() == 16,
{
}

proof fn lemma_inserted_len(m: MetadataView, key: Seq<char>, value: Seq<u8>)
    requires
        keys_ascend(m),
        stream_values(m),
        value.len() == 16,
    ensures
        stream_values(inserted(m, key, value)),
    decreases m.len(),
{
    if m.len() > 0 {
        lemma_inserted_len(m.drop_last(), key, value);
    }
}

impl JsonIndexRuntime {
    #[verifier::type_invariant]
    spec fn inv(self) -> bool {
        stream_values(self.row_streams@)
    }

    /// The definition that the rows follow.
    pub closed spec fn definition(&self) -> DefinitionView {
        self.definition@
    }

    pub fn new(definition: QueryDefinition) -> (r: Self)
        ensures
            r@ == (RowsView { rows: Seq::empty(), streams: Seq::empty() }),
            r.definition() == definition@,
    {
        JsonIndexRuntime { definition, rows: Metadata::new(), row_streams: Metadata::new() }
    }

    /// Forgets every row.
    pub fn reset(&mut self)
        ensures
            final(self)@ == (RowsView { rows: Seq::empty(), streams: Seq::empty() }),
            final(self).definition() == old(self).definition(),
    {
        self.row_streams = Metadata::new();
        self.rows = Metadata::new();
    }

    /// Takes an event in.
    pub fn apply(&mut self, record: &RecordDto) -> (r: core::result::Result<(), ProjectionFailure>)
        ensures
            final(self).definition() == old(self).definition(),
            match rows_applied(old(self).definition(), old(self)@, record@) {
                Ok(rows) => r is Ok && final(self)@ == rows,
                Err(e) => r matches Err(error) && error@ == e && final(self)@ == old(self)@,
            },
    {
        match record.codec {
            PayloadCodec::Json => {},
            PayloadCodec::Bytes => return Ok(()),
        }
        match check_json(record.payload.as_slice()) {
            Some(text) => return Err(ProjectionFailure::new("invalid_json", text.as_str())),
            None => {},
        }
        match &self.definition.filter {
            Some((field, expected)) => {
                match check_json(expected.as_slice()) {
                    Some(text) => return Err(ProjectionFailure::new("invalid_filter", text.as_str())),
                    None => {},
                }
                if !json_field_equals(record.payload.as_slice(), field.as_str(), expected.as_slice()) {
                    return Ok(());
                }
            },
            None => {},
        }
        match json_text(record.payload.as_slice(), self.definition.key_field.as_str()) {
            Some(key) => {
                let stream = vstd::slice::slice_to_vec(&record.stream_id);
                proof {
                    use_type_invariant(&*self);
                }
                let mut rows = Metadata::new();
                let mut streams = Metadata::new();
                core::mem::swap(&mut streams, &mut self.row_streams);
                core::mem::swap(&mut rows, &mut self.rows);
                let _ = streams.len();
                proof {
                    lemma_inserted_len(streams@, key@, stream@);
                }
                let _ = rows.insert(key.clone(), copy_bytes(&record.payload));
                let _ = streams.insert(key, stream);
                self.row_streams = streams;
                self.rows = rows;
            },
            None => {},
        }
        Ok(())
    }

    fn field_of(&self, index: &str) -> (r: Option<&String>)
        ensures
            match index_field(self.definition().indexes, index@) {
                Some(field) => r matches Some(f) && f@ == field,
                None => r is None,
            },
    {
        let ghost indexes = self.definition().indexes;
        let mut i: usize = 0;
        assert(indexes.skip(0) =~= indexes);
        while i < self.definition.indexes.len()
            invariant
                i <= indexes.len(),
                indexes == self.definition().indexes,
                index_field(indexes, index@) == index_field(indexes.skip(i as int), index@),
            decreases indexes.len() - i,
        {
            let pair = &self.definition.indexes[i];
            assert(indexes.skip(i as int)[0] == indexes[i as int]);
            assert(indexes.skip(i as int).skip(1) =~= indexes.skip(i + 1));
            if same_text(pair.0.as_str(), index) {
                return Some(&pair.1);
            }
            i = i + 1;
        }
        None
    }

    /// Answers a question. A range must not end before it starts.
    pub fn query(&self, operation: &QueryOperation) -> (r: core::result::Result<QueryResult, ProjectionFailure>)
        requires
            operation@ matches OperationView::Range { start, end } ==> !key_lt(end, start),
        ensures
            match operation@ {
                OperationView::By { index, key } => match index_field(self.definition().indexes, index) {
                    None => r matches Err(e) && e@ == (FailureView { code: "index_not_found"@, message: index }),
                    Some(field) => r matches Ok(found) && found.len == self@.rows.len() && payload_views(found.rows@)
                        == rows_selected(operation@, field, self@.rows),
                },
                _ => r matches Ok(found) && found.len == self@.rows.len() && payload_views(found.rows@) == rows_selected(
                    operation@,
                    Seq::empty(),
                    self@.rows,
                ),
            },
    {
        let ghost op = operation@;
        let empty = String::new();
        let field: &String = match operation {
            QueryOperation::By { index, key } => match self.field_of(index.as_str()) {
                Some(field) => field,
                None => return Err(ProjectionFailure::new("index_not_found", index.as_str())),
            },
            _ => &empty,
        };
        assert(empty@ =~= Seq::<char>::empty());
        let ghost all = self.rows@;
        let mut rows: Vec<Vec<u8>> = Vec::new();
        let mut i: usize = 0;
        assert(all.take(0) =~= MetadataView::empty());
        assert(payload_views(rows@) =~= Seq::empty());
        while i < self.rows.len()
            invariant
                i <= all.len(),
                all == self.rows@,
                op == operation@,
                payload_views(rows@) == rows_selected(op, field@, all.take(i as int)),
            decreases all.len() - i,
        {
            let row = self.rows.entry(i);
            let key: &[u8] = row.key.as_str().as_bytes();
            let selected = match operation {
                QueryOperation::Get(wanted) => same_text(row.key.as_str(), wanted.as_str()),
                QueryOperation::By { index, key } => match json_index_key(row.value.as_slice(), field.as_str()) {
                    Some(found) => bytes_equal(found.as_slice(), key.as_slice()),
                    None => false,
                },
                QueryOperation::Range { start, end } => !bytes_less(key, start.as_str().as_bytes()) && bytes_less(
                    key,
                    end.as_str().as_bytes(),
                ),
                QueryOperation::Prefix(prefix) => begins_with(key, prefix.as_str().as_bytes()),
                QueryOperation::Len => false,
            };
            proof {
                let upto = all.take(i + 1);
                assert(upto.drop_last() =~= all.take(i as int));
                assert(upto.last() == all[i as int]);
                assert(selected == row_selected(op, field@, all[i as int]));
            }
            if selected {
                let ghost before = payload_views(rows@);
                rows.push(copy_bytes(&row.value));
                assert(payload_views(rows@) =~= before.push(all[i as int].1));
            }
            i = i + 1;
        }
        assert(all.take(i as int) =~= all);
        Ok(QueryResult { rows, len: self.rows.len() as u64 })
    }

    /// The document from which the rows can be restored.
    pub fn checkpoint(&self) -> (r: core::result::Result<Vec<u8>, ProjectionFailure>)
        ensures
            r matches Ok(state) && state@ == json_rows(self@.rows),
    {
        let ghost all = self.rows@;
        let mut rows: Vec<(String, Vec<u8>)> = Vec::new();
        let mut i: usize = 0;
        assert(row_views(rows@) =~= all.take(0));
        while i < self.rows.len()
            invariant
                i <= all.len(),
                all == self.rows@,
                row_views(rows@) == all.take(i as int),
            decreases all.len() - i,
        {
            let row = self.rows.entry(i);
            let ghost before = row_views(rows@);
            rows.push((row.key.clone(), copy_bytes(&row.value)));
            assert(row_views(rows@) =~= before.push(all[i as int]));
            assert(all.take(i + 1) =~= all.take(i as int).push(all[i as int]));
            i = i + 1;
        }
        assert(all.take(i as int) =~= all);
        match write_rows(rows) {
            Ok(state) => Ok(state),
            Err(text) => Err(ProjectionFailure::new("checkpoint_encode", text.as_str())),
        }
    }

    /// Takes the rows of a document in place of its own; the streams stay.
    pub fn restore_checkpoint(&mut self, state: &[u8]) -> (r: core::result::Result<(), ProjectionFailure>)
        ensures
            final(self).definition() == old(self).definition(),
            match json_rows_of(state@) {
                Ok(rows) => r is Ok && final(self)@ == (RowsView { rows, streams: old(self)@.streams }),
                Err(text) => (r matches Err(e) && e@ == (FailureView { code: "checkpoint_decode"@, message: text })) && final(self)@ == old(self)@,
            },
            forall|rows: MetadataView| #[trigger]
                json_rows(rows) == state@ && keys_ascend(rows) ==> r is Ok && final(self)@.rows == rows,
    {
        let rows = match read_rows(state) {
            Ok(rows) => rows,
            Err(text) => return Err(ProjectionFailure::new("checkpoint_decode", text.as_str())),
        };
        let ghost all = row_views(rows@);
        let mut table = Metadata::new();
        let mut i: usize = 0;
        assert(all.take(0) =~= table@);
        while i < rows.len()
            invariant
                i <= rows@.len(),
                all == row_views(rows@),
                keys_ascend(all),
                table@ == all.take(i as int),
            decreases rows@.len() - i,
        {
            proof {
                let upto = all.take(i as int);
                if i > 0 {
                    assert(upto.last() == all[i - 1]);
                    assert(key_lt(all[i - 1].0, all[i as int].0));
                }
                crate::format::metadata::lemma_inserted_last(upto, all[i as int].0, all[i as int].1);
                assert(all.take(i + 1) =~= upto.push(all[i as int]));
            }
            let _ = table.insert(rows[i].0.clone(), copy_bytes(&rows[i].1));
            i = i + 1;
        }
        assert(all.take(i as int) =~= all);
        proof {
            use_type_invariant(&*self);
        }
        self.rows = table;
        Ok(())
    }

    /// The document from which the rows of one class of streams can be restored.
    pub fn checkpoint_partition(&self, partition: u32, partition_count: u32) -> (r: core::result::Result<Vec<u8>, ProjectionFailure>)
        requires
            partition_count > 0,
        ensures
            r matches Ok(state) && state@ == json_stream_rows(class_rows(self@, self@.rows, partition_count, partition)),
    {
        let ghost all = self.rows@;
        let mut rows: Vec<(String, [u8; 16], Vec<u8>)> = Vec::new();
        let mut i: usize = 0;
        let _ = self.rows.len();
        assert(all.take(0) =~= MetadataView::empty());
        assert(stream_row_views(rows@) =~= Seq::empty());
        while i < self.rows.len()
            invariant
                i <= all.len(),
                all == self.rows@,
                keys_ascend(all),
                partition_count > 0,
                stream_row_views(rows@) == class_rows(self@, all.take(i as int), partition_count, partition),
                keys_ascend(without_streams(stream_row_views(rows@))),
                i < all.len() ==> forall|k: int| 0 <= k < rows@.len() ==> key_lt((#[trigger] rows@[k]).0@, all[i as int].0),
            decreases all.len() - i,
        {
            let row = self.rows.entry(i);
            proof {
                use_type_invariant(self);
                assert(all.take(i + 1).drop_last() =~= all.take(i as int));
                assert(all.take(i + 1).last() == all[i as int]);
                lemma_value_len(self.row_streams@, all[i as int].0);
                if i + 1 < all.len() {
                    assert(key_lt(all[i as int].0, all[i + 1].0));
                    assert forall|k: int| 0 <= k < rows@.len() implies key_lt((#[trigger] rows@[k]).0@, all[i + 1].0) by {
                        crate::bytes::lemma_lex_transitive(
                            encode_utf8(rows@[k].0@),
                            encode_utf8(all[i as int].0),
                            encode_utf8(all[i + 1].0),
                        );
                    }
                }
            }
            match self.row_streams.get(row.key.as_str()) {
                Some(stream) => {
                    let id: [u8; 16] = crate::bytes::read_array16(stream.as_slice(), 0);
                    assert(id@ =~= stream@);
                    if partition_of(StreamId::from_bytes(id), partition_count) == partition {
                        let ghost before = stream_row_views(rows@);
                        rows.push((row.key.clone(), id, copy_bytes(&row.value)));
                        proof {
                            let now = stream_row_views(rows@);
                            assert(now =~= before.push((all[i as int].0, stream@, all[i as int].1)));
                            let keys = without_streams(now);
                            assert forall|a: int, b: int| 0 <= a < b < keys.len() implies key_lt(
                                (#[trigger] keys[a]).0,
                                (#[trigger] keys[b]).0,
                            ) by {
                                assert(keys[a].0 == rows@[a].0@);
                                if b < before.len() {
                                    assert(without_streams(before)[a] == keys[a]);
                                    assert(without_streams(before)[b] == keys[b]);
                                }
                            }
                        }
                    }
                },
                None => {},
            }
            i = i + 1;
        }
        assert(all.take(i as int) =~= all);
        match write_stream_rows(rows) {
            Ok(state) => Ok(state),
            Err(text) => Err(ProjectionFailure::new("checkpoint_encode", text.as_str())),
        }
    }

    /// Puts the rows of a document over its own.
    pub fn restore_partition(&mut self, state: &[u8]) -> (r: core::result::Result<(), ProjectionFailure>)
        ensures
            final(self).definition() == old(self).definition(),
            match json_stream_rows_of(state@) {
                Ok(rows) => r is Ok && final(self)@ == (RowsView {
                    rows: rows_over(old(self)@.rows, without_streams(rows)),
                    streams: rows_over(old(self)@.streams, only_streams(rows)),
                }),
                Err(text) => (r matches Err(e) && e@ == (FailureView { code: "checkpoint_decode"@, message: text })) && final(self)@ == old(self)@,
            },
            forall|rows: Seq<(Seq<char>, Seq<u8>, Seq<u8>)>| #[trigger]
                json_stream_rows(rows) == state@ && keys_ascend(without_streams(rows)) && stream_lengths(rows) ==> r is Ok
                    && final(self)@ == (RowsView {
                    rows: rows_over(old(self)@.rows, without_streams(rows)),
                    streams: rows_over(old(self)@.streams, only_streams(rows)),
                }),
    {
        let rows = match read_stream_rows(state) {
            Ok(rows) => rows,
            Err(text) => return Err(ProjectionFailure::new("checkpoint_decode", text.as_str())),
        };
        let ghost all = stream_row_views(rows@);
        let ghost values = without_streams(all);
        let ghost ids = only_streams(all);
        let ghost before = self@;
        proof {
            use_type_invariant(&*self);
        }
        let mut table = Metadata::new();
        let mut streams = Metadata::new();
        core::mem::swap(&mut streams, &mut self.row_streams);
        core::mem::swap(&mut table, &mut self.rows);
        let mut i: usize = 0;
        assert(values.take(0) =~= MetadataView::empty());
        assert(ids.take(0) =~= MetadataView::empty());
        while i < rows.len()
            invariant
                i <= rows@.len(),
                all == stream_row_views(rows@),
                values == without_streams(all),
                ids == only_streams(all),
                table@ == rows_over(before.rows, values.take(i as int)),
                streams@ == rows_over(before.streams, ids.take(i as int)),
                stream_values(streams@),
            decreases rows@.len() - i,
        {
            let _ = streams.len();
            proof {
                assert(values.take(i + 1).drop_last() =~= values.take(i as int));
                assert(ids.take(i + 1).drop_last() =~= ids.take(i as int));
                assert(values.take(i + 1).last() == values[i as int]);
                assert(ids.take(i + 1).last() == ids[i as int]);
                lemma_inserted_len(streams@, rows@[i as int].0@, rows@[i as int].1@);
            }
            let _ = streams.insert(rows[i].0.clone(), vstd::slice::slice_to_vec(&rows[i].1));
            let _ = table.insert(rows[i].0.clone(), copy_bytes(&rows[i].2));
            i = i + 1;
        }
        assert(values.take(i as int) =~= values);
        assert(ids.take(i as int) =~= ids);
        self.row_streams = streams;
        self.rows = table;
        Ok(())
    }

    /// How many rows there are.
    pub fn len(&self) -> (n: usize)
        ensures
            n == self@.rows.len(),
    {
        self.rows.len()
    }
}

/// What a row is once the rows of one class were put over others.
proof fn lemma_class_over(whole: RowsView, rows: MetadataView, base: RowsView, count: u32, partition: u32, key: Seq<char>)
    requires
        keys_ascend(rows),
        keys_ascend(base.rows),
        keys_ascend(base.streams),
    ensures
        ({
            let class = class_rows(whole, rows, count, partition);
            let over = rows_over(base.rows, without_streams(class));
            let streams = rows_over(base.streams, only_streams(class));
            let here = value_of(rows, key) is Some && value_of(whole.streams, key) is Some && class_of(
                value_of(whole.streams, key)->0,
                count,
            ) == partition;
            &&& keys_ascend(over)
            &&& keys_ascend(streams)
            &&& value_of(over, key) == if here {
                value_of(rows, key)
            } else {
                value_of(base.rows, key)
            }
            &&& value_of(streams, key) == if here {
                value_of(whole.streams, key)
            } else {
                value_of(base.streams, key)
            }
        }),
    decreases rows.len(),
{
    if rows.len() > 0 {
        let front = rows.drop_last();
        let (name, value) = rows.last();
        assert forall|i: int, j: int| 0 <= i < j < front.len() implies key_lt((#[trigger] front[i]).0, (#[trigger] front[j]).0) by {
            assert(front[i] == rows[i] && front[j] == rows[j]);
        }
        lemma_class_over(whole, front, base, count, partition, key);
        if front.len() > 0 {
            assert(key_lt(rows[front.len() - 1].0, rows[front.len() as int].0));
        }
        crate::format::metadata::lemma_inserted_last(front, name, value);
        assert(front.push((name, value)) =~= rows);
        crate::format::metadata::lemma_inserted(front, name, value);
        let before = class_rows(whole, front, count, partition);
        match value_of(whole.streams, name) {
            Some(stream) => {
                if class_of(stream, count) == partition {
                    let class = before.push((name, stream, value));
                    assert(without_streams(class).drop_last() =~= without_streams(before));
                    assert(only_streams(class).drop_last() =~= only_streams(before));
                    assert(without_streams(class).last() == (name, value));
                    assert(only_streams(class).last() == (name, stream));
                    crate::format::metadata::lemma_inserted(rows_over(base.rows, without_streams(before)), name, value);
                    crate::format::metadata::lemma_inserted(rows_over(base.streams, only_streams(before)), name, stream);
                }
            },
            None => {},
        }
    }
}

/// What restoring the first so many classes, one after the other, makes of a
/// projection that had no rows.
pub open spec fn classes_restored(whole: RowsView, count: u32, n: int) -> RowsView
    decreases n,
{
    if n <= 0 {
        RowsView { rows: MetadataView::empty(), streams: MetadataView::empty() }
    } else {
        let before = classes_restored(whole, count, n - 1);
        let class = class_rows(whole, whole.rows, count, (n - 1) as u32);
        RowsView {
            rows: rows_over(before.rows, without_streams(class)),
            streams: rows_over(before.streams, only_streams(class)),
        }
    }
}

proof fn lemma_classes_restored(whole: RowsView, count: u32, n: int, key: Seq<char>)
    requires
        keys_ascend(whole.rows),
        0 <= n <= count,
    ensures
        ({
            let restored = classes_restored(whole, count, n);
            let here = value_of(whole.rows, key) is Some && value_of(whole.streams, key) is Some && class_of(
                value_of(whole.streams, key)->0,
                count,
            ) < n;
            &&& keys_ascend(restored.rows)
            &&& keys_ascend(restored.streams)
            &&& value_of(restored.rows, key) == if here {
                value_of(whole.rows, key)
            } else {
                None
            }
            &&& value_of(restored.streams, key) == if here {
                value_of(whole.streams, key)
            } else {
                None
            }
        }),
    decreases n,
{
    if n > 0 {
        lemma_classes_restored(whole, count, n - 1, key);
        lemma_class_over(whole, whole.rows, classes_restored(whole, count, n - 1), count, (n - 1) as u32, key);
    }
}

/// The checkpoints of all classes restore the whole: a projection each of whose
/// rows has a stream is restored, class by class, to the rows and streams that it
/// had.
pub proof fn lemma_partitions_restore(whole: RowsView, count: u32, key: Seq<char>)
    requires
        count > 0,
        keys_ascend(whole.rows),
        value_of(whole.rows, key) is Some <==> value_of(whole.streams, key) is Some,
    ensures
        value_of(classes_restored(whole, count, count as int).rows, key) == value_of(whole.rows, key),
        value_of(classes_restored(whole, count, count as int).streams, key) == value_of(whole.streams, key),
{
    lemma_classes_restored(whole, count, count as int, key);
    if let Some(stream) = value_of(whole.streams, key) {
        assert(class_of(stream, count) < count);
    }
}

} // verus!
