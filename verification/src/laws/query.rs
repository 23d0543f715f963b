//! What a query promises: its rows are the last events under their keys, and an
//! answer holds every row that meets the question and no other.
use crate::bytes::lex_lt;
use crate::facade::json::{json_fault, json_field_matches, json_part_of, json_text_of};
use crate::facade::query::{
    class_rows, index_field, row_selected, rows_applied, rows_over, rows_selected, FailureView, OperationView,
    QueryDefinition, RowsView,
};
use crate::facade::types::RecordDto;
use crate::format::metadata::{has_key, keys_ascend, lemma_inserted, lemma_value_of, value_of, MetadataView};
use vstd::bytes::spec_u64_from_le_bytes;
use vstd::prelude::*;
use vstd::utf8::encode_utf8;

verus! {

/// What a row is found by under a field: the bytes of a text, or those of the
/// JSON text of anything else.
pub open spec fn found_by(payload: Seq<u8>, field: Seq<char>, key: Seq<u8>) -> bool {
    match json_text_of(payload, field) {
        Some(text) => key == encode_utf8(text),
        None => json_part_of(payload, field) matches Some(part) && key == encode_utf8(part),
    }
}

/// Whether a row meets a question; `field` is the field of the index it names.
pub open spec fn meets(op: OperationView, field: Seq<char>, row: (Seq<char>, Seq<u8>)) -> bool {
    match op {
        OperationView::Get(key) => row.0 == key,
        OperationView::By { index, key } => found_by(row.1, field, key),
        OperationView::Range { start, end } => !lex_lt(encode_utf8(row.0), encode_utf8(start)) && lex_lt(
            encode_utf8(row.0),
            encode_utf8(end),
        ),
        OperationView::Prefix(prefix) => encode_utf8(prefix).is_prefix_of(encode_utf8(row.0)),
        OperationView::Len => false,
    }
}

/// An answer is the table filtered by the question: every row that meets it,
/// once and in the table's order, and no other.
pub proof fn lemma_answer_whole(op: OperationView, field: Seq<char>, rows: MetadataView)
    ensures
        rows_selected(op, field, rows) == rows.filter(|row: (Seq<char>, Seq<u8>)| meets(op, field, row)).map_values(
            |row: (Seq<char>, Seq<u8>)| row.1,
        ),
    decreases rows.len(),
{
    let wanted = |row: (Seq<char>, Seq<u8>)| meets(op, field, row);
    let value = |row: (Seq<char>, Seq<u8>)| row.1;
    reveal(Seq::filter);
    if rows.len() > 0 {
        let front = rows.drop_last();
        lemma_answer_whole(op, field, front);
        assert(wanted(rows.last()) <==> row_selected(op, field, rows.last())) by {
            if let OperationView::Prefix(prefix) = op {
                let p = encode_utf8(prefix);
                let k = encode_utf8(rows.last().0);
                if p.len() <= k.len() {
                    assert(k.take(p.len() as int) =~= k.subrange(0, p.len() as int));
                }
            }
        }
        if wanted(rows.last()) {
            assert(front.filter(wanted).push(rows.last()).map_values(value) =~= front.filter(wanted).map_values(value).push(
                rows.last().1,
            ));
        }
    } else {
        assert(rows.filter(wanted).map_values(value) =~= Seq::empty());
    }
}

/// An index has the field that the first entry under its name gives.
pub proof fn lemma_index_named(definition: QueryDefinition, name: Seq<char>)
    ensures
        match index_field(definition@.indexes, name) {
            Some(field) => exists|i: int|
                0 <= i < definition.indexes@.len() && (#[trigger] definition.indexes@[i]).0@ == name && definition.indexes@[i].1@ == field
                    && (forall|j: int| 0 <= j < i ==> (#[trigger] definition.indexes@[j]).0@ != name),
            None => forall|j: int| 0 <= j < definition.indexes@.len() ==> (#[trigger] definition.indexes@[j]).0@ != name,
        },
{
    let list = definition@.indexes;
    lemma_index_at(list, name);
    match index_field(list, name) {
        Some(field) => {
            let i = choose|i: int|
                0 <= i < list.len() && (#[trigger] list[i]).0 == name && list[i].1 == field && (forall|j: int|
                    0 <= j < i ==> (#[trigger] list[j]).0 != name);
            assert(definition.indexes@[i].0@ == name);
            assert forall|j: int| 0 <= j < i implies (#[trigger] definition.indexes@[j]).0@ != name by {
                assert(list[j].0 != name);
            }
        },
        None => {
            assert forall|j: int| 0 <= j < definition.indexes@.len() implies (#[trigger] definition.indexes@[j]).0@ != name by {
                assert(list[j].0 != name);
            }
        },
    }
}

proof fn lemma_index_at(list: Seq<(Seq<char>, Seq<char>)>, name: Seq<char>)
    ensures
        match index_field(list, name) {
            Some(field) => exists|i: int|
                0 <= i < list.len() && (#[trigger] list[i]).0 == name && list[i].1 == field && (forall|j: int|
                    0 <= j < i ==> (#[trigger] list[j]).0 != name),
            None => forall|j: int| 0 <= j < list.len() ==> (#[trigger] list[j]).0 != name,
        },
    decreases list.len(),
{
    if list.len() > 0 {
        if list[0].0 == name {
            assert(list[0].1 == index_field(list, name)->0);
        } else {
            let rest = list.skip(1);
            lemma_index_at(rest, name);
            match index_field(rest, name) {
                Some(field) => {
                    let i = choose|i: int|
                        0 <= i < rest.len() && (#[trigger] rest[i]).0 == name && rest[i].1 == field && (forall|j: int|
                            0 <= j < i ==> (#[trigger] rest[j]).0 != name);
                    assert(list[i + 1] == rest[i]);
                    assert forall|j: int| 0 <= j < i + 1 implies (#[trigger] list[j]).0 != name by {
                        if j > 0 {
                            assert(rest[j - 1] == list[j]);
                        }
                    }
                },
                None => {
                    assert forall|j: int| 0 <= j < list.len() implies (#[trigger] list[j]).0 != name by {
                        if j > 0 {
                            assert(rest[j - 1] == list[j]);
                        }
                    }
                },
            }
        }
    }
}

/// Whether an event makes a row under a key: it is JSON, its filtered field is as
/// the definition wants it, and its key field holds that text.
pub open spec fn makes_row(definition: QueryDefinition, record: RecordDto, key: Seq<char>) -> bool {
    &&& record.codec is Json
    &&& definition.filter matches Some((field, wanted)) ==> json_field_matches(record.payload@, field@, wanted@)
    &&& json_text_of(record.payload@, definition.key_field@) == Some(key)
}

/// An event becomes the row of its key, with its stream, and touches no other
/// row. It is refused exactly where it is JSON by name and cannot be read, or
/// where the value that the filter wants cannot.
pub proof fn lemma_rows_kept(definition: QueryDefinition, s: RowsView, record: RecordDto, key: Seq<char>)
    requires
        keys_ascend(s.rows),
        keys_ascend(s.streams),
    ensures
        match rows_applied(definition@, s, record@) {
            Err(e) => {
                &&& record.codec is Json
                &&& json_fault(record.payload@) is Some || (definition.filter matches Some((_, wanted)) && json_fault(wanted@) is Some)
                &&& json_fault(record.payload@) matches Some(text) ==> e == (FailureView { code: "invalid_json"@, message: text })
                &&& json_fault(record.payload@) is None ==> (definition.filter matches Some((_, wanted)) && e == (FailureView {
                    code: "invalid_filter"@,
                    message: json_fault(wanted@)->0,
                }))
            },
            Ok(after) => {
                &&& record.codec is Json ==> json_fault(record.payload@) is None
                &&& record.codec is Json ==> (definition.filter matches Some((_, wanted)) ==> json_fault(wanted@) is None)
                &&& keys_ascend(after.rows) && keys_ascend(after.streams)
                &&& if makes_row(definition, record, key) {
                    value_of(after.rows, key) == Some(record.payload@) && value_of(after.streams, key) == Some(record.stream_id@)
                } else {
                    value_of(after.rows, key) == value_of(s.rows, key) && value_of(after.streams, key) == value_of(s.streams, key)
                }
            },
        },
{
    if let Some(name) = json_text_of(record.payload@, definition.key_field@) {
        lemma_inserted(s.rows, name, record.payload@);
        lemma_inserted(s.streams, name, record.stream_id@);
    }
}

/// Whether a row's stream falls into a class: the first eight bytes of its
/// identity, little-endian, modulo the number of classes.
pub open spec fn of_class(streams: MetadataView, key: Seq<char>, count: u32, partition: u32) -> bool {
    value_of(streams, key) matches Some(stream) && spec_u64_from_le_bytes(stream.subrange(0, 8)) % (count as u64) == partition
}

/// The checkpoint of a class holds every row whose stream is of that class, with
/// its stream, once and in order, and no other row.
pub proof fn lemma_class_whole(s: RowsView, rows: MetadataView, count: u32, partition: u32)
    requires
        count > 0,
    ensures
        class_rows(s, rows, count, partition) == rows.filter(
            |row: (Seq<char>, Seq<u8>)| of_class(s.streams, row.0, count, partition),
        ).map_values(|row: (Seq<char>, Seq<u8>)| (row.0, value_of(s.streams, row.0)->0, row.1)),
    decreases rows.len(),
{
    let wanted = |row: (Seq<char>, Seq<u8>)| of_class(s.streams, row.0, count, partition);
    let with = |row: (Seq<char>, Seq<u8>)| (row.0, value_of(s.streams, row.0)->0, row.1);
    reveal(Seq::filter);
    if rows.len() > 0 {
        let front = rows.drop_last();
        lemma_class_whole(s, front, count, partition);
        let n = match value_of(s.streams, rows.last().0) {
            Some(stream) => spec_u64_from_le_bytes(stream.subrange(0, 8)),
            None => 0,
        };
        assert(n % (count as u64) < count);
        if wanted(rows.last()) {
            assert(front.filter(wanted).push(rows.last()).map_values(with) =~= front.filter(wanted).map_values(with).push(
                with(rows.last()),
            ));
        }
    } else {
        assert(rows.filter(wanted).map_values(with) =~= Seq::empty());
    }
}

/// Rows that are put over others take the places of those under the same keys,
/// and leave the others.
pub proof fn lemma_rows_over(m: MetadataView, more: MetadataView, key: Seq<char>)
    requires
        keys_ascend(m),
        keys_ascend(more),
    ensures
        keys_ascend(rows_over(m, more)),
        value_of(rows_over(m, more), key) == if has_key(more, key) {
            value_of(more, key)
        } else {
            value_of(m, key)
        },
    decreases more.len(),
{
    if more.len() > 0 {
        let n = more.len() - 1;
        let front = more.drop_last();
        assert forall|i: int, j: int| 0 <= i < j < front.len() implies crate::format::metadata::key_lt(
            (#[trigger] front[i]).0,
            (#[trigger] front[j]).0,
        ) by {
            assert(front[i] == more[i] && front[j] == more[j]);
        }
        lemma_rows_over(m, front, key);
        lemma_inserted(rows_over(m, front), more.last().0, more.last().1);
        lemma_value_of(more, n);
        if key == more[n].0 {
            assert(has_key(more, key));
        } else {
            if has_key(front, key) {
                let i = choose|i: int| 0 <= i < front.len() && (#[trigger] front[i]).0 == key;
                lemma_value_of(front, i);
                assert(more[i] == front[i]);
                lemma_value_of(more, i);
                assert(has_key(more, key));
            } else if has_key(more, key) {
                let i = choose|i: int| 0 <= i < more.len() && (#[trigger] more[i]).0 == key;
                assert(front[i].0 == key);
            }
        }
    }
}

} // verus!
