//! JSON and binary encodings that are read and written with outside crates.
use crate::bytes::{u32_at, u64_at};
use crate::format::metadata::{keys_ascend, MetadataView};
use std::collections::BTreeMap;
use vstd::bytes::{spec_u32_to_le_bytes, spec_u64_to_le_bytes};
use vstd::prelude::*;
use vstd::slice::slice_to_vec;
use vstd::utf8::encode_utf8;

verus! {

/// Why bytes are no JSON document, if they are none.
pub uninterp spec fn json_fault(payload: Seq<u8>) -> Option<Seq<char>>;

/// The text that a JSON document is written as when it was read, if it is one:
/// without blanks, the fields of each object in order and once each.
pub uninterp spec fn json_compact_of(payload: Seq<u8>) -> Option<Seq<char>>;

/// The text under a field of a JSON object, if it holds one there.
pub uninterp spec fn json_text_of(payload: Seq<u8>, field: Seq<char>) -> Option<Seq<char>>;

/// The unsigned number under a field of a JSON object, if it holds one there.
pub uninterp spec fn json_number_of(payload: Seq<u8>, field: Seq<char>) -> Option<u64>;

/// The JSON text of what a JSON object holds under a field, if it does.
pub uninterp spec fn json_part_of(payload: Seq<u8>, field: Seq<char>) -> Option<Seq<char>>;

/// Whether a JSON object holds under a field what a second document is.
pub uninterp spec fn json_field_matches(payload: Seq<u8>, field: Seq<char>, expected: Seq<u8>) -> bool;

/// The JSON document of rows, each a list of bytes under its key.
pub uninterp spec fn json_rows(rows: Seq<(Seq<char>, Seq<u8>)>) -> Seq<u8>;

/// The rows of a JSON document, or why it holds none.
pub uninterp spec fn json_rows_of(state: Seq<u8>) -> core::result::Result<Seq<(Seq<char>, Seq<u8>)>, Seq<char>>;

/// The JSON document of rows with their streams.
pub uninterp spec fn json_stream_rows(rows: Seq<(Seq<char>, Seq<u8>, Seq<u8>)>) -> Seq<u8>;

/// The rows and streams of a JSON document, or why it holds none.
pub uninterp spec fn json_stream_rows_of(state: Seq<u8>) -> core::result::Result<Seq<(Seq<char>, Seq<u8>, Seq<u8>)>, Seq<char>>;

/// An optional text as plain characters.
pub open spec fn text_view(text: Option<String>) -> Option<Seq<char>> {
    match text {
        Some(text) => Some(text@),
        None => None,
    }
}

/// An optional byte string as a plain one.
pub open spec fn bytes_view(bytes: Option<Vec<u8>>) -> Option<Seq<u8>> {
    match bytes {
        Some(bytes) => Some(bytes@),
        None => None,
    }
}

/// `serde_json::from_slice` into a `serde_json::Value`: why it fails, or
/// nothing where it succeeds. Its outcome depends on the bytes alone, and is
/// named.
#[verifier::external_body]
pub(crate) fn check_json(payload: &[u8]) -> (r: Option<String>)
    ensures
        text_view(r) == json_fault(payload@),
{
    match serde_json::from_slice::<serde_json::Value>(payload) {
        Ok(_) => None,
        Err(error) => Some(error.to_string()),
    }
}

/// `Display` of the `serde_json::Value` that `serde_json::from_slice` reads,
/// which there is exactly where the bytes are a document. The text depends on
/// the bytes alone, and is named. That it is read again as the same value is
/// left open, since it is not so of every number with a fraction.
#[verifier::external_body]
pub(crate) fn compact_json(payload: &[u8]) -> (r: Option<String>)
    ensures
        text_view(r) == json_compact_of(payload@),
        r is Some <==> json_fault(payload@) is None,
{
    let value = serde_json::from_slice::<serde_json::Value>(payload).ok()?;
    Some(value.to_string())
}

/// `serde_json::Value::get` on a document that `serde_json::from_slice` reads,
/// taken as text where it is one. What comes of it depends on the bytes and the
/// field alone, and is named.
#[verifier::external_body]
pub(crate) fn json_text(payload: &[u8], field: &str) -> (r: Option<String>)
    ensures
        text_view(r) == json_text_of(payload@, field@),
{
    let value = serde_json::from_slice::<serde_json::Value>(payload).ok()?;
    value.get(field).and_then(serde_json::Value::as_str).map(str::to_owned)
}

/// `serde_json::Value::get` on a document that `serde_json::from_slice` reads,
/// then `serde_json::Value::as_u64`. What comes of it depends on the bytes and
/// the field alone, and is named.
#[verifier::external_body]
pub(crate) fn json_number(payload: &[u8], field: &str) -> (r: Option<u64>)
    ensures
        r == json_number_of(payload@, field@),
{
    let value = serde_json::from_slice::<serde_json::Value>(payload).ok()?;
    value.get(field)?.as_u64()
}

/// `serde_json::Value::get` on a document that `serde_json::from_slice` reads,
/// then `Display` of `serde_json::Value`. What comes of it depends on the bytes
/// and the field alone, and is named.
#[verifier::external_body]
pub(crate) fn json_part(payload: &[u8], field: &str) -> (r: Option<String>)
    ensures
        text_view(r) == json_part_of(payload@, field@),
{
    let value = serde_json::from_slice::<serde_json::Value>(payload).ok()?;
    value.get(field).map(|part| part.to_string())
}

/// `PartialEq` of `serde_json::Value`, on what one document holds under a field
/// (`serde_json::Value::get`) and on a second document, both read by
/// `serde_json::from_slice`. What comes of it depends on the arguments alone,
/// and is named.
#[verifier::external_body]
pub(crate) fn json_field_equals(payload: &[u8], field: &str, expected: &[u8]) -> (r: bool)
    requires
        json_fault(payload@) is None,
        json_fault(expected@) is None,
    ensures
        r == json_field_matches(payload@, field@, expected@),
{
    let value: serde_json::Value = serde_json::from_slice(payload).unwrap();
    let expected: serde_json::Value = serde_json::from_slice(expected).unwrap();
    value.get(field) == Some(&expected)
}

/// What a JSON object is indexed by under a field: the bytes of a text, or the
/// bytes of any other value's own JSON text.
pub open spec fn json_index_of(payload: Seq<u8>, field: Seq<char>) -> Option<Seq<u8>> {
    match json_text_of(payload, field) {
        Some(text) => Some(encode_utf8(text)),
        None => match json_part_of(payload, field) {
            Some(part) => Some(encode_utf8(part)),
            None => None,
        },
    }
}

/// What a JSON object is indexed by under a field.
pub(crate) fn json_index_key(payload: &[u8], field: &str) -> (r: Option<Vec<u8>>)
    ensures
        bytes_view(r) == json_index_of(payload@, field@),
{
    match json_text(payload, field) {
        Some(text) => Some(slice_to_vec(text.as_str().as_bytes())),
        None => match json_part(payload, field) {
            Some(part) => Some(slice_to_vec(part.as_str().as_bytes())),
            None => None,
        },
    }
}

/// Rows as plain values.
pub open spec fn row_views(rows: Seq<(String, Vec<u8>)>) -> Seq<(Seq<char>, Seq<u8>)> {
    Seq::new(rows.len(), |i: int| (rows[i].0@, rows[i].1@))
}

/// `serde_json::to_vec` of a map from keys to byte lists. Texts as keys and
/// numbers as elements can always be written. The document depends on the rows
/// alone, and is named.
#[verifier::external_body]
pub(crate) fn write_rows(rows: Vec<(String, Vec<u8>)>) -> (r: core::result::Result<Vec<u8>, String>)
    requires
        keys_ascend(row_views(rows@)),
    ensures
        r is Ok,
        r matches Ok(bytes) ==> bytes@ == json_rows(row_views(rows@)),
{
    match serde_json::to_vec(&rows.into_iter().collect::<BTreeMap<String, Vec<u8>>>()) {
        Ok(bytes) => Ok(bytes),
        Err(error) => Err(error.to_string()),
    }
}

/// Whether the document of some rows was read as those rows.
pub open spec fn rows_read_back(state: Seq<u8>, r: core::result::Result<Vec<(String, Vec<u8>)>, String>) -> bool {
    forall|rows: MetadataView| #[trigger]
        json_rows(rows) == state && keys_ascend(rows) ==> (r matches Ok(out) && row_views(out@) == rows)
}

/// `serde_json::from_slice` into a map from keys to byte lists, its entries in
/// key order. What comes of it depends on the bytes alone, and is named; the
/// document of some rows reads as those rows.
#[verifier::external_body]
pub(crate) fn read_rows(state: &[u8]) -> (r: core::result::Result<Vec<(String, Vec<u8>)>, String>)
    ensures
        match json_rows_of(state@) {
            Ok(rows) => r matches Ok(out) && row_views(out@) == rows && keys_ascend(row_views(out@)),
            Err(text) => r matches Err(error) && error@ == text,
        },
        rows_read_back(state@, r),
{
    match serde_json::from_slice::<BTreeMap<String, Vec<u8>>>(state) {
        Ok(rows) => Ok(rows.into_iter().collect()),
        Err(error) => Err(error.to_string()),
    }
}

/// Rows with their streams, as plain values.
pub open spec fn stream_row_views(rows: Seq<(String, [u8; 16], Vec<u8>)>) -> Seq<(Seq<char>, Seq<u8>, Seq<u8>)> {
    Seq::new(rows.len(), |i: int| (rows[i].0@, rows[i].1@, rows[i].2@))
}

/// The keys and values of rows with streams.
pub open spec fn without_streams(rows: Seq<(Seq<char>, Seq<u8>, Seq<u8>)>) -> MetadataView {
    Seq::new(rows.len(), |i: int| (rows[i].0, rows[i].2))
}

/// The keys and streams of rows with streams.
pub open spec fn only_streams(rows: Seq<(Seq<char>, Seq<u8>, Seq<u8>)>) -> MetadataView {
    Seq::new(rows.len(), |i: int| (rows[i].0, rows[i].1))
}

/// `serde_json::to_vec` of a map from keys to pairs of a stream's identity and
/// a byte list. Texts as keys and numbers as elements can always be written.
/// The document depends on the rows alone, and is named.
#[verifier::external_body]
pub(crate) fn write_stream_rows(rows: Vec<(String, [u8; 16], Vec<u8>)>) -> (r: core::result::Result<Vec<u8>, String>)
    requires
        keys_ascend(without_streams(stream_row_views(rows@))),
    ensures
        r is Ok,
        r matches Ok(bytes) ==> bytes@ == json_stream_rows(stream_row_views(rows@)),
{
    let map: BTreeMap<String, ([u8; 16], Vec<u8>)> = rows.into_iter().map(|row| (row.0, (row.1, row.2))).collect();
    match serde_json::to_vec(&map) {
        Ok(bytes) => Ok(bytes),
        Err(error) => Err(error.to_string()),
    }
}

/// Whether the document of some rows with streams was read as those rows.
pub open spec fn stream_rows_read_back(state: Seq<u8>, r: core::result::Result<Vec<(String, [u8; 16], Vec<u8>)>, String>) -> bool {
    forall|rows: Seq<(Seq<char>, Seq<u8>, Seq<u8>)>| #[trigger]
        json_stream_rows(rows) == state && keys_ascend(without_streams(rows)) && stream_lengths(rows) ==> (r matches Ok(out)
            && stream_row_views(out@) == rows)
}

/// Whether every stream's identity has sixteen bytes.
pub open spec fn stream_lengths(rows: Seq<(Seq<char>, Seq<u8>, Seq<u8>)>) -> bool {
    forall|i: int| 0 <= i < rows.len() ==> (#[trigger] rows[i]).1.len() == 16
}

/// `serde_json::from_slice` into a map from keys to pairs of a stream's
/// identity and a byte list, its entries in key order. What comes of it depends
/// on the bytes alone, and is named; the document of some rows reads as those
/// rows.
#[verifier::external_body]
pub(crate) fn read_stream_rows(state: &[u8]) -> (r: core::result::Result<Vec<(String, [u8; 16], Vec<u8>)>, String>)
    ensures
        match json_stream_rows_of(state@) {
            Ok(rows) => r matches Ok(out) && stream_row_views(out@) == rows && keys_ascend(without_streams(rows)),
            Err(text) => r matches Err(error) && error@ == text,
        },
        stream_rows_read_back(state@, r),
{
    match serde_json::from_slice::<BTreeMap<String, ([u8; 16], Vec<u8>)>>(state) {
        Ok(rows) => Ok(rows.into_iter().map(|row| (row.0, row.1.0, row.1.1)).collect()),
        Err(error) => Err(error.to_string()),
    }
}

/// The stored form of an event of the service boundary: the number of its
/// codec, the length of its bytes, and the bytes.
pub open spec fn tagged_bytes(tag: u32, bytes: Seq<u8>) -> Seq<u8> {
    spec_u32_to_le_bytes(tag) + spec_u64_to_le_bytes(bytes.len() as u64) + bytes
}

/// `bincode::serialize` of a number and a byte string, which are written as
/// four bytes, eight bytes of length, and the bytes, all little-endian. Nothing
/// there can fail.
#[verifier::external_body]
pub(crate) fn write_tagged(tag: u32, bytes: &[u8]) -> (r: Vec<u8>)
    ensures
        r@ == tagged_bytes(tag, bytes@),
{
    bincode::serialize(&(tag, bytes)).unwrap()
}

/// Whether bytes begin with a number and a byte string.
pub open spec fn is_tagged(payload: Seq<u8>) -> bool {
    payload.len() >= 12 && u64_at(payload, 4) <= payload.len() - 12
}

/// `bincode::deserialize` into a number and a byte string; what follows them is
/// passed over. The text of its error is left open, since it speaks of the
/// machine's sizes.
#[verifier::external_body]
pub(crate) fn read_tagged(payload: &[u8]) -> (r: core::result::Result<(u32, Vec<u8>), String>)
    ensures
        r is Ok <==> is_tagged(payload@),
        r matches Ok((tag, bytes)) ==> tag == u32_at(payload@, 0) && bytes@ == payload@.subrange(
            12,
            12 + u64_at(payload@, 4),
        ),
{
    match bincode::deserialize::<(u32, Vec<u8>)>(payload) {
        Ok(pair) => Ok(pair),
        Err(error) => Err(error.to_string()),
    }
}

} // verus!
