//! Codecs of typed payloads.
use crate::error::{ErrorView, Result, SalamanderError};
use crate::event::Body;
use crate::facade::json::{json_compact_of, json_fault};
use crate::format::ids::{CodecId, JSON_UTF8, RUST_BINCODE_V1};
use crate::json::Json;
use vstd::prelude::*;
use vstd::utf8::encode_utf8;

verus! {

/// How payloads of a type become bytes, under a codec's number.
pub trait TypedCodec<T> {
    /// The codec's number.
    spec fn number(&self) -> u32;

    /// Whether bytes are what a value is written as.
    spec fn written(&self, value: T, bytes: Seq<u8>) -> bool;

    /// Whether bytes are read as a value; without one, whether they are read at
    /// all.
    spec fn read(&self, bytes: Seq<u8>, value: Option<T>) -> bool;

    /// Whether an error is what bytes that are not read give.
    spec fn refused(&self, bytes: Seq<u8>, e: ErrorView) -> bool;

    fn id(&self) -> (r: CodecId)
        ensures
            r.0 == self.number(),
    ;

    fn encode(&self, value: &T) -> (r: Result<Vec<u8>>)
        ensures
            r matches Ok(bytes) && self.written(*value, bytes@),
    ;

    fn decode(&self, bytes: &[u8]) -> (r: Result<T>)
        ensures
            r is Ok <==> self.read(bytes@, None),
            r matches Ok(value) ==> self.read(bytes@, Some(value)),
            r matches Err(e) ==> self.refused(bytes@, e@),
    ;
}

/// Portable JSON.
#[derive(Debug, Clone, Copy)]
pub struct JsonCodec;

impl TypedCodec<Json> for JsonCodec {
    open spec fn number(&self) -> u32 {
        JSON_UTF8
    }

    open spec fn written(&self, value: Json, bytes: Seq<u8>) -> bool {
        bytes == encode_utf8(value@)
    }

    open spec fn read(&self, bytes: Seq<u8>, value: Option<Json>) -> bool {
        &&& json_fault(bytes) is None
        &&& value matches Some(json) ==> json_compact_of(bytes) == Some(json@)
    }

    open spec fn refused(&self, bytes: Seq<u8>, e: ErrorView) -> bool {
        json_fault(bytes) matches Some(fault) && e == ErrorView::Codec(fault)
    }

    fn id(&self) -> (r: CodecId) {
        CodecId::json_utf8()
    }

    fn encode(&self, value: &Json) -> (r: Result<Vec<u8>>) {
        Ok(vstd::slice::slice_to_vec(value.as_str().as_bytes()))
    }

    fn decode(&self, bytes: &[u8]) -> (r: Result<Json>) {
        match Json::from_bytes(bytes) {
            Ok(json) => Ok(json),
            Err(fault) => Err(SalamanderError::Codec(fault)),
        }
    }
}

/// The binary form of typed payloads.
#[derive(Debug, Clone, Copy)]
pub struct BincodeCodec;

impl<B: Body> TypedCodec<B> for BincodeCodec {
    open spec fn number(&self) -> u32 {
        RUST_BINCODE_V1
    }

    open spec fn written(&self, value: B, bytes: Seq<u8>) -> bool {
        bytes == B::writing(value.model())
    }

    open spec fn read(&self, bytes: Seq<u8>, value: Option<B>) -> bool {
        &&& B::reading(bytes) is Some
        &&& value matches Some(body) ==> B::reading(bytes) == Some(body.model())
    }

    /// The text is what the payload's own reader gave.
    open spec fn refused(&self, bytes: Seq<u8>, e: ErrorView) -> bool {
        e is Codec
    }

    fn id(&self) -> (r: CodecId) {
        CodecId::rust_bincode_v1()
    }

    fn encode(&self, value: &B) -> (r: Result<Vec<u8>>) {
        Ok(value.encode())
    }

    fn decode(&self, bytes: &[u8]) -> (r: Result<B>) {
        match B::decode(bytes) {
            Ok(body) => Ok(body),
            Err(e) => Err(SalamanderError::Codec(e)),
        }
    }
}

} // verus!
