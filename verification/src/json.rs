//! Dynamic JSON as a payload. A JSON document is stored as its text under the
//! text's length, since the payload codec reads no format that describes itself.
use crate::binary::{read_text, text_at, text_bytes, write_text};
use crate::event::Body;
use crate::facade::json::{check_json, compact_json, json_compact_of, json_fault};
use vstd::prelude::*;
use vstd::utf8::encode_utf8;

verus! {

/// Whether a text is what some JSON document is written as.
pub open spec fn is_written_json(text: Seq<char>) -> bool {
    exists|document: Seq<u8>| #[trigger] json_compact_of(document) == Some(text)
}

/// A JSON document, held as the text that it is written as.
#[derive(Debug, PartialEq, Eq)]
pub struct Json(String);

impl View for Json {
    type V = Seq<char>;

    closed spec fn view(&self) -> Seq<char> {
        self.0@
    }
}

impl Json {
    #[verifier::type_invariant]
    spec fn inv(self) -> bool {
        is_written_json(self.0@)
    }

    /// The document of a text, or why the text is none.
    pub fn new(text: String) -> (r: core::result::Result<Self, String>)
        ensures
            match json_fault(encode_utf8(text@)) {
                None => r matches Ok(json) && json_compact_of(encode_utf8(text@)) == Some(json@),
                Some(fault) => r matches Err(e) && e@ == fault,
            },
    {
        Json::from_bytes(text.as_str().as_bytes())
    }

    /// The document of bytes, or why they are none.
    pub fn from_bytes(bytes: &[u8]) -> (r: core::result::Result<Self, String>)
        ensures
            match json_fault(bytes@) {
                None => r matches Ok(json) && json_compact_of(bytes@) == Some(json@),
                Some(fault) => r matches Err(e) && e@ == fault,
            },
            r is Ok <==> json_compact_of(bytes@) is Some,
    {
        match compact_json(bytes) {
            Some(text) => Ok(Json(text)),
            None => Err(check_json(bytes).unwrap()),
        }
    }

    pub fn as_str(&self) -> (r: &str)
        ensures
            r@ == self@,
            is_written_json(r@),
    {
        proof {
            use_type_invariant(self);
        }
        self.0.as_str()
    }

    /// The document's text.
    pub fn into_inner(self) -> (r: String)
        ensures
            r@ == self@,
            is_written_json(r@),
    {
        proof {
            use_type_invariant(&self);
        }
        self.0
    }
}

impl Clone for Json {
    fn clone(&self) -> (r: Self)
        ensures
            r@ == self@,
    {
        proof {
            use_type_invariant(self);
        }
        Json(self.0.clone())
    }
}

impl Body for Json {
    type Model = Seq<char>;

    open spec fn model(&self) -> Seq<char> {
        self@
    }

    open spec fn reading(bytes: Seq<u8>) -> Option<Seq<char>> {
        match text_at(bytes, 0) {
            Some((text, _)) => json_compact_of(encode_utf8(text)),
            None => None,
        }
    }

    open spec fn writing(model: Seq<char>) -> Seq<u8> {
        text_bytes(model)
    }

    fn decode(bytes: &[u8]) -> (r: core::result::Result<Self, String>) {
        match read_text(bytes) {
            Ok(text) => Json::from_bytes(text.as_str().as_bytes()),
            Err(e) => Err(e),
        }
    }

    fn encode(&self) -> (bytes: Vec<u8>) {
        write_text(self.as_str())
    }
}

/// A document is read back as the document of the text that it was written as;
/// that is the same document where the text is written as itself.
pub proof fn lemma_json_round_trip(text: Seq<char>)
    requires
        encode_utf8(text).len() <= u64::MAX,
    ensures
        Json::reading(Json::writing(text)) == json_compact_of(encode_utf8(text)),
{
    let none = Seq::<u8>::empty();
    crate::binary::lemma_text_at(none, text, none);
    assert(none + text_bytes(text) + none =~= text_bytes(text));
}

} // verus!
