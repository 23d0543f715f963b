//! The pieces that typed payloads are made of, as the `bincode` crate writes
//! and reads them: fixed-width little-endian numbers, and byte strings under
//! their length.
use crate::bytes::{u32_at, u64_at};
use vstd::bytes::spec_u64_to_le_bytes;
use vstd::prelude::*;
use vstd::utf8::{decode_utf8, encode_utf8, valid_utf8};

verus! {

/// The byte string that stands under its length at a place, and where it ends.
pub open spec fn blob_at(bytes: Seq<u8>, at: int) -> Option<(Seq<u8>, int)> {
    let end = at + 8 + u64_at(bytes, at);
    if at + 8 > bytes.len() || end > bytes.len() {
        None
    } else {
        Some((bytes.subrange(at + 8, end), end))
    }
}

/// The text that stands under its length at a place, and where it ends.
pub open spec fn text_at(bytes: Seq<u8>, at: int) -> Option<(Seq<char>, int)> {
    match blob_at(bytes, at) {
        None => None,
        Some((blob, end)) => if valid_utf8(blob) {
            Some((decode_utf8(blob), end))
        } else {
            None
        },
    }
}

/// The truth value that stands at a place: a byte that is zero or one.
pub open spec fn flag_at(bytes: Seq<u8>, at: int) -> Option<bool> {
    if at >= bytes.len() || bytes[at] > 1 {
        None
    } else {
        Some(bytes[at] == 1)
    }
}

/// A byte string under its length.
pub open spec fn blob_bytes(blob: Seq<u8>) -> Seq<u8> {
    spec_u64_to_le_bytes(blob.len() as u64) + blob
}

/// A text under the length of its UTF-8 bytes.
pub open spec fn text_bytes(text: Seq<char>) -> Seq<u8> {
    blob_bytes(encode_utf8(text))
}

/// A byte string is read where it was written.
pub proof fn lemma_blob_at(before: Seq<u8>, blob: Seq<u8>, rest: Seq<u8>)
    requires
        blob.len() <= u64::MAX,
    ensures
        blob_at(before + blob_bytes(blob) + rest, before.len() as int) == Some((blob, before.len() as int + 8 + blob.len())),
{
    crate::bytes::lemma_le_codec();
    let all = before + blob_bytes(blob) + rest;
    let at = before.len() as int;
    assert(all.subrange(at, at + 8) =~= spec_u64_to_le_bytes(blob.len() as u64));
    assert(all.subrange(at + 8, at + 8 + blob.len()) =~= blob);
}

/// A text is read where it was written.
pub proof fn lemma_text_at(before: Seq<u8>, text: Seq<char>, rest: Seq<u8>)
    requires
        encode_utf8(text).len() <= u64::MAX,
    ensures
        text_at(before + text_bytes(text) + rest, before.len() as int) == Some((text, before.len() as int + 8 + encode_utf8(text).len())),
{
    lemma_blob_at(before, encode_utf8(text), rest);
    crate::text::lemma_utf8_round_trip(text);
}

/// Where the bytes before it do not matter, what stands at a place does not
/// either.
pub proof fn lemma_blob_shift(bytes: Seq<u8>, at: int)
    requires
        0 <= at <= bytes.len(),
    ensures
        blob_at(bytes.skip(at), 0) == match blob_at(bytes, at) {
            Some((blob, end)) => Some((blob, end - at)),
            None => None,
        },
{
    let rest = bytes.skip(at);
    if rest.len() >= 8 {
        assert(rest.subrange(0, 8) =~= bytes.subrange(at, at + 8));
        if blob_at(bytes, at) is Some {
            let end = at + 8 + u64_at(bytes, at);
            assert(rest.subrange(8, end - at) =~= bytes.subrange(at + 8, end));
        }
    }
}

/// `bincode::deserialize` into a `u32`: four little-endian bytes; what follows
/// them is passed over. The text of its error is left open.
#[verifier::external_body]
pub(crate) fn read_word(bytes: &[u8]) -> (r: core::result::Result<u32, String>)
    ensures
        r is Ok <==> bytes@.len() >= 4,
        r matches Ok(word) ==> word == u32_at(bytes@, 0),
{
    bincode::deserialize::<u32>(bytes).map_err(|error| error.to_string())
}

/// `bincode::deserialize` into a `u64`: eight little-endian bytes; what follows
/// them is passed over. The text of its error is left open.
#[verifier::external_body]
pub(crate) fn read_long(bytes: &[u8]) -> (r: core::result::Result<u64, String>)
    ensures
        r is Ok <==> bytes@.len() >= 8,
        r matches Ok(long) ==> long == u64_at(bytes@, 0),
{
    bincode::deserialize::<u64>(bytes).map_err(|error| error.to_string())
}

/// `bincode::deserialize` into a `bool`: one byte, which is zero or one; what
/// follows it is passed over. The text of its error is left open.
#[verifier::external_body]
pub(crate) fn read_flag(bytes: &[u8]) -> (r: core::result::Result<bool, String>)
    ensures
        r is Ok <==> flag_at(bytes@, 0) is Some,
        r matches Ok(flag) ==> Some(flag) == flag_at(bytes@, 0),
{
    bincode::deserialize::<bool>(bytes).map_err(|error| error.to_string())
}

/// `bincode::deserialize` into a text: eight little-endian bytes of length,
/// then as many bytes of UTF-8; what follows them is passed over. The text of
/// its error is left open.
#[verifier::external_body]
pub(crate) fn read_text(bytes: &[u8]) -> (r: core::result::Result<String, String>)
    ensures
        match text_at(bytes@, 0) {
            Some((text, _)) => r matches Ok(s) && s@ == text,
            None => r is Err,
        },
{
    bincode::deserialize::<String>(bytes).map_err(|error| error.to_string())
}

/// `bincode::deserialize` into a byte string: eight little-endian bytes of
/// length, then as many bytes; what follows them is passed over. The text of
/// its error is left open.
#[verifier::external_body]
pub(crate) fn read_blob(bytes: &[u8]) -> (r: core::result::Result<Vec<u8>, String>)
    ensures
        match blob_at(bytes@, 0) {
            Some((blob, _)) => r matches Ok(out) && out@ == blob,
            None => r is Err,
        },
{
    bincode::deserialize::<Vec<u8>>(bytes).map_err(|error| error.to_string())
}

/// `bincode::serialize` of a text, which is written as eight little-endian bytes
/// of length and its UTF-8 bytes. Nothing there can fail.
#[verifier::external_body]
pub(crate) fn write_text(text: &str) -> (r: Vec<u8>)
    ensures
        r@ == text_bytes(text@),
{
    bincode::serialize(text).unwrap()
}

/// `bincode::serialize` of a byte string, which is written as eight
/// little-endian bytes of length and the bytes. Nothing there can fail.
#[verifier::external_body]
pub(crate) fn write_blob(blob: &[u8]) -> (r: Vec<u8>)
    ensures
        r@ == blob_bytes(blob@),
{
    bincode::serialize(blob).unwrap()
}

/// A place in a byte string that pieces are read from one after the other.
pub struct PieceReader<'a> {
    bytes: &'a [u8],
    at: usize,
}

impl<'a> PieceReader<'a> {
    #[verifier::type_invariant]
    spec fn inv(self) -> bool {
        self.at <= self.bytes@.len()
    }

    /// What is read from.
    pub closed spec fn bytes(self) -> Seq<u8> {
        self.bytes@
    }

    /// Where the next piece begins.
    pub closed spec fn at(self) -> int {
        self.at as int
    }

    pub fn new(bytes: &'a [u8]) -> (r: Self)
        ensures
            r.bytes() == bytes@,
            r.at() == 0,
    {
        PieceReader { bytes, at: 0 }
    }

    /// The bytes that no piece was read from yet.
    pub fn rest(&self) -> (r: &'a [u8])
        ensures
            0 <= self.at() <= self.bytes().len() <= usize::MAX,
            r@ == self.bytes().skip(self.at()),
    {
        proof {
            use_type_invariant(self);
        }
        let rest = vstd::slice::slice_subrange(self.bytes, self.at, self.bytes.len());
        assert(rest@ =~= self.bytes@.skip(self.at as int));
        rest
    }

    pub fn word(&mut self) -> (r: core::result::Result<u32, String>)
        ensures
            final(self).bytes() == old(self).bytes(),
            r is Ok <==> old(self).at() + 4 <= old(self).bytes().len(),
            r matches Ok(word) ==> word == u32_at(old(self).bytes(), old(self).at()) && final(self).at() == old(self).at() + 4,
    {
        let rest = self.rest();
        proof {
            use_type_invariant(&*self);
            if rest@.len() >= 4 {
                assert(rest@.subrange(0, 4) =~= self.bytes@.subrange(self.at as int, self.at + 4));
            }
        }
        match read_word(rest) {
            Ok(word) => {
                let at: usize = self.at + 4;
                self.at = at;
                Ok(word)
            },
            Err(e) => Err(e),
        }
    }

    pub fn long(&mut self) -> (r: core::result::Result<u64, String>)
        ensures
            final(self).bytes() == old(self).bytes(),
            r is Ok <==> old(self).at() + 8 <= old(self).bytes().len(),
            r matches Ok(long) ==> long == u64_at(old(self).bytes(), old(self).at()) && final(self).at() == old(self).at() + 8,
    {
        let rest = self.rest();
        proof {
            use_type_invariant(&*self);
            if rest@.len() >= 8 {
                assert(rest@.subrange(0, 8) =~= self.bytes@.subrange(self.at as int, self.at + 8));
            }
        }
        match read_long(rest) {
            Ok(long) => {
                let at: usize = self.at + 8;
                self.at = at;
                Ok(long)
            },
            Err(e) => Err(e),
        }
    }

    pub fn flag(&mut self) -> (r: core::result::Result<bool, String>)
        ensures
            final(self).bytes() == old(self).bytes(),
            r is Ok <==> flag_at(old(self).bytes(), old(self).at()) is Some,
            r matches Ok(flag) ==> Some(flag) == flag_at(old(self).bytes(), old(self).at()) && final(self).at() == old(self).at() + 1,
    {
        let rest = self.rest();
        proof {
            use_type_invariant(&*self);
            if rest@.len() >= 1 {
                assert(rest@[0] == self.bytes@[self.at as int]);
            }
        }
        match read_flag(rest) {
            Ok(flag) => {
                let at: usize = self.at + 1;
                self.at = at;
                Ok(flag)
            },
            Err(e) => Err(e),
        }
    }

    pub fn text(&mut self) -> (r: core::result::Result<String, String>)
        ensures
            final(self).bytes() == old(self).bytes(),
            match text_at(old(self).bytes(), old(self).at()) {
                Some((text, end)) => r matches Ok(s) && s@ == text && final(self).at() == end,
                None => r is Err,
            },
    {
        let rest = self.rest();
        proof {
            use_type_invariant(&*self);
            lemma_blob_shift(self.bytes@, self.at as int);
        }
        match read_text(rest) {
            Ok(text) => {
                proof {
                    let blob = (blob_at(self.bytes@, self.at as int)->0).0;
                    vstd::utf8::decode_utf8_encode_utf8(blob);
                }
                let at: usize = self.at + 8 + text.as_str().as_bytes().len();
                self.at = at;
                Ok(text)
            },
            Err(e) => Err(e),
        }
    }

    pub fn blob(&mut self) -> (r: core::result::Result<Vec<u8>, String>)
        ensures
            final(self).bytes() == old(self).bytes(),
            match blob_at(old(self).bytes(), old(self).at()) {
                Some((blob, end)) => r matches Ok(out) && out@ == blob && final(self).at() == end,
                None => r is Err,
            },
    {
        let rest = self.rest();
        proof {
            use_type_invariant(&*self);
            lemma_blob_shift(self.bytes@, self.at as int);
        }
        match read_blob(rest) {
            Ok(blob) => {
                let at: usize = self.at + 8 + blob.len();
                self.at = at;
                Ok(blob)
            },
            Err(e) => Err(e),
        }
    }
}

} // verus!
