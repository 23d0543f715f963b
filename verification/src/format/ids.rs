//! The 128-bit identities of the engine and the small value types beside them.
use crate::bytes::{bytes_less, lex_lt, same16, zero16};
use crate::error::{invalid_format, ErrorView, Result};
use vstd::prelude::*;
use vstd::utf8::encode_utf8;

verus! {

/// The identity of a database.
#[derive(Debug, Clone, Copy, Eq, PartialOrd, Ord, Hash)]
pub struct DatabaseId([u8; 16]);

impl View for DatabaseId {
    type V = Seq<u8>;

    closed spec fn view(&self) -> Seq<u8> {
        self.0@
    }
}

impl PartialEq for DatabaseId {
    fn eq(&self, other: &Self) -> (r: bool) {
        same16(&self.0, &other.0)
    }
}

impl vstd::std_specs::cmp::PartialEqSpecImpl for DatabaseId {
    open spec fn obeys_eq_spec() -> bool {
        true
    }

    open spec fn eq_spec(&self, other: &Self) -> bool {
        self@ == other@
    }
}

impl Default for DatabaseId {
    fn default() -> (r: Self)
        ensures
            r@ == zero16(),
    {
        DatabaseId::zero()
    }
}

impl DatabaseId {
    /// Sixteen zero bytes.
    pub fn zero() -> (r: Self)
        ensures
            r@ == zero16(),
    {
        let r = DatabaseId([0u8; 16]);
        assert(r@ =~= zero16());
        r
    }

    pub fn from_bytes(bytes: [u8; 16]) -> (r: Self)
        ensures
            r@ == bytes@,
    {
        DatabaseId(bytes)
    }

    pub fn as_bytes(&self) -> (r: &[u8; 16])
        ensures
            r@ == self@,
    {
        &self.0
    }

    pub fn into_bytes(self) -> (r: [u8; 16])
        ensures
            r@ == self@,
    {
        self.0
    }

    pub fn is_zero(&self) -> (r: bool)
        ensures
            r == (self@ == zero16()),
    {
        *self == DatabaseId::zero()
    }

    /// The byte-wise order of identities.
    pub fn less(&self, other: &Self) -> (r: bool)
        ensures
            r == lex_lt(self@, other@),
    {
        bytes_less(&self.0, &other.0)
    }

    /// An identity always holds sixteen bytes.
    pub broadcast proof fn lemma_len(&self)
        ensures
            (#[trigger] self@).len() == 16,
    {
    }
}

/// The identity of an event.
#[derive(Debug, Clone, Copy, Eq, PartialOrd, Ord, Hash)]
pub struct EventId([u8; 16]);

impl View for EventId {
    type V = Seq<u8>;

    closed spec fn view(&self) -> Seq<u8> {
        self.0@
    }
}

impl PartialEq for EventId {
    fn eq(&self, other: &Self) -> (r: bool) {
        same16(&self.0, &other.0)
    }
}

impl vstd::std_specs::cmp::PartialEqSpecImpl for EventId {
    open spec fn obeys_eq_spec() -> bool {
        true
    }

    open spec fn eq_spec(&self, other: &Self) -> bool {
        self@ == other@
    }
}

impl Default for EventId {
    fn default() -> (r: Self)
        ensures
            r@ == zero16(),
    {
        EventId::zero()
    }
}

impl EventId {
    /// Sixteen zero bytes.
    pub fn zero() -> (r: Self)
        ensures
            r@ == zero16(),
    {
        let r = EventId([0u8; 16]);
        assert(r@ =~= zero16());
        r
    }

    pub fn from_bytes(bytes: [u8; 16]) -> (r: Self)
        ensures
            r@ == bytes@,
    {
        EventId(bytes)
    }

    pub fn as_bytes(&self) -> (r: &[u8; 16])
        ensures
            r@ == self@,
    {
        &self.0
    }

    pub fn into_bytes(self) -> (r: [u8; 16])
        ensures
            r@ == self@,
    {
        self.0
    }

    pub fn is_zero(&self) -> (r: bool)
        ensures
            r == (self@ == zero16()),
    {
        *self == EventId::zero()
    }

    /// The byte-wise order of identities.
    pub fn less(&self, other: &Self) -> (r: bool)
        ensures
            r == lex_lt(self@, other@),
    {
        bytes_less(&self.0, &other.0)
    }

    /// An identity always holds sixteen bytes.
    pub broadcast proof fn lemma_len(&self)
        ensures
            (#[trigger] self@).len() == 16,
    {
    }
}

/// The identity of a branch.
#[derive(Debug, Clone, Copy, Eq, PartialOrd, Ord, Hash)]
pub struct BranchId([u8; 16]);

impl View for BranchId {
    type V = Seq<u8>;

    closed spec fn view(&self) -> Seq<u8> {
        self.0@
    }
}

impl PartialEq for BranchId {
    fn eq(&self, other: &Self) -> (r: bool) {
        same16(&self.0, &other.0)
    }
}

impl vstd::std_specs::cmp::PartialEqSpecImpl for BranchId {
    open spec fn obeys_eq_spec() -> bool {
        true
    }

    open spec fn eq_spec(&self, other: &Self) -> bool {
        self@ == other@
    }
}

impl Default for BranchId {
    fn default() -> (r: Self)
        ensures
            r@ == zero16(),
    {
        BranchId::zero()
    }
}

impl BranchId {
    /// Sixteen zero bytes.
    pub fn zero() -> (r: Self)
        ensures
            r@ == zero16(),
    {
        let r = BranchId([0u8; 16]);
        assert(r@ =~= zero16());
        r
    }

    pub fn from_bytes(bytes: [u8; 16]) -> (r: Self)
        ensures
            r@ == bytes@,
    {
        BranchId(bytes)
    }

    pub fn as_bytes(&self) -> (r: &[u8; 16])
        ensures
            r@ == self@,
    {
        &self.0
    }

    pub fn into_bytes(self) -> (r: [u8; 16])
        ensures
            r@ == self@,
    {
        self.0
    }

    pub fn is_zero(&self) -> (r: bool)
        ensures
            r == (self@ == zero16()),
    {
        *self == BranchId::zero()
    }

    /// The byte-wise order of identities.
    pub fn less(&self, other: &Self) -> (r: bool)
        ensures
            r == lex_lt(self@, other@),
    {
        bytes_less(&self.0, &other.0)
    }

    /// An identity always holds sixteen bytes.
    pub broadcast proof fn lemma_len(&self)
        ensures
            (#[trigger] self@).len() == 16,
    {
    }
}

/// The identity of a stream.
#[derive(Debug, Clone, Copy, Eq, PartialOrd, Ord, Hash)]
pub struct StreamId([u8; 16]);

impl View for StreamId {
    type V = Seq<u8>;

    closed spec fn view(&self) -> Seq<u8> {
        self.0@
    }
}

impl PartialEq for StreamId {
    fn eq(&self, other: &Self) -> (r: bool) {
        same16(&self.0, &other.0)
    }
}

impl vstd::std_specs::cmp::PartialEqSpecImpl for StreamId {
    open spec fn obeys_eq_spec() -> bool {
        true
    }

    open spec fn eq_spec(&self, other: &Self) -> bool {
        self@ == other@
    }
}

impl Default for StreamId {
    fn default() -> (r: Self)
        ensures
            r@ == zero16(),
    {
        StreamId::zero()
    }
}

impl StreamId {
    /// Sixteen zero bytes.
    pub fn zero() -> (r: Self)
        ensures
            r@ == zero16(),
    {
        let r = StreamId([0u8; 16]);
        assert(r@ =~= zero16());
        r
    }

    pub fn from_bytes(bytes: [u8; 16]) -> (r: Self)
        ensures
            r@ == bytes@,
    {
        StreamId(bytes)
    }

    pub fn as_bytes(&self) -> (r: &[u8; 16])
        ensures
            r@ == self@,
    {
        &self.0
    }

    pub fn into_bytes(self) -> (r: [u8; 16])
        ensures
            r@ == self@,
    {
        self.0
    }

    pub fn is_zero(&self) -> (r: bool)
        ensures
            r == (self@ == zero16()),
    {
        *self == StreamId::zero()
    }

    /// The byte-wise order of identities.
    pub fn less(&self, other: &Self) -> (r: bool)
        ensures
            r == lex_lt(self@, other@),
    {
        bytes_less(&self.0, &other.0)
    }

    /// An identity always holds sixteen bytes.
    pub broadcast proof fn lemma_len(&self)
        ensures
            (#[trigger] self@).len() == 16,
    {
    }
}

/// The identity of an atomic batch.
#[derive(Debug, Clone, Copy, Eq, PartialOrd, Ord, Hash)]
pub struct BatchId([u8; 16]);

impl View for BatchId {
    type V = Seq<u8>;

    closed spec fn view(&self) -> Seq<u8> {
        self.0@
    }
}

impl PartialEq for BatchId {
    fn eq(&self, other: &Self) -> (r: bool) {
        same16(&self.0, &other.0)
    }
}

impl vstd::std_specs::cmp::PartialEqSpecImpl for BatchId {
    open spec fn obeys_eq_spec() -> bool {
        true
    }

    open spec fn eq_spec(&self, other: &Self) -> bool {
        self@ == other@
    }
}

impl Default for BatchId {
    fn default() -> (r: Self)
        ensures
            r@ == zero16(),
    {
        BatchId::zero()
    }
}

impl BatchId {
    /// Sixteen zero bytes.
    pub fn zero() -> (r: Self)
        ensures
            r@ == zero16(),
    {
        let r = BatchId([0u8; 16]);
        assert(r@ =~= zero16());
        r
    }

    pub fn from_bytes(bytes: [u8; 16]) -> (r: Self)
        ensures
            r@ == bytes@,
    {
        BatchId(bytes)
    }

    pub fn as_bytes(&self) -> (r: &[u8; 16])
        ensures
            r@ == self@,
    {
        &self.0
    }

    pub fn into_bytes(self) -> (r: [u8; 16])
        ensures
            r@ == self@,
    {
        self.0
    }

    pub fn is_zero(&self) -> (r: bool)
        ensures
            r == (self@ == zero16()),
    {
        *self == BatchId::zero()
    }

    /// The byte-wise order of identities.
    pub fn less(&self, other: &Self) -> (r: bool)
        ensures
            r == lex_lt(self@, other@),
    {
        bytes_less(&self.0, &other.0)
    }

    /// An identity always holds sixteen bytes.
    pub broadcast proof fn lemma_len(&self)
        ensures
            (#[trigger] self@).len() == 16,
    {
    }
}

/// An identity's sixteen bytes, whatever it identifies.
pub broadcast group group_id_lengths {
    DatabaseId::lemma_len,
    EventId::lemma_len,
    BranchId::lemma_len,
    StreamId::lemma_len,
    BatchId::lemma_len,
}

/// A position in a stream's own numbering, from zero.
#[derive(Debug, Clone, Copy, PartialEq, Eq, PartialOrd, Ord, Hash, Default, Structural)]
pub struct StreamRevision(pub u64);

/// The codec that a payload was written with.
#[derive(Debug, Clone, Copy, PartialEq, Eq, PartialOrd, Ord, Hash, Structural)]
pub struct CodecId(pub u32);

/// UTF-8 JSON payloads.
pub const JSON_UTF8: u32 = 1;

/// Payloads in the first `bincode` layout.
pub const RUST_BINCODE_V1: u32 = 0x8000_0001;

impl CodecId {
    pub fn json_utf8() -> (r: Self)
        ensures
            r.0 == JSON_UTF8,
    {
        CodecId(JSON_UTF8)
    }

    pub fn rust_bincode_v1() -> (r: Self)
        ensures
            r.0 == RUST_BINCODE_V1,
    {
        CodecId(RUST_BINCODE_V1)
    }
}

/// Why `name` cannot be an event type, if it cannot.
pub open spec fn event_type_error(name: Seq<char>) -> Option<ErrorView> {
    if name.len() == 0 {
        Some(ErrorView::InvalidFormat("event type must not be empty"@))
    } else if encode_utf8(name).contains(0u8) {
        Some(ErrorView::InvalidFormat("event type must not contain NUL"@))
    } else {
        None
    }
}

/// The name of an event's type: nonempty and without NUL.
#[derive(Debug, PartialEq, Eq, PartialOrd, Ord, Hash)]
pub struct EventType(String);

impl View for EventType {
    type V = Seq<char>;

    closed spec fn view(&self) -> Seq<char> {
        self.0@
    }
}

impl EventType {
    #[verifier::type_invariant]
    spec fn inv(self) -> bool {
        event_type_error(self.0@) is None
    }

    pub fn new(value: &str) -> (r: Result<Self>)
        ensures
            r is Ok <==> event_type_error(value@) is None,
            r matches Ok(t) ==> t@ == value@,
            r matches Err(e) ==> Some(e@) == event_type_error(value@),
    {
        if value.is_empty() {
            return Err(invalid_format("event type must not be empty"));
        }
        if crate::bytes::contains_byte(value.as_bytes(), 0) {
            return Err(invalid_format("event type must not contain NUL"));
        }
        Ok(EventType(value.to_owned()))
    }

    pub fn as_str(&self) -> (r: &str)
        ensures
            r@ == self@,
            event_type_error(r@) is None,
    {
        proof {
            use_type_invariant(self);
        }
        self.0.as_str()
    }
}

impl Clone for EventType {
    fn clone(&self) -> (r: Self)
        ensures
            r@ == self@,
    {
        proof {
            use_type_invariant(self);
        }
        EventType(self.0.clone())
    }
}

} // verus!
