//! Frames: a fixed header, an envelope and an opaque payload under one checksum.
use crate::bytes::{lemma_le_codec, put, put_u16, put_u32, put_u64, read_u16, read_u32, read_u64, u16_at, u32_at, u64_at};
use crate::checksum::{crc32c, crc32c_after, crc32c_append};
use crate::error::{invalid_format, ErrorView, Result, SalamanderError};
use crate::format::envelope::{
    decode_envelope, encode_envelope, enforce_limit, envelope_decoding, envelope_encoding, envelope_valid,
    lemma_envelope_round_trip, limit_error, EnvelopeView, FormatLimits, RecordEnvelopeV2,
};
use crate::text::{decimal, decimal_string, join2, join4, padded, padded_string};
use vstd::bytes::{spec_u16_to_le_bytes, spec_u32_to_le_bytes, spec_u64_to_le_bytes};
use vstd::prelude::*;
use vstd::slice::slice_subrange;

verus! {

pub const FRAME_VERSION: u16 = 2;

pub const FRAME_HEADER_LEN: usize = 32;

/// The four bytes that every frame begins with.
pub open spec fn frame_magic() -> Seq<u8> {
    seq![0x53u8, 0x44u8, 0x42u8, 0x32u8]
}

/// What a frame is for.
#[derive(Debug, Clone, Copy, PartialEq, Eq, Structural)]
pub enum FrameKind {
    Event,
    System,
    BatchBegin,
    BatchCommit,
}

/// The byte that a kind is stored as.
pub open spec fn kind_code(kind: FrameKind) -> u8 {
    match kind {
        FrameKind::Event => 1,
        FrameKind::System => 2,
        FrameKind::BatchBegin => 3,
        FrameKind::BatchCommit => 4,
    }
}

/// The kind that a byte stands for.
pub open spec fn kind_of(code: u8) -> Option<FrameKind> {
    if code == 1 {
        Some(FrameKind::Event)
    } else if code == 2 {
        Some(FrameKind::System)
    } else if code == 3 {
        Some(FrameKind::BatchBegin)
    } else if code == 4 {
        Some(FrameKind::BatchCommit)
    } else {
        None
    }
}

impl FrameKind {
    pub fn code(self) -> (r: u8)
        ensures
            r == kind_code(self),
    {
        match self {
            FrameKind::Event => 1,
            FrameKind::System => 2,
            FrameKind::BatchBegin => 3,
            FrameKind::BatchCommit => 4,
        }
    }

    pub fn from_code(code: u8) -> (r: Result<Self>)
        ensures
            r is Ok <==> kind_of(code) is Some,
            r matches Ok(kind) ==> kind_of(code) == Some(kind),
            r matches Err(e) ==> e@ == ErrorView::InvalidFormat("unknown frame kind "@ + decimal(code as nat)),
    {
        if code == 1 {
            Ok(FrameKind::Event)
        } else if code == 2 {
            Ok(FrameKind::System)
        } else if code == 3 {
            Ok(FrameKind::BatchBegin)
        } else if code == 4 {
            Ok(FrameKind::BatchCommit)
        } else {
            Err(SalamanderError::InvalidFormat(join2("unknown frame kind ", decimal_string(code as u64).as_str())))
        }
    }
}

/// A record whose payload lies in the buffer it was read from.
#[derive(Debug, PartialEq, Eq)]
pub struct StoredRecord<'a> {
    pub kind: FrameKind,
    pub flags: u8,
    pub position: u64,
    pub envelope: RecordEnvelopeV2,
    pub payload: &'a [u8],
}

/// A record that owns its payload.
#[derive(Debug, PartialEq, Eq)]
pub struct OwnedStoredRecord {
    pub kind: FrameKind,
    pub flags: u8,
    pub position: u64,
    pub envelope: RecordEnvelopeV2,
    pub payload: Vec<u8>,
}

/// A record as plain values.
#[verifier::ext_equal]
pub struct RecordView {
    pub kind: FrameKind,
    pub flags: u8,
    pub position: u64,
    pub envelope: EnvelopeView,
    pub payload: Seq<u8>,
}

/// The records of a list as plain values.
pub open spec fn record_views(records: Seq<OwnedStoredRecord>) -> Seq<RecordView> {
    Seq::new(records.len(), |i: int| records[i]@)
}

/// Whether the positions of records ascend.
pub open spec fn positions_ascend(records: Seq<RecordView>) -> bool {
    forall|i: int, j: int| 0 <= i < j < records.len() ==> (#[trigger] records[i]).position < (#[trigger] records[j]).position
}

impl<'a> View for StoredRecord<'a> {
    type V = RecordView;

    open spec fn view(&self) -> RecordView {
        RecordView {
            kind: self.kind,
            flags: self.flags,
            position: self.position,
            envelope: self.envelope@,
            payload: self.payload@,
        }
    }
}

impl View for OwnedStoredRecord {
    type V = RecordView;

    open spec fn view(&self) -> RecordView {
        RecordView {
            kind: self.kind,
            flags: self.flags,
            position: self.position,
            envelope: self.envelope@,
            payload: self.payload@,
        }
    }
}

impl OwnedStoredRecord {
    pub fn as_borrowed(&self) -> (r: StoredRecord<'_>)
        ensures
            r@ == self@,
    {
        StoredRecord {
            kind: self.kind,
            flags: self.flags,
            position: self.position,
            envelope: self.envelope.clone(),
            payload: self.payload.as_slice(),
        }
    }
}

impl Clone for OwnedStoredRecord {
    fn clone(&self) -> (r: Self)
        ensures
            r@ == self@,
    {
        OwnedStoredRecord {
            kind: self.kind,
            flags: self.flags,
            position: self.position,
            envelope: self.envelope.clone(),
            payload: crate::bytes::copy_bytes(&self.payload),
        }
    }
}

impl<'a> StoredRecord<'a> {
    /// The record with a payload of its own.
    pub fn into_owned(self) -> (r: OwnedStoredRecord)
        ensures
            r@ == self@,
    {
        OwnedStoredRecord {
            kind: self.kind,
            flags: self.flags,
            position: self.position,
            envelope: self.envelope,
            payload: vstd::slice::slice_to_vec(self.payload),
        }
    }
}

/// The header up to the checksum.
pub open spec fn header_prefix(kind: FrameKind, flags: u8, envelope_len: int, payload_len: int, position: u64) -> Seq<u8> {
    frame_magic() + spec_u16_to_le_bytes(FRAME_VERSION) + seq![kind_code(kind)] + seq![flags] + spec_u32_to_le_bytes(
        envelope_len as u32,
    ) + spec_u32_to_le_bytes(payload_len as u32) + spec_u64_to_le_bytes(position)
}

/// The checksum of a frame: over all of it but the checksum itself.
pub open spec fn frame_checksum(frame: Seq<u8>) -> u32 {
    crc32c_after(crc32c_after(0, frame.take(24)), frame.skip(28))
}

/// What follows the checksum.
pub open spec fn frame_body(envelope: Seq<u8>, payload: Seq<u8>) -> Seq<u8> {
    spec_u32_to_le_bytes(0) + envelope + payload
}

/// A frame on disk, given its encoded envelope.
pub open spec fn frame_bytes(record: RecordView, envelope: Seq<u8>) -> Seq<u8> {
    let prefix = header_prefix(record.kind, record.flags, envelope.len() as int, record.payload.len() as int, record.position);
    let body = frame_body(envelope, record.payload);
    prefix + spec_u32_to_le_bytes(crc32c_after(crc32c_after(0, prefix), body)) + body
}

/// The error for flags that a reader must not ignore.
pub open spec fn flags_error(flags: u8) -> ErrorView {
    ErrorView::InvalidFormat("unknown mandatory frame flags "@ + ("0x"@ + padded(flags as nat, 16, 2)))
}

/// The outcome of writing a record.
pub open spec fn frame_encoding(record: RecordView, limits: FormatLimits) -> core::result::Result<Seq<u8>, ErrorView> {
    if record.flags != 0 {
        Err(flags_error(record.flags))
    } else if record.payload.len() > limits.max_payload_bytes {
        Err(limit_error("payload bytes"@, record.payload.len() as int, limits.max_payload_bytes as int))
    } else {
        match envelope_encoding(record.envelope, limits) {
            Err(e) => Err(e),
            Ok(envelope) => if envelope.len() > limits.max_envelope_bytes {
                Err(limit_error("envelope bytes"@, envelope.len() as int, limits.max_envelope_bytes as int))
            } else {
                Ok(frame_bytes(record, envelope))
            },
        }
    }
}

fn validate_flags(flags: u8) -> (r: Result<()>)
    ensures
        r is Ok <==> flags == 0,
        r matches Err(e) ==> e@ == flags_error(flags),
{
    if flags != 0 {
        let digits = join2("0x", padded_string(flags as u64, 16, 2).as_str());
        return Err(SalamanderError::InvalidFormat(join2("unknown mandatory frame flags ", digits.as_str())));
    }
    Ok(())
}

/// Writes a record as a frame.
pub fn encode(record: &StoredRecord<'_>, limits: FormatLimits) -> (r: Result<Vec<u8>>)
    ensures
        match frame_encoding(record@, limits) {
            Ok(bytes) => r matches Ok(out) && out@ == bytes,
            Err(e) => r matches Err(error) && error@ == e,
        },
{
    match validate_flags(record.flags) {
        Ok(()) => {},
        Err(e) => return Err(e),
    }
    match enforce_limit("payload bytes", record.payload.len(), limits.max_payload_bytes as usize) {
        Ok(()) => {},
        Err(e) => return Err(e),
    }
    let envelope = match encode_envelope(&record.envelope, limits) {
        Ok(envelope) => envelope,
        Err(e) => return Err(e),
    };
    match enforce_limit("envelope bytes", envelope.len(), limits.max_envelope_bytes as usize) {
        Ok(()) => {},
        Err(e) => return Err(e),
    }
    let mut out: Vec<u8> = Vec::new();
    out.push(0x53);
    out.push(0x44);
    out.push(0x42);
    out.push(0x32);
    put_u16(&mut out, FRAME_VERSION);
    out.push(record.kind.code());
    out.push(record.flags);
    put_u32(&mut out, envelope.len() as u32);
    put_u32(&mut out, record.payload.len() as u32);
    put_u64(&mut out, record.position);
    let ghost prefix = header_prefix(
        record.kind,
        record.flags,
        envelope@.len() as int,
        record.payload@.len() as int,
        record.position,
    );
    assert(out@ =~= prefix);
    let mut body: Vec<u8> = Vec::new();
    put_u32(&mut body, 0);
    put(&mut body, envelope.as_slice());
    put(&mut body, record.payload);
    assert(body@ =~= frame_body(envelope@, record.payload@));
    let crc: u32 = crc32c_append(crc32c(out.as_slice()), body.as_slice());
    put_u32(&mut out, crc);
    put(&mut out, body.as_slice());
    assert(out@ =~= frame_bytes(record@, envelope@));
    Ok(out)
}

/// What is wrong with the fixed header, if anything is, in the order in which
/// its fields are looked at.
pub open spec fn header_error(buf: Seq<u8>, limits: FormatLimits) -> Option<ErrorView> {
    if buf.subrange(0, 4) != frame_magic() {
        Some(ErrorView::InvalidFormat("bad v2 frame magic"@))
    } else if u16_at(buf, 4) != FRAME_VERSION {
        Some(ErrorView::InvalidFormat("unsupported frame version "@ + decimal(u16_at(buf, 4) as nat)))
    } else if kind_of(buf[6]) is None {
        Some(ErrorView::InvalidFormat("unknown frame kind "@ + decimal(buf[6] as nat)))
    } else if buf[7] != 0 {
        Some(flags_error(buf[7]))
    } else if u32_at(buf, 8) > limits.max_envelope_bytes {
        Some(limit_error("envelope bytes"@, u32_at(buf, 8) as int, limits.max_envelope_bytes as int))
    } else if u32_at(buf, 12) > limits.max_payload_bytes {
        Some(limit_error("payload bytes"@, u32_at(buf, 12) as int, limits.max_payload_bytes as int))
    } else {
        None
    }
}

/// The length of the frame that a header announces.
pub open spec fn announced_len(buf: Seq<u8>) -> int {
    32 + u32_at(buf, 8) + u32_at(buf, 12)
}

/// The error for a length that this machine cannot hold.
pub open spec fn length_overflow() -> ErrorView {
    ErrorView::InvalidFormat("frame length overflow"@)
}

fn check_header(buf: &[u8], limits: FormatLimits) -> (r: Result<FrameKind>)
    requires
        buf.len() >= 32,
    ensures
        r is Ok <==> header_error(buf@, limits) is None,
        r matches Ok(kind) ==> kind_of(buf@[6]) == Some(kind),
        r matches Err(e) ==> Some(e@) == header_error(buf@, limits),
{
    proof {
        assert(buf@.subrange(0, 4) == frame_magic() <==> (buf@[0] == 0x53 && buf@[1] == 0x44 && buf@[2] == 0x42 && buf@[3]
            == 0x32)) by {
            let s = buf@.subrange(0, 4);
            assert(s[0] == buf@[0] && s[1] == buf@[1] && s[2] == buf@[2] && s[3] == buf@[3]);
            if buf@[0] == 0x53 && buf@[1] == 0x44 && buf@[2] == 0x42 && buf@[3] == 0x32 {
                assert(s =~= frame_magic());
            }
        }
    }
    if !(buf[0] == 0x53 && buf[1] == 0x44 && buf[2] == 0x42 && buf[3] == 0x32) {
        return Err(invalid_format("bad v2 frame magic"));
    }
    let version: u16 = read_u16(buf, 4);
    if version != FRAME_VERSION {
        return Err(SalamanderError::InvalidFormat(
            join2("unsupported frame version ", decimal_string(version as u64).as_str()),
        ));
    }
    let kind = match FrameKind::from_code(buf[6]) {
        Ok(kind) => kind,
        Err(e) => return Err(e),
    };
    match validate_flags(buf[7]) {
        Ok(()) => {},
        Err(e) => return Err(e),
    }
    match enforce_limit("envelope bytes", read_u32(buf, 8) as usize, limits.max_envelope_bytes as usize) {
        Ok(()) => {},
        Err(e) => return Err(e),
    }
    match enforce_limit("payload bytes", read_u32(buf, 12) as usize, limits.max_payload_bytes as usize) {
        Ok(()) => {},
        Err(e) => return Err(e),
    }
    Ok(kind)
}

fn announced(buf: &[u8]) -> (r: Result<usize>)
    requires
        buf.len() >= 32,
    ensures
        r is Ok <==> announced_len(buf@) <= usize::MAX,
        r matches Ok(n) ==> n == announced_len(buf@),
        r matches Err(e) ==> e@ == length_overflow(),
{
    let envelope_len: usize = read_u32(buf, 8) as usize;
    let payload_len: usize = read_u32(buf, 12) as usize;
    match FRAME_HEADER_LEN.checked_add(envelope_len) {
        Some(n) => match n.checked_add(payload_len) {
            Some(total) => Ok(total),
            None => Err(invalid_format("frame length overflow")),
        },
        None => Err(invalid_format("frame length overflow")),
    }
}

/// The outcome of sizing the frame at the start of `buf`.
pub open spec fn frame_sizing(buf: Seq<u8>, limits: FormatLimits) -> core::result::Result<Option<int>, ErrorView> {
    if buf.len() < 32 {
        Ok(None)
    } else if header_error(buf, limits) is Some {
        Err(header_error(buf, limits)->0)
    } else if announced_len(buf) > usize::MAX {
        Err(length_overflow())
    } else {
        Ok(Some(announced_len(buf)))
    }
}

/// How many bytes the frame at the start of `buf` spans, judged by its header
/// alone, or `None` where not even the header is there.
pub fn frame_total_len(buf: &[u8], limits: FormatLimits) -> (r: Result<Option<usize>>)
    ensures
        match frame_sizing(buf@, limits) {
            Ok(None) => r matches Ok(None),
            Ok(Some(n)) => r matches Ok(Some(total)) && total == n,
            Err(e) => r matches Err(error) && error@ == e,
        },
{
    if buf.len() < FRAME_HEADER_LEN {
        return Ok(None);
    }
    match check_header(buf, limits) {
        Ok(_) => {},
        Err(e) => return Err(e),
    }
    match announced(buf) {
        Ok(total) => Ok(Some(total)),
        Err(e) => Err(e),
    }
}

/// The error for a frame whose bytes do not match its checksum.
pub open spec fn checksum_error(position: u64, stored: u32, computed: u32) -> ErrorView {
    ErrorView::Corrupt {
        offset: position,
        reason: "v2 crc mismatch: stored "@ + ("0x"@ + padded(stored as nat, 16, 8)) + ", computed "@ + ("0x"@ + padded(
            computed as nat,
            16,
            8,
        )),
    }
}

/// The outcome of reading the frame at the start of `buf`: the record and its
/// length, or nothing where the frame is not complete yet.
pub open spec fn frame_decoding(buf: Seq<u8>, limits: FormatLimits) -> core::result::Result<Option<(RecordView, int)>, ErrorView> {
    let total = announced_len(buf);
    let envelope_end = 32 + u32_at(buf, 8) as int;
    let frame = buf.take(total);
    if buf.len() < 32 {
        Ok(None)
    } else if header_error(buf, limits) is Some {
        Err(header_error(buf, limits)->0)
    } else if u32_at(buf, 28) != 0 {
        Err(ErrorView::InvalidFormat("nonzero reserved frame header field"@))
    } else if total > usize::MAX {
        Err(length_overflow())
    } else if buf.len() < total {
        Ok(None)
    } else if u32_at(buf, 24) != frame_checksum(frame) {
        Err(checksum_error(u64_at(buf, 16), u32_at(buf, 24), frame_checksum(frame)))
    } else {
        match envelope_decoding(buf.subrange(32, envelope_end), limits) {
            Err(e) => Err(e),
            Ok(envelope) => Ok(
                Some(
                    (
                        RecordView {
                            kind: kind_of(buf[6])->0,
                            flags: buf[7],
                            position: u64_at(buf, 16),
                            envelope,
                            payload: buf.subrange(envelope_end, total),
                        },
                        total,
                    ),
                ),
            ),
        }
    }
}

fn checksum_mismatch(position: u64, stored: u32, computed: u32) -> (e: SalamanderError)
    ensures
        e@ == checksum_error(position, stored, computed),
{
    let left = join2("0x", padded_string(stored as u64, 16, 8).as_str());
    let right = join2("0x", padded_string(computed as u64, 16, 8).as_str());
    SalamanderError::Corrupt {
        offset: position,
        reason: join4("v2 crc mismatch: stored ", left.as_str(), ", computed ", right.as_str()),
    }
}

/// Reads the frame at the start of `buf`.
pub fn decode(buf: &[u8], limits: FormatLimits) -> (r: Result<Option<(StoredRecord<'_>, usize)>>)
    ensures
        match frame_decoding(buf@, limits) {
            Ok(None) => r matches Ok(None),
            Ok(Some((record, n))) => r matches Ok(Some((rec, total))) && rec@ == record && total == n,
            Err(e) => r matches Err(error) && error@ == e,
        },
{
    if buf.len() < FRAME_HEADER_LEN {
        return Ok(None);
    }
    let kind = match check_header(buf, limits) {
        Ok(kind) => kind,
        Err(e) => return Err(e),
    };
    let envelope_len: usize = read_u32(buf, 8) as usize;
    let position: u64 = read_u64(buf, 16);
    let stored: u32 = read_u32(buf, 24);
    if read_u32(buf, 28) != 0 {
        return Err(invalid_format("nonzero reserved frame header field"));
    }
    let total: usize = match announced(buf) {
        Ok(total) => total,
        Err(e) => return Err(e),
    };
    if buf.len() < total {
        return Ok(None);
    }
    let computed: u32 = crc32c_append(crc32c(slice_subrange(buf, 0, 24)), slice_subrange(buf, 28, total));
    proof {
        let frame = buf@.take(total as int);
        assert(frame.take(24) =~= buf@.subrange(0, 24));
        assert(frame.skip(28) =~= buf@.subrange(28, total as int));
    }
    if stored != computed {
        return Err(checksum_mismatch(position, stored, computed));
    }
    let envelope_end: usize = FRAME_HEADER_LEN + envelope_len;
    let envelope = match decode_envelope(slice_subrange(buf, FRAME_HEADER_LEN, envelope_end), limits) {
        Ok(envelope) => envelope,
        Err(e) => return Err(e),
    };
    let payload = slice_subrange(buf, envelope_end, total);
    Ok(Some((StoredRecord { kind, flags: buf[7], position, envelope, payload }, total)))
}

/// The header of a frame that was written announces the frame's own length,
/// whatever follows it.
proof fn lemma_written_header(record: RecordView, envelope: Seq<u8>, buf: Seq<u8>, limits: FormatLimits)
    requires
        record.flags == 0,
        record.payload.len() <= limits.max_payload_bytes,
        envelope.len() <= limits.max_envelope_bytes,
        buf.len() >= 32,
        buf.take(32) == frame_bytes(record, envelope).take(32),
    ensures
        header_error(buf, limits) is None,
        kind_of(buf[6]) == Some(record.kind),
        buf[7] == 0,
        u32_at(buf, 8) == envelope.len(),
        u32_at(buf, 12) == record.payload.len(),
        u64_at(buf, 16) == record.position,
        u32_at(buf, 28) == 0,
        announced_len(buf) == frame_bytes(record, envelope).len(),
{
    lemma_le_codec();
    let frame = frame_bytes(record, envelope);
    let prefix = header_prefix(record.kind, record.flags, envelope.len() as int, record.payload.len() as int, record.position);
    assert(prefix.len() == 24);
    assert(frame.subrange(0, 24) =~= prefix);
    let h = buf.take(32);
    assert(buf.subrange(0, 4) =~= h.subrange(0, 4));
    assert(h.subrange(0, 4) =~= frame_magic());
    assert(buf.subrange(4, 6) =~= h.subrange(4, 6));
    assert(h.subrange(4, 6) =~= spec_u16_to_le_bytes(FRAME_VERSION));
    assert(buf[6] == h[6] && h[6] == frame[6] && frame[6] == kind_code(record.kind));
    assert(buf[7] == h[7] && h[7] == frame[7] && frame[7] == record.flags);
    assert(buf.subrange(8, 12) =~= h.subrange(8, 12));
    assert(h.subrange(8, 12) =~= spec_u32_to_le_bytes(envelope.len() as u32));
    assert(buf.subrange(12, 16) =~= h.subrange(12, 16));
    assert(h.subrange(12, 16) =~= spec_u32_to_le_bytes(record.payload.len() as u32));
    assert(buf.subrange(16, 24) =~= h.subrange(16, 24));
    assert(h.subrange(16, 24) =~= spec_u64_to_le_bytes(record.position));
    assert(buf.subrange(28, 32) =~= h.subrange(28, 32));
    assert(h.subrange(28, 32) =~= spec_u32_to_le_bytes(0));
}

/// A record that could be written is read back as it was, whatever follows its
/// frame.
pub proof fn lemma_frame_round_trip(record: RecordView, limits: FormatLimits, rest: Seq<u8>)
    requires
        envelope_valid(record.envelope),
        frame_encoding(record, limits) is Ok,
        frame_encoding(record, limits)->Ok_0.len() <= usize::MAX,
    ensures
        frame_decoding(frame_encoding(record, limits)->Ok_0 + rest, limits) == Ok::<Option<(RecordView, int)>, ErrorView>(
            Some((record, frame_encoding(record, limits)->Ok_0.len() as int)),
        ),
{
    lemma_le_codec();
    let envelope = envelope_encoding(record.envelope, limits)->Ok_0;
    let frame = frame_bytes(record, envelope);
    let buf = frame + rest;
    let prefix = header_prefix(record.kind, record.flags, envelope.len() as int, record.payload.len() as int, record.position);
    let body = frame_body(envelope, record.payload);
    assert(prefix.len() == 24);
    assert(buf.take(32) =~= frame.take(32));
    lemma_written_header(record, envelope, buf, limits);
    let total = frame.len() as int;
    assert(buf.take(total) =~= frame);
    assert(frame.take(24) =~= prefix);
    assert(frame.skip(28) =~= body);
    assert(buf.subrange(24, 28) =~= spec_u32_to_le_bytes(frame_checksum(frame)));
    assert(buf.subrange(32, 32 + envelope.len() as int) =~= envelope);
    assert(buf.subrange(32 + envelope.len() as int, total) =~= record.payload);
    lemma_envelope_round_trip(record.envelope, limits);
}

/// A proper prefix of a frame that was written is an incomplete frame.
pub proof fn lemma_frame_prefix_incomplete(record: RecordView, limits: FormatLimits, n: int)
    requires
        frame_encoding(record, limits) is Ok,
        frame_encoding(record, limits)->Ok_0.len() <= usize::MAX,
        0 <= n < frame_encoding(record, limits)->Ok_0.len(),
    ensures
        frame_decoding(frame_encoding(record, limits)->Ok_0.take(n), limits) == Ok::<Option<(RecordView, int)>, ErrorView>(None),
{
    let envelope = envelope_encoding(record.envelope, limits)->Ok_0;
    let frame = frame_bytes(record, envelope);
    let buf = frame.take(n);
    if n >= 32 {
        assert(buf.take(32) =~= frame.take(32));
        lemma_written_header(record, envelope, buf, limits);
    }
}

/// A frame that is read is as long as its header says, so sizing a buffer by
/// the header and then reading it agree.
pub proof fn lemma_sizing_agrees(buf: Seq<u8>, limits: FormatLimits)
    ensures
        frame_decoding(buf, limits) matches Ok(Some((record, n))) ==> 32 <= n <= buf.len() && frame_sizing(buf, limits)
            == Ok::<Option<int>, ErrorView>(Some(n)),
{
}

/// Only the frame's own bytes decide how it is read.
pub proof fn lemma_decoding_local(buf: Seq<u8>, limits: FormatLimits, rest: Seq<u8>)
    requires
        frame_decoding(buf, limits) matches Ok(Some(_)),
    ensures
        frame_decoding(buf + rest, limits) == frame_decoding(buf, limits),
{
    let longer = buf + rest;
    let total = announced_len(buf);
    assert(longer.subrange(0, 4) =~= buf.subrange(0, 4));
    assert(longer.subrange(4, 6) =~= buf.subrange(4, 6));
    assert(longer.subrange(8, 12) =~= buf.subrange(8, 12));
    assert(longer.subrange(12, 16) =~= buf.subrange(12, 16));
    assert(longer.subrange(16, 24) =~= buf.subrange(16, 24));
    assert(longer.subrange(24, 28) =~= buf.subrange(24, 28));
    assert(longer.subrange(28, 32) =~= buf.subrange(28, 32));
    assert(longer.take(total) =~= buf.take(total));
    let envelope_end = 32 + u32_at(buf, 8) as int;
    assert(longer.subrange(32, envelope_end) =~= buf.subrange(32, envelope_end));
    assert(longer.subrange(envelope_end, total) =~= buf.subrange(envelope_end, total));
}

} // verus!
