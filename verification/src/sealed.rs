//! Files that begin with a mark, the length and the checksum of a body, and
//! the body.
use crate::bytes::{put, put_u32, put_u64, read_u32, read_u64, u32_at, u64_at};
use crate::checksum::{crc32c, crc32c_of};
use vstd::bytes::{spec_u32_to_le_bytes, spec_u64_to_le_bytes};
use vstd::prelude::*;

verus! {

/// The bytes that stand before a body.
pub const SEAL_BYTES: usize = 16;

/// A sealed body, and what follows it.
pub open spec fn sealed(mark: u64, body: Seq<u8>, rest: Seq<u8>) -> Seq<u8> {
    spec_u64_to_le_bytes(mark) + spec_u32_to_le_bytes(body.len() as u32) + spec_u32_to_le_bytes(crc32c_of(body)) + body + rest
}

/// Seals a body.
pub fn seal(mark: u64, body: &[u8], rest: &[u8]) -> (r: Vec<u8>)
    requires
        body@.len() <= u32::MAX,
    ensures
        r@ == sealed(mark, body@, rest@),
{
    let mut out: Vec<u8> = Vec::new();
    put_u64(&mut out, mark);
    put_u32(&mut out, body.len() as u32);
    put_u32(&mut out, crc32c(body));
    put(&mut out, body);
    put(&mut out, rest);
    assert(out@ =~= sealed(mark, body@, rest@));
    out
}

/// What is wrong with a sealed file.
#[derive(Debug, Clone, Copy, PartialEq, Eq, Structural)]
pub enum SealFault {
    Length,
    Mark,
    BodyLength,
    Checksum,
}

/// How long sealed files and their bodies may be.
#[derive(Debug, Clone, Copy)]
pub struct SealLimits {
    pub mark: u64,
    pub body: usize,
    pub total: usize,
    /// Nothing may follow the body.
    pub exact: bool,
}

/// The length of a file's body, or what is wrong with the file.
pub open spec fn unsealing(limits: SealLimits, bytes: Seq<u8>) -> core::result::Result<int, SealFault> {
    let body = u32_at(bytes, 8) as int;
    if bytes.len() < SEAL_BYTES || bytes.len() > limits.total {
        Err(SealFault::Length)
    } else if u64_at(bytes, 0) != limits.mark {
        Err(SealFault::Mark)
    } else if body == 0 || body > limits.body || SEAL_BYTES + body > bytes.len() || (limits.exact && SEAL_BYTES + body != bytes.len()) {
        Err(SealFault::BodyLength)
    } else if crc32c_of(bytes.subrange(SEAL_BYTES as int, SEAL_BYTES + body)) != u32_at(bytes, 12) {
        Err(SealFault::Checksum)
    } else {
        Ok(body)
    }
}

/// The length of a file's body, or what is wrong with the file.
pub fn unseal(limits: SealLimits, bytes: &[u8]) -> (r: core::result::Result<usize, SealFault>)
    ensures
        match unsealing(limits, bytes@) {
            Ok(body) => r matches Ok(n) && n == body && SEAL_BYTES + n <= bytes.len(),
            Err(fault) => r == Err::<usize, SealFault>(fault),
        },
{
    if bytes.len() < SEAL_BYTES || bytes.len() > limits.total {
        return Err(SealFault::Length);
    }
    if read_u64(bytes, 0) != limits.mark {
        return Err(SealFault::Mark);
    }
    let body: u32 = read_u32(bytes, 8);
    let room: usize = bytes.len() - SEAL_BYTES;
    if body == 0 || body as u64 > limits.body as u64 || body as u64 > room as u64 || (limits.exact && body as u64 != room as u64) {
        return Err(SealFault::BodyLength);
    }
    let n: usize = body as usize;
    let found: u32 = crc32c(vstd::slice::slice_subrange(bytes, SEAL_BYTES, SEAL_BYTES + n));
    if found != read_u32(bytes, 12) {
        return Err(SealFault::Checksum);
    }
    Ok(n)
}

/// A sealed body is found again.
pub proof fn lemma_seal_round_trip(limits: SealLimits, body: Seq<u8>, rest: Seq<u8>)
    requires
        0 < body.len() <= limits.body,
        body.len() <= u32::MAX,
        SEAL_BYTES + body.len() + rest.len() <= limits.total,
        limits.exact ==> rest.len() == 0,
    ensures
        unsealing(limits, sealed(limits.mark, body, rest)) == Ok::<int, SealFault>(body.len() as int),
        sealed(limits.mark, body, rest).subrange(SEAL_BYTES as int, SEAL_BYTES + body.len()) == body,
        sealed(limits.mark, body, rest).skip(SEAL_BYTES + body.len()) == rest,
{
    crate::bytes::lemma_le_codec();
    let all = sealed(limits.mark, body, rest);
    let a = spec_u64_to_le_bytes(limits.mark);
    let b = spec_u32_to_le_bytes(body.len() as u32);
    let c = spec_u32_to_le_bytes(crc32c_of(body));
    assert(a.len() == 8 && b.len() == 4 && c.len() == 4);
    assert(all.subrange(0, 8) =~= a);
    assert(all.subrange(8, 12) =~= b);
    assert(all.subrange(12, 16) =~= c);
    assert(all.subrange(16, 16 + body.len() as int) =~= body);
    assert(all.skip(16 + body.len() as int) =~= rest);
}

/// A file that lost its end is refused, wherever it was cut.
pub proof fn lemma_cut_refused(limits: SealLimits, body: Seq<u8>, n: int)
    requires
        limits.exact,
        0 < body.len() <= limits.body,
        body.len() <= u32::MAX,
        0 <= n < sealed(limits.mark, body, Seq::empty()).len(),
    ensures
        unsealing(limits, sealed(limits.mark, body, Seq::empty()).take(n)) is Err,
{
    crate::bytes::lemma_le_codec();
    let all = sealed(limits.mark, body, Seq::empty());
    let cut = all.take(n);
    if n >= 16 {
        assert(cut.subrange(8, 12) =~= spec_u32_to_le_bytes(body.len() as u32));
    }
}

} // verus!
