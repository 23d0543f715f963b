//! Deterministic identities: a two-lane hash over bytes, and the mixing that
//! gives imported events their identities.
use crate::bytes::put_u64;
use crate::format::ids::{BranchId, DatabaseId, StreamId};
use vstd::bytes::spec_u64_to_le_bytes;
use vstd::prelude::*;
use vstd::utf8::encode_utf8;

verus! {

pub const LEFT_SEED: u64 = 0xcbf2_9ce4_8422_2325;

pub const RIGHT_SEED: u64 = 0x8422_2325_cbf2_9ce4;

pub const LEFT_FACTOR: u64 = 0x0000_0100_0000_01b3;

pub const RIGHT_FACTOR: u64 = 0x9e37_79b1_85eb_ca87;

/// One byte into a lane: exclusive or, then a wrapping product.
pub open spec fn lane_step(lane: u64, word: u64, factor: u64) -> u64 {
    (lane ^ word).wrapping_mul(factor)
}

/// The left lane after `data`, from `lane`.
pub open spec fn left_lane(lane: u64, data: Seq<u8>) -> u64
    decreases data.len(),
{
    if data.len() == 0 {
        lane
    } else {
        lane_step(left_lane(lane, data.drop_last()), data.last() as u64, LEFT_FACTOR)
    }
}

/// The right lane after `data`, from `lane`; it takes each byte doubled.
pub open spec fn right_lane(lane: u64, data: Seq<u8>) -> u64
    decreases data.len(),
{
    if data.len() == 0 {
        lane
    } else {
        lane_step(right_lane(lane, data.drop_last()), (2 * data.last()) as u64, RIGHT_FACTOR)
    }
}

/// The sixteen bytes that `data` hashes to.
pub open spec fn twin_hash(data: Seq<u8>) -> Seq<u8> {
    spec_u64_to_le_bytes(left_lane(LEFT_SEED, data)) + spec_u64_to_le_bytes(right_lane(RIGHT_SEED, data))
}

/// Hashing two byte strings one after the other is hashing their
/// concatenation, so the sizes of the pieces do not matter.
pub proof fn lemma_lanes_concat(left: u64, right: u64, a: Seq<u8>, b: Seq<u8>)
    ensures
        left_lane(left, a + b) == left_lane(left_lane(left, a), b),
        right_lane(right, a + b) == right_lane(right_lane(right, a), b),
    decreases b.len(),
{
    if b.len() == 0 {
        assert(a + b =~= a);
    } else {
        assert((a + b).drop_last() =~= a + b.drop_last());
        lemma_lanes_concat(left, right, a, b.drop_last());
    }
}

/// The left lane after `bytes`, from `lane`.
pub fn left_hash(lane: u64, bytes: &[u8]) -> (r: u64)
    ensures
        r == left_lane(lane, bytes@),
{
    let mut hash: u64 = lane;
    let mut i: usize = 0;
    assert(bytes@.take(0) =~= Seq::empty());
    while i < bytes.len()
        invariant
            i <= bytes@.len(),
            hash == left_lane(lane, bytes@.take(i as int)),
        decreases bytes@.len() - i,
    {
        proof {
            assert(bytes@.take(i + 1).drop_last() =~= bytes@.take(i as int));
            assert(bytes@.take(i + 1).last() == bytes@[i as int]);
        }
        let word: u64 = bytes[i] as u64;
        hash = (hash ^ word).wrapping_mul(LEFT_FACTOR);
        i = i + 1;
    }
    assert(bytes@.take(i as int) =~= bytes@);
    hash
}

/// A two-lane hash in the making.
#[derive(Debug, Clone, Copy)]
pub struct TwinHasher {
    left: u64,
    right: u64,
}

impl TwinHasher {
    /// The left lane.
    pub closed spec fn left(self) -> u64 {
        self.left
    }

    /// The right lane.
    pub closed spec fn right(self) -> u64 {
        self.right
    }

    /// Whether the lanes hold the hash of `data`.
    pub open spec fn absorbed(self, data: Seq<u8>) -> bool {
        self.left() == left_lane(LEFT_SEED, data) && self.right() == right_lane(RIGHT_SEED, data)
    }

    pub fn new() -> (r: Self)
        ensures
            r.absorbed(Seq::empty()),
    {
        TwinHasher { left: LEFT_SEED, right: RIGHT_SEED }
    }

    /// Takes in `bytes` after what was taken in before.
    pub fn absorb(&mut self, bytes: &[u8])
        ensures
            final(self).left() == left_lane(old(self).left(), bytes@),
            final(self).right() == right_lane(old(self).right(), bytes@),
            forall|before: Seq<u8>| #[trigger] old(self).absorbed(before) ==> final(self).absorbed(before + bytes@),
    {
        let ghost left0 = self.left;
        let ghost right0 = self.right;
        let mut left: u64 = self.left;
        let mut right: u64 = self.right;
        let mut i: usize = 0;
        assert(bytes@.take(0) =~= Seq::<u8>::empty());
        while i < bytes.len()
            invariant
                i <= bytes@.len(),
                left == left_lane(left0, bytes@.take(i as int)),
                right == right_lane(right0, bytes@.take(i as int)),
            decreases bytes@.len() - i,
        {
            let byte: u64 = bytes[i] as u64;
            left = (left ^ byte).wrapping_mul(LEFT_FACTOR);
            right = (right ^ (2 * byte)).wrapping_mul(RIGHT_FACTOR);
            proof {
                let next = bytes@.take(i + 1);
                assert(next.drop_last() =~= bytes@.take(i as int));
                assert(next.last() == bytes@[i as int]);
            }
            i = i + 1;
        }
        assert(bytes@.take(i as int) =~= bytes@);
        self.left = left;
        self.right = right;
        proof {
            assert forall|before: Seq<u8>| #[trigger] old(self).absorbed(before) implies self.absorbed(before + bytes@) by {
                lemma_lanes_concat(LEFT_SEED, RIGHT_SEED, before, bytes@);
            }
        }
    }

    /// The sixteen bytes of the two lanes.
    pub fn finish(&self) -> (r: [u8; 16])
        ensures
            forall|data: Seq<u8>| #[trigger] self.absorbed(data) ==> r@ == twin_hash(data),
    {
        let mut out: Vec<u8> = Vec::new();
        put_u64(&mut out, self.left);
        put_u64(&mut out, self.right);
        proof {
            crate::bytes::lemma_le_codec();
        }
        let r = crate::bytes::read_array16(out.as_slice(), 0);
        proof {
            assert forall|data: Seq<u8>| #[trigger] self.absorbed(data) implies r@ == twin_hash(data) by {
                assert(r@ =~= twin_hash(data));
            }
        }
        r
    }
}

/// The identity of the stream `name` on a branch of a database: the hash of
/// the two identities and of the name's bytes.
pub fn derive_stream_id(database: DatabaseId, branch: BranchId, name: &str) -> (r: StreamId)
    ensures
        r@ == twin_hash(database@ + branch@ + encode_utf8(name@)),
{
    let mut hasher = TwinHasher::new();
    hasher.absorb(database.as_bytes());
    hasher.absorb(branch.as_bytes());
    hasher.absorb(name.as_bytes());
    assert(Seq::<u8>::empty() + database@ =~= database@);
    StreamId::from_bytes(hasher.finish())
}

/// A byte turned left by `n` bits.
pub open spec fn rotl8(x: u8, n: u8) -> u8 {
    (x << n) | (x >> ((8 - n) as u8))
}

fn rotate8(x: u8, n: u8) -> (r: u8)
    requires
        1 <= n <= 7,
    ensures
        r == rotl8(x, n),
{
    (x << n) | (x >> (8 - n))
}

proof fn lemma_rotl8_injective(x: u8, y: u8, n: u8)
    requires
        1 <= n <= 7,
        rotl8(x, n) == rotl8(y, n),
    ensures
        x == y,
{
    let m: u8 = (8 - n) as u8;
    assert(x == y) by (bit_vector)
        requires
            1 <= n <= 7,
            m == 8 - n,
            (x << n) | (x >> m) == (y << n) | (y >> m),
    ;
}

proof fn lemma_xor_cancels(x: u8, a: u8, b: u8)
    ensures
        x ^ a == x ^ b ==> a == b,
{
    assert(x ^ a == x ^ b ==> a == b) by (bit_vector);
}

proof fn lemma_wrapping_add_cancels(x: u8, y: u8, z: u8)
    ensures
        x.wrapping_add(z) == y.wrapping_add(z) ==> x == y,
{
}

/// The source identity with the offset's bytes folded in: plainly into the
/// first half and turned by one bit into the second.
pub open spec fn offset_mixed(source: Seq<u8>, offset: u64) -> Seq<u8> {
    Seq::new(
        16,
        |i: int| if i < 8 {
            source[i] ^ spec_u64_to_le_bytes(offset)[i]
        } else {
            source[i] ^ rotl8(spec_u64_to_le_bytes(offset)[i - 8], 1)
        },
    )
}

/// How far the byte at `step % 16` turns in the round `step / 16`.
pub open spec fn turn_of(step: int) -> u8 {
    ((step / 16 + step % 16) % 7 + 1) as u8
}

/// One mixing step: the byte takes in its right neighbour and turns.
pub open spec fn mix_step(s: Seq<u8>, step: int) -> Seq<u8> {
    let i = step % 16;
    s.update(i, rotl8(s[i].wrapping_add(s[(i + 1) % 16]), turn_of(step)))
}

/// The first `steps` mixing steps.
pub open spec fn mixed(s: Seq<u8>, steps: nat) -> Seq<u8>
    decreases steps,
{
    if steps == 0 {
        s
    } else {
        mix_step(mixed(s, (steps - 1) as nat), steps - 1)
    }
}

/// The identity of the event that was imported from `offset` of `source`.
pub open spec fn import_id(source: Seq<u8>, offset: u64) -> Seq<u8> {
    mixed(offset_mixed(source, offset), 64)
}

proof fn lemma_mixed_len(s: Seq<u8>, steps: nat)
    requires
        s.len() == 16,
    ensures
        mixed(s, steps).len() == 16,
    decreases steps,
{
    if steps > 0 {
        lemma_mixed_len(s, (steps - 1) as nat);
    }
}

proof fn lemma_mix_step_injective(s: Seq<u8>, t: Seq<u8>, step: int)
    requires
        s.len() == 16,
        t.len() == 16,
        0 <= step,
        mix_step(s, step) == mix_step(t, step),
    ensures
        s == t,
{
    let i = step % 16;
    let next = (i + 1) % 16;
    let u = mix_step(s, step);
    let v = mix_step(t, step);
    assert(next != i);
    assert(u[next] == s[next] && v[next] == t[next]);
    assert(u[i] == rotl8(s[i].wrapping_add(s[next]), turn_of(step)));
    assert(v[i] == rotl8(t[i].wrapping_add(t[next]), turn_of(step)));
    lemma_rotl8_injective(s[i].wrapping_add(s[next]), t[i].wrapping_add(t[next]), turn_of(step));
    lemma_wrapping_add_cancels(s[i], t[i], s[next]);
    assert forall|k: int| 0 <= k < 16 implies s[k] == t[k] by {
        if k != i {
            assert(u[k] == s[k] && v[k] == t[k]);
        }
    }
    assert(s =~= t);
}

proof fn lemma_mixed_injective(s: Seq<u8>, t: Seq<u8>, steps: nat)
    requires
        s.len() == 16,
        t.len() == 16,
        mixed(s, steps) == mixed(t, steps),
    ensures
        s == t,
    decreases steps,
{
    if steps > 0 {
        let before = (steps - 1) as nat;
        lemma_mixed_len(s, before);
        lemma_mixed_len(t, before);
        lemma_mix_step_injective(mixed(s, before), mixed(t, before), steps - 1);
        lemma_mixed_injective(s, t, before);
    }
}

/// Two offsets of one source never share an imported identity.
pub proof fn lemma_import_ids_distinct(source: Seq<u8>, a: u64, b: u64)
    requires
        source.len() == 16,
        a != b,
    ensures
        import_id(source, a) != import_id(source, b),
{
    if import_id(source, a) == import_id(source, b) {
        crate::bytes::lemma_le_codec();
        let x = offset_mixed(source, a);
        let y = offset_mixed(source, b);
        lemma_mixed_injective(x, y, 64);
        let ba = spec_u64_to_le_bytes(a);
        let bb = spec_u64_to_le_bytes(b);
        assert forall|i: int| 0 <= i < 8 implies ba[i] == bb[i] by {
            assert(x[i] == y[i]);
            lemma_xor_cancels(source[i], ba[i], bb[i]);
        }
        assert(ba =~= bb);
    }
}

/// The identity of the event imported from `offset` of `source_identity`.
pub fn derive_import_id(source_identity: [u8; 16], offset: u64) -> (r: [u8; 16])
    ensures
        r@ == import_id(source_identity@, offset),
{
    let encoded = vstd::bytes::u64_to_le_bytes(offset);
    proof {
        crate::bytes::lemma_le_codec();
    }
    let mut bytes: [u8; 16] = source_identity;
    let ghost source = source_identity@;
    let mut index: usize = 0;
    while index < 8
        invariant
            index <= 8,
            encoded@ == spec_u64_to_le_bytes(offset),
            encoded@.len() == 8,
            source.len() == 16,
            forall|k: int| 0 <= k < 16 ==> #[trigger] bytes@[k] == if k < index || 8 <= k < 8 + index {
                offset_mixed(source, offset)[k]
            } else {
                source[k]
            },
        decreases 8 - index,
    {
        bytes[index] = bytes[index] ^ encoded[index];
        bytes[index + 8] = bytes[index + 8] ^ rotate8(encoded[index], 1);
        index = index + 1;
    }
    assert(bytes@ =~= offset_mixed(source, offset));
    let mut step: usize = 0;
    while step < 64
        invariant
            step <= 64,
            bytes@ == mixed(offset_mixed(source, offset), step as nat),
        decreases 64 - step,
    {
        let i: usize = step % 16;
        let next: u8 = bytes[(i + 1) % 16];
        let turn: u8 = ((step / 16 + i) % 7 + 1) as u8;
        bytes[i] = rotate8(bytes[i].wrapping_add(next), turn);
        step = step + 1;
        assert(bytes@ =~= mixed(offset_mixed(source, offset), step as nat));
    }
    bytes
}

/// The second half of a fresh identity: a counter, and the process that counts.
pub open spec fn counted(counter: u64, process: u64) -> u64 {
    counter ^ (process << 32 | process >> 32)
}

/// A fresh identity: the time in its first half, a counter of the process in its
/// second.
pub fn fresh_id(nanos: u64, counter: u64, process: u64) -> (r: [u8; 16])
    ensures
        r@ == spec_u64_to_le_bytes(nanos) + spec_u64_to_le_bytes(counted(counter, process)),
{
    let second: u64 = counter ^ (process << 32 | process >> 32);
    let mut out: Vec<u8> = Vec::new();
    put_u64(&mut out, nanos);
    put_u64(&mut out, second);
    proof {
        crate::bytes::lemma_le_codec();
    }
    let r = crate::bytes::read_array16(out.as_slice(), 0);
    assert(r@ =~= out@);
    r
}

/// A process never draws the same identity twice while its counter goes on,
/// whatever its clock does.
pub proof fn lemma_fresh_ids_distinct(nanos: u64, counter: u64, later: u64, other: u64, process: u64)
    requires
        counter != other,
    ensures
        spec_u64_to_le_bytes(nanos) + spec_u64_to_le_bytes(counted(counter, process)) != spec_u64_to_le_bytes(later)
            + spec_u64_to_le_bytes(counted(other, process)),
{
    crate::bytes::lemma_le_codec();
    let a = counted(counter, process);
    let b = counted(other, process);
    let turned = process << 32 | process >> 32;
    assert(counter != other ==> (counter ^ turned) != (other ^ turned)) by (bit_vector);
    let left = spec_u64_to_le_bytes(nanos) + spec_u64_to_le_bytes(a);
    let right = spec_u64_to_le_bytes(later) + spec_u64_to_le_bytes(b);
    assert(left.subrange(8, 16) =~= spec_u64_to_le_bytes(a));
    assert(right.subrange(8, 16) =~= spec_u64_to_le_bytes(b));
    if left == right {
        assert(spec_u64_to_le_bytes(a) == spec_u64_to_le_bytes(b));
        assert(vstd::bytes::spec_u64_from_le_bytes(spec_u64_to_le_bytes(a)) == a);
        assert(vstd::bytes::spec_u64_from_le_bytes(spec_u64_to_le_bytes(b)) == b);
    }
}

} // verus!
