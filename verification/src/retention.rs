//! Retention anchors: what a database keeps when it lets go of old history.
use crate::bytes::{same16, zero16};
use crate::checksum::{crc32c, crc32c_of};
use crate::error::{invalid_format, ErrorView, Result, SalamanderError};
use crate::sealed::{seal, sealed, unseal, unsealing, SealFault, SealLimits, SEAL_BYTES};
use crate::text::{decimal, decimal_string, join2, join4, same_text};
use vstd::prelude::*;
use vstd::utf8::encode_utf8;

verus! {

/// The first eight bytes of an anchor, `SLMRETN1`, as a little-endian number.
pub const ANCHOR_MARK: u64 = 0x314e_5445_524d_4c53;

/// The layout of an anchor's payload.
pub const FORMAT_VERSION: u32 = 5;

/// The most bytes of an anchor's payload.
pub const MAX_ANCHOR_BYTES: usize = 256 * 1024 * 1024;

/// The most bytes of one branch's or consumer's checkpoint.
pub const MAX_BOOTSTRAP_BYTES: usize = 64 * 1024 * 1024;

/// What is known of an anchor.
#[derive(Debug, Clone, Copy, PartialEq, Eq)]
pub struct RetentionAnchorInfo {
    pub format_version: u32,
    pub database_id: [u8; 16],
    pub floor: u64,
    pub head: u64,
    /// The length of its file.
    pub bytes: u64,
    pub checksum: u32,
    pub projection_checkpoints: usize,
    pub branch_bootstraps: usize,
    pub consumer_bootstraps: usize,
    /// The bytes of all checkpoints of branches and consumers.
    pub bootstrap_bytes: u64,
    pub system_records: usize,
}

/// The snapshots that an anchor keeps for a projection.
#[derive(Debug)]
pub struct RetentionProjectionCoverage {
    pub name: String,
    pub descriptor_fingerprint: [u8; 16],
    pub branch_id: [u8; 16],
    pub cursor: u64,
    pub snapshot_ids: Vec<String>,
}

/// An application's checkpoint for a branch at a floor.
#[derive(Debug)]
pub struct RetentionBranchBootstrap {
    pub branch_id: [u8; 16],
    pub floor: u64,
    pub checksum: u32,
    pub checkpoint: Vec<u8>,
}

/// A branch's checkpoint as plain values.
#[verifier::ext_equal]
pub struct BranchBootstrapView {
    pub branch: Seq<u8>,
    pub floor: u64,
    pub checksum: u32,
    pub checkpoint: Seq<u8>,
}

impl View for RetentionBranchBootstrap {
    type V = BranchBootstrapView;

    open spec fn view(&self) -> BranchBootstrapView {
        BranchBootstrapView {
            branch: self.branch_id@,
            floor: self.floor,
            checksum: self.checksum,
            checkpoint: self.checkpoint@,
        }
    }
}

/// What a feed selects, for which a consumer's checkpoint is good.
#[derive(Debug)]
pub struct RetentionFeedScope {
    pub branches: Vec<[u8; 16]>,
    pub streams: Vec<[u8; 16]>,
    pub event_types: Vec<String>,
}

impl Default for RetentionFeedScope {
    fn default() -> (r: Self)
        ensures
            r.branches@.len() == 0,
            r.streams@.len() == 0,
            r.event_types@.len() == 0,
    {
        RetentionFeedScope { branches: Vec::new(), streams: Vec::new(), event_types: Vec::new() }
    }
}

/// A consumer's checkpoint at a floor.
#[derive(Debug)]
pub struct RetentionConsumerBootstrap {
    pub consumer_id: String,
    pub floor: u64,
    pub checksum: u32,
    pub checkpoint: Vec<u8>,
    pub checkpoint_id: [u8; 16],
    pub scope: RetentionFeedScope,
    pub codec: String,
    pub codec_version: u32,
}

/// A consumer's checkpoint as plain values, but for its scope.
#[verifier::ext_equal]
pub struct ConsumerBootstrapView {
    pub consumer: Seq<char>,
    pub floor: u64,
    pub checksum: u32,
    pub checkpoint: Seq<u8>,
    pub checkpoint_id: Seq<u8>,
    pub codec: Seq<char>,
}

impl View for RetentionConsumerBootstrap {
    type V = ConsumerBootstrapView;

    open spec fn view(&self) -> ConsumerBootstrapView {
        ConsumerBootstrapView {
            consumer: self.consumer_id@,
            floor: self.floor,
            checksum: self.checksum,
            checkpoint: self.checkpoint@,
            checkpoint_id: self.checkpoint_id@,
            codec: self.codec@,
        }
    }
}

/// The checkpoints of branches as plain values.
pub open spec fn branch_bootstrap_views(items: Seq<RetentionBranchBootstrap>) -> Seq<BranchBootstrapView> {
    Seq::new(items.len(), |i: int| items[i]@)
}

/// The checkpoints of consumers as plain values.
pub open spec fn consumer_bootstrap_views(items: Seq<RetentionConsumerBootstrap>) -> Seq<ConsumerBootstrapView> {
    Seq::new(items.len(), |i: int| items[i]@)
}

/// Whether a branch's checkpoint is whole and for this floor.
pub open spec fn branch_item_valid(item: BranchBootstrapView, floor: u64) -> bool {
    item.floor == floor && item.checkpoint.len() <= MAX_BOOTSTRAP_BYTES && crc32c_of(item.checkpoint) == item.checksum
}

/// Whether branches' checkpoints are valid, with no branch twice.
pub open spec fn branch_items_valid(items: Seq<BranchBootstrapView>, floor: u64) -> bool {
    &&& forall|i: int| 0 <= i < items.len() ==> branch_item_valid(#[trigger] items[i], floor)
    &&& forall|i: int, j: int| 0 <= i < j < items.len() ==> (#[trigger] items[i]).branch != (#[trigger] items[j]).branch
}

/// Whether a consumer's checkpoint is whole, has an identity and a codec, and
/// is for this floor.
pub open spec fn consumer_item_valid(item: ConsumerBootstrapView, floor: u64) -> bool {
    &&& item.floor == floor
    &&& item.checkpoint.len() <= MAX_BOOTSTRAP_BYTES
    &&& crc32c_of(item.checkpoint) == item.checksum
    &&& item.checkpoint_id != zero16()
    &&& 0 < encode_utf8(item.codec).len() <= 128
}

/// Whether consumers' checkpoints are valid, with no consumer and no identity
/// twice.
pub open spec fn consumer_items_valid(items: Seq<ConsumerBootstrapView>, floor: u64) -> bool {
    &&& forall|i: int| 0 <= i < items.len() ==> consumer_item_valid(#[trigger] items[i], floor)
    &&& forall|i: int, j: int|
        0 <= i < j < items.len() ==> (#[trigger] items[i]).consumer != (#[trigger] items[j]).consumer && items[i].checkpoint_id
            != items[j].checkpoint_id
}

fn branch_seen(items: &Vec<RetentionBranchBootstrap>, n: usize, id: &[u8; 16]) -> (r: bool)
    requires
        n <= items.len(),
    ensures
        r == exists|i: int| 0 <= i < n && (#[trigger] branch_bootstrap_views(items@)[i]).branch == id@,
{
    let mut i: usize = 0;
    while i < n
        invariant
            i <= n <= items@.len(),
            forall|j: int| 0 <= j < i ==> (#[trigger] branch_bootstrap_views(items@)[j]).branch != id@,
        decreases n - i,
    {
        if same16(&items[i].branch_id, id) {
            assert(branch_bootstrap_views(items@)[i as int].branch == id@);
            return true;
        }
        i = i + 1;
    }
    false
}

fn consumer_seen(items: &Vec<RetentionConsumerBootstrap>, n: usize, item: &RetentionConsumerBootstrap) -> (r: bool)
    requires
        n <= items.len(),
    ensures
        r == exists|i: int|
            0 <= i < n && ((#[trigger] consumer_bootstrap_views(items@)[i]).consumer == item@.consumer || consumer_bootstrap_views(
                items@,
            )[i].checkpoint_id == item@.checkpoint_id),
{
    let ghost views = consumer_bootstrap_views(items@);
    let mut i: usize = 0;
    while i < n
        invariant
            i <= n <= items@.len(),
            views == consumer_bootstrap_views(items@),
            forall|j: int|
                0 <= j < i ==> (#[trigger] views[j]).consumer != item@.consumer && views[j].checkpoint_id != item@.checkpoint_id,
        decreases n - i,
    {
        assert(views[i as int] == items@[i as int]@);
        if same_text(items[i].consumer_id.as_str(), item.consumer_id.as_str()) || same16(&items[i].checkpoint_id, &item.checkpoint_id) {
            return true;
        }
        i = i + 1;
    }
    false
}

/// Checks the checkpoints of branches and consumers.
pub fn validate_bootstraps(
    floor: u64,
    branches: &Vec<RetentionBranchBootstrap>,
    consumers: &Vec<RetentionConsumerBootstrap>,
) -> (r: Result<()>)
    ensures
        ({
            let b = branch_items_valid(branch_bootstrap_views(branches@), floor);
            let c = consumer_items_valid(consumer_bootstrap_views(consumers@), floor);
            &&& r is Ok <==> b && c
            &&& r matches Err(e) ==> e@ == ErrorView::InvalidFormat(
                if !b {
                    "invalid or duplicate branch bootstrap coverage"@
                } else {
                    "invalid or duplicate consumer bootstrap coverage"@
                },
            )
        }),
{
    let ghost bs = branch_bootstrap_views(branches@);
    let ghost cs = consumer_bootstrap_views(consumers@);
    let mut i: usize = 0;
    while i < branches.len()
        invariant
            i <= branches@.len(),
            bs == branch_bootstrap_views(branches@),
            branch_items_valid(bs.take(i as int), floor),
        decreases branches@.len() - i,
    {
        let item = &branches[i];
        assert(bs[i as int] == item@);
        assert(bs.take(i + 1)[i as int] == item@);
        if item.floor != floor || item.checkpoint.len() > MAX_BOOTSTRAP_BYTES || crc32c(item.checkpoint.as_slice()) != item.checksum {
            assert(!branch_item_valid(bs[i as int], floor));
            return Err(invalid_format("invalid or duplicate branch bootstrap coverage"));
        }
        if branch_seen(branches, i, &item.branch_id) {
            proof {
                let j = choose|j: int| 0 <= j < i && (#[trigger] bs[j]).branch == item.branch_id@;
                assert(bs[j].branch == bs[i as int].branch);
            }
            return Err(invalid_format("invalid or duplicate branch bootstrap coverage"));
        }
        proof {
            let upto = bs.take(i + 1);
            assert forall|k: int| 0 <= k < upto.len() implies branch_item_valid(#[trigger] upto[k], floor) by {
                if k < i {
                    assert(upto[k] == bs.take(i as int)[k]);
                }
            }
            assert forall|a: int, b: int| 0 <= a < b < upto.len() implies (#[trigger] upto[a]).branch != (#[trigger] upto[b]).branch by {
                assert(upto[a] == bs[a]);
                if b < i {
                    assert(upto[a] == bs.take(i as int)[a] && upto[b] == bs.take(i as int)[b]);
                }
            }
        }
        i = i + 1;
    }
    assert(bs.take(i as int) =~= bs);
    let mut k: usize = 0;
    while k < consumers.len()
        invariant
            k <= consumers@.len(),
            cs == consumer_bootstrap_views(consumers@),
            bs == branch_bootstrap_views(branches@),
            branch_items_valid(bs, floor),
            consumer_items_valid(cs.take(k as int), floor),
        decreases consumers@.len() - k,
    {
        let item = &consumers[k];
        assert(cs[k as int] == item@);
        assert(cs.take(k + 1)[k as int] == item@);
        let codec_bytes: usize = item.codec.as_str().as_bytes().len();
        let zero = crate::format::ids::EventId::zero();
        if item.floor != floor || item.checkpoint.len() > MAX_BOOTSTRAP_BYTES || crc32c(item.checkpoint.as_slice()) != item.checksum
            || same16(&item.checkpoint_id, zero.as_bytes()) || codec_bytes == 0 || codec_bytes > 128 {
            assert(!consumer_item_valid(cs[k as int], floor));
            return Err(invalid_format("invalid or duplicate consumer bootstrap coverage"));
        }
        if consumer_seen(consumers, k, item) {
            proof {
                let j = choose|j: int|
                    0 <= j < k && ((#[trigger] cs[j]).consumer == item@.consumer || cs[j].checkpoint_id == item@.checkpoint_id);
                assert(cs[j].consumer == cs[k as int].consumer || cs[j].checkpoint_id == cs[k as int].checkpoint_id);
            }
            return Err(invalid_format("invalid or duplicate consumer bootstrap coverage"));
        }
        proof {
            let upto = cs.take(k + 1);
            assert forall|a: int| 0 <= a < upto.len() implies consumer_item_valid(#[trigger] upto[a], floor) by {
                if a < k {
                    assert(upto[a] == cs.take(k as int)[a]);
                }
            }
            assert forall|a: int, b: int| 0 <= a < b < upto.len() implies (#[trigger] upto[a]).consumer != (#[trigger] upto[b]).consumer
                && upto[a].checkpoint_id != upto[b].checkpoint_id by {
                assert(upto[a] == cs[a]);
                if b < k {
                    assert(upto[a] == cs.take(k as int)[a] && upto[b] == cs.take(k as int)[b]);
                }
            }
        }
        k = k + 1;
    }
    assert(cs.take(k as int) =~= cs);
    Ok(())
}

/// Why an anchor is not the one that a database needs, if it is not.
pub open spec fn identity_error(anchor: RetentionAnchorInfo, database: Seq<u8>, floor: u64, head: u64) -> Option<ErrorView> {
    if anchor.format_version != FORMAT_VERSION {
        Some(ErrorView::InvalidFormat("unsupported retention anchor format "@ + decimal(anchor.format_version as nat)))
    } else if anchor.database_id@ != database {
        Some(ErrorView::InvalidFormat("retention anchor belongs to another database"@))
    } else if anchor.floor != floor {
        Some(
            ErrorView::InvalidFormat(
                "retention anchor floor "@ + decimal(anchor.floor as nat) + " does not match required floor "@ + decimal(floor as nat),
            ),
        )
    } else if anchor.head != head {
        Some(
            ErrorView::InvalidFormat(
                "retention anchor head "@ + decimal(anchor.head as nat) + " does not match durable head "@ + decimal(head as nat),
            ),
        )
    } else {
        None
    }
}

/// Checks that an anchor is the one that a database needs.
pub fn validate_identity(anchor: &RetentionAnchorInfo, database_id: &[u8; 16], floor: u64, head: u64) -> (r: Result<()>)
    ensures
        r is Ok <==> identity_error(*anchor, database_id@, floor, head) is None,
        r matches Err(e) ==> Some(e@) == identity_error(*anchor, database_id@, floor, head),
{
    if anchor.format_version != FORMAT_VERSION {
        return Err(
            SalamanderError::InvalidFormat(
                join2("unsupported retention anchor format ", decimal_string(anchor.format_version as u64).as_str()),
            ),
        );
    }
    if !same16(&anchor.database_id, database_id) {
        return Err(invalid_format("retention anchor belongs to another database"));
    }
    if anchor.floor != floor {
        return Err(
            SalamanderError::InvalidFormat(
                join4(
                    "retention anchor floor ",
                    decimal_string(anchor.floor).as_str(),
                    " does not match required floor ",
                    decimal_string(floor).as_str(),
                ),
            ),
        );
    }
    if anchor.head != head {
        return Err(
            SalamanderError::InvalidFormat(
                join4(
                    "retention anchor head ",
                    decimal_string(anchor.head).as_str(),
                    " does not match durable head ",
                    decimal_string(head).as_str(),
                ),
            ),
        );
    }
    Ok(())
}

/// The limits of anchor files.
pub open spec fn anchor_limits() -> SealLimits {
    SealLimits { mark: ANCHOR_MARK, body: MAX_ANCHOR_BYTES, total: (SEAL_BYTES + MAX_ANCHOR_BYTES) as usize, exact: true }
}

/// An anchor's file: its payload, sealed.
pub fn encode_anchor(payload: &[u8]) -> (r: Result<Vec<u8>>)
    ensures
        payload@.len() > MAX_ANCHOR_BYTES ==> (r matches Err(e) && e@ == (ErrorView::ResourceLimit {
            resource: "retention anchor bytes"@,
            actual: payload@.len() as u64,
            maximum: MAX_ANCHOR_BYTES as u64,
        })),
        payload@.len() <= MAX_ANCHOR_BYTES ==> (r matches Ok(out) && out@ == sealed(ANCHOR_MARK, payload@, Seq::empty())),
{
    if payload.len() > MAX_ANCHOR_BYTES {
        return Err(
            SalamanderError::ResourceLimit {
                resource: "retention anchor bytes",
                actual: payload.len() as u64,
                maximum: MAX_ANCHOR_BYTES as u64,
            },
        );
    }
    let none: Vec<u8> = Vec::new();
    assert(none@ =~= Seq::empty());
    Ok(seal(ANCHOR_MARK, payload, none.as_slice()))
}

/// What is wrong with an anchor's file.
pub open spec fn anchor_fault(fault: SealFault) -> Seq<char> {
    match fault {
        SealFault::Length => "retention anchor length is invalid"@,
        SealFault::Mark => "retention anchor magic is invalid"@,
        SealFault::BodyLength => "retention anchor payload length is invalid"@,
        SealFault::Checksum => "retention anchor checksum mismatch"@,
    }
}

/// The length of the payload in an anchor's file, and its checksum.
pub fn open_anchor(bytes: &[u8]) -> (r: Result<(usize, u32)>)
    ensures
        match unsealing(anchor_limits(), bytes@) {
            Ok(n) => r matches Ok((found, checksum)) && found == n && SEAL_BYTES + found <= bytes.len() && checksum == crc32c_of(
                bytes@.subrange(SEAL_BYTES as int, SEAL_BYTES + n),
            ),
            Err(fault) => r matches Err(e) && e@ == ErrorView::InvalidFormat(anchor_fault(fault)),
        },
{
    let limits = SealLimits { mark: ANCHOR_MARK, body: MAX_ANCHOR_BYTES, total: SEAL_BYTES + MAX_ANCHOR_BYTES, exact: true };
    match unseal(limits, bytes) {
        Ok(n) => Ok((n, crate::bytes::read_u32(bytes, 12))),
        Err(SealFault::Length) => Err(invalid_format("retention anchor length is invalid")),
        Err(SealFault::Mark) => Err(invalid_format("retention anchor magic is invalid")),
        Err(SealFault::BodyLength) => Err(invalid_format("retention anchor payload length is invalid")),
        Err(SealFault::Checksum) => Err(invalid_format("retention anchor checksum mismatch")),
    }
}

/// Where the checkpoint of a branch stands.
pub open spec fn branch_bootstrap_at(items: Seq<BranchBootstrapView>, branch: Seq<u8>, floor: Option<u64>) -> Option<int>
    decreases items.len(),
{
    if items.len() == 0 {
        None
    } else {
        match branch_bootstrap_at(items.drop_last(), branch, floor) {
            Some(i) => Some(i),
            None => {
                let item = items.last();
                if item.branch == branch && (floor is None || floor == Some(item.floor)) && crc32c_of(item.checkpoint) == item.checksum {
                    Some(items.len() - 1)
                } else {
                    None
                }
            },
        }
    }
}

/// The first whole checkpoint of a branch, for this floor where one is given.
pub fn find_branch_bootstrap<'a>(items: &'a Vec<RetentionBranchBootstrap>, branch: &[u8; 16], floor: Option<u64>) -> (r: Option<
    &'a RetentionBranchBootstrap,
>)
    ensures
        match branch_bootstrap_at(branch_bootstrap_views(items@), branch@, floor) {
            Some(i) => r matches Some(item) && *item == items@[i],
            None => r is None,
        },
{
    let ghost all = branch_bootstrap_views(items@);
    let mut i: usize = 0;
    assert(all.take(0) =~= Seq::empty());
    while i < items.len()
        invariant
            i <= items@.len(),
            all == branch_bootstrap_views(items@),
            branch_bootstrap_at(all.take(i as int), branch@, floor) is None,
        decreases items@.len() - i,
    {
        let item = &items[i];
        assert(all[i as int] == item@);
        assert(all.take(i + 1).last() == all[i as int]);
        assert(all.take(i + 1).drop_last() =~= all.take(i as int));
        let at_floor = match floor {
            Some(floor) => item.floor == floor,
            None => true,
        };
        if same16(&item.branch_id, branch) && at_floor && crc32c(item.checkpoint.as_slice()) == item.checksum {
            proof {
                lemma_first_branch_bootstrap(all, branch@, floor, i + 1);
            }
            return Some(item);
        }
        i = i + 1;
    }
    assert(all.take(i as int) =~= all);
    None
}

proof fn lemma_first_branch_bootstrap(items: Seq<BranchBootstrapView>, branch: Seq<u8>, floor: Option<u64>, n: int)
    requires
        0 <= n <= items.len(),
        branch_bootstrap_at(items.take(n), branch, floor) is Some,
    ensures
        branch_bootstrap_at(items, branch, floor) == branch_bootstrap_at(items.take(n), branch, floor),
    decreases items.len() - n,
{
    if n == items.len() {
        assert(items.take(n) =~= items);
    } else {
        assert(items.take(n + 1).drop_last() =~= items.take(n));
        lemma_first_branch_bootstrap(items, branch, floor, n + 1);
    }
}

/// Where the checkpoint of a consumer stands.
pub open spec fn consumer_bootstrap_at(items: Seq<ConsumerBootstrapView>, consumer: Seq<char>, floor: Option<u64>) -> Option<int>
    decreases items.len(),
{
    if items.len() == 0 {
        None
    } else {
        match consumer_bootstrap_at(items.drop_last(), consumer, floor) {
            Some(i) => Some(i),
            None => {
                let item = items.last();
                if item.consumer == consumer && (floor is None || floor == Some(item.floor)) && crc32c_of(item.checkpoint)
                    == item.checksum {
                    Some(items.len() - 1)
                } else {
                    None
                }
            },
        }
    }
}

proof fn lemma_first_consumer_bootstrap(items: Seq<ConsumerBootstrapView>, consumer: Seq<char>, floor: Option<u64>, n: int)
    requires
        0 <= n <= items.len(),
        consumer_bootstrap_at(items.take(n), consumer, floor) is Some,
    ensures
        consumer_bootstrap_at(items, consumer, floor) == consumer_bootstrap_at(items.take(n), consumer, floor),
    decreases items.len() - n,
{
    if n == items.len() {
        assert(items.take(n) =~= items);
    } else {
        assert(items.take(n + 1).drop_last() =~= items.take(n));
        lemma_first_consumer_bootstrap(items, consumer, floor, n + 1);
    }
}

/// The first whole checkpoint of a consumer, for this floor where one is given.
pub fn find_consumer_bootstrap<'a>(items: &'a Vec<RetentionConsumerBootstrap>, consumer: &str, floor: Option<u64>) -> (r: Option<
    &'a RetentionConsumerBootstrap,
>)
    ensures
        match consumer_bootstrap_at(consumer_bootstrap_views(items@), consumer@, floor) {
            Some(i) => r matches Some(item) && *item == items@[i],
            None => r is None,
        },
{
    let ghost all = consumer_bootstrap_views(items@);
    let mut i: usize = 0;
    assert(all.take(0) =~= Seq::empty());
    while i < items.len()
        invariant
            i <= items@.len(),
            all == consumer_bootstrap_views(items@),
            consumer_bootstrap_at(all.take(i as int), consumer@, floor) is None,
        decreases items@.len() - i,
    {
        let item = &items[i];
        assert(all[i as int] == item@);
        assert(all.take(i + 1).last() == all[i as int]);
        assert(all.take(i + 1).drop_last() =~= all.take(i as int));
        let at_floor = match floor {
            Some(floor) => item.floor == floor,
            None => true,
        };
        if same_text(item.consumer_id.as_str(), consumer) && at_floor && crc32c(item.checkpoint.as_slice()) == item.checksum {
            proof {
                lemma_first_consumer_bootstrap(all, consumer@, floor, i + 1);
            }
            return Some(item);
        }
        i = i + 1;
    }
    assert(all.take(i as int) =~= all);
    None
}

/// An anchor's payload is found again in its file, and a file that lost its end
/// is refused.
pub proof fn lemma_anchor_round_trip(payload: Seq<u8>, n: int)
    requires
        0 < payload.len() <= MAX_ANCHOR_BYTES,
        0 <= n < sealed(ANCHOR_MARK, payload, Seq::empty()).len(),
    ensures
        unsealing(anchor_limits(), sealed(ANCHOR_MARK, payload, Seq::empty())) == Ok::<int, SealFault>(payload.len() as int),
        sealed(ANCHOR_MARK, payload, Seq::empty()).subrange(SEAL_BYTES as int, SEAL_BYTES + payload.len()) == payload,
        unsealing(anchor_limits(), sealed(ANCHOR_MARK, payload, Seq::empty()).take(n)) is Err,
{
    crate::sealed::lemma_seal_round_trip(anchor_limits(), payload, Seq::empty());
    crate::sealed::lemma_cut_refused(anchor_limits(), payload, n);
}

/// The snapshots that projections' coverage names, at most as many as a `usize`
/// holds.
pub open spec fn checkpoints_named(coverage: Seq<RetentionProjectionCoverage>) -> int
    decreases coverage.len(),
{
    if coverage.len() == 0 {
        0
    } else {
        let n = checkpoints_named(coverage.drop_last()) + coverage.last().snapshot_ids@.len();
        if n > usize::MAX {
            usize::MAX as int
        } else {
            n
        }
    }
}

/// The bytes of checkpoints, at most as many as a `u64` holds.
pub open spec fn checkpoint_bytes(start: int, checkpoints: Seq<Seq<u8>>) -> int
    decreases checkpoints.len(),
{
    if checkpoints.len() == 0 {
        start
    } else {
        let n = checkpoint_bytes(start, checkpoints.drop_last()) + checkpoints.last().len();
        if n > u64::MAX {
            u64::MAX as int
        } else {
            n
        }
    }
}

/// The checkpoints of branches.
pub open spec fn branch_checkpoints(items: Seq<BranchBootstrapView>) -> Seq<Seq<u8>> {
    Seq::new(items.len(), |i: int| items[i].checkpoint)
}

/// The checkpoints of consumers.
pub open spec fn consumer_checkpoints(items: Seq<ConsumerBootstrapView>) -> Seq<Seq<u8>> {
    Seq::new(items.len(), |i: int| items[i].checkpoint)
}

/// What an anchor's file is seen to be.
#[derive(Debug, Clone, Copy)]
pub struct AnchorHeader {
    pub format_version: u32,
    pub database_id: [u8; 16],
    pub floor: u64,
    pub head: u64,
    pub bytes: u64,
    pub checksum: u32,
    pub system_records: usize,
}

/// What is known of an anchor, from its header and what it keeps.
pub fn anchor_info(
    header: AnchorHeader,
    coverage: &Vec<RetentionProjectionCoverage>,
    branches: &Vec<RetentionBranchBootstrap>,
    consumers: &Vec<RetentionConsumerBootstrap>,
) -> (r: RetentionAnchorInfo)
    ensures
        r == (RetentionAnchorInfo {
            format_version: header.format_version,
            database_id: header.database_id,
            floor: header.floor,
            head: header.head,
            bytes: header.bytes,
            checksum: header.checksum,
            projection_checkpoints: r.projection_checkpoints,
            branch_bootstraps: branches.len(),
            consumer_bootstraps: consumers.len(),
            bootstrap_bytes: r.bootstrap_bytes,
            system_records: header.system_records,
        }),
        r.projection_checkpoints == checkpoints_named(coverage@),
        r.bootstrap_bytes == checkpoint_bytes(
            checkpoint_bytes(0, branch_checkpoints(branch_bootstrap_views(branches@))),
            consumer_checkpoints(consumer_bootstrap_views(consumers@)),
        ),
{
    let mut named: usize = 0;
    let mut i: usize = 0;
    assert(coverage@.take(0) =~= Seq::empty());
    while i < coverage.len()
        invariant
            i <= coverage@.len(),
            named == checkpoints_named(coverage@.take(i as int)),
        decreases coverage@.len() - i,
    {
        assert(coverage@.take(i + 1).last() == coverage@[i as int]);
        assert(coverage@.take(i + 1).drop_last() =~= coverage@.take(i as int));
        named = named.saturating_add(coverage[i].snapshot_ids.len());
        i = i + 1;
    }
    assert(coverage@.take(i as int) =~= coverage@);
    let ghost bs = branch_checkpoints(branch_bootstrap_views(branches@));
    let mut bytes: u64 = 0;
    let mut j: usize = 0;
    assert(bs.take(0) =~= Seq::empty());
    while j < branches.len()
        invariant
            j <= branches@.len(),
            bs == branch_checkpoints(branch_bootstrap_views(branches@)),
            bytes == checkpoint_bytes(0, bs.take(j as int)),
        decreases branches@.len() - j,
    {
        assert(bs[j as int] == branches@[j as int].checkpoint@);
        assert(bs.take(j + 1).last() == bs[j as int]);
        assert(bs.take(j + 1).drop_last() =~= bs.take(j as int));
        bytes = bytes.saturating_add(branches[j].checkpoint.len() as u64);
        j = j + 1;
    }
    assert(bs.take(j as int) =~= bs);
    let ghost start = bytes as int;
    let ghost cs = consumer_checkpoints(consumer_bootstrap_views(consumers@));
    let mut k: usize = 0;
    assert(cs.take(0) =~= Seq::empty());
    while k < consumers.len()
        invariant
            k <= consumers@.len(),
            cs == consumer_checkpoints(consumer_bootstrap_views(consumers@)),
            bytes == checkpoint_bytes(start, cs.take(k as int)),
        decreases consumers@.len() - k,
    {
        assert(cs[k as int] == consumers@[k as int].checkpoint@);
        assert(cs.take(k + 1).last() == cs[k as int]);
        assert(cs.take(k + 1).drop_last() =~= cs.take(k as int));
        bytes = bytes.saturating_add(consumers[k].checkpoint.len() as u64);
        k = k + 1;
    }
    assert(cs.take(k as int) =~= cs);
    RetentionAnchorInfo {
        format_version: header.format_version,
        database_id: header.database_id,
        floor: header.floor,
        head: header.head,
        bytes: header.bytes,
        checksum: header.checksum,
        projection_checkpoints: named,
        branch_bootstraps: branches.len(),
        consumer_bootstraps: consumers.len(),
        bootstrap_bytes: bytes,
        system_records: header.system_records,
    }
}

} // verus!
