//! The sidecar of a closed segment: seek points, stream postings and a time
//! range, all derived from the segment's own bytes.
use crate::bytes::{
    i64_at, i64_bytes, lemma_i64_bits, lemma_le_codec, lemma_lex_transitive, lex_lt, put, put_i64, put_u16, put_u32,
    put_u64, read_array16, read_i64, read_u16, read_u32, read_u64, u16_at, u32_at, u64_at,
};
use crate::checksum::{byte_change_shows, crc32c, crc32c_of};
use crate::error::{ErrorView, Result, SalamanderError};
use crate::format::ids::StreamId;
use crate::text::join2;
use vstd::bytes::{spec_u16_to_le_bytes, spec_u32_from_le_bytes, spec_u32_to_le_bytes, spec_u64_to_le_bytes};
use vstd::prelude::*;
use vstd::slice::slice_subrange;

verus! {

pub const SIDECAR_VERSION: u16 = 1;

/// The length of the fixed header.
pub const HEADER_LEN: usize = 56;

pub const SEEK_ENTRY_LEN: usize = 16;

pub const POSTING_ENTRY_LEN: usize = 40;

/// The distance between seek points, in bytes of the segment.
pub const SEEK_POINT_SPACING: u64 = 65_536;

/// Where a stream occurs in a segment.
#[derive(Debug, Clone, Copy, PartialEq, Eq)]
pub struct PostingEntry {
    pub stream: StreamId,
    pub first: u64,
    pub last: u64,
    pub count: u64,
}

/// A posting as plain values.
#[verifier::ext_equal]
pub struct PostingView {
    pub stream: Seq<u8>,
    pub first: u64,
    pub last: u64,
    pub count: u64,
}

impl View for PostingEntry {
    type V = PostingView;

    open spec fn view(&self) -> PostingView {
        PostingView { stream: self.stream@, first: self.first, last: self.last, count: self.count }
    }
}

/// The postings of a list as plain values.
pub open spec fn posting_views(postings: Seq<PostingEntry>) -> Seq<PostingView> {
    Seq::new(postings.len(), |i: int| postings[i]@)
}

/// What is known of a closed segment without reading it.
#[derive(Debug, PartialEq, Eq)]
pub struct Sidecar {
    /// The first position of the segment.
    pub base: u64,
    /// One past its last position.
    pub end: u64,
    /// The least and the greatest timestamp of its events; where it has no
    /// events the least is above the greatest.
    pub min_ts: i64,
    pub max_ts: i64,
    /// How many system frames it holds.
    pub system_frames: u64,
    /// Positions and byte offsets of frames outside any batch, by position.
    pub seek_points: Vec<(u64, u64)>,
    /// One entry for each stream, by stream.
    pub postings: Vec<PostingEntry>,
}

/// A sidecar as plain values.
#[verifier::ext_equal]
pub struct SidecarView {
    pub base: u64,
    pub end: u64,
    pub min_ts: i64,
    pub max_ts: i64,
    pub system_frames: u64,
    pub seek_points: Seq<(u64, u64)>,
    pub postings: Seq<PostingView>,
}

impl View for Sidecar {
    type V = SidecarView;

    open spec fn view(&self) -> SidecarView {
        SidecarView {
            base: self.base,
            end: self.end,
            min_ts: self.min_ts,
            max_ts: self.max_ts,
            system_frames: self.system_frames,
            seek_points: self.seek_points@,
            postings: posting_views(self.postings@),
        }
    }
}

/// Whether positions never descend.
pub open spec fn seek_sorted(points: Seq<(u64, u64)>) -> bool {
    forall|i: int, j: int| 0 <= i < j < points.len() ==> (#[trigger] points[i]).0 <= (#[trigger] points[j]).0
}

/// Whether streams ascend strictly.
pub open spec fn postings_sorted(postings: Seq<PostingView>) -> bool {
    forall|i: int, j: int| 0 <= i < j < postings.len() ==> lex_lt((#[trigger] postings[i]).stream, (#[trigger] postings[j]).stream)
}

/// What holds of a sidecar's lists.
pub open spec fn sidecar_sorted(s: SidecarView) -> bool {
    seek_sorted(s.seek_points) && postings_sorted(s.postings)
}

/// Whether the time range proves that no event lies in `start..end`.
pub open spec fn times_apart(s: SidecarView, start: i64, end: i64) -> bool {
    s.min_ts <= s.max_ts && (s.max_ts < start || s.min_ts >= end)
}

/// The seek points on disk.
pub open spec fn seek_bytes(points: Seq<(u64, u64)>) -> Seq<u8>
    decreases points.len(),
{
    if points.len() == 0 {
        Seq::empty()
    } else {
        seek_bytes(points.drop_last()) + spec_u64_to_le_bytes(points.last().0) + spec_u64_to_le_bytes(points.last().1)
    }
}

/// One posting on disk.
pub open spec fn posting_bytes(p: PostingView) -> Seq<u8> {
    p.stream + spec_u64_to_le_bytes(p.first) + spec_u64_to_le_bytes(p.last) + spec_u64_to_le_bytes(p.count)
}

/// The postings on disk.
pub open spec fn postings_bytes(postings: Seq<PostingView>) -> Seq<u8>
    decreases postings.len(),
{
    if postings.len() == 0 {
        Seq::empty()
    } else {
        postings_bytes(postings.drop_last()) + posting_bytes(postings.last())
    }
}

/// The four bytes that a sidecar begins with.
pub open spec fn sidecar_magic() -> Seq<u8> {
    seq![0x53u8, 0x44u8, 0x42u8, 0x58u8]
}

/// The fixed header on disk.
pub open spec fn sidecar_header(s: SidecarView) -> Seq<u8> {
    sidecar_magic() + spec_u16_to_le_bytes(SIDECAR_VERSION) + spec_u16_to_le_bytes(0) + spec_u64_to_le_bytes(s.base)
        + spec_u64_to_le_bytes(s.end) + i64_bytes(s.min_ts) + i64_bytes(s.max_ts) + spec_u64_to_le_bytes(s.system_frames)
        + spec_u32_to_le_bytes(s.seek_points.len() as u32) + spec_u32_to_le_bytes(s.postings.len() as u32)
}

/// Everything before the checksum.
pub open spec fn sidecar_body(s: SidecarView) -> Seq<u8> {
    sidecar_header(s) + seek_bytes(s.seek_points) + postings_bytes(s.postings)
}

/// A sidecar on disk.
pub open spec fn sidecar_bytes(s: SidecarView) -> Seq<u8> {
    sidecar_body(s) + spec_u32_to_le_bytes(crc32c_of(sidecar_body(s)))
}

/// The error for bytes that are no sidecar.
pub open spec fn sidecar_error(reason: Seq<char>) -> ErrorView {
    ErrorView::InvalidFormat("sidecar: "@ + reason)
}

fn sidecar_fail(reason: &str) -> (e: SalamanderError)
    ensures
        e@ == sidecar_error(reason@),
{
    SalamanderError::InvalidFormat(join2("sidecar: ", reason))
}

/// The fields that `body` spells out, with `seeks` seek points and `posts`
/// postings.
pub open spec fn sidecar_fields(body: Seq<u8>, seeks: nat, posts: nat) -> SidecarView {
    SidecarView {
        base: u64_at(body, 8),
        end: u64_at(body, 16),
        min_ts: i64_at(body, 24),
        max_ts: i64_at(body, 32),
        system_frames: u64_at(body, 40),
        seek_points: Seq::new(seeks, |i: int| (u64_at(body, 56 + 16 * i), u64_at(body, 64 + 16 * i))),
        postings: Seq::new(posts, |i: int| posting_at(body, 56 + 16 * seeks + 40 * i)),
    }
}

/// The posting at `at`.
pub open spec fn posting_at(body: Seq<u8>, at: int) -> PostingView {
    PostingView {
        stream: body.subrange(at, at + 16),
        first: u64_at(body, at + 16),
        last: u64_at(body, at + 24),
        count: u64_at(body, at + 32),
    }
}

/// The outcome of reading a sidecar.
pub open spec fn sidecar_decoding(bytes: Seq<u8>) -> core::result::Result<SidecarView, ErrorView> {
    let body = bytes.take(bytes.len() - 4);
    let seeks = u32_at(body, 48) as nat;
    let posts = u32_at(body, 52) as nat;
    let expected = 56 + 16 * seeks + 40 * posts;
    if bytes.len() < 60 {
        Err(sidecar_error("too short"@))
    } else if crc32c_of(body) != u32_at(bytes, bytes.len() - 4) {
        Err(sidecar_error("crc mismatch"@))
    } else if body.subrange(0, 4) != sidecar_magic() {
        Err(sidecar_error("bad magic"@))
    } else if u16_at(body, 4) != SIDECAR_VERSION {
        Err(sidecar_error("unsupported version"@))
    } else if u16_at(body, 6) != 0 {
        Err(sidecar_error("nonzero reserved field"@))
    } else if expected > usize::MAX {
        Err(sidecar_error("overflow"@))
    } else if body.len() != expected {
        Err(sidecar_error("length mismatch"@))
    } else if !sidecar_sorted(sidecar_fields(body, seeks, posts)) {
        Err(sidecar_error("unsorted entries"@))
    } else {
        Ok(sidecar_fields(body, seeks, posts))
    }
}

fn expected_len(seeks: u32, posts: u32) -> (r: Option<usize>)
    ensures
        r is Some <==> 56 + 16 * seeks + 40 * posts <= usize::MAX,
        r matches Some(n) ==> n == 56 + 16 * seeks + 40 * posts,
{
    let total: u64 = 56 + 16 * seeks as u64 + 40 * posts as u64;
    if total <= usize::MAX as u64 {
        Some(total as usize)
    } else {
        None
    }
}

fn read_seek_points(body: &[u8], count: usize) -> (r: Vec<(u64, u64)>)
    requires
        56 + 16 * count <= body.len(),
    ensures
        r@ == Seq::new(count as nat, |i: int| (u64_at(body@, 56 + 16 * i), u64_at(body@, 64 + 16 * i))),
{
    let mut points: Vec<(u64, u64)> = Vec::new();
    let mut i: usize = 0;
    while i < count
        invariant
            i <= count,
            56 + 16 * count <= body.len(),
            points@ == Seq::new(i as nat, |j: int| (u64_at(body@, 56 + 16 * j), u64_at(body@, 64 + 16 * j))),
        decreases count - i,
    {
        let at: usize = HEADER_LEN + i * SEEK_ENTRY_LEN;
        points.push((read_u64(body, at), read_u64(body, at + 8)));
        i = i + 1;
        assert(points@ =~= Seq::new(i as nat, |j: int| (u64_at(body@, 56 + 16 * j), u64_at(body@, 64 + 16 * j))));
    }
    points
}

fn read_postings(body: &[u8], from: usize, count: usize) -> (r: Vec<PostingEntry>)
    requires
        from + 40 * count <= body.len(),
    ensures
        posting_views(r@) == Seq::new(count as nat, |i: int| posting_at(body@, from + 40 * i)),
{
    let mut postings: Vec<PostingEntry> = Vec::new();
    let mut i: usize = 0;
    assert(posting_views(postings@) =~= Seq::new(0, |j: int| posting_at(body@, from + 40 * j)));
    while i < count
        invariant
            i <= count,
            from + 40 * count <= body.len(),
            posting_views(postings@) == Seq::new(i as nat, |j: int| posting_at(body@, from + 40 * j)),
        decreases count - i,
    {
        let at: usize = from + i * POSTING_ENTRY_LEN;
        let ghost before = postings@;
        let entry = PostingEntry {
            stream: StreamId::from_bytes(read_array16(body, at)),
            first: read_u64(body, at + 16),
            last: read_u64(body, at + 24),
            count: read_u64(body, at + 32),
        };
        postings.push(entry);
        i = i + 1;
        proof {
            assert(posting_views(postings@) =~= posting_views(before).push(entry@));
            assert(posting_views(postings@) =~= Seq::new(i as nat, |j: int| posting_at(body@, from + 40 * j)));
        }
    }
    postings
}

fn seek_points_sorted(points: &Vec<(u64, u64)>) -> (r: bool)
    ensures
        r == seek_sorted(points@),
{
    let mut i: usize = 1;
    while i < points.len()
        invariant
            1 <= i,
            points@.len() >= 1 ==> i <= points@.len(),
            seek_sorted(points@.take(if i <= points@.len() { i as int } else { points@.len() as int })),
        decreases points@.len() - i,
    {
        if points[i - 1].0 > points[i].0 {
            assert(points@[i - 1].0 > points@[i as int].0);
            return false;
        }
        proof {
            let t = points@.take(i + 1);
            assert forall|a: int, b: int| 0 <= a < b < t.len() implies (#[trigger] t[a]).0 <= (#[trigger] t[b]).0 by {
                if b == i {
                    let p = points@.take(i as int);
                    if a < i - 1 {
                        assert(p[a].0 <= p[i - 1].0);
                    }
                }  else {
                    let p = points@.take(i as int);
                    assert(p[a].0 <= p[b].0);
                }
            }
        }
        i = i + 1;
    }
    proof {
        if points@.len() > 0 {
            assert(points@.take(points@.len() as int) =~= points@);
        }
    }
    true
}

fn streams_sorted(postings: &Vec<PostingEntry>) -> (r: bool)
    ensures
        r == postings_sorted(posting_views(postings@)),
{
    let ghost views = posting_views(postings@);
    let mut i: usize = 1;
    while i < postings.len()
        invariant
            1 <= i,
            views == posting_views(postings@),
            views.len() >= 1 ==> i <= views.len(),
            postings_sorted(views.take(if i <= views.len() { i as int } else { views.len() as int })),
        decreases postings@.len() - i,
    {
        if !postings[i - 1].stream.less(&postings[i].stream) {
            assert(!lex_lt(views[i - 1].stream, views[i as int].stream));
            return false;
        }
        proof {
            let t = views.take(i + 1);
            assert forall|a: int, b: int| 0 <= a < b < t.len() implies lex_lt((#[trigger] t[a]).stream, (#[trigger] t[b]).stream) by {
                let p = views.take(i as int);
                if b == i {
                    assert(lex_lt(views[i - 1].stream, views[i as int].stream));
                    if a < i - 1 {
                        assert(lex_lt(p[a].stream, p[i - 1].stream));
                        lemma_lex_transitive(t[a].stream, views[i - 1].stream, t[b].stream);
                    }
                } else {
                    assert(lex_lt(p[a].stream, p[b].stream));
                }
            }
        }
        i = i + 1;
    }
    proof {
        if views.len() > 0 {
            assert(views.take(views.len() as int) =~= views);
        }
    }
    true
}

impl Sidecar {
    /// The last seek point at or before `from`, which is the one with the
    /// greatest such position.
    pub fn seek_point_before(&self, from: u64) -> (r: Option<(u64, u64)>)
        requires
            seek_sorted(self@.seek_points),
        ensures
            match r {
                None => forall|i: int| 0 <= i < self@.seek_points.len() ==> (#[trigger] self@.seek_points[i]).0 > from,
                Some(point) => exists|k: int|
                    0 <= k < self@.seek_points.len() && #[trigger] self@.seek_points[k] == point && point.0 <= from && (forall|i: int|
                        k < i < self@.seek_points.len() ==> (#[trigger] self@.seek_points[i]).0 > from),
            },
    {
        let points = &self.seek_points;
        let mut low: usize = 0;
        let mut high: usize = points.len();
        while low < high
            invariant
                low <= high <= points@.len(),
                points@ == self@.seek_points,
                seek_sorted(points@),
                forall|i: int| 0 <= i < low ==> (#[trigger] points@[i]).0 <= from,
                forall|i: int| high <= i < points@.len() ==> (#[trigger] points@[i]).0 > from,
            decreases high - low,
        {
            let middle: usize = low + (high - low) / 2;
            if points[middle].0 <= from {
                assert forall|i: int| 0 <= i <= middle implies (#[trigger] points@[i]).0 <= from by {
                    if i < middle {
                        assert(points@[i].0 <= points@[middle as int].0);
                    }
                }
                low = middle + 1;
            } else {
                assert forall|i: int| middle <= i < points@.len() implies (#[trigger] points@[i]).0 > from by {
                    if middle < i {
                        assert(points@[middle as int].0 <= points@[i].0);
                    }
                }
                high = middle;
            }
        }
        if low == 0 {
            None
        } else {
            let k: usize = low - 1;
            assert(self@.seek_points[k as int] == points@[k as int]);
            Some(points[k])
        }
    }

    /// Whether the time range proves that no event lies in `range`.
    pub fn time_disjoint(&self, range: &core::ops::Range<i64>) -> (r: bool)
        ensures
            r == times_apart(self@, range.start, range.end),
    {
        self.min_ts <= self.max_ts && (self.max_ts < range.start || self.min_ts >= range.end)
    }

    /// Writes the sidecar. Whichever byte of it changes, it is no sidecar
    /// any more.
    pub fn encode(&self) -> (out: Vec<u8>)
        ensures
            out@ == sidecar_bytes(self@),
            forall|i: int, b: u8| 0 <= i < out@.len() && b != out@[i] ==> sidecar_decoding(#[trigger] out@.update(i, b)) is Err,
    {
        let ghost s = self@;
        let mut out: Vec<u8> = Vec::new();
        out.push(0x53);
        out.push(0x44);
        out.push(0x42);
        out.push(0x58);
        put_u16(&mut out, SIDECAR_VERSION);
        put_u16(&mut out, 0);
        put_u64(&mut out, self.base);
        put_u64(&mut out, self.end);
        put_i64(&mut out, self.min_ts);
        put_i64(&mut out, self.max_ts);
        put_u64(&mut out, self.system_frames);
        put_u32(&mut out, #[verifier::truncate] (self.seek_points.len() as u32));
        put_u32(&mut out, #[verifier::truncate] (self.postings.len() as u32));
        assert(out@ =~= sidecar_header(s));
        let mut i: usize = 0;
        assert(s.seek_points.take(0) =~= Seq::empty());
        assert(out@ =~= sidecar_header(s) + seek_bytes(s.seek_points.take(0)));
        while i < self.seek_points.len()
            invariant
                s == self@,
                i <= s.seek_points.len(),
                out@ == sidecar_header(s) + seek_bytes(s.seek_points.take(i as int)),
            decreases s.seek_points.len() - i,
        {
            put_u64(&mut out, self.seek_points[i].0);
            put_u64(&mut out, self.seek_points[i].1);
            proof {
                let upto = s.seek_points.take(i + 1);
                assert(upto.drop_last() =~= s.seek_points.take(i as int));
                assert(upto.last() == s.seek_points[i as int]);
                assert(out@ =~= sidecar_header(s) + seek_bytes(upto));
            }
            i = i + 1;
        }
        assert(s.seek_points.take(i as int) =~= s.seek_points);
        let ghost front = out@;
        let mut k: usize = 0;
        assert(s.postings.take(0) =~= Seq::empty());
        assert(out@ =~= front + postings_bytes(s.postings.take(0)));
        while k < self.postings.len()
            invariant
                s == self@,
                k <= s.postings.len(),
                out@ == front + postings_bytes(s.postings.take(k as int)),
            decreases s.postings.len() - k,
        {
            put(&mut out, self.postings[k].stream.as_bytes());
            put_u64(&mut out, self.postings[k].first);
            put_u64(&mut out, self.postings[k].last);
            put_u64(&mut out, self.postings[k].count);
            proof {
                let upto = s.postings.take(k + 1);
                assert(upto.drop_last() =~= s.postings.take(k as int));
                assert(upto.last() == s.postings[k as int]);
                assert(out@ =~= front + postings_bytes(upto));
            }
            k = k + 1;
        }
        assert(s.postings.take(k as int) =~= s.postings);
        assert(out@ =~= sidecar_body(s));
        let crc: u32 = crc32c(out.as_slice());
        put_u32(&mut out, crc);
        proof {
            assert forall|i: int, b: u8| 0 <= i < out@.len() && b != out@[i] implies sidecar_decoding(
                #[trigger] out@.update(i, b),
            ) is Err by {
                lemma_change_shows(s, i, b);
            }
        }
        out
    }

    /// Reads a sidecar; any deviation is an error.
    pub fn decode(bytes: &[u8]) -> (r: Result<Self>)
        ensures
            match sidecar_decoding(bytes@) {
                Ok(s) => r matches Ok(sidecar) && sidecar@ == s,
                Err(e) => r matches Err(error) && error@ == e,
            },
    {
        if bytes.len() < HEADER_LEN + 4 {
            return Err(sidecar_fail("too short"));
        }
        let split: usize = bytes.len() - 4;
        let body = slice_subrange(bytes, 0, split);
        assert(body@ =~= bytes@.take(bytes@.len() - 4));
        if crc32c(body) != read_u32(bytes, split) {
            return Err(sidecar_fail("crc mismatch"));
        }
        proof {
            let m = body@.subrange(0, 4);
            assert(m[0] == body@[0] && m[1] == body@[1] && m[2] == body@[2] && m[3] == body@[3]);
            if body@[0] == 0x53 && body@[1] == 0x44 && body@[2] == 0x42 && body@[3] == 0x58 {
                assert(m =~= sidecar_magic());
            }
        }
        if !(body[0] == 0x53 && body[1] == 0x44 && body[2] == 0x42 && body[3] == 0x58) {
            return Err(sidecar_fail("bad magic"));
        }
        if read_u16(body, 4) != SIDECAR_VERSION {
            return Err(sidecar_fail("unsupported version"));
        }
        if read_u16(body, 6) != 0 {
            return Err(sidecar_fail("nonzero reserved field"));
        }
        let seeks: u32 = read_u32(body, 48);
        let posts: u32 = read_u32(body, 52);
        let expected: usize = match expected_len(seeks, posts) {
            Some(n) => n,
            None => return Err(sidecar_fail("overflow")),
        };
        if body.len() != expected {
            return Err(sidecar_fail("length mismatch"));
        }
        let seek_points = read_seek_points(body, seeks as usize);
        let postings = read_postings(body, HEADER_LEN + seeks as usize * SEEK_ENTRY_LEN, posts as usize);
        let ghost fields = sidecar_fields(body@, seeks as nat, posts as nat);
        assert(posting_views(postings@) =~= fields.postings);
        if !seek_points_sorted(&seek_points) || !streams_sorted(&postings) {
            return Err(sidecar_fail("unsorted entries"));
        }
        Ok(
            Sidecar {
                base: read_u64(body, 8),
                end: read_u64(body, 16),
                min_ts: read_i64(body, 24),
                max_ts: read_i64(body, 32),
                system_frames: read_u64(body, 40),
                seek_points,
                postings,
            },
        )
    }

    /// The sidecar in `bytes` if it is one of the segment `base..end`; where it
    /// is not, the segment's own bytes are to be gone by.
    pub fn accept(bytes: &[u8], base: u64, end: u64) -> (r: Option<Self>)
        ensures
            match sidecar_decoding(bytes@) {
                Ok(s) => if s.base == base && s.end == end {
                    r matches Some(sidecar) && sidecar@ == s
                } else {
                    r is None
                },
                Err(_) => r is None,
            },
    {
        match Sidecar::decode(bytes) {
            Ok(sidecar) => if sidecar.base == base && sidecar.end == end {
                Some(sidecar)
            } else {
                None
            },
            Err(_) => None,
        }
    }
}

proof fn lemma_seek_bytes(points: Seq<(u64, u64)>, i: int)
    ensures
        seek_bytes(points).len() == 16 * points.len(),
        0 <= i < points.len() ==> seek_bytes(points).subrange(16 * i, 16 * i + 8) == spec_u64_to_le_bytes(points[i].0)
            && seek_bytes(points).subrange(16 * i + 8, 16 * i + 16) == spec_u64_to_le_bytes(points[i].1),
    decreases points.len(),
{
    lemma_le_codec();
    if points.len() > 0 {
        let before = seek_bytes(points.drop_last());
        let all = seek_bytes(points);
        lemma_seek_bytes(points.drop_last(), i);
        assert(all.len() == before.len() + 16);
        if 0 <= i < points.len() - 1 {
            assert(all.subrange(16 * i, 16 * i + 8) =~= before.subrange(16 * i, 16 * i + 8));
            assert(all.subrange(16 * i + 8, 16 * i + 16) =~= before.subrange(16 * i + 8, 16 * i + 16));
        } else if i == points.len() - 1 {
            assert(all.subrange(16 * i, 16 * i + 8) =~= spec_u64_to_le_bytes(points[i].0));
            assert(all.subrange(16 * i + 8, 16 * i + 16) =~= spec_u64_to_le_bytes(points[i].1));
        }
    }
}

proof fn lemma_postings_bytes(postings: Seq<PostingView>, i: int)
    requires
        forall|j: int| 0 <= j < postings.len() ==> (#[trigger] postings[j]).stream.len() == 16,
    ensures
        postings_bytes(postings).len() == 40 * postings.len(),
        0 <= i < postings.len() ==> postings_bytes(postings).subrange(40 * i, 40 * i + 40) == posting_bytes(postings[i]),
    decreases postings.len(),
{
    lemma_le_codec();
    if postings.len() > 0 {
        let before = postings_bytes(postings.drop_last());
        let all = postings_bytes(postings);
        lemma_postings_bytes(postings.drop_last(), i);
        assert(postings.last().stream.len() == 16);
        assert(posting_bytes(postings.last()).len() == 40);
        assert(all.len() == before.len() + 40);
        if 0 <= i < postings.len() - 1 {
            assert(all.subrange(40 * i, 40 * i + 40) =~= before.subrange(40 * i, 40 * i + 40));
        } else if i == postings.len() - 1 {
            assert(all.subrange(40 * i, 40 * i + 40) =~= posting_bytes(postings[i]));
        }
    }
}

proof fn lemma_posting_at(body: Seq<u8>, at: int, p: PostingView)
    requires
        0 <= at,
        at + 40 <= body.len(),
        p.stream.len() == 16,
        body.subrange(at, at + 40) == posting_bytes(p),
    ensures
        posting_at(body, at) == p,
{
    lemma_le_codec();
    let b = posting_bytes(p);
    assert(body.subrange(at, at + 16) =~= b.subrange(0, 16));
    assert(b.subrange(0, 16) =~= p.stream);
    assert(body.subrange(at + 16, at + 24) =~= b.subrange(16, 24));
    assert(b.subrange(16, 24) =~= spec_u64_to_le_bytes(p.first));
    assert(body.subrange(at + 24, at + 32) =~= b.subrange(24, 32));
    assert(b.subrange(24, 32) =~= spec_u64_to_le_bytes(p.last));
    assert(body.subrange(at + 32, at + 40) =~= b.subrange(32, 40));
    assert(b.subrange(32, 40) =~= spec_u64_to_le_bytes(p.count));
}

/// Where the fields of the header lie.
proof fn lemma_header_fields(s: SidecarView)
    ensures
        sidecar_header(s).len() == 56,
        sidecar_header(s).subrange(0, 4) == sidecar_magic(),
        u16_at(sidecar_header(s), 4) == SIDECAR_VERSION,
        u16_at(sidecar_header(s), 6) == 0,
        u64_at(sidecar_header(s), 8) == s.base,
        u64_at(sidecar_header(s), 16) == s.end,
        i64_at(sidecar_header(s), 24) == s.min_ts,
        i64_at(sidecar_header(s), 32) == s.max_ts,
        u64_at(sidecar_header(s), 40) == s.system_frames,
        u32_at(sidecar_header(s), 48) == s.seek_points.len() as u32,
        u32_at(sidecar_header(s), 52) == s.postings.len() as u32,
{
    lemma_le_codec();
    lemma_i64_bits(s.min_ts, 0);
    lemma_i64_bits(s.max_ts, 0);
    let h = sidecar_header(s);
    assert(h.subrange(0, 4) =~= sidecar_magic());
    assert(h.subrange(4, 6) =~= spec_u16_to_le_bytes(SIDECAR_VERSION));
    assert(h.subrange(6, 8) =~= spec_u16_to_le_bytes(0));
    assert(h.subrange(8, 16) =~= spec_u64_to_le_bytes(s.base));
    assert(h.subrange(16, 24) =~= spec_u64_to_le_bytes(s.end));
    assert(h.subrange(24, 32) =~= i64_bytes(s.min_ts));
    assert(h.subrange(32, 40) =~= i64_bytes(s.max_ts));
    assert(h.subrange(40, 48) =~= spec_u64_to_le_bytes(s.system_frames));
    assert(h.subrange(48, 52) =~= spec_u32_to_le_bytes(s.seek_points.len() as u32));
    assert(h.subrange(52, 56) =~= spec_u32_to_le_bytes(s.postings.len() as u32));
}

/// A sidecar that was written is read back as it was.
pub proof fn lemma_sidecar_round_trip(s: SidecarView)
    requires
        sidecar_sorted(s),
        s.seek_points.len() <= u32::MAX,
        s.postings.len() <= u32::MAX,
        forall|j: int| 0 <= j < s.postings.len() ==> (#[trigger] s.postings[j]).stream.len() == 16,
        sidecar_bytes(s).len() <= usize::MAX,
    ensures
        sidecar_decoding(sidecar_bytes(s)) == Ok::<SidecarView, ErrorView>(s),
{
    lemma_le_codec();
    let bytes = sidecar_bytes(s);
    let body = sidecar_body(s);
    let h = sidecar_header(s);
    let seeks = s.seek_points.len();
    let posts = s.postings.len();
    lemma_header_fields(s);
    lemma_seek_bytes(s.seek_points, 0);
    lemma_postings_bytes(s.postings, 0);
    assert(body.len() == 56 + 16 * seeks + 40 * posts);
    assert(bytes.take(bytes.len() - 4) =~= body);
    assert(bytes.subrange(bytes.len() - 4, bytes.len() as int) =~= spec_u32_to_le_bytes(crc32c_of(body)));
    assert(body.subrange(0, 4) =~= h.subrange(0, 4));
    assert(body.subrange(4, 6) =~= h.subrange(4, 6));
    assert(body.subrange(6, 8) =~= h.subrange(6, 8));
    assert(body.subrange(8, 16) =~= h.subrange(8, 16));
    assert(body.subrange(16, 24) =~= h.subrange(16, 24));
    assert(body.subrange(24, 32) =~= h.subrange(24, 32));
    assert(body.subrange(32, 40) =~= h.subrange(32, 40));
    assert(body.subrange(40, 48) =~= h.subrange(40, 48));
    assert(body.subrange(48, 52) =~= h.subrange(48, 52));
    assert(body.subrange(52, 56) =~= h.subrange(52, 56));
    let fields = sidecar_fields(body, seeks, posts);
    assert forall|i: int| 0 <= i < seeks implies fields.seek_points[i] == s.seek_points[i] by {
        lemma_seek_bytes(s.seek_points, i);
        let sb = seek_bytes(s.seek_points);
        assert(body.subrange(56 + 16 * i, 64 + 16 * i) =~= sb.subrange(16 * i, 16 * i + 8));
        assert(body.subrange(64 + 16 * i, 72 + 16 * i) =~= sb.subrange(16 * i + 8, 16 * i + 16));
    }
    assert(fields.seek_points =~= s.seek_points);
    assert forall|i: int| 0 <= i < posts implies fields.postings[i] == s.postings[i] by {
        lemma_postings_bytes(s.postings, i);
        let at = 56 + 16 * seeks + 40 * i;
        assert(body.subrange(at, at + 40) =~= postings_bytes(s.postings).subrange(40 * i, 40 * i + 40));
        lemma_posting_at(body, at, s.postings[i]);
    }
    assert(fields.postings =~= s.postings);
    assert(fields =~= s);
}

/// A sidecar of which one byte changed is refused.
proof fn lemma_change_shows(s: SidecarView, i: int, b: u8)
    requires
        byte_change_shows(sidecar_body(s), crc32c_of(sidecar_body(s))),
        0 <= i < sidecar_bytes(s).len(),
        b != sidecar_bytes(s)[i],
    ensures
        sidecar_decoding(sidecar_bytes(s).update(i, b)) is Err,
{
    lemma_le_codec();
    let bytes = sidecar_bytes(s);
    let body = sidecar_body(s);
    let n = body.len() as int;
    let other = bytes.update(i, b);
    assert(bytes.subrange(n, n + 4) =~= spec_u32_to_le_bytes(crc32c_of(body)));
    if i < n {
        assert(other.take(n) =~= body.update(i, b));
        assert(other.subrange(n, n + 4) =~= bytes.subrange(n, n + 4));
    } else {
        assert(other.take(n) =~= body);
        let old = bytes.subrange(n, n + 4);
        let new = other.subrange(n, n + 4);
        assert(new[i - n] != old[i - n]);
        assert(spec_u32_to_le_bytes(spec_u32_from_le_bytes(new)) == new);
        assert(spec_u32_to_le_bytes(spec_u32_from_le_bytes(old)) == old);
    }
}

/// Reading is strict: bytes that are read as a sidecar are the bytes that the
/// sidecar is written as.
pub proof fn lemma_sidecar_strict(bytes: Seq<u8>)
    requires
        sidecar_decoding(bytes) is Ok,
    ensures
        sidecar_bytes(sidecar_decoding(bytes)->Ok_0) == bytes,
{
    lemma_le_codec();
    let s = sidecar_decoding(bytes)->Ok_0;
    let body = bytes.take(bytes.len() - 4);
    let seeks = s.seek_points.len() as int;
    let posts = s.postings.len() as int;
    assert(seeks == u32_at(body, 48) && posts == u32_at(body, 52));
    lemma_i64_bits(0, u64_at(body, 24));
    lemma_i64_bits(0, u64_at(body, 32));
    let h = sidecar_header(s);
    lemma_u16_again(body, 4);
    lemma_u16_again(body, 6);
    lemma_u64_again(body, 8);
    lemma_u64_again(body, 16);
    lemma_u64_again(body, 24);
    lemma_u64_again(body, 32);
    lemma_u64_again(body, 40);
    lemma_u32_again(body, 48);
    lemma_u32_again(body, 52);
    assert(body.take(56) =~= body.subrange(0, 4) + body.subrange(4, 6) + body.subrange(6, 8) + body.subrange(8, 16)
        + body.subrange(16, 24) + body.subrange(24, 32) + body.subrange(32, 40) + body.subrange(40, 48) + body.subrange(48, 52)
        + body.subrange(52, 56));
    assert(h == body.take(56));
    lemma_seeks_again(body, s.seek_points);
    lemma_postings_again(body, 56 + 16 * seeks, s.postings);
    assert(sidecar_body(s) =~= body);
    lemma_u32_again(bytes, bytes.len() - 4);
    assert(sidecar_bytes(s) =~= bytes);
}

proof fn lemma_u16_again(s: Seq<u8>, at: int)
    requires
        0 <= at <= s.len() - 2,
    ensures
        spec_u16_to_le_bytes(u16_at(s, at)) == s.subrange(at, at + 2),
{
    lemma_le_codec();
    assert(s.subrange(at, at + 2).len() == 2);
}

proof fn lemma_u32_again(s: Seq<u8>, at: int)
    requires
        0 <= at <= s.len() - 4,
    ensures
        spec_u32_to_le_bytes(u32_at(s, at)) == s.subrange(at, at + 4),
{
    lemma_le_codec();
    assert(s.subrange(at, at + 4).len() == 4);
}

proof fn lemma_u64_again(s: Seq<u8>, at: int)
    requires
        0 <= at <= s.len() - 8,
    ensures
        spec_u64_to_le_bytes(u64_at(s, at)) == s.subrange(at, at + 8),
{
    lemma_le_codec();
    assert(s.subrange(at, at + 8).len() == 8);
}

/// Seek points that were read are written as the bytes they were read from.
proof fn lemma_seeks_again(body: Seq<u8>, points: Seq<(u64, u64)>)
    requires
        56 + 16 * points.len() <= body.len(),
        forall|i: int| 0 <= i < points.len() ==> #[trigger] points[i] == (u64_at(body, 56 + 16 * i), u64_at(body, 64 + 16 * i)),
    ensures
        seek_bytes(points) == body.subrange(56, (56 + 16 * points.len()) as int),
    decreases points.len(),
{
    if points.len() == 0 {
        assert(body.subrange(56, 56) =~= Seq::empty());
    } else {
        let n = points.len() - 1;
        let front = points.drop_last();
        assert forall|i: int| 0 <= i < front.len() implies #[trigger] front[i] == (
            u64_at(body, 56 + 16 * i),
            u64_at(body, 64 + 16 * i),
        ) by {
            assert(front[i] == points[i]);
        }
        lemma_seeks_again(body, front);
        assert(points.last() == points[n]);
        lemma_u64_again(body, 56 + 16 * n);
        lemma_u64_again(body, 64 + 16 * n);
        assert(body.subrange(56, (56 + 16 * points.len()) as int) =~= body.subrange(56, 56 + 16 * n) + body.subrange(56 + 16 * n, 64 + 16 * n)
            + body.subrange(64 + 16 * n, 72 + 16 * n));
    }
}

/// Postings that were read are written as the bytes they were read from.
proof fn lemma_postings_again(body: Seq<u8>, from: int, postings: Seq<PostingView>)
    requires
        0 <= from,
        from + 40 * postings.len() <= body.len(),
        forall|i: int| 0 <= i < postings.len() ==> #[trigger] postings[i] == posting_at(body, from + 40 * i),
    ensures
        postings_bytes(postings) == body.subrange(from, from + 40 * postings.len()),
    decreases postings.len(),
{
    if postings.len() == 0 {
        assert(body.subrange(from, from) =~= Seq::empty());
    } else {
        let n = postings.len() - 1;
        let at = from + 40 * n;
        let front = postings.drop_last();
        assert forall|i: int| 0 <= i < front.len() implies #[trigger] front[i] == posting_at(body, from + 40 * i) by {
            assert(front[i] == postings[i]);
        }
        lemma_postings_again(body, from, front);
        assert(postings.last() == postings[n]);
        lemma_u64_again(body, at + 16);
        lemma_u64_again(body, at + 24);
        lemma_u64_again(body, at + 32);
        assert(body.subrange(from, from + 40 * postings.len()) =~= body.subrange(from, at) + (body.subrange(at, at + 16)
            + body.subrange(at + 16, at + 24) + body.subrange(at + 24, at + 32) + body.subrange(at + 32, at + 40)));
    }
}

} // verus!
