//! The sequencer's own state: open readers and feeds, registered projections,
//! where consumers stand, and when snapshots are due. One caller at a time
//! changes it.
use crate::db::engine::{DbView, Salamander};
use crate::db::read::{replay_filter, ReplayView};
use crate::facade::error::{engine_error, invalid_error, not_found_error, EngineError, EngineErrorView};
use crate::facade::feed::{
    feed_begun, feed_ended, feed_error, feed_limits, validate_feed, ConsumerCheckpoints, FeedBuilder, FeedState,
};
use crate::facade::heal::{QueryState, QueryView, Registration};
use crate::facade::page::{page_begun, page_error, validate_page, PageBuilder, ReaderState};
use crate::facade::projection::{ProjectionDescriptor, StatusView};
use crate::facade::types::{
    committed_views, dto_views, opt_text_view, FeedHandle, FeedPage, FeedRequest, QueryHandle, ReaderHandle, ReplayPage, ReplayRequest,
};
use crate::format::ids::BranchId;
use crate::format::metadata::key_lt;
use crate::log::select::{ReplayEnd, ReplayPlan, ReplayStart, ResolvedFilter, SelectorView, StreamSelector, VerificationMode};
use crate::text::{same_text, utf8_text};
use std::collections::HashMap;
use vstd::prelude::*;
use vstd::utf8::{decode_utf8, valid_utf8};

verus! {

/// How often snapshots are taken, and what came since the last ones.
#[derive(Debug, Clone, Copy, PartialEq, Eq)]
pub struct SnapshotSchedule {
    pub every_events: Option<u64>,
    pub every_bytes: Option<u64>,
    pub every_millis: Option<u64>,
    pub events: u64,
    pub bytes: u64,
}

/// Whether a count has reached a limit; a limit of none counts as one.
pub open spec fn limit_hit(limit: Option<u64>, value: int) -> bool {
    limit matches Some(n) && value >= (if n == 0 {
        1
    } else {
        n as int
    })
}

fn hit(limit: Option<u64>, value: u64) -> (r: bool)
    ensures
        r == limit_hit(limit, value as int),
{
    match limit {
        Some(0) => value >= 1,
        Some(n) => value >= n,
        None => false,
    }
}

/// A sum, at most as large as a `u64` holds.
pub open spec fn capped_sum(a: u64, b: u64) -> u64 {
    if a + b > u64::MAX {
        u64::MAX
    } else {
        (a + b) as u64
    }
}

impl SnapshotSchedule {
    /// Takes note of an append, and says whether snapshots are due; then the
    /// count starts over.
    pub fn note_append(&mut self, events: u64, bytes: u64, elapsed_millis: u64) -> (due: bool)
        ensures
            ({
                let e = capped_sum(old(self).events, events);
                let b = capped_sum(old(self).bytes, bytes);
                &&& due == (limit_hit(old(self).every_events, e as int) || limit_hit(old(self).every_bytes, b as int) || limit_hit(
                    old(self).every_millis,
                    elapsed_millis as int,
                ))
                &&& *final(self) == (SnapshotSchedule {
                    events: if due {
                        0
                    } else {
                        e
                    },
                    bytes: if due {
                        0
                    } else {
                        b
                    },
                    ..*old(self)
                })
            }),
    {
        self.events = self.events.saturating_add(events);
        self.bytes = self.bytes.saturating_add(bytes);
        let due = hit(self.every_events, self.events) || hit(self.every_bytes, self.bytes) || hit(self.every_millis, elapsed_millis);
        if due {
            self.events = 0;
            self.bytes = 0;
        }
        due
    }
}

/// What stands under a name.
pub open spec fn named(names: Seq<(Seq<char>, u64)>, name: Seq<char>) -> Option<u64>
    decreases names.len(),
{
    if names.len() == 0 {
        None
    } else if names.last().0 == name {
        Some(names.last().1)
    } else {
        named(names.drop_last(), name)
    }
}

/// The names but one.
pub open spec fn unnamed(names: Seq<(Seq<char>, u64)>, name: Seq<char>) -> Seq<(Seq<char>, u64)>
    decreases names.len(),
{
    if names.len() == 0 {
        Seq::empty()
    } else if names.last().0 == name {
        unnamed(names.drop_last(), name)
    } else {
        unnamed(names.drop_last(), name).push(names.last())
    }
}

/// The sequencer's own state.
pub struct Sequencer {
    pub readers: HashMap<u64, ReaderState>,
    pub feeds: HashMap<u64, FeedState>,
    pub queries: HashMap<u64, QueryState>,
    pub names: Vec<(String, u64)>,
    pub checkpoints: ConsumerCheckpoints,
    pub next_handle: u64,
}

/// Names as plain values.
pub open spec fn name_views(names: Seq<(String, u64)>) -> Seq<(Seq<char>, u64)> {
    Seq::new(names.len(), |i: int| (names[i].0@, names[i].1))
}

/// Whether no name and no handle occurs twice, and all handles were given out.
pub open spec fn names_distinct(names: Seq<(String, u64)>, next_handle: u64) -> bool {
    &&& forall|i: int| 0 <= i < names.len() ==> (#[trigger] names[i]).1 < next_handle
    &&& forall|i: int, j: int|
        0 <= i < j < names.len() ==> (#[trigger] names[i]).1 != (#[trigger] names[j]).1 && names[i].0@ != names[j].0@
}

/// The plan by which a reader goes on.
pub open spec fn reader_plan(request: ReplayRequest, from: u64) -> ReplayView {
    ReplayView {
        branch: request.branch_id@,
        streams: SelectorView::All,
        from: ReplayStart::Included(from),
        until: match request.until {
            Some(until) => ReplayEnd::At(until),
            None => ReplayEnd::Head,
        },
        time: None,
        max_events: None,
        verification: VerificationMode::FrameCrc,
    }
}

fn plan_of(request: &ReplayRequest, from: u64) -> (r: ReplayPlan)
    ensures
        r@ == reader_plan(*request, from),
{
    ReplayPlan {
        branch: BranchId::from_bytes(request.branch_id),
        streams: StreamSelector::All,
        from: ReplayStart::Included(from),
        until: match request.until {
            Some(until) => ReplayEnd::At(until),
            None => ReplayEnd::Head,
        },
        time: None,
        max_events: None,
        verification: VerificationMode::FrameCrc,
    }
}

/// A request that ends at the head of now, where it names no end.
pub open spec fn request_bounded(request: ReplayRequest, head: u64) -> ReplayRequest {
    ReplayRequest {
        until: match request.until {
            Some(until) => Some(until),
            None => Some(head),
        },
        ..request
    }
}

/// Why a reader cannot be opened, if it cannot.
pub open spec fn reader_error(db: DbView, request: ReplayRequest) -> Option<EngineErrorView> {
    if page_error(request.page_events, request.page_bytes) is Some {
        page_error(request.page_events, request.page_bytes)
    } else {
        match replay_filter(db, reader_plan(request, request.from)) {
            Ok(_) => None,
            Err(e) => Some(engine_error(e)),
        }
    }
}

/// What registering a projection comes to.
#[derive(Debug, Clone, Copy, PartialEq, Eq, Structural)]
pub enum Registering {
    /// It is registered already, under this handle; it may have to start over.
    Known { handle: u64, restart: bool },
    /// It has to be recorded and installed.
    Fresh,
}

impl Sequencer {
    /// Whether each name stands for a registered projection of its own.
    pub open spec fn wf(&self) -> bool {
        &&& forall|i: int| 0 <= i < self.names@.len() ==> self.queries@.contains_key((#[trigger] self.names@[i]).1)
        &&& names_distinct(self.names@, self.next_handle)
    }

    /// Whether it is as it has to be but for one projection, which is taken out.
    pub open spec fn wf_without(&self, handle: u64) -> bool {
        &&& forall|i: int|
            0 <= i < self.names@.len() && self.names@[i].1 != handle ==> self.queries@.contains_key((#[trigger] self.names@[i]).1)
        &&& names_distinct(self.names@, self.next_handle)
    }

    /// A sequencer with nothing open.
    pub fn new(checkpoints: ConsumerCheckpoints) -> (r: Self)
        ensures
            r.wf(),
            r.readers@ == Map::<u64, ReaderState>::empty(),
            r.feeds@ == Map::<u64, FeedState>::empty(),
            r.queries@ == Map::<u64, QueryState>::empty(),
            r.names@.len() == 0,
            r.checkpoints == checkpoints,
            r.next_handle == 1,
    {
        Sequencer {
            readers: HashMap::new(),
            feeds: HashMap::new(),
            queries: HashMap::new(),
            names: Vec::new(),
            checkpoints,
            next_handle: 1,
        }
    }

    /// Opens a reader. One without an end ends at the head of now.
    pub fn open_reader(&mut self, db: &Salamander, request: ReplayRequest) -> (r: core::result::Result<ReaderHandle, EngineError>)
        requires
            db.wf(),
            old(self).next_handle < u64::MAX,
        ensures
            old(self).wf() ==> final(self).wf(),
            ({
                let bounded = request_bounded(request, db@.log.active.next_offset);
                match reader_error(db@, bounded) {
                    None => {
                        &&& r == Ok::<ReaderHandle, EngineError>(ReaderHandle(old(self).next_handle))
                        &&& final(self).next_handle == old(self).next_handle + 1
                        &&& final(self).readers@ == old(self).readers@.insert(
                            old(self).next_handle,
                            ReaderState { request: bounded, continuation: bounded.from, cancelled: false },
                        )
                    },
                    Some(e) => (r matches Err(error) && error@ == e) && *final(self) == *old(self),
                }
            }),
            final(self).feeds == old(self).feeds,
            final(self).queries == old(self).queries,
            final(self).names == old(self).names,
            final(self).checkpoints == old(self).checkpoints,
    {
        broadcast use vstd::std_specs::hash::group_hash_axioms;

        let mut request = request;
        match request.until {
            None => {
                request.until = Some(db.head());
            },
            Some(_) => {},
        }
        match validate_page(&request) {
            Ok(()) => {},
            Err(e) => return Err(e),
        }
        let plan = plan_of(&request, request.from);
        match db.read(&plan) {
            Ok(_) => {},
            Err(e) => return Err(EngineError::from_core(&e)),
        }
        let handle: u64 = self.next_handle;
        self.next_handle = handle + 1;
        self.readers.insert(handle, ReaderState::open(request));
        Ok(ReaderHandle(handle))
    }

    /// Begins a reader's next page, and says what is to be read for it.
    pub fn begin_page(&self, db: &Salamander, handle: ReaderHandle) -> (r: core::result::Result<
        (PageBuilder, ResolvedFilter),
        EngineError,
    >)
        requires
            db.wf(),
        ensures
            !self.readers@.contains_key(handle.0) ==> (r matches Err(e) && e@ == not_found_error("reader"@)),
            self.readers@.contains_key(handle.0) ==> ({
                let state = self.readers@[handle.0];
                if state.cancelled {
                    r matches Err(e) && e@ == crate::facade::error::cancelled_error("reader was cancelled"@)
                } else {
                    match replay_filter(db@, reader_plan(state.request, state.continuation)) {
                        Ok(filter) => r matches Ok((page, found)) && page@ == page_begun(state.continuation) && found@ == filter,
                        Err(e) => r matches Err(error) && error@ == engine_error(e),
                    }
                }
            }),
    {
        broadcast use vstd::std_specs::hash::group_hash_axioms;

        let state = match self.readers.get(&handle.0) {
            Some(state) => state,
            None => return Err(EngineError::not_found("reader")),
        };
        let page = match state.begin_page() {
            Ok(page) => page,
            Err(e) => return Err(e),
        };
        let plan = plan_of(&state.request, state.continuation);
        match db.read(&plan) {
            Ok(filter) => Ok((page, filter)),
            Err(e) => Err(EngineError::from_core(&e)),
        }
    }

    /// Ends a reader's page.
    pub fn end_page(&mut self, handle: ReaderHandle, page: PageBuilder, head: u64) -> (r: core::result::Result<ReplayPage, EngineError>)
        ensures
            old(self).wf() ==> final(self).wf(),
            !old(self).readers@.contains_key(handle.0) ==> (r matches Err(e) && e@ == not_found_error("reader"@))
                && final(self).readers@ == old(self).readers@,
            old(self).readers@.contains_key(handle.0) ==> ({
                let state = old(self).readers@[handle.0];
                &&& r matches Ok(out) && dto_views(out.records@) == page@.records && out.continuation == page@.continuation && out.done == (
                page@.continuation >= (match state.request.until {
                    Some(until) => until,
                    None => head,
                }))
                &&& final(self).readers@ == old(self).readers@.insert(handle.0, ReaderState { continuation: page@.continuation, ..state })
            }),
            final(self).feeds == old(self).feeds,
            final(self).queries == old(self).queries,
            final(self).names == old(self).names,
            final(self).checkpoints == old(self).checkpoints,
            final(self).next_handle == old(self).next_handle,
    {
        broadcast use vstd::std_specs::hash::group_hash_axioms;

        let ghost before = self.readers@;
        match self.readers.remove(&handle.0) {
            None => {
                assert(self.readers@ =~= before);
                Err(EngineError::not_found("reader"))
            },
            Some(mut state) => {
                let out = state.end_page(page, head);
                self.readers.insert(handle.0, state);
                assert(self.readers@ =~= before.insert(handle.0, state));
                Ok(out)
            },
        }
    }

    /// Cancels a reader.
    pub fn cancel_reader(&mut self, handle: ReaderHandle) -> (r: core::result::Result<(), EngineError>)
        ensures
            old(self).wf() ==> final(self).wf(),
            r is Ok <==> old(self).readers@.contains_key(handle.0),
            r matches Err(e) ==> e@ == not_found_error("reader"@) && final(self).readers@ == old(self).readers@,
            r is Ok ==> final(self).readers@ == old(self).readers@.insert(
                handle.0,
                ReaderState { cancelled: true, ..old(self).readers@[handle.0] },
            ),
            final(self).feeds == old(self).feeds,
            final(self).queries == old(self).queries,
            final(self).names == old(self).names,
            final(self).checkpoints == old(self).checkpoints,
            final(self).next_handle == old(self).next_handle,
    {
        broadcast use vstd::std_specs::hash::group_hash_axioms;

        let ghost before = self.readers@;
        match self.readers.remove(&handle.0) {
            None => {
                assert(self.readers@ =~= before);
                Err(EngineError::not_found("reader"))
            },
            Some(mut state) => {
                state.cancelled = true;
                self.readers.insert(handle.0, state);
                assert(self.readers@ =~= before.insert(handle.0, state));
                Ok(())
            },
        }
    }

    /// Closes a reader.
    pub fn close_reader(&mut self, handle: ReaderHandle) -> (r: core::result::Result<(), EngineError>)
        ensures
            old(self).wf() ==> final(self).wf(),
            r is Ok <==> old(self).readers@.contains_key(handle.0),
            r matches Err(e) ==> e@ == not_found_error("reader"@),
            final(self).readers@ == old(self).readers@.remove(handle.0),
            final(self).feeds == old(self).feeds,
            final(self).queries == old(self).queries,
            final(self).names == old(self).names,
            final(self).checkpoints == old(self).checkpoints,
            final(self).next_handle == old(self).next_handle,
    {
        broadcast use vstd::std_specs::hash::group_hash_axioms;

        let ghost before = self.readers@;
        match self.readers.remove(&handle.0) {
            None => {
                assert(self.readers@ =~= before.remove(handle.0));
                Err(EngineError::not_found("reader"))
            },
            Some(_) => {
                assert(self.readers@ =~= before.remove(handle.0));
                Ok(())
            },
        }
    }
}

/// Whether nothing but feeds, checkpoints and the next handle differs.
pub open spec fn only_feeds(a: Sequencer, b: Sequencer) -> bool {
    a.readers == b.readers && a.queries == b.queries && a.names == b.names
}

/// Where a feed that is opened now begins.
pub open spec fn feed_start(checkpoints: ConsumerCheckpoints, request: FeedRequest) -> u64 {
    match request.from {
        Some(from) => from,
        None => match opt_text_view(request.consumer_id) {
            Some(id) => match checkpoints.of(id) {
                Some(position) => position,
                None => 0,
            },
            None => 0,
        },
    }
}

impl Sequencer {
    /// Opens a feed. It begins where its request says, else at its consumer's
    /// checkpoint, else at the beginning.
    pub fn open_feed(&mut self, request: FeedRequest, durable_head: u64) -> (r: core::result::Result<FeedHandle, EngineError>)
        requires
            old(self).next_handle < u64::MAX,
        ensures
            old(self).wf() ==> final(self).wf(),
            only_feeds(*final(self), *old(self)),
            final(self).checkpoints == old(self).checkpoints,
            match feed_error(request, durable_head) {
                None => {
                    let start = feed_start(old(self).checkpoints, request);
                    &&& r == Ok::<FeedHandle, EngineError>(FeedHandle(old(self).next_handle))
                    &&& final(self).next_handle == old(self).next_handle + 1
                    &&& final(self).feeds@ == old(self).feeds@.insert(
                        old(self).next_handle,
                        FeedState { request: FeedRequest { from: Some(start), ..request }, continuation: start, cancelled: false },
                    )
                },
                Some(e) => (r matches Err(error) && error@ == e) && *final(self) == *old(self),
            },
    {
        broadcast use vstd::std_specs::hash::group_hash_axioms;

        match validate_feed(&request, durable_head) {
            Ok(()) => {},
            Err(e) => return Err(e),
        }
        let checkpoint: Option<u64> = match &request.consumer_id {
            Some(id) => self.checkpoints.get(id.as_str()),
            None => None,
        };
        let handle: u64 = self.next_handle;
        self.next_handle = handle + 1;
        self.feeds.insert(handle, FeedState::open(request, checkpoint));
        Ok(FeedHandle(handle))
    }

    /// Begins a feed's next page, and says from where records are to be read.
    pub fn begin_feed_page(&self, handle: FeedHandle, durable_head: u64) -> (r: core::result::Result<(FeedBuilder, u64), EngineError>)
        ensures
            !self.feeds@.contains_key(handle.0) ==> (r matches Err(e) && e@ == not_found_error("feed"@)),
            self.feeds@.contains_key(handle.0) ==> ({
                let state = self.feeds@[handle.0];
                if state.cancelled {
                    r matches Err(e) && e@ == crate::facade::error::cancelled_error("feed was cancelled"@)
                } else {
                    r matches Ok((page, from)) && page@ == feed_begun(state.continuation) && page.limit() == durable_head && from
                        == state.continuation
                }
            }),
    {
        broadcast use vstd::std_specs::hash::group_hash_axioms;

        let state = match self.feeds.get(&handle.0) {
            Some(state) => state,
            None => return Err(EngineError::not_found("feed")),
        };
        match state.begin_page(durable_head) {
            Ok(page) => Ok((page, state.continuation)),
            Err(e) => Err(e),
        }
    }

    /// Ends a feed's page.
    pub fn end_feed_page(&mut self, handle: FeedHandle, page: FeedBuilder) -> (r: core::result::Result<FeedPage, EngineError>)
        requires
            forall|i: int| 0 <= i < page@.current.len() ==> (#[trigger] page@.current[i]).position < page.limit(),
        ensures
            old(self).wf() ==> final(self).wf(),
            only_feeds(*final(self), *old(self)),
            final(self).checkpoints == old(self).checkpoints,
            final(self).next_handle == old(self).next_handle,
            !old(self).feeds@.contains_key(handle.0) ==> (r matches Err(e) && e@ == not_found_error("feed"@)) && final(self).feeds@
                == old(self).feeds@,
            old(self).feeds@.contains_key(handle.0) ==> ({
                let state = old(self).feeds@[handle.0];
                let ended = feed_ended(page@, feed_limits(state.request), page.limit());
                &&& r matches Ok(out) && committed_views(out.batches@) == ended.batches && out.continuation == ended.continuation
                    && out.durable_head == page.limit() && !out.timed_out
                &&& final(self).feeds@ == old(self).feeds@.insert(handle.0, FeedState { continuation: ended.continuation, ..state })
            }),
    {
        broadcast use vstd::std_specs::hash::group_hash_axioms;

        let ghost before = self.feeds@;
        match self.feeds.remove(&handle.0) {
            None => {
                assert(self.feeds@ =~= before);
                Err(EngineError::not_found("feed"))
            },
            Some(mut state) => {
                let out = state.end_page(page);
                self.feeds.insert(handle.0, state);
                assert(self.feeds@ =~= before.insert(handle.0, state));
                Ok(out)
            },
        }
    }

    /// How far a feed has come, and for which consumer that is to be recorded.
    pub fn feed_progress(&self, handle: FeedHandle) -> (r: core::result::Result<(u64, Option<String>), EngineError>)
        ensures
            r is Ok <==> self.feeds@.contains_key(handle.0),
            r matches Err(e) ==> e@ == not_found_error("feed"@),
            r matches Ok((position, consumer)) ==> position == self.feeds@[handle.0].continuation && opt_text_view(consumer)
                == opt_text_view(self.feeds@[handle.0].request.consumer_id),
    {
        broadcast use vstd::std_specs::hash::group_hash_axioms;

        match self.feeds.get(&handle.0) {
            Some(state) => {
                let consumer: Option<String> = match &state.request.consumer_id {
                    Some(id) => Some(id.clone()),
                    None => None,
                };
                Ok((state.continuation, consumer))
            },
            None => Err(EngineError::not_found("feed")),
        }
    }

    /// Takes note of a consumer's checkpoint, once it is recorded.
    pub fn acknowledged(&mut self, consumer: String, position: u64)
        ensures
            old(self).wf() ==> final(self).wf(),
            only_feeds(*final(self), *old(self)),
            final(self).feeds == old(self).feeds,
            final(self).next_handle == old(self).next_handle,
            forall|id: Seq<char>| #[trigger]
                final(self).checkpoints.of(id) == (if id == consumer@ {
                    Some(position)
                } else {
                    old(self).checkpoints.of(id)
                }),
    {
        self.checkpoints.set(consumer, position);
    }

    /// Takes note that a consumer's checkpoint is void, once that is recorded.
    pub fn checkpoint_cleared(&mut self, consumer: &str)
        ensures
            old(self).wf() ==> final(self).wf(),
            only_feeds(*final(self), *old(self)),
            final(self).feeds == old(self).feeds,
            final(self).next_handle == old(self).next_handle,
            forall|id: Seq<char>| #[trigger]
                final(self).checkpoints.of(id) == (if id == consumer@ {
                    None
                } else {
                    old(self).checkpoints.of(id)
                }),
    {
        self.checkpoints.remove(consumer);
    }

    /// Cancels a feed.
    pub fn cancel_feed(&mut self, handle: FeedHandle) -> (r: core::result::Result<(), EngineError>)
        ensures
            old(self).wf() ==> final(self).wf(),
            only_feeds(*final(self), *old(self)),
            final(self).checkpoints == old(self).checkpoints,
            final(self).next_handle == old(self).next_handle,
            r is Ok <==> old(self).feeds@.contains_key(handle.0),
            r matches Err(e) ==> e@ == not_found_error("feed"@) && final(self).feeds@ == old(self).feeds@,
            r is Ok ==> final(self).feeds@ == old(self).feeds@.insert(
                handle.0,
                FeedState { cancelled: true, ..old(self).feeds@[handle.0] },
            ),
    {
        broadcast use vstd::std_specs::hash::group_hash_axioms;

        let ghost before = self.feeds@;
        match self.feeds.remove(&handle.0) {
            None => {
                assert(self.feeds@ =~= before);
                Err(EngineError::not_found("feed"))
            },
            Some(mut state) => {
                state.cancelled = true;
                self.feeds.insert(handle.0, state);
                assert(self.feeds@ =~= before.insert(handle.0, state));
                Ok(())
            },
        }
    }

    /// Closes a feed.
    pub fn close_feed(&mut self, handle: FeedHandle) -> (r: core::result::Result<(), EngineError>)
        ensures
            old(self).wf() ==> final(self).wf(),
            only_feeds(*final(self), *old(self)),
            final(self).checkpoints == old(self).checkpoints,
            final(self).next_handle == old(self).next_handle,
            r is Ok <==> old(self).feeds@.contains_key(handle.0),
            r matches Err(e) ==> e@ == not_found_error("feed"@),
            final(self).feeds@ == old(self).feeds@.remove(handle.0),
    {
        broadcast use vstd::std_specs::hash::group_hash_axioms;

        let ghost before = self.feeds@;
        match self.feeds.remove(&handle.0) {
            None => {
                assert(self.feeds@ =~= before.remove(handle.0));
                Err(EngineError::not_found("feed"))
            },
            Some(_) => {
                assert(self.feeds@ =~= before.remove(handle.0));
                Ok(())
            },
        }
    }
}

/// Whether nothing but projections, their names and the next handle differs.
pub open spec fn only_queries(a: Sequencer, b: Sequencer) -> bool {
    a.readers == b.readers && a.feeds == b.feeds && a.checkpoints == b.checkpoints
}

proof fn lemma_named(names: Seq<(Seq<char>, u64)>, name: Seq<char>)
    ensures
        named(names, name) matches Some(handle) ==> exists|i: int|
            0 <= i < names.len() && (#[trigger] names[i]).0 == name && names[i].1 == handle,
    decreases names.len(),
{
    if names.len() > 0 {
        if names.last().0 == name {
            assert(names[names.len() - 1].0 == name);
        } else {
            lemma_named(names.drop_last(), name);
            if let Some(handle) = named(names, name) {
                let i = choose|i: int|
                    0 <= i < names.drop_last().len() && (#[trigger] names.drop_last()[i]).0 == name && names.drop_last()[i].1 == handle;
                assert(names[i].0 == name && names[i].1 == handle);
            }
        }
    }
}

proof fn lemma_unnamed_absent(names: Seq<(Seq<char>, u64)>, name: Seq<char>)
    requires
        named(names, name) is None,
    ensures
        forall|i: int| 0 <= i < names.len() ==> (#[trigger] names[i]).0 != name,
    decreases names.len(),
{
    if names.len() > 0 {
        lemma_unnamed_absent(names.drop_last(), name);
        assert forall|i: int| 0 <= i < names.len() implies (#[trigger] names[i]).0 != name by {
            if i < names.len() - 1 {
                assert(names.drop_last()[i] == names[i]);
            }
        }
    }
}

impl Sequencer {
    fn find_name(&self, name: &str) -> (r: Option<u64>)
        ensures
            r == named(name_views(self.names@), name@),
    {
        let ghost all = name_views(self.names@);
        let mut i: usize = self.names.len();
        assert(all.take(i as int) =~= all);
        while i > 0
            invariant
                i <= self.names@.len(),
                all == name_views(self.names@),
                named(all, name@) == named(all.take(i as int), name@),
            decreases i,
        {
            assert(all.take(i as int).last() == (self.names@[i - 1].0@, self.names@[i - 1].1));
            assert(all.take(i as int).drop_last() =~= all.take(i - 1));
            if same_text(self.names[i - 1].0.as_str(), name) {
                return Some(self.names[i - 1].1);
            }
            i = i - 1;
        }
        None
    }

    /// The projection that is registered under a name.
    pub fn query_named(&self, name: &str) -> (r: core::result::Result<QueryHandle, EngineError>)
        ensures
            match named(name_views(self.names@), name@) {
                Some(handle) => r == Ok::<QueryHandle, EngineError>(QueryHandle(handle)),
                None => r matches Err(e) && e@ == not_found_error("query"@),
            },
    {
        match self.find_name(name) {
            Some(handle) => Ok(QueryHandle(handle)),
            None => Err(EngineError::not_found("query")),
        }
    }

    /// A registered projection.
    pub fn query(&self, handle: QueryHandle) -> (r: core::result::Result<&QueryState, EngineError>)
        ensures
            r is Ok <==> self.queries@.contains_key(handle.0),
            r matches Ok(state) ==> *state == self.queries@[handle.0],
            r matches Err(e) ==> e@ == not_found_error("query"@),
    {
        broadcast use vstd::std_specs::hash::group_hash_axioms;

        match self.queries.get(&handle.0) {
            Some(state) => Ok(state),
            None => Err(EngineError::not_found("query")),
        }
    }

    /// Puts a registered projection back as it has become.
    pub fn update_query(&mut self, handle: QueryHandle, state: QueryState)
        requires
            old(self).wf_without(handle.0),
        ensures
            final(self).wf(),
            only_queries(*final(self), *old(self)),
            final(self).names == old(self).names,
            final(self).next_handle == old(self).next_handle,
            final(self).queries@ == old(self).queries@.insert(handle.0, state),
    {
        broadcast use vstd::std_specs::hash::group_hash_axioms;

        self.queries.insert(handle.0, state);
        assert forall|i: int| 0 <= i < self.names@.len() implies self.queries@.contains_key((#[trigger] self.names@[i]).1) by {
            if self.names@[i].1 != handle.0 {
                assert(old(self).queries@.contains_key(old(self).names@[i].1));
            }
        }
    }

    /// Takes a registered projection out, to change it.
    pub fn take_query(&mut self, handle: QueryHandle) -> (r: core::result::Result<QueryState, EngineError>)
        ensures
            old(self).wf() ==> final(self).wf_without(handle.0),
            only_queries(*final(self), *old(self)),
            final(self).names == old(self).names,
            final(self).next_handle == old(self).next_handle,
            r is Ok <==> old(self).queries@.contains_key(handle.0),
            r matches Ok(state) ==> state == old(self).queries@[handle.0] && final(self).queries@ == old(self).queries@.remove(handle.0),
            r matches Err(e) ==> e@ == not_found_error("query"@) && final(self).queries@ == old(self).queries@,
    {
        broadcast use vstd::std_specs::hash::group_hash_axioms;

        let ghost before = self.queries@;
        match self.queries.remove(&handle.0) {
            Some(state) => {
                assert(self.queries@ =~= before.remove(handle.0));
                Ok(state)
            },
            None => {
                assert(self.queries@ =~= before);
                Err(EngineError::not_found("query"))
            },
        }
    }

    /// Decides what registering a query comes to. One that is to be replaced is
    /// stale from then on.
    pub fn begin_register(&mut self, descriptor: &ProjectionDescriptor) -> (r: core::result::Result<Registering, EngineError>)
        requires
            old(self).wf(),
        ensures
            final(self).wf(),
            only_queries(*final(self), *old(self)),
            final(self).names == old(self).names,
            final(self).next_handle == old(self).next_handle,
            descriptor@.scheme.count == 0 || descriptor@.scheme.count > 4096 ==> (r matches Err(e) && e@ == invalid_error(
                "partition count must be between 1 and 4096"@,
            )) && final(self).queries == old(self).queries,
            0 < descriptor@.scheme.count <= 4096 ==> match named(name_views(old(self).names@), descriptor@.name) {
                None => r == Ok::<Registering, EngineError>(Registering::Fresh) && final(self).queries@ == old(self).queries@,
                Some(handle) => {
                    let state = old(self).queries@[handle];
                    if state@.descriptor != descriptor@ {
                        &&& r == Ok::<Registering, EngineError>(Registering::Fresh)
                        &&& final(self).queries@.dom() == old(self).queries@.dom()
                        &&& final(self).queries@[handle]@ == (QueryView {
                            status: StatusView::Stale {
                                cursor: crate::facade::projection::cursor_of(state@.status),
                                reason: crate::facade::projection::StaleReason::DescriptorChanged,
                            },
                            ..state@
                        })
                        &&& forall|h: u64| h != handle && old(self).queries@.contains_key(h) ==> #[trigger] final(self).queries@[h] == old(self).queries@[h]
                    } else {
                        &&& r == Ok::<Registering, EngineError>(
                            Registering::Known { handle, restart: state@.status is Failed || state@.status is Stale },
                        )
                        &&& final(self).queries@.dom() == old(self).queries@.dom()
                        &&& final(self).queries@[handle]@ == state@
                        &&& forall|h: u64| h != handle && old(self).queries@.contains_key(h) ==> #[trigger] final(self).queries@[h] == old(self).queries@[h]
                    }
                },
            },
    {
        broadcast use vstd::std_specs::hash::group_hash_axioms;

        let count: u32 = descriptor.partition_scheme.partition_count;
        if count == 0 || count > 4096 {
            return Err(EngineError::invalid("partition count must be between 1 and 4096"));
        }
        let handle: u64 = match self.find_name(descriptor.name.as_str()) {
            Some(handle) => handle,
            None => return Ok(Registering::Fresh),
        };
        proof {
            lemma_named(name_views(self.names@), descriptor.name@);
            let i = choose|i: int|
                0 <= i < name_views(self.names@).len() && (#[trigger] name_views(self.names@)[i]).0 == descriptor.name@ && name_views(
                    self.names@,
                )[i].1 == handle;
            assert(self.names@[i].1 == handle);
        }
        let ghost before = self.queries@;
        match self.queries.remove(&handle) {
            Some(mut state) => {
                let decision = state.register_again(descriptor);
                self.queries.insert(handle, state);
                assert(self.queries@ =~= before.insert(handle, state));
                assert forall|i: int| 0 <= i < self.names@.len() implies self.queries@.contains_key((#[trigger] self.names@[i]).1) by {
                    assert(old(self).queries@.contains_key(old(self).names@[i].1));
                }
                assert(self.queries@.dom() =~= before.dom());
                match decision {
                    Registration::Keep => Ok(Registering::Known { handle, restart: false }),
                    Registration::Restart => Ok(Registering::Known { handle, restart: true }),
                    Registration::Replace => Ok(Registering::Fresh),
                }
            },
            None => Err(EngineError::not_found("query")),
        }
    }

    /// Installs a projection whose registration was recorded: under the handle
    /// of its name, where it has one, else under a new one.
    pub fn install_query(&mut self, state: QueryState) -> (r: QueryHandle)
        requires
            old(self).wf(),
            old(self).next_handle < u64::MAX,
        ensures
            final(self).wf(),
            only_queries(*final(self), *old(self)),
            final(self).queries@ == old(self).queries@.insert(r.0, state),
            match named(name_views(old(self).names@), state@.descriptor.name) {
                Some(handle) => r.0 == handle && final(self).names == old(self).names && final(self).next_handle == old(self).next_handle,
                None => r.0 == old(self).next_handle && final(self).next_handle == r.0 + 1 && name_views(final(self).names@) == name_views(
                    old(self).names@,
                ).push((state@.descriptor.name, r.0)),
            },
    {
        broadcast use vstd::std_specs::hash::group_hash_axioms;

        let ghost before = name_views(self.names@);
        let name = state.descriptor().name.clone();
        let handle: u64 = match self.find_name(name.as_str()) {
            Some(handle) => handle,
            None => {
                let handle: u64 = self.next_handle;
                self.next_handle = handle + 1;
                self.names.push((name, handle));
                assert(name_views(self.names@) =~= before.push((state@.descriptor.name, handle)));
                proof {
                    lemma_unnamed_absent(before, state@.descriptor.name);
                    let now = self.names@;
                    let last = now.len() - 1;
                    assert forall|i: int, j: int| 0 <= i < j < now.len() implies (#[trigger] now[i]).1 != (#[trigger] now[j]).1
                        && now[i].0@ != now[j].0@ by {
                        assert(now[i] == old(self).names@[i]);
                        assert(before[i].0 == now[i].0@);
                        if j < last {
                            assert(now[j] == old(self).names@[j]);
                        }
                    }
                    assert forall|i: int| 0 <= i < now.len() implies (#[trigger] now[i]).1 < self.next_handle by {
                        if i < last {
                            assert(now[i] == old(self).names@[i]);
                        }
                    }
                }
                handle
            },
        };
        self.queries.insert(handle, state);
        assert forall|i: int| 0 <= i < self.names@.len() implies self.queries@.contains_key((#[trigger] self.names@[i]).1) by {
            if i < old(self).names@.len() {
                assert(old(self).queries@.contains_key(old(self).names@[i].1));
            }
        }
        QueryHandle(handle)
    }

    /// Begins to remove the projection of a name: the name is free from then on.
    pub fn begin_remove(&mut self, name: &str) -> (r: Option<QueryHandle>)
        requires
            old(self).wf(),
        ensures
            final(self).wf(),
            only_queries(*final(self), *old(self)),
            final(self).next_handle == old(self).next_handle,
            match named(name_views(old(self).names@), name@) {
                None => r is None && final(self).names == old(self).names && final(self).queries@ == old(self).queries@,
                Some(handle) => {
                    &&& r == Some(QueryHandle(handle))
                    &&& name_views(final(self).names@) == unnamed(name_views(old(self).names@), name@)
                    &&& final(self).queries@.dom() == old(self).queries@.dom()
                    &&& final(self).queries@[handle]@ == (QueryView { status: StatusView::Dropping, ..old(self).queries@[handle]@ })
                    &&& forall|h: u64| h != handle && old(self).queries@.contains_key(h) ==> #[trigger] final(self).queries@[h]
                        == old(self).queries@[h]
                    &&& forall|i: int| 0 <= i < final(self).names@.len() ==> (#[trigger] final(self).names@[i]).1 != handle
                },
            },
    {
        broadcast use vstd::std_specs::hash::group_hash_axioms;

        let handle: u64 = match self.find_name(name) {
            Some(handle) => handle,
            None => return None,
        };
        let ghost all = name_views(self.names@);
        let ghost mut at = 0int;
        proof {
            lemma_named(all, name@);
            at = choose|i: int| 0 <= i < all.len() && (#[trigger] all[i]).0 == name@ && all[i].1 == handle;
            assert(self.names@[at].1 == handle && self.names@[at].0@ == name@);
        }
        let mut kept: Vec<(String, u64)> = Vec::new();
        let mut i: usize = 0;
        assert(all.take(0) =~= Seq::empty());
        assert(name_views(kept@) =~= Seq::empty());
        while i < self.names.len()
            invariant
                i <= self.names@.len(),
                all == name_views(self.names@),
                name_views(kept@) == unnamed(all.take(i as int), name@),
                self.names@ == old(self).names@,
                names_distinct(self.names@, self.next_handle),
                0 <= at < self.names@.len(),
                self.names@[at].1 == handle,
                self.names@[at].0@ == name@,
                forall|k: int| 0 <= k < kept@.len() ==> kept_from(self.names@, i as int, #[trigger] kept@[k], handle),
                names_distinct(kept@, self.next_handle),
            decreases self.names@.len() - i,
        {
            assert(all.take(i + 1).last() == (self.names@[i as int].0@, self.names@[i as int].1));
            assert(all.take(i + 1).drop_last() =~= all.take(i as int));
            if !same_text(self.names[i].0.as_str(), name) {
                let ghost before = name_views(kept@);
                kept.push((self.names[i].0.clone(), self.names[i].1));
                assert(name_views(kept@) =~= before.push(all[i as int]));
                proof {
                    let entry = self.names@[i as int];
                    let last = kept@.len() - 1;
                    assert(kept@[last].0@ == entry.0@ && kept@[last].1 == entry.1);
                    assert(entry.1 != handle) by {
                        if i < at {
                            assert(self.names@[i as int].1 != self.names@[at].1);
                        } else if at < i {
                            assert(self.names@[at].1 != self.names@[i as int].1);
                        }
                    }
                    assert forall|a: int, b: int| 0 <= a < b < kept@.len() implies (#[trigger] kept@[a]).1 != (#[trigger] kept@[b]).1
                        && kept@[a].0@ != kept@[b].0@ by {
                        if b == last {
                            assert(kept_from(self.names@, i as int, kept@[a], handle));
                            let j = choose|j: int|
                                0 <= j < i && (#[trigger] self.names@[j]).1 == kept@[a].1 && self.names@[j].0@ == kept@[a].0@;
                            assert(self.names@[j].1 != self.names@[i as int].1);
                        }
                    }
                }
            }
            assert forall|k: int| 0 <= k < kept@.len() implies kept_from(self.names@, i + 1, #[trigger] kept@[k], handle) by {
                if kept_from(self.names@, i as int, kept@[k], handle) {
                    let j = choose|j: int|
                        0 <= j < i && (#[trigger] self.names@[j]).1 == kept@[k].1 && self.names@[j].0@ == kept@[k].0@;
                    assert(self.names@[j].1 == kept@[k].1);
                } else {
                    assert(self.names@[i as int].1 == kept@[k].1);
                }
            }
            i = i + 1;
        }
        assert(all.take(i as int) =~= all);
        self.names = kept;
        let ghost before = self.queries@;
        match self.queries.remove(&handle) {
            Some(mut state) => {
                state.drop_it();
                self.queries.insert(handle, state);
                assert(self.queries@ =~= before.insert(handle, state));
                assert(self.queries@.dom() =~= before.dom());
            },
            None => {},
        }
        assert forall|k: int| 0 <= k < self.names@.len() implies self.queries@.contains_key((#[trigger] self.names@[k]).1) by {
            assert(kept_from(old(self).names@, i as int, self.names@[k], handle));
            let j = choose|j: int|
                0 <= j < i && (#[trigger] old(self).names@[j]).1 == self.names@[k].1 && old(self).names@[j].0@ == self.names@[k].0@;
            assert(old(self).queries@.contains_key(old(self).names@[j].1));
        }
        Some(QueryHandle(handle))
    }

    /// Forgets a projection whose removal was recorded.
    pub fn finish_remove(&mut self, handle: QueryHandle)
        requires
            old(self).wf(),
            forall|i: int| 0 <= i < old(self).names@.len() ==> (#[trigger] old(self).names@[i]).1 != handle.0,
        ensures
            final(self).wf(),
            only_queries(*final(self), *old(self)),
            final(self).names == old(self).names,
            final(self).next_handle == old(self).next_handle,
            final(self).queries@ == old(self).queries@.remove(handle.0),
    {
        broadcast use vstd::std_specs::hash::group_hash_axioms;

        let ghost before = self.queries@;
        let _ = self.queries.remove(&handle.0);
        assert(self.queries@ =~= before.remove(handle.0));
        assert forall|i: int| 0 <= i < self.names@.len() implies self.queries@.contains_key((#[trigger] self.names@[i]).1) by {
            assert(old(self).queries@.contains_key(old(self).names@[i].1));
        }
    }
}

/// Whether a kept name is one of the first so many, and stands for another
/// handle.
spec fn kept_from(names: Seq<(String, u64)>, n: int, entry: (String, u64), handle: u64) -> bool {
    entry.1 != handle && exists|j: int| 0 <= j < n && (#[trigger] names[j]).1 == entry.1 && names[j].0@ == entry.0@
}

/// What a system record says of projections.
#[derive(Debug)]
pub enum RegistrationRecord {
    /// A projection of this name was registered.
    Registered(String),
    /// The projection that these bytes name was removed.
    Dropped(Vec<u8>),
}

/// A registration record as plain values.
#[verifier::ext_equal]
pub enum RegistrationView {
    Registered(Seq<char>),
    Dropped(Seq<u8>),
}

impl View for RegistrationRecord {
    type V = RegistrationView;

    open spec fn view(&self) -> RegistrationView {
        match *self {
            RegistrationRecord::Registered(name) => RegistrationView::Registered(name@),
            RegistrationRecord::Dropped(name) => RegistrationView::Dropped(name@),
        }
    }
}

/// The records of a list as plain values.
pub open spec fn registration_views(records: Seq<RegistrationRecord>) -> Seq<RegistrationView> {
    Seq::new(records.len(), |i: int| records[i]@)
}

/// Names in order, each with the record it was last registered by, after one
/// more registration.
pub open spec fn registered(list: Seq<(Seq<char>, int)>, name: Seq<char>, record: int) -> Seq<(Seq<char>, int)>
    decreases list.len(),
{
    if list.len() == 0 {
        seq![(name, record)]
    } else if list.last().0 == name {
        list.drop_last().push((name, record))
    } else if key_lt(list.last().0, name) {
        list.push((name, record))
    } else {
        registered(list.drop_last(), name, record).push(list.last())
    }
}

/// Names without one of them.
pub open spec fn dropped(list: Seq<(Seq<char>, int)>, name: Seq<char>) -> Seq<(Seq<char>, int)>
    decreases list.len(),
{
    if list.len() == 0 {
        Seq::empty()
    } else if list.last().0 == name {
        dropped(list.drop_last(), name)
    } else {
        dropped(list.drop_last(), name).push(list.last())
    }
}

/// The projections that records leave registered, in the order of their names,
/// each with the record it was last registered by.
pub open spec fn registrations_after(records: Seq<RegistrationView>) -> Seq<(Seq<char>, int)>
    decreases records.len(),
{
    if records.len() == 0 {
        Seq::empty()
    } else {
        let before = registrations_after(records.drop_last());
        match records.last() {
            RegistrationView::Registered(name) => registered(before, name, records.len() - 1),
            RegistrationView::Dropped(name) => if valid_utf8(name) {
                dropped(before, decode_utf8(name))
            } else {
                before
            },
        }
    }
}

/// Registrations as plain values.
pub open spec fn live_views(list: Seq<(String, usize)>) -> Seq<(Seq<char>, int)> {
    Seq::new(list.len(), |i: int| (list[i].0@, list[i].1 as int))
}

fn set_registered(list: &mut Vec<(String, usize)>, name: String, record: usize)
    ensures
        live_views(final(list)@) == registered(live_views(old(list)@), name@, record as int),
    decreases old(list)@.len(),
{
    let ghost before = live_views(list@);
    let n: usize = list.len();
    if n > 0 {
        assert(before.last() == (list@[n - 1].0@, list@[n - 1].1 as int));
        if same_text(list[n - 1].0.as_str(), name.as_str()) {
            let _ = list.pop();
            assert(live_views(list@) =~= before.drop_last());
            list.push((name, record));
            assert(live_views(list@) =~= before.drop_last().push((name@, record as int)));
            return;
        }
        if !crate::bytes::bytes_less(list[n - 1].0.as_str().as_bytes(), name.as_str().as_bytes()) {
            match list.pop() {
                Some(last) => {
                    assert(live_views(list@) =~= before.drop_last());
                    set_registered(list, name, record);
                    let ghost inner = live_views(list@);
                    list.push(last);
                    assert(live_views(list@) =~= inner.push(before.last()));
                },
                None => {},
            }
            return;
        }
    }
    list.push((name, record));
    assert(live_views(list@) =~= before.push((name@, record as int)));
}

fn set_dropped(list: &mut Vec<(String, usize)>, name: &str)
    ensures
        live_views(final(list)@) == dropped(live_views(old(list)@), name@),
{
    let ghost all = live_views(list@);
    let mut kept: Vec<(String, usize)> = Vec::new();
    let mut i: usize = 0;
    assert(all.take(0) =~= Seq::empty());
    assert(live_views(kept@) =~= Seq::empty());
    while i < list.len()
        invariant
            i <= list@.len(),
            all == live_views(list@),
            live_views(kept@) == dropped(all.take(i as int), name@),
        decreases list@.len() - i,
    {
        assert(all.take(i + 1).last() == (list@[i as int].0@, list@[i as int].1 as int));
        assert(all.take(i + 1).drop_last() =~= all.take(i as int));
        if !same_text(list[i].0.as_str(), name) {
            let ghost before = live_views(kept@);
            kept.push((list[i].0.clone(), list[i].1));
            assert(live_views(kept@) =~= before.push(all[i as int]));
        }
        i = i + 1;
    }
    assert(all.take(i as int) =~= all);
    *list = kept;
}

/// The projections that records leave registered, in the order of their names,
/// each with the record it was last registered by.
pub fn live_registrations(records: &Vec<RegistrationRecord>) -> (r: Vec<(String, usize)>)
    ensures
        live_views(r@) == registrations_after(registration_views(records@)),
{
    let ghost all = registration_views(records@);
    let mut list: Vec<(String, usize)> = Vec::new();
    let mut i: usize = 0;
    assert(all.take(0) =~= Seq::empty());
    assert(live_views(list@) =~= Seq::empty());
    while i < records.len()
        invariant
            i <= records@.len(),
            all == registration_views(records@),
            live_views(list@) == registrations_after(all.take(i as int)),
        decreases records@.len() - i,
    {
        assert(all.take(i + 1).last() == records@[i as int]@);
        assert(all.take(i + 1).drop_last() =~= all.take(i as int));
        match &records[i] {
            RegistrationRecord::Registered(name) => {
                set_registered(&mut list, name.clone(), i);
            },
            RegistrationRecord::Dropped(bytes) => {
                match utf8_text(bytes.as_slice()) {
                    Some(name) => {
                        set_dropped(&mut list, name.as_str());
                    },
                    None => {},
                }
            },
        }
        i = i + 1;
    }
    assert(all.take(i as int) =~= all);
    list
}

} // verus!
