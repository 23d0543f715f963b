//! An agent's session, folded from the events of its stream.
use crate::agent::body::{BodyView, EventBody, Role};
use crate::branch::{branch_name_error, BranchName};
use crate::error::Result;
use crate::event::{fault_shown, stored_event, Event, EventModel};
use crate::format::frame::{record_views, OwnedStoredRecord};
use crate::format::metadata::{inserted, Metadata, MetadataView};
use crate::projection::{replay_stream, stream_replayed, NamespaceScoped, Projection};
use crate::text::{decimal, decimal_string, join3, same_text};
use vstd::prelude::*;
use vstd::utf8::encode_utf8;

verus! {

/// One entry of what was said and done.
#[derive(Debug)]
pub enum TranscriptEntry {
    ModelTurn { role: Role, content: String, model: String },
    ToolCall { call_id: String, tool: String, args_json: String },
    ToolResult { call_id: String, ok: bool, content: String },
    Decision { summary: String, rationale: String },
}

/// One entry of what was said and done, as plain values.
#[verifier::ext_equal]
pub enum TranscriptView {
    ModelTurn { role: Role, content: Seq<char>, model: Seq<char> },
    ToolCall { call_id: Seq<char>, tool: Seq<char>, args_json: Seq<char> },
    ToolResult { call_id: Seq<char>, ok: bool, content: Seq<char> },
    Decision { summary: Seq<char>, rationale: Seq<char> },
}

impl View for TranscriptEntry {
    type V = TranscriptView;

    open spec fn view(&self) -> TranscriptView {
        match *self {
            TranscriptEntry::ModelTurn { role, content, model } => TranscriptView::ModelTurn {
                role,
                content: content@,
                model: model@,
            },
            TranscriptEntry::ToolCall { call_id, tool, args_json } => TranscriptView::ToolCall {
                call_id: call_id@,
                tool: tool@,
                args_json: args_json@,
            },
            TranscriptEntry::ToolResult { call_id, ok, content } => TranscriptView::ToolResult {
                call_id: call_id@,
                ok,
                content: content@,
            },
            TranscriptEntry::Decision { summary, rationale } => TranscriptView::Decision {
                summary: summary@,
                rationale: rationale@,
            },
        }
    }
}

/// The entries of a transcript as plain values.
pub open spec fn transcript_views(transcript: Seq<TranscriptEntry>) -> Seq<TranscriptView> {
    Seq::new(transcript.len(), |i: int| transcript[i]@)
}

/// How far a session is.
#[derive(Debug, PartialEq, Eq)]
pub enum SessionStatus {
    NotStarted,
    Active,
    Ended { reason: String },
}

/// How far a session is, as plain values.
#[verifier::ext_equal]
pub enum StatusView {
    NotStarted,
    Active,
    Ended { reason: Seq<char> },
}

impl View for SessionStatus {
    type V = StatusView;

    open spec fn view(&self) -> StatusView {
        match *self {
            SessionStatus::NotStarted => StatusView::NotStarted,
            SessionStatus::Active => StatusView::Active,
            SessionStatus::Ended { reason } => StatusView::Ended { reason: reason@ },
        }
    }
}

/// A call that has no result yet.
#[derive(Debug)]
pub struct PendingToolCall {
    pub tool: String,
    pub args_json: String,
}

/// The calls that have no result yet, by the call's identity.
#[derive(Debug)]
pub struct PendingCalls {
    ids: Vec<String>,
    calls: Vec<PendingToolCall>,
}

spec fn calls_map(ids: Seq<String>, calls: Seq<PendingToolCall>) -> Map<Seq<char>, (Seq<char>, Seq<char>)>
    decreases ids.len(),
{
    if ids.len() == 0 {
        Map::empty()
    } else {
        let call = calls[ids.len() - 1];
        calls_map(ids.drop_last(), calls).insert(ids.last()@, (call.tool@, call.args_json@))
    }
}

proof fn lemma_calls_prefix(ids: Seq<String>, a: Seq<PendingToolCall>, b: Seq<PendingToolCall>)
    requires
        forall|i: int| 0 <= i < ids.len() ==> #[trigger] a[i] == b[i],
    ensures
        calls_map(ids, a) == calls_map(ids, b),
    decreases ids.len(),
{
    if ids.len() > 0 {
        lemma_calls_prefix(ids.drop_last(), a, b);
        assert(a[ids.len() - 1] == b[ids.len() - 1]);
    }
}

proof fn lemma_calls_held(ids: Seq<String>, calls: Seq<PendingToolCall>, id: Seq<char>)
    ensures
        calls_map(ids, calls).contains_key(id) <==> exists|i: int| 0 <= i < ids.len() && (#[trigger] ids[i])@ == id,
    decreases ids.len(),
{
    if ids.len() > 0 {
        let front = ids.drop_last();
        lemma_calls_held(front, calls, id);
        assert(ids[ids.len() - 1] == ids.last());
        if exists|i: int| 0 <= i < front.len() && (#[trigger] front[i])@ == id {
            let i = choose|i: int| 0 <= i < front.len() && (#[trigger] front[i])@ == id;
            assert(ids[i]@ == id);
        }
        if exists|i: int| 0 <= i < ids.len() && (#[trigger] ids[i])@ == id {
            let i = choose|i: int| 0 <= i < ids.len() && (#[trigger] ids[i])@ == id;
            if i < front.len() {
                assert(front[i]@ == id);
            }
        }
    }
}

proof fn lemma_call_at(ids: Seq<String>, calls: Seq<PendingToolCall>, at: int)
    requires
        ids_distinct(ids),
        0 <= at < ids.len(),
    ensures
        calls_map(ids, calls).contains_key(ids[at]@),
        calls_map(ids, calls)[ids[at]@] == (calls[at].tool@, calls[at].args_json@),
    decreases ids.len(),
{
    let front = ids.drop_last();
    let n = ids.len() - 1;
    if at < n {
        assert forall|i: int, j: int| 0 <= i < j < front.len() implies (#[trigger] front[i])@ != (#[trigger] front[j])@ by {
            assert(front[i] == ids[i] && front[j] == ids[j]);
        }
        lemma_call_at(front, calls, at);
        assert(front[at] == ids[at]);
        assert(ids[at]@ != ids[n]@);
    }
}

spec fn ids_distinct(ids: Seq<String>) -> bool {
    forall|i: int, j: int| 0 <= i < j < ids.len() ==> (#[trigger] ids[i])@ != (#[trigger] ids[j])@
}

proof fn lemma_call_removed(ids: Seq<String>, calls: Seq<PendingToolCall>, at: int)
    requires
        ids_distinct(ids),
        ids.len() == calls.len(),
        0 <= at < ids.len(),
    ensures
        calls_map(ids.remove(at), calls.remove(at)) == calls_map(ids, calls).remove(ids[at]@),
        ids_distinct(ids.remove(at)),
    decreases ids.len(),
{
    let front = ids.drop_last();
    let n = ids.len() - 1;
    let rest = ids.remove(at);
    assert forall|i: int, j: int| 0 <= i < j < rest.len() implies (#[trigger] rest[i])@ != (#[trigger] rest[j])@ by {
        let a = if i < at { i } else { i + 1 };
        let b = if j < at { j } else { j + 1 };
        assert(rest[i] == ids[a] && rest[j] == ids[b]);
    }
    assert(ids_distinct(front)) by {
        assert forall|i: int, j: int| 0 <= i < j < front.len() implies (#[trigger] front[i])@ != (#[trigger] front[j])@ by {
            assert(front[i] == ids[i] && front[j] == ids[j]);
        }
    }
    if at == n {
        assert(ids.remove(at) =~= front);
        lemma_calls_prefix(front, calls.remove(at), calls);
        lemma_calls_held(front, calls, ids[at]@);
        if calls_map(front, calls).contains_key(ids[at]@) {
            let i = choose|i: int| 0 <= i < front.len() && (#[trigger] front[i])@ == ids[at]@;
            assert(ids[i]@ != ids[at]@);
        }
        assert(calls_map(ids, calls).remove(ids[at]@) =~= calls_map(front, calls));
    } else {
        lemma_calls_prefix(front, calls, calls.drop_last());
        lemma_call_removed(front, calls.drop_last(), at);
        assert(ids.remove(at).drop_last() =~= front.remove(at));
        assert(ids.remove(at).last() == ids.last());
        lemma_calls_prefix(front.remove(at), calls.remove(at), calls.drop_last().remove(at));
        assert(calls.remove(at)[n - 1] == calls[n]);
        assert(ids[at]@ != ids[n]@);
        assert(calls_map(ids.remove(at), calls.remove(at)) =~= calls_map(ids, calls).remove(ids[at]@));
    }
}

impl View for PendingCalls {
    type V = Map<Seq<char>, (Seq<char>, Seq<char>)>;

    closed spec fn view(&self) -> Map<Seq<char>, (Seq<char>, Seq<char>)> {
        calls_map(self.ids@, self.calls@)
    }
}

impl PendingCalls {
    #[verifier::type_invariant]
    spec fn inv(self) -> bool {
        self.ids@.len() == self.calls@.len() && ids_distinct(self.ids@)
    }

    pub fn new() -> (r: Self)
        ensures
            r@ == Map::<Seq<char>, (Seq<char>, Seq<char>)>::empty(),
    {
        PendingCalls { ids: Vec::new(), calls: Vec::new() }
    }

    fn find(&self, id: &str) -> (r: Option<usize>)
        ensures
            match r {
                Some(i) => i < self.ids@.len() && self.ids@[i as int]@ == id@,
                None => forall|j: int| 0 <= j < self.ids@.len() ==> (#[trigger] self.ids@[j])@ != id@,
            },
    {
        let mut i: usize = 0;
        while i < self.ids.len()
            invariant
                i <= self.ids@.len(),
                forall|j: int| 0 <= j < i ==> (#[trigger] self.ids@[j])@ != id@,
            decreases self.ids@.len() - i,
        {
            if same_text(self.ids[i].as_str(), id) {
                return Some(i);
            }
            i = i + 1;
        }
        None
    }

    pub fn contains_key(&self, id: &str) -> (r: bool)
        ensures
            r == self@.contains_key(id@),
    {
        proof {
            lemma_calls_held(self.ids@, self.calls@, id@);
        }
        self.find(id).is_some()
    }

    /// The call with an identity, if it has no result yet.
    pub fn get(&self, id: &str) -> (r: Option<&PendingToolCall>)
        ensures
            match r {
                Some(call) => self@.contains_key(id@) && self@[id@] == (call.tool@, call.args_json@),
                None => !self@.contains_key(id@),
            },
    {
        proof {
            use_type_invariant(self);
            lemma_calls_held(self.ids@, self.calls@, id@);
        }
        match self.find(id) {
            Some(at) => {
                proof {
                    lemma_call_at(self.ids@, self.calls@, at as int);
                }
                Some(&self.calls[at])
            },
            None => None,
        }
    }

    /// How many calls have no result yet.
    pub fn len(&self) -> (n: usize)
        ensures
            self@.dom().finite(),
            n == self@.len(),
    {
        proof {
            use_type_invariant(self);
            lemma_calls_len(self.ids@, self.calls@);
        }
        self.ids.len()
    }

    /// Takes out a call.
    pub fn remove(&mut self, id: &str)
        ensures
            final(self)@ == old(self)@.remove(id@),
    {
        proof {
            use_type_invariant(&*self);
            lemma_calls_held(self.ids@, self.calls@, id@);
        }
        let found = self.find(id);
        let mut taken = PendingCalls { ids: Vec::new(), calls: Vec::new() };
        core::mem::swap(&mut taken, self);
        proof {
            use_type_invariant(&taken);
        }
        let PendingCalls { ids: mut ids, calls: mut calls } = taken;
        match found {
            Some(at) => {
                proof {
                    lemma_call_removed(ids@, calls@, at as int);
                }
                let _ = ids.remove(at);
                let _ = calls.remove(at);
            },
            None => {
                assert(calls_map(ids@, calls@) =~= calls_map(ids@, calls@).remove(id@));
            },
        }
        let mut back = PendingCalls { ids, calls };
        core::mem::swap(&mut back, self);
    }

    /// Puts a call.
    pub fn insert(&mut self, id: String, call: PendingToolCall)
        ensures
            final(self)@ == old(self)@.insert(id@, (call.tool@, call.args_json@)),
    {
        self.remove(id.as_str());
        let ghost before = self@;
        let mut taken = PendingCalls { ids: Vec::new(), calls: Vec::new() };
        core::mem::swap(&mut taken, self);
        proof {
            use_type_invariant(&taken);
        }
        let PendingCalls { ids: mut ids, calls: mut calls } = taken;
        let ghost old_ids = ids@;
        let ghost old_calls = calls@;
        let ghost key = id@;
        let ghost held = (call.tool@, call.args_json@);
        ids.push(id);
        calls.push(call);
        proof {
            lemma_calls_held(old_ids, old_calls, key);
            assert forall|i: int, j: int| 0 <= i < j < ids@.len() implies (#[trigger] ids@[i])@ != (#[trigger] ids@[j])@ by {
                assert(ids@[i] == old_ids[i]);
                if j < old_ids.len() {
                    assert(ids@[j] == old_ids[j]);
                }
            }
            assert(ids@.drop_last() =~= old_ids);
            lemma_calls_prefix(old_ids, calls@, old_calls);
            assert(calls_map(ids@, calls@) == before.insert(key, held));
            assert(old(self)@.remove(key).insert(key, held) =~= old(self)@.insert(key, held));
        }
        let mut back = PendingCalls { ids, calls };
        core::mem::swap(&mut back, self);
    }
}

proof fn lemma_calls_len(ids: Seq<String>, calls: Seq<PendingToolCall>)
    requires
        ids_distinct(ids),
    ensures
        calls_map(ids, calls).dom().finite(),
        calls_map(ids, calls).len() == ids.len(),
    decreases ids.len(),
{
    if ids.len() > 0 {
        let front = ids.drop_last();
        assert forall|i: int, j: int| 0 <= i < j < front.len() implies (#[trigger] front[i])@ != (#[trigger] front[j])@ by {
            assert(front[i] == ids[i] && front[j] == ids[j]);
        }
        lemma_calls_len(front, calls);
        lemma_calls_held(front, calls, ids.last()@);
        if calls_map(front, calls).contains_key(ids.last()@) {
            let i = choose|i: int| 0 <= i < front.len() && (#[trigger] front[i])@ == ids.last()@;
            assert(ids[i]@ != ids[ids.len() - 1]@);
        }
    }
}

/// What a session is.
#[derive(Debug)]
pub struct SessionState {
    /// The agent, once the session was started.
    pub agent_id: Option<String>,
    pub transcript: Vec<TranscriptEntry>,
    pub pending: PendingCalls,
    pub status: SessionStatus,
}

/// What a session is, as plain values.
#[verifier::ext_equal]
pub struct SessionView {
    pub agent_id: Option<Seq<char>>,
    pub transcript: Seq<TranscriptView>,
    pub pending: Map<Seq<char>, (Seq<char>, Seq<char>)>,
    pub status: StatusView,
}

impl View for SessionState {
    type V = SessionView;

    open spec fn view(&self) -> SessionView {
        SessionView {
            agent_id: match self.agent_id {
                Some(id) => Some(id@),
                None => None,
            },
            transcript: transcript_views(self.transcript@),
            pending: self.pending@,
            status: self.status@,
        }
    }
}

/// A session of which nothing is known.
pub open spec fn no_session() -> SessionView {
    SessionView { agent_id: None, transcript: Seq::empty(), pending: Map::empty(), status: StatusView::NotStarted }
}

impl Default for SessionState {
    fn default() -> (r: Self)
        ensures
            r@ == no_session(),
    {
        let r = SessionState {
            agent_id: None,
            transcript: Vec::new(),
            pending: PendingCalls::new(),
            status: SessionStatus::NotStarted,
        };
        assert(transcript_views(r.transcript@) =~= Seq::empty());
        r
    }
}

/// What one event of its stream makes of a session.
pub open spec fn session_folded(state: SessionView, body: BodyView) -> SessionView {
    match body {
        BodyView::SessionStarted { agent_id, config_hash } => SessionView {
            agent_id: Some(agent_id),
            status: StatusView::Active,
            ..state
        },
        BodyView::ModelTurn { role, content, model } => SessionView {
            transcript: state.transcript.push(TranscriptView::ModelTurn { role, content, model }),
            ..state
        },
        BodyView::ToolCall { call_id, tool, args_json } => SessionView {
            pending: state.pending.insert(call_id, (tool, args_json)),
            transcript: state.transcript.push(TranscriptView::ToolCall { call_id, tool, args_json }),
            ..state
        },
        BodyView::ToolResult { call_id, ok, content } => SessionView {
            pending: state.pending.remove(call_id),
            transcript: state.transcript.push(TranscriptView::ToolResult { call_id, ok, content }),
            ..state
        },
        BodyView::Decision { summary, rationale } => SessionView {
            transcript: state.transcript.push(TranscriptView::Decision { summary, rationale }),
            ..state
        },
        BodyView::SessionEnded { reason } => SessionView { status: StatusView::Ended { reason }, ..state },
        BodyView::Put { key, value } => state,
        BodyView::Delete { key } => state,
    }
}

/// A session, folded from the events of one stream. Events of other streams only
/// move the cursor.
pub struct SessionProjection {
    namespace: String,
    state: SessionState,
    cursor: u64,
}

/// A session's projection as plain values.
#[verifier::ext_equal]
pub struct SessionModel {
    pub namespace: Seq<char>,
    pub state: SessionView,
    pub cursor: u64,
}

impl SessionProjection {
    pub fn new(namespace: String) -> (r: Self)
        ensures
            r.model() == (SessionModel { namespace: namespace@, state: no_session(), cursor: 0 }),
    {
        SessionProjection { namespace, state: SessionState::default(), cursor: 0 }
    }

    fn note(&mut self, entry: TranscriptEntry)
        ensures
            final(self).namespace == old(self).namespace,
            final(self).cursor == old(self).cursor,
            final(self).state@ == (SessionView { transcript: old(self).state@.transcript.push(entry@), ..old(self).state@ }),
    {
        let ghost before = transcript_views(self.state.transcript@);
        let ghost added = entry@;
        self.state.transcript.push(entry);
        assert(transcript_views(self.state.transcript@) =~= before.push(added));
    }
}

impl Projection for SessionProjection {
    type Body = EventBody;

    type State = SessionState;

    type Model = SessionModel;

    closed spec fn model(&self) -> SessionModel {
        SessionModel { namespace: self.namespace@, state: self.state@, cursor: self.cursor }
    }

    open spec fn folded(model: SessionModel, event: EventModel<BodyView>) -> SessionModel {
        SessionModel {
            state: if event.namespace == model.namespace {
                session_folded(model.state, event.body)
            } else {
                model.state
            },
            cursor: (event.offset + 1) as u64,
            ..model
        }
    }

    open spec fn cursor_of(model: SessionModel) -> u64 {
        model.cursor
    }

    proof fn lemma_cursor(model: SessionModel, event: EventModel<BodyView>) {
    }

    fn apply(&mut self, event: &Event<EventBody>) {
        if !same_text(event.namespace.as_str(), self.namespace.as_str()) {
            self.cursor = event.offset + 1;
            return;
        }
        match &event.body {
            EventBody::SessionStarted { agent_id, config_hash: _ } => {
                self.state.status = SessionStatus::Active;
                self.state.agent_id = Some(agent_id.clone());
            },
            EventBody::ModelTurn { role, content, model } => {
                self.note(TranscriptEntry::ModelTurn { role: *role, content: content.clone(), model: model.clone() });
            },
            EventBody::ToolCall { call_id, tool, args_json } => {
                self.state.pending.insert(
                    call_id.clone(),
                    PendingToolCall { tool: tool.clone(), args_json: args_json.clone() },
                );
                self.note(
                    TranscriptEntry::ToolCall { call_id: call_id.clone(), tool: tool.clone(), args_json: args_json.clone() },
                );
            },
            EventBody::ToolResult { call_id, ok, content } => {
                self.state.pending.remove(call_id.as_str());
                self.note(TranscriptEntry::ToolResult { call_id: call_id.clone(), ok: *ok, content: content.clone() });
            },
            EventBody::Decision { summary, rationale } => {
                self.note(TranscriptEntry::Decision { summary: summary.clone(), rationale: rationale.clone() });
            },
            EventBody::SessionEnded { reason } => {
                self.state.status = SessionStatus::Ended { reason: reason.clone() };
            },
            _ => {},
        }
        self.cursor = event.offset + 1;
    }

    fn cursor(&self) -> (r: u64) {
        self.cursor
    }

    fn state(&self) -> (r: &SessionState)
        ensures
            r@ == self.model().state,
    {
        &self.state
    }
}

impl NamespaceScoped for SessionProjection {
    open spec fn initial(namespace: Seq<char>) -> SessionModel {
        SessionModel { namespace, state: no_session(), cursor: 0 }
    }

    fn new_for(namespace: &str) -> (r: Self) {
        SessionProjection::new(namespace.to_owned())
    }
}

/// The session of a stream, folded from the records of a branch up to a
/// position.
pub fn session_view(records: &Vec<OwnedStoredRecord>, namespace: &str, upto: u64) -> (r: Result<SessionProjection>)
    ensures
        ({
            let end = stream_replayed::<SessionProjection>(
                SessionProjection::initial(namespace@),
                record_views(records@),
                0,
                namespace@,
                upto,
            );
            &&& r is Ok <==> end.fault is None
            &&& r matches Ok(p) ==> p.model() == end.model
            &&& r matches Err(e) ==> fault_shown(
                stored_event::<EventBody>(record_views(records@)[end.fault->0]),
                records@[end.fault->0].position,
                e@,
            )
        }),
{
    let mut projection = SessionProjection::new(namespace.to_owned());
    match replay_stream(&mut projection, records, namespace, upto) {
        Ok(()) => Ok(projection),
        Err(e) => Err(e),
    }
}

/// The name of the branch that a session is forked into at a position.
pub open spec fn session_fork_name(namespace: Seq<char>, n: u64) -> Seq<char> {
    namespace + "-fork-"@ + decimal(n as nat)
}

/// What a session's fork notes of itself: the stream, which keeps its name on
/// both sides.
pub open spec fn session_fork_metadata(namespace: Seq<char>) -> MetadataView {
    inserted(MetadataView::empty(), "session_stream"@, encode_utf8(namespace))
}

/// The name and the metadata of the branch that a session is forked into.
pub fn session_fork(namespace: &str, n: u64) -> (r: Result<(BranchName, Metadata)>)
    ensures
        match branch_name_error(session_fork_name(namespace@, n)) {
            Some(e) => r matches Err(error) && error@ == e,
            None => r matches Ok((name, metadata)) && name@ == session_fork_name(namespace@, n) && metadata@
                == session_fork_metadata(namespace@),
        },
{
    let mut metadata = Metadata::new();
    let _ = metadata.insert("session_stream".to_owned(), vstd::slice::slice_to_vec(namespace.as_bytes()));
    match BranchName::new(join3(namespace, "-fork-", decimal_string(n).as_str()).as_str()) {
        Ok(name) => Ok((name, metadata)),
        Err(e) => Err(e),
    }
}

/// A result settles its call and no other: after it that call is not pending,
/// and every other call is as it was.
pub proof fn lemma_result_settles(state: SessionView, call_id: Seq<char>, ok: bool, content: Seq<char>, other: Seq<char>)
    ensures
        !session_folded(state, BodyView::ToolResult { call_id, ok, content }).pending.contains_key(call_id),
        other != call_id ==> (session_folded(state, BodyView::ToolResult { call_id, ok, content }).pending.contains_key(other)
            <==> state.pending.contains_key(other)),
{
}

} // verus!
