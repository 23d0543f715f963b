//! Projections: states that are folded from the events of a log, and nothing
//! else.
use crate::error::Result;
use crate::event::{decode_stored_event, event_model, fault_shown, stored_event, Body, Decoding, Event, EventModel};
use crate::format::frame::{positions_ascend, record_views, OwnedStoredRecord, RecordView};
use crate::text::same_text;
use vstd::prelude::*;

verus! {

/// A state folded from events. The same events in the same order give the same
/// state, every time and everywhere.
pub trait Projection: Sized {
    /// The payload that it folds.
    type Body: Body;

    /// What it can be asked for.
    type State;

    /// What it stands for.
    type Model;

    /// What this projection stands for.
    spec fn model(&self) -> Self::Model;

    /// What one event makes of it.
    spec fn folded(model: Self::Model, event: EventModel<<Self::Body as Body>::Model>) -> Self::Model;

    /// The position below which every event was folded.
    spec fn cursor_of(model: Self::Model) -> u64;

    /// Folding an event moves the cursor behind it.
    proof fn lemma_cursor(model: Self::Model, event: EventModel<<Self::Body as Body>::Model>)
        requires
            event.offset < u64::MAX,
        ensures
            Self::cursor_of(Self::folded(model, event)) == event.offset + 1,
    ;

    /// Folds one event.
    fn apply(&mut self, event: &Event<Self::Body>)
        requires
            event.offset < u64::MAX,
        ensures
            final(self).model() == Self::folded(old(self).model(), event_model(*event)),
    ;

    /// The position below which every event was folded.
    fn cursor(&self) -> (r: u64)
        ensures
            r == Self::cursor_of(self.model()),
    ;

    /// The state.
    fn state(&self) -> &Self::State;
}

/// A projection of one stream.
pub trait NamespaceScoped: Projection {
    /// What a projection of a stream stands for before any event.
    spec fn initial(namespace: Seq<char>) -> Self::Model;

    fn new_for(namespace: &str) -> (r: Self)
        ensures
            r.model() == Self::initial(namespace@),
    ;
}

/// What a replay comes to: what the projection stands for afterwards, and the
/// record that stopped it, if one did.
pub struct Replayed<M> {
    pub model: M,
    pub fault: Option<int>,
}

/// What folding records from the one at `i` on comes to. Records below `from`
/// are passed over, the first at or above `upto` ends it, and so does one that
/// is no event.
pub open spec fn replayed<P: Projection>(model: P::Model, records: Seq<RecordView>, i: int, from: u64, upto: u64) -> Replayed<P::Model>
    decreases records.len() - i,
{
    if i < 0 || i >= records.len() {
        Replayed { model, fault: None }
    } else if records[i].position < from {
        replayed::<P>(model, records, i + 1, from, upto)
    } else if records[i].position >= upto {
        Replayed { model, fault: None }
    } else {
        match stored_event::<P::Body>(records[i]) {
            Decoding::Event(event) => replayed::<P>(P::folded(model, event), records, i + 1, from, upto),
            _ => Replayed { model, fault: Some(i) },
        }
    }
}

/// Folds the records of a log that the projection has not folded yet, up to a
/// position.
pub fn replay_into<P: Projection>(p: &mut P, records: &Vec<OwnedStoredRecord>, upto: u64) -> (r: Result<()>)
    ensures
        ({
            let end = replayed::<P>(
                old(p).model(),
                record_views(records@),
                0,
                P::cursor_of(old(p).model()),
                upto,
            );
            &&& final(p).model() == end.model
            &&& r is Ok <==> end.fault is None
            &&& r matches Err(e) ==> fault_shown(
                stored_event::<P::Body>(record_views(records@)[end.fault->0]),
                records@[end.fault->0].position,
                e@,
            )
        }),
{
    let ghost views = record_views(records@);
    let from: u64 = p.cursor();
    let ghost end = replayed::<P>(p.model(), views, 0, from, upto);
    let mut i: usize = 0;
    while i < records.len()
        invariant
            i <= records@.len(),
            views == record_views(records@),
            end == replayed::<P>(old(p).model(), views, 0, P::cursor_of(old(p).model()), upto),
            end == replayed::<P>(p.model(), views, i as int, from, upto),
        ensures
            end == (Replayed { model: p.model(), fault: None }),
        decreases records@.len() - i,
    {
        let record = &records[i];
        assert(views[i as int] == record@);
        if record.position >= from {
            if record.position >= upto {
                break;
            }
            match decode_stored_event::<P::Body>(record) {
                Ok(event) => {
                    assert(event.offset == record.position);
                    p.apply(&event);
                },
                Err(e) => return Err(e),
            }
        }
        i = i + 1;
    }
    Ok(())
}

/// What folding the events of a stream comes to, from the record at `i` on. The
/// first record at or above `upto` ends it, and so does one that is no event.
pub open spec fn stream_replayed<P: Projection>(
    model: P::Model,
    records: Seq<RecordView>,
    i: int,
    namespace: Seq<char>,
    upto: u64,
) -> Replayed<P::Model>
    decreases records.len() - i,
{
    if i < 0 || i >= records.len() || records[i].position >= upto {
        Replayed { model, fault: None }
    } else {
        match stored_event::<P::Body>(records[i]) {
            Decoding::Event(event) => {
                let next = if event.namespace == namespace {
                    P::folded(model, event)
                } else {
                    model
                };
                stream_replayed::<P>(next, records, i + 1, namespace, upto)
            },
            _ => Replayed { model, fault: Some(i) },
        }
    }
}

/// Folds the events of a stream, up to a position.
pub fn replay_stream<P: Projection>(p: &mut P, records: &Vec<OwnedStoredRecord>, namespace: &str, upto: u64) -> (r: Result<()>)
    ensures
        ({
            let end = stream_replayed::<P>(old(p).model(), record_views(records@), 0, namespace@, upto);
            &&& final(p).model() == end.model
            &&& r is Ok <==> end.fault is None
            &&& r matches Err(e) ==> fault_shown(
                stored_event::<P::Body>(record_views(records@)[end.fault->0]),
                records@[end.fault->0].position,
                e@,
            )
        }),
{
    let ghost views = record_views(records@);
    let ghost end = stream_replayed::<P>(p.model(), views, 0, namespace@, upto);
    let mut i: usize = 0;
    while i < records.len()
        invariant
            i <= records@.len(),
            views == record_views(records@),
            end == stream_replayed::<P>(old(p).model(), views, 0, namespace@, upto),
            end == stream_replayed::<P>(p.model(), views, i as int, namespace@, upto),
        ensures
            end == (Replayed { model: p.model(), fault: None }),
        decreases records@.len() - i,
    {
        let record = &records[i];
        assert(views[i as int] == record@);
        if record.position >= upto {
            break;
        }
        match decode_stored_event::<P::Body>(record) {
            Ok(event) => {
                assert(event.offset == record.position);
                if same_text(event.namespace.as_str(), namespace) {
                    p.apply(&event);
                }
            },
            Err(e) => return Err(e),
        }
        i = i + 1;
    }
    Ok(())
}

proof fn lemma_skips<P: Projection>(model: P::Model, records: Seq<RecordView>, i: int, n: int, from: u64, upto: u64)
    requires
        0 <= i <= n <= records.len(),
        forall|j: int| i <= j < n ==> (#[trigger] records[j]).position < from,
    ensures
        replayed::<P>(model, records, i, from, upto) == replayed::<P>(model, records, n, from, upto),
    decreases n - i,
{
    if i < n {
        assert(records[i].position < from);
        lemma_skips::<P>(model, records, i + 1, n, from, upto);
    }
}

proof fn lemma_from<P: Projection>(model: P::Model, records: Seq<RecordView>, i: int, from: u64, other: u64, upto: u64)
    requires
        0 <= i <= records.len(),
        forall|j: int| i <= j < records.len() ==> (#[trigger] records[j]).position >= from && records[j].position >= other,
    ensures
        replayed::<P>(model, records, i, from, upto) == replayed::<P>(model, records, i, other, upto),
    decreases records.len() - i,
{
    if i < records.len() {
        assert(records[i].position >= from);
        if records[i].position < upto {
            if let Decoding::Event(event) = stored_event::<P::Body>(records[i]) {
                lemma_from::<P>(P::folded(model, event), records, i + 1, from, other, upto);
            }
        }
    }
}

proof fn lemma_resumed<P: Projection>(model: P::Model, records: Seq<RecordView>, i: int, from: u64, mid: u64, upto: u64)
    requires
        positions_ascend(records),
        0 <= i <= records.len(),
        mid <= upto,
        replayed::<P>(model, records, i, from, mid).fault is None,
        from <= P::cursor_of(model),
        forall|j: int| 0 <= j < i ==> (#[trigger] records[j]).position < P::cursor_of(model),
        forall|j: int|
            i <= j < records.len() && (#[trigger] records[j]).position >= from ==> records[j].position >= P::cursor_of(model),
    ensures
        ({
            let half = replayed::<P>(model, records, i, from, mid).model;
            replayed::<P>(half, records, 0, P::cursor_of(half), upto) == replayed::<P>(model, records, i, from, upto)
        }),
    decreases records.len() - i,
{
    let at = P::cursor_of(model);
    if i < records.len() && records[i].position < from {
        lemma_resumed::<P>(model, records, i + 1, from, mid, upto);
    } else if i >= records.len() || records[i].position >= mid {
        lemma_skips::<P>(model, records, 0, i, at, upto);
        assert forall|j: int| i <= j < records.len() implies (#[trigger] records[j]).position >= from && records[j].position >= at by {
            if j > i {
                assert(records[i].position < records[j].position);
            }
        }
        lemma_from::<P>(model, records, i, from, at, upto);
    } else if let Decoding::Event(event) = stored_event::<P::Body>(records[i]) {
        assert(event.offset == records[i].position);
        P::lemma_cursor(model, event);
        let next = P::folded(model, event);
        assert forall|j: int| 0 <= j < i + 1 implies (#[trigger] records[j]).position < P::cursor_of(next) by {
            if j < i {
                assert(records[j].position < records[i].position);
            }
        }
        assert forall|j: int| i + 1 <= j < records.len() && (#[trigger] records[j]).position >= from implies records[j].position
            >= P::cursor_of(next) by {
            assert(records[i].position < records[j].position);
        }
        lemma_resumed::<P>(next, records, i + 1, from, mid, upto);
    }
}

/// A replay in two steps is a replay in one: a projection that was brought up
/// to one position, and then to a later one, is what it is when it is brought to
/// the later one at once.
pub proof fn lemma_incremental<P: Projection>(model: P::Model, records: Seq<RecordView>, mid: u64, upto: u64)
    requires
        positions_ascend(records),
        mid <= upto,
        replayed::<P>(model, records, 0, P::cursor_of(model), mid).fault is None,
    ensures
        ({
            let half = replayed::<P>(model, records, 0, P::cursor_of(model), mid).model;
            replayed::<P>(half, records, 0, P::cursor_of(half), upto) == replayed::<P>(model, records, 0, P::cursor_of(model), upto)
        }),
{
    lemma_resumed::<P>(model, records, 0, P::cursor_of(model), mid, upto);
}

proof fn lemma_stops<P: Projection>(model: P::Model, records: Seq<RecordView>, i: int, from: u64, upto: u64)
    requires
        positions_ascend(records),
        0 <= i <= records.len(),
        replayed::<P>(model, records, i, from, upto).fault is Some,
        forall|j: int| 0 <= j < i && (#[trigger] records[j]).position >= from ==> stored_event::<P::Body>(records[j]) is Event,
    ensures
        ({
            let at = replayed::<P>(model, records, i, from, upto).fault->0;
            &&& i <= at < records.len()
            &&& from <= records[at].position < upto
            &&& !(stored_event::<P::Body>(records[at]) is Event)
            &&& forall|j: int| 0 <= j < at && (#[trigger] records[j]).position >= from ==> stored_event::<P::Body>(records[j]) is Event
        }),
    decreases records.len() - i,
{
    if i < records.len() {
        if records[i].position < from {
            lemma_stops::<P>(model, records, i + 1, from, upto);
        } else if records[i].position < upto {
            if let Decoding::Event(event) = stored_event::<P::Body>(records[i]) {
                lemma_stops::<P>(P::folded(model, event), records, i + 1, from, upto);
            }
        }
    }
}

/// A replay that fails stops at the first record that is no event.
pub proof fn lemma_first_fault<P: Projection>(model: P::Model, records: Seq<RecordView>, from: u64, upto: u64)
    requires
        positions_ascend(records),
        replayed::<P>(model, records, 0, from, upto).fault is Some,
    ensures
        ({
            let at = replayed::<P>(model, records, 0, from, upto).fault->0;
            &&& 0 <= at < records.len()
            &&& from <= records[at].position < upto
            &&& !(stored_event::<P::Body>(records[at]) is Event)
            &&& forall|j: int| 0 <= j < at && (#[trigger] records[j]).position >= from ==> stored_event::<P::Body>(records[j]) is Event
        }),
{
    lemma_stops::<P>(model, records, 0, from, upto);
}

} // verus!
