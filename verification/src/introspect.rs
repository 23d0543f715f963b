//! Looking at the raw events of a stream.
use crate::error::Result;
use crate::event::{decode_stored_event, event_model, fault_shown, stored_event, Body, Decoding, Event, EventModel};
use crate::format::frame::{record_views, OwnedStoredRecord, RecordView};
use crate::text::same_text;
use vstd::prelude::*;

verus! {

/// The events of a stream, and how looking for them ended.
pub struct Listing<B> {
    pub events: Vec<Event<B>>,
    pub outcome: Result<()>,
}

/// What events stand for.
pub open spec fn event_models<B: Body>(events: Seq<Event<B>>) -> Seq<EventModel<B::Model>> {
    Seq::new(events.len(), |i: int| event_model(events[i]))
}

/// The first record at or above `end`, or that is no event; how many there are
/// where no record is either.
pub open spec fn listed_until<B: Body>(records: Seq<RecordView>, i: int, end: u64) -> int
    decreases records.len() - i,
{
    if i < 0 || i >= records.len() || records[i].position >= end || !(stored_event::<B>(records[i]) is Event) {
        i
    } else {
        listed_until::<B>(records, i + 1, end)
    }
}

/// The events of a stream among the first so many records.
pub open spec fn listed<B: Body>(records: Seq<RecordView>, n: int, namespace: Seq<char>) -> Seq<EventModel<B::Model>>
    decreases n,
{
    if n <= 0 {
        Seq::empty()
    } else {
        let before = listed::<B>(records, n - 1, namespace);
        match stored_event::<B>(records[n - 1]) {
            Decoding::Event(event) => if event.namespace == namespace {
                before.push(event)
            } else {
                before
            },
            _ => before,
        }
    }
}

/// Lists the events of a stream, up to a position or to the first record that
/// is no event.
pub fn replay<B: Body>(records: &Vec<OwnedStoredRecord>, namespace: &str, end: u64) -> (r: Listing<B>)
    ensures
        ({
            let views = record_views(records@);
            let stop = listed_until::<B>(views, 0, end);
            &&& 0 <= stop <= views.len()
            &&& event_models(r.events@) == listed::<B>(views, stop, namespace@)
            &&& r.outcome is Ok <==> stop == views.len() || views[stop].position >= end
            &&& r.outcome matches Err(e) ==> fault_shown(stored_event::<B>(views[stop]), views[stop].position, e@)
        }),
{
    let ghost views = record_views(records@);
    let ghost stop = listed_until::<B>(views, 0, end);
    let mut events: Vec<Event<B>> = Vec::new();
    let mut i: usize = 0;
    assert(event_models(events@) =~= Seq::empty());
    while i < records.len()
        invariant
            i <= records@.len(),
            views == record_views(records@),
            stop == listed_until::<B>(views, 0, end),
            stop == listed_until::<B>(views, i as int, end),
            event_models(events@) == listed::<B>(views, i as int, namespace@),
        ensures
            stop == i,
            stop == views.len() || views[stop].position >= end,
            views.len() == records@.len(),
            i <= records@.len(),
            event_models(events@) == listed::<B>(views, i as int, namespace@),
        decreases records@.len() - i,
    {
        let record = &records[i];
        assert(views[i as int] == record@);
        if record.position >= end {
            break;
        }
        match decode_stored_event::<B>(record) {
            Ok(event) => {
                let ghost before = event_models(events@);
                let ghost model = event_model(event);
                if same_text(event.namespace.as_str(), namespace) {
                    events.push(event);
                    assert(event_models(events@) =~= before.push(model));
                }
            },
            Err(e) => return Listing { events, outcome: Err(e) },
        }
        i = i + 1;
    }
    Listing { events, outcome: Ok(()) }
}

/// What is listed comes in the order of the log.
pub proof fn lemma_listed_in_order<B: Body>(records: Seq<RecordView>, n: int, namespace: Seq<char>)
    requires
        crate::format::frame::positions_ascend(records),
        0 <= n <= records.len(),
    ensures
        forall|i: int, j: int|
            0 <= i < j < listed::<B>(records, n, namespace).len() ==> (#[trigger] listed::<B>(records, n, namespace)[i]).offset < (
            #[trigger] listed::<B>(records, n, namespace)[j]).offset,
        forall|i: int|
            0 <= i < listed::<B>(records, n, namespace).len() ==> n > 0 && (#[trigger] listed::<B>(records, n, namespace)[i]).offset
                <= records[n - 1].position && listed::<B>(records, n, namespace)[i].namespace == namespace,
    decreases n,
{
    if n > 0 {
        lemma_listed_in_order::<B>(records, n - 1, namespace);
        let before = listed::<B>(records, n - 1, namespace);
        let now = listed::<B>(records, n, namespace);
        let last = records[n - 1];
        if n > 1 {
            assert(records[n - 2].position < last.position);
        }
        assert(now.len() > before.len() ==> now[before.len() as int].offset == last.position);
        assert forall|i: int| 0 <= i < now.len() implies (#[trigger] now[i]).offset <= last.position && now[i].namespace == namespace by {
            if i < before.len() {
                assert(now[i] == before[i]);
            }
        }
        assert forall|i: int, j: int| 0 <= i < j < now.len() implies (#[trigger] now[i]).offset < (#[trigger] now[j]).offset by {
            assert(now[i] == before[i]);
            if j < before.len() {
                assert(now[j] == before[j]);
            }
        }
    }
}

} // verus!
