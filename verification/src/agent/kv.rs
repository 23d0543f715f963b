//! Keys and values, folded from an agent's puts and deletes.
use crate::agent::body::{BodyView, EventBody};
use crate::event::{Event, EventModel};
use crate::format::metadata::{has_key, inserted, keys_ascend, lemma_inserted, lemma_removed, removed, value_of, Metadata, MetadataView};
use crate::projection::Projection;
use vstd::prelude::*;

verus! {

/// What keys hold, over all streams.
#[derive(Debug)]
pub struct KvProjection {
    state: Metadata,
    cursor: u64,
}

/// What keys hold, as plain values.
#[verifier::ext_equal]
pub struct KvView {
    pub entries: MetadataView,
    pub cursor: u64,
}

/// What one event makes of the entries.
pub open spec fn kv_folded(entries: MetadataView, body: BodyView) -> MetadataView {
    match body {
        BodyView::Put { key, value } => inserted(entries, key, value),
        BodyView::Delete { key } => removed(entries, key),
        _ => entries,
    }
}

impl Default for KvProjection {
    fn default() -> (r: Self)
        ensures
            r.model() == (KvView { entries: MetadataView::empty(), cursor: 0 }),
    {
        KvProjection { state: Metadata::new(), cursor: 0 }
    }
}

impl Projection for KvProjection {
    type Body = EventBody;

    type State = Metadata;

    type Model = KvView;

    closed spec fn model(&self) -> KvView {
        KvView { entries: self.state@, cursor: self.cursor }
    }

    open spec fn folded(model: KvView, event: EventModel<BodyView>) -> KvView {
        KvView { entries: kv_folded(model.entries, event.body), cursor: (event.offset + 1) as u64 }
    }

    open spec fn cursor_of(model: KvView) -> u64 {
        model.cursor
    }

    proof fn lemma_cursor(model: KvView, event: EventModel<BodyView>) {
    }

    fn apply(&mut self, event: &Event<EventBody>) {
        match &event.body {
            EventBody::Put { key, value } => {
                let _ = self.state.insert(key.clone(), crate::bytes::copy_bytes(value));
            },
            EventBody::Delete { key } => {
                let _ = self.state.remove(key.as_str());
            },
            _ => {},
        }
        self.cursor = event.offset + 1;
    }

    fn cursor(&self) -> (r: u64) {
        self.cursor
    }

    fn state(&self) -> (r: &Metadata)
        ensures
            r@ == self.model().entries,
    {
        &self.state
    }
}

/// A put is what its key holds until the next change of that key, and touches no
/// other key.
pub proof fn lemma_put_held(entries: MetadataView, key: Seq<char>, value: Seq<u8>)
    requires
        keys_ascend(entries),
    ensures
        keys_ascend(kv_folded(entries, BodyView::Put { key, value })),
        value_of(kv_folded(entries, BodyView::Put { key, value }), key) == Some(value),
        forall|other: Seq<char>|
            other != key ==> #[trigger] value_of(kv_folded(entries, BodyView::Put { key, value }), other) == value_of(entries, other),
{
    lemma_inserted(entries, key, value);
}

/// A deleted key holds nothing, and no other key is touched.
pub proof fn lemma_delete_forgets(entries: MetadataView, key: Seq<char>)
    requires
        keys_ascend(entries),
    ensures
        keys_ascend(kv_folded(entries, BodyView::Delete { key })),
        !has_key(kv_folded(entries, BodyView::Delete { key }), key),
        forall|other: Seq<char>|
            other != key ==> #[trigger] value_of(kv_folded(entries, BodyView::Delete { key }), other) == value_of(entries, other),
{
    lemma_removed(entries, key);
}

} // verus!
