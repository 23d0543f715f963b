//! Event metadata: byte values under text keys, at most one value a key, kept
//! in the byte order of the keys.
use crate::bytes::{
    begins_with, bytes_less, contains_byte, copy_bytes, lemma_lex_asymmetric, lemma_lex_total,
    lemma_lex_transitive, lex_lt,
};
use crate::error::{invalid_format, ErrorView, Result, SalamanderError};
use crate::text::{join2, lemma_utf8_injective, same_text};
use vstd::prelude::*;
use vstd::utf8::encode_utf8;

verus! {

/// Metadata as a sequence of keys and values.
pub type MetadataView = Seq<(Seq<char>, Seq<u8>)>;

/// The byte order of two keys.
pub open spec fn key_lt(a: Seq<char>, b: Seq<char>) -> bool {
    lex_lt(encode_utf8(a), encode_utf8(b))
}

/// Whether the keys ascend strictly, which makes them distinct.
pub open spec fn keys_ascend(m: MetadataView) -> bool {
    forall|i: int, j: int| 0 <= i < j < m.len() ==> key_lt((#[trigger] m[i]).0, (#[trigger] m[j]).0)
}

/// Whether `key` has a value.
pub open spec fn has_key(m: MetadataView, key: Seq<char>) -> bool {
    exists|i: int| 0 <= i < m.len() && (#[trigger] m[i]).0 == key
}

/// An entry of `key`, where there is one.
pub open spec fn key_index(m: MetadataView, key: Seq<char>) -> int {
    choose|i: int| 0 <= i < m.len() && (#[trigger] m[i]).0 == key
}

/// The value of `key`.
pub open spec fn value_of(m: MetadataView, key: Seq<char>) -> Option<Seq<u8>> {
    if has_key(m, key) {
        Some(m[key_index(m, key)].1)
    } else {
        None
    }
}

/// The metadata with `key` holding `value`, in key order.
pub open spec fn inserted(m: MetadataView, key: Seq<char>, value: Seq<u8>) -> MetadataView
    decreases m.len(),
{
    if m.len() == 0 {
        seq![(key, value)]
    } else if m.last().0 == key {
        m.drop_last().push((key, value))
    } else if key_lt(m.last().0, key) {
        m.push((key, value))
    } else {
        inserted(m.drop_last(), key, value).push(m.last())
    }
}

pub proof fn lemma_key_order(a: Seq<char>, b: Seq<char>)
    ensures
        a == b || key_lt(a, b) || key_lt(b, a),
        key_lt(a, b) ==> !key_lt(b, a) && a != b,
{
    lemma_lex_total(encode_utf8(a), encode_utf8(b));
    lemma_utf8_injective(a, b);
    if key_lt(a, b) {
        lemma_lex_asymmetric(encode_utf8(a), encode_utf8(b));
    }
}

/// Distinct keys: the value of a key does not depend on which entry is chosen.
pub proof fn lemma_value_of(m: MetadataView, i: int)
    requires
        keys_ascend(m),
        0 <= i < m.len(),
    ensures
        value_of(m, m[i].0) == Some(m[i].1),
{
    let key = m[i].0;
    assert(has_key(m, key));
    let j = key_index(m, key);
    if i < j {
        lemma_key_order(m[i].0, m[j].0);
    } else if j < i {
        lemma_key_order(m[j].0, m[i].0);
    }
}

/// Where the new entry lands, when its place is known.
proof fn lemma_inserted_at(m: MetadataView, key: Seq<char>, value: Seq<u8>, at: int)
    requires
        keys_ascend(m),
        0 <= at <= m.len(),
        at == 0 || key_lt(m[at - 1].0, key),
        forall|j: int| at <= j < m.len() ==> key_lt(key, (#[trigger] m[j]).0),
    ensures
        inserted(m, key, value) == m.insert(at, (key, value)),
    decreases m.len(),
{
    if m.len() == 0 {
        assert(m.insert(at, (key, value)) =~= seq![(key, value)]);
    } else if at == m.len() {
        lemma_key_order(m.last().0, key);
        assert(m.insert(at, (key, value)) =~= m.push((key, value)));
    } else {
        lemma_key_order(key, m.last().0);
        lemma_inserted_at(m.drop_last(), key, value, at);
        assert(m.insert(at, (key, value)) =~= m.drop_last().insert(at, (key, value)).push(m.last()));
    }
}

/// Where the value changes, when the key is there already.
proof fn lemma_inserted_over(m: MetadataView, key: Seq<char>, value: Seq<u8>, at: int)
    requires
        keys_ascend(m),
        0 <= at < m.len(),
        m[at].0 == key,
    ensures
        inserted(m, key, value) == m.update(at, (key, value)),
    decreases m.len(),
{
    if at == m.len() - 1 {
        assert(m.update(at, (key, value)) =~= m.drop_last().push((key, value)));
    } else {
        lemma_key_order(m[at].0, m.last().0);
        lemma_inserted_over(m.drop_last(), key, value, at);
        assert(m.update(at, (key, value)) =~= m.drop_last().update(at, (key, value)).push(m.last()));
    }
}

/// Inserting keeps the keys in strict order, and what it holds afterwards is
/// the new value under the new key and the old values under all the others.
pub proof fn lemma_inserted(m: MetadataView, key: Seq<char>, value: Seq<u8>)
    requires
        keys_ascend(m),
    ensures
        keys_ascend(inserted(m, key, value)),
        value_of(inserted(m, key, value), key) == Some(value),
        forall|other: Seq<char>| other != key ==> #[trigger] value_of(inserted(m, key, value), other) == value_of(m, other),
{
    let at = lemma_place(m, key);
    let out = inserted(m, key, value);
    if at < m.len() && m[at].0 == key {
        lemma_inserted_over(m, key, value, at);
    } else {
        assert forall|j: int| at <= j < m.len() implies key_lt(key, (#[trigger] m[j]).0) by {
            if j > at {
                lemma_lex_transitive(encode_utf8(key), encode_utf8(m[at].0), encode_utf8(m[j].0));
            }
        }
        lemma_inserted_at(m, key, value, at);
        assert forall|i: int, j: int| 0 <= i < j < out.len() implies key_lt((#[trigger] out[i]).0, (#[trigger] out[j]).0) by {
            if i < at && j == at && i < at - 1 {
                lemma_lex_transitive(encode_utf8(m[i].0), encode_utf8(m[at - 1].0), encode_utf8(key));
            }
        }
    }
    assert(out[at] == (key, value));
    lemma_value_of(out, at);
    assert forall|other: Seq<char>| other != key implies #[trigger] value_of(out, other) == value_of(m, other) by {
        if has_key(m, other) {
            let i = choose|i: int| 0 <= i < m.len() && (#[trigger] m[i]).0 == other;
            lemma_value_of(m, i);
            let k = if m[at].0 == key && at < m.len() { i } else if i < at { i } else { i + 1 };
            assert(out[k] == m[i]);
            lemma_value_of(out, k);
        } else if has_key(out, other) {
            let k = choose|k: int| 0 <= k < out.len() && (#[trigger] out[k]).0 == other;
            let i = if m[at].0 == key && at < m.len() { k } else if k < at { k } else { k - 1 };
            assert(m[i].0 == other);
        }
    }
}

/// The first entry whose key is not below `key`.
proof fn lemma_place(m: MetadataView, key: Seq<char>) -> (at: int)
    requires
        keys_ascend(m),
    ensures
        0 <= at <= m.len(),
        at == 0 || key_lt(m[at - 1].0, key),
        at < m.len() ==> m[at].0 == key || key_lt(key, m[at].0),
    decreases m.len(),
{
    if m.len() == 0 {
        0
    } else {
        lemma_key_order(m.last().0, key);
        if key_lt(m.last().0, key) {
            m.len() as int
        } else {
            let at = lemma_place(m.drop_last(), key);
            at
        }
    }
}

/// A key below every key it meets is appended.
pub proof fn lemma_inserted_last(m: MetadataView, key: Seq<char>, value: Seq<u8>)
    requires
        m.len() > 0 ==> key_lt(m.last().0, key),
    ensures
        inserted(m, key, value) == m.push((key, value)),
{
    if m.len() == 0 {
        assert(m.push((key, value)) =~= seq![(key, value)]);
    } else {
        lemma_key_order(m.last().0, key);
    }
}

/// The metadata without `key`.
pub open spec fn removed(m: MetadataView, key: Seq<char>) -> MetadataView
    decreases m.len(),
{
    if m.len() == 0 {
        m
    } else if m.last().0 == key {
        m.drop_last()
    } else {
        removed(m.drop_last(), key).push(m.last())
    }
}

proof fn lemma_removed_at(m: MetadataView, key: Seq<char>, at: int)
    requires
        keys_ascend(m),
        0 <= at < m.len(),
        m[at].0 == key,
    ensures
        removed(m, key) == m.remove(at),
    decreases m.len(),
{
    if at == m.len() - 1 {
        assert(m.remove(at) =~= m.drop_last());
    } else {
        lemma_key_order(m[at].0, m[m.len() - 1].0);
        assert(key_lt(m[at].0, m[m.len() - 1].0));
        lemma_removed_at(m.drop_last(), key, at);
        assert(m.remove(at) =~= m.drop_last().remove(at).push(m.last()));
    }
}

proof fn lemma_removed_none(m: MetadataView, key: Seq<char>)
    requires
        !has_key(m, key),
    ensures
        removed(m, key) == m,
    decreases m.len(),
{
    if m.len() > 0 {
        assert(m[m.len() - 1].0 != key);
        if has_key(m.drop_last(), key) {
            let i = choose|i: int| 0 <= i < m.drop_last().len() && (#[trigger] m.drop_last()[i]).0 == key;
            assert(m[i].0 == key);
        }
        lemma_removed_none(m.drop_last(), key);
        assert(m.drop_last().push(m.last()) =~= m);
    }
}

/// Removing keeps the keys in strict order; afterwards the key holds nothing,
/// and every other key holds what it held.
pub proof fn lemma_removed(m: MetadataView, key: Seq<char>)
    requires
        keys_ascend(m),
    ensures
        keys_ascend(removed(m, key)),
        !has_key(removed(m, key), key),
        forall|other: Seq<char>| other != key ==> #[trigger] value_of(removed(m, key), other) == value_of(m, other),
{
    if !has_key(m, key) {
        lemma_removed_none(m, key);
    } else {
        let at = choose|at: int| 0 <= at < m.len() && (#[trigger] m[at]).0 == key;
        lemma_removed_at(m, key, at);
        let out = m.remove(at);
        assert forall|i: int, j: int| 0 <= i < j < out.len() implies key_lt((#[trigger] out[i]).0, (#[trigger] out[j]).0) by {
            let a = if i < at { i } else { i + 1 };
            let b = if j < at { j } else { j + 1 };
            assert(out[i] == m[a] && out[j] == m[b]);
        }
        if has_key(out, key) {
            let k = choose|k: int| 0 <= k < out.len() && (#[trigger] out[k]).0 == key;
            let i = if k < at { k } else { k + 1 };
            assert(m[i].0 == key);
            lemma_key_order(m[i].0, m[at].0);
            assert(key_lt(m[i].0, m[at].0) || key_lt(m[at].0, m[i].0));
        }
        assert forall|other: Seq<char>| other != key implies #[trigger] value_of(out, other) == value_of(m, other) by {
            if has_key(m, other) {
                let i = choose|i: int| 0 <= i < m.len() && (#[trigger] m[i]).0 == other;
                lemma_value_of(m, i);
                let k = if i < at { i } else { i - 1 };
                assert(out[k] == m[i]);
                lemma_value_of(out, k);
            } else if has_key(out, other) {
                let k = choose|k: int| 0 <= k < out.len() && (#[trigger] out[k]).0 == other;
                let i = if k < at { k } else { k + 1 };
                assert(m[i].0 == other);
            }
        }
    }
}

/// One key and its value.
#[derive(Debug, PartialEq, Eq, Hash)]
pub struct MetadataEntry {
    pub key: String,
    pub value: Vec<u8>,
}

impl View for MetadataEntry {
    type V = (Seq<char>, Seq<u8>);

    open spec fn view(&self) -> (Seq<char>, Seq<u8>) {
        (self.key@, self.value@)
    }
}

/// An event's metadata.
#[derive(Debug, PartialEq, Eq, Hash)]
pub struct Metadata {
    entries: Vec<MetadataEntry>,
}

spec fn entries_view(entries: Seq<MetadataEntry>) -> MetadataView {
    Seq::new(entries.len(), |i: int| entries[i]@)
}

impl View for Metadata {
    type V = MetadataView;

    closed spec fn view(&self) -> MetadataView {
        entries_view(self.entries@)
    }
}

/// The first entry whose key is not below `key`.
fn place(entries: &Vec<MetadataEntry>, key: &str) -> (at: usize)
    requires
        keys_ascend(entries_view(entries@)),
    ensures
        at <= entries@.len(),
        forall|j: int| 0 <= j < at ==> key_lt((#[trigger] entries_view(entries@)[j]).0, key@),
        forall|j: int| at <= j < entries@.len() ==> !key_lt((#[trigger] entries_view(entries@)[j]).0, key@),
{
    let ghost views = entries_view(entries@);
    let mut low: usize = 0;
    let mut high: usize = entries.len();
    while low < high
        invariant
            low <= high <= entries@.len(),
            views == entries_view(entries@),
            keys_ascend(views),
            forall|j: int| 0 <= j < low ==> key_lt((#[trigger] views[j]).0, key@),
            forall|j: int| high <= j < entries@.len() ==> !key_lt((#[trigger] views[j]).0, key@),
        decreases high - low,
    {
        let middle: usize = low + (high - low) / 2;
        assert(views[middle as int] == entries@[middle as int]@);
        if bytes_less(entries[middle].key.as_str().as_bytes(), key.as_bytes()) {
            assert forall|j: int| 0 <= j < middle + 1 implies key_lt((#[trigger] views[j]).0, key@) by {
                if j < middle {
                    lemma_lex_transitive(encode_utf8(views[j].0), encode_utf8(views[middle as int].0), encode_utf8(key@));
                }
            }
            low = middle + 1;
        } else {
            assert forall|j: int| middle <= j < entries@.len() implies !key_lt((#[trigger] views[j]).0, key@) by {
                if j > middle && key_lt(views[j].0, key@) {
                    lemma_lex_transitive(encode_utf8(views[middle as int].0), encode_utf8(views[j].0), encode_utf8(key@));
                }
            }
            high = middle;
        }
    }
    low
}

/// Where the search for a key ends, it is or it is not there.
proof fn lemma_found(m: MetadataView, key: Seq<char>, at: int)
    requires
        keys_ascend(m),
        0 <= at <= m.len(),
        forall|j: int| 0 <= j < at ==> key_lt((#[trigger] m[j]).0, key),
        forall|j: int| at <= j < m.len() ==> !key_lt((#[trigger] m[j]).0, key),
    ensures
        has_key(m, key) <==> at < m.len() && m[at].0 == key,
        !has_key(m, key) ==> forall|j: int| at <= j < m.len() ==> key_lt(key, (#[trigger] m[j]).0),
{
    if has_key(m, key) {
        let k = choose|k: int| 0 <= k < m.len() && (#[trigger] m[k]).0 == key;
        lemma_key_order(m[k].0, key);
        if k < at {
            assert(key_lt(m[k].0, key));
        } else if k > at {
            assert(key_lt(m[at].0, m[k].0));
        }
    } else {
        assert forall|j: int| at <= j < m.len() implies key_lt(key, (#[trigger] m[j]).0) by {
            lemma_key_order(m[j].0, key);
        }
    }
}

impl Metadata {
    #[verifier::type_invariant]
    spec fn inv(self) -> bool {
        keys_ascend(entries_view(self.entries@))
    }

    pub fn new() -> (r: Self)
        ensures
            r@ == MetadataView::empty(),
    {
        let r = Metadata { entries: Vec::new() };
        assert(r@ =~= MetadataView::empty());
        r
    }

    /// The number of keys, which ascend strictly.
    pub fn len(&self) -> (n: usize)
        ensures
            n == self@.len(),
            keys_ascend(self@),
    {
        proof {
            use_type_invariant(self);
        }
        self.entries.len()
    }

    pub fn is_empty(&self) -> (r: bool)
        ensures
            r == (self@.len() == 0),
    {
        self.entries.len() == 0
    }

    /// The entry at `index` in key order.
    pub fn entry(&self, index: usize) -> (r: &MetadataEntry)
        requires
            index < self@.len(),
        ensures
            r@ == self@[index as int],
    {
        &self.entries[index]
    }

    pub fn get(&self, key: &str) -> (r: Option<&Vec<u8>>)
        ensures
            r matches Some(v) ==> value_of(self@, key@) == Some(v@),
            r is None <==> !has_key(self@, key@),
    {
        proof {
            use_type_invariant(self);
        }
        let at: usize = place(&self.entries, key);
        proof {
            lemma_found(self@, key@, at as int);
        }
        if at < self.entries.len() && same_text(self.entries[at].key.as_str(), key) {
            proof {
                assert(self@[at as int].0 == key@);
                lemma_value_of(self@, at as int);
            }
            return Some(&self.entries[at].value);
        }
        assert(at < self@.len() ==> self@[at as int] == self.entries@[at as int]@);
        None
    }

    pub fn contains_key(&self, key: &str) -> (r: bool)
        ensures
            r == has_key(self@, key@),
    {
        self.get(key).is_some()
    }

    /// Whether two metadata hold the same values under the same keys.
    pub fn same(&self, other: &Metadata) -> (r: bool)
        ensures
            r == (self@ == other@),
    {
        if self.entries.len() != other.entries.len() {
            assert(self@.len() != other@.len());
            return false;
        }
        let mut i: usize = 0;
        while i < self.entries.len()
            invariant
                i <= self.entries@.len(),
                self.entries@.len() == other.entries@.len(),
                forall|j: int| 0 <= j < i ==> #[trigger] self@[j] == other@[j],
            decreases self.entries@.len() - i,
        {
            let same_key = same_text(self.entries[i].key.as_str(), other.entries[i].key.as_str());
            let same_value = crate::bytes::bytes_equal(self.entries[i].value.as_slice(), other.entries[i].value.as_slice());
            if !same_key || !same_value {
                assert(self@[i as int] != other@[i as int]);
                return false;
            }
            i = i + 1;
        }
        assert(self@ =~= other@);
        true
    }

    /// Puts `value` under `key` and hands back what was there.
    pub fn insert(&mut self, key: String, value: Vec<u8>) -> (previous: Option<Vec<u8>>)
        ensures
            final(self)@ == inserted(old(self)@, key@, value@),
            keys_ascend(final(self)@),
            previous is Some <==> has_key(old(self)@, key@),
            previous matches Some(p) ==> value_of(old(self)@, key@) == Some(p@),
    {
        proof {
            use_type_invariant(&*self);
        }
        let ghost before = self@;
        let ghost k = key@;
        let ghost v = value@;
        let mut entries: Vec<MetadataEntry> = Vec::new();
        core::mem::swap(&mut entries, &mut self.entries);
        let at: usize = place(&entries, key.as_str());
        let mut previous: Option<Vec<u8>> = None;
        proof {
            lemma_found(before, k, at as int);
        }
        if at < entries.len() && same_text(entries[at].key.as_str(), key.as_str()) {
            let entry = entries.remove(at);
            proof {
                assert(before[at as int].0 == k);
                lemma_value_of(before, at as int);
                lemma_inserted_over(before, k, v, at as int);
            }
            previous = Some(entry.value);
            entries.insert(at, MetadataEntry { key, value });
            assert(entries_view(entries@) =~= before.update(at as int, (k, v)));
        } else {
            proof {
                assert(at < before.len() ==> before[at as int] == entries@[at as int]@);
                if at > 0 {
                    assert(key_lt(before[at - 1].0, k));
                }
                lemma_inserted_at(before, k, v, at as int);
            }
            entries.insert(at, MetadataEntry { key, value });
            assert(entries_view(entries@) =~= before.insert(at as int, (k, v)));
        }
        proof {
            lemma_inserted(before, k, v);
        }
        self.entries = entries;
        previous
    }

    /// Takes out `key` and hands back what was there.
    pub fn remove(&mut self, key: &str) -> (previous: Option<Vec<u8>>)
        ensures
            final(self)@ == removed(old(self)@, key@),
            previous is Some <==> has_key(old(self)@, key@),
            previous matches Some(p) ==> value_of(old(self)@, key@) == Some(p@),
    {
        proof {
            use_type_invariant(&*self);
        }
        let ghost before = self@;
        let mut entries: Vec<MetadataEntry> = Vec::new();
        core::mem::swap(&mut entries, &mut self.entries);
        let mut previous: Option<Vec<u8>> = None;
        let at: usize = place(&entries, key);
        proof {
            lemma_found(before, key@, at as int);
            lemma_removed(before, key@);
        }
        if at < entries.len() && same_text(entries[at].key.as_str(), key) {
            proof {
                assert(before[at as int].0 == key@);
                lemma_value_of(before, at as int);
                lemma_removed_at(before, key@, at as int);
            }
            let entry = entries.remove(at);
            assert(entries_view(entries@) =~= before.remove(at as int));
            previous = Some(entry.value);
        } else {
            proof {
                assert(at < before.len() ==> before[at as int] == entries@[at as int]@);
                lemma_removed_none(before, key@);
            }
        }
        self.entries = entries;
        previous
    }
}

impl Clone for MetadataEntry {
    fn clone(&self) -> (r: Self)
        ensures
            r@ == self@,
    {
        MetadataEntry { key: self.key.clone(), value: copy_bytes(&self.value) }
    }
}

impl Clone for Metadata {
    fn clone(&self) -> (r: Self)
        ensures
            r@ == self@,
    {
        proof {
            use_type_invariant(self);
        }
        let mut entries: Vec<MetadataEntry> = Vec::new();
        let mut i: usize = 0;
        while i < self.entries.len()
            invariant
                i <= self.entries@.len(),
                entries@.len() == i,
                forall|j: int| 0 <= j < i ==> (#[trigger] entries@[j])@ == self.entries@[j]@,
            decreases self.entries@.len() - i,
        {
            entries.push(self.entries[i].clone());
            i = i + 1;
        }
        proof {
            assert(entries_view(entries@) =~= entries_view(self.entries@));
        }
        Metadata { entries }
    }
}

impl Default for Metadata {
    fn default() -> (r: Self)
        ensures
            r@ == MetadataView::empty(),
    {
        Metadata::new()
    }
}

/// The keys below the reserved prefix that the engine itself writes.
pub open spec fn known_reserved_key(key: Seq<char>) -> bool {
    ||| key == "salamander.stream_name"@
    ||| key == "salamander.v1_offset"@
    ||| key == "salamander.v1_namespace"@
    ||| key == "salamander.batch_count"@
    ||| key == "salamander.batch_digest"@
    ||| key == "salamander.idempotency_key"@
    ||| key == "salamander.request_digest"@
}

/// Why `key` cannot be a metadata key, if it cannot: keys are nonempty, hold no
/// NUL, and lie below the reserved prefix only where the engine knows them.
pub open spec fn metadata_key_error(key: Seq<char>) -> Option<ErrorView> {
    if key.len() == 0 || encode_utf8(key).contains(0u8) {
        Some(ErrorView::InvalidFormat("metadata key must be nonempty UTF-8 without NUL"@))
    } else if encode_utf8("salamander."@).is_prefix_of(encode_utf8(key)) && !known_reserved_key(key) {
        Some(ErrorView::InvalidFormat("unknown reserved metadata key "@ + key))
    } else {
        None
    }
}

fn is_known_reserved_key(key: &str) -> (r: bool)
    ensures
        r == known_reserved_key(key@),
{
    same_text(key, "salamander.stream_name") || same_text(key, "salamander.v1_offset")
        || same_text(key, "salamander.v1_namespace") || same_text(key, "salamander.batch_count")
        || same_text(key, "salamander.batch_digest") || same_text(key, "salamander.idempotency_key")
        || same_text(key, "salamander.request_digest")
}

pub fn validate_metadata_key(key: &str) -> (r: Result<()>)
    ensures
        r is Ok <==> metadata_key_error(key@) is None,
        r matches Err(e) ==> Some(e@) == metadata_key_error(key@),
{
    if key.is_empty() || contains_byte(key.as_bytes(), 0) {
        return Err(invalid_format("metadata key must be nonempty UTF-8 without NUL"));
    }
    if begins_with(key.as_bytes(), "salamander.".as_bytes()) && !is_known_reserved_key(key) {
        return Err(SalamanderError::InvalidFormat(join2("unknown reserved metadata key ", key)));
    }
    Ok(())
}

} // verus!
