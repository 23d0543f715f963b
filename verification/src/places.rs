//! Finding places in a list by names that are byte strings.
use crate::format::derive::{left_hash, left_lane, LEFT_SEED};
use std::collections::HashMap;
use vstd::prelude::*;

verus! {

/// The places that were noted under names. Names that hash alike share a list,
/// so that what is found under a name has still to be looked at.
#[derive(Debug)]
pub struct Places {
    lists: HashMap<u64, Vec<usize>>,
}

/// Whether places do not descend.
pub open spec fn places_ascend(list: Seq<usize>) -> bool {
    forall|i: int, j: int| 0 <= i <= j < list.len() ==> list[i] <= list[j]
}

impl Places {
    /// The places noted under a name, and maybe others.
    pub closed spec fn under(&self, name: Seq<u8>) -> Seq<usize> {
        let hash = left_lane(LEFT_SEED, name);
        if self.lists@.contains_key(hash) {
            self.lists@[hash]@
        } else {
            Seq::empty()
        }
    }

    /// Whether the places under each name ascend and lie below a bound.
    pub open spec fn ordered_below(&self, n: int) -> bool {
        forall|name: Seq<u8>|
            places_ascend(#[trigger] self.under(name)) && forall|i: int| 0 <= i < self.under(name).len() ==> self.under(name)[i] < n
    }

    pub fn new() -> (r: Self)
        ensures
            forall|name: Seq<u8>| #[trigger] r.under(name) == Seq::<usize>::empty(),
    {
        broadcast use vstd::std_specs::hash::group_hash_axioms;

        Places { lists: HashMap::new() }
    }

    /// Notes a place under a name.
    pub fn note(&mut self, name: &[u8], place: usize)
        ensures
            final(self).under(name@) == old(self).under(name@).push(place),
            forall|other: Seq<u8>|
                #[trigger] final(self).under(other) == old(self).under(other) || final(self).under(other) == old(self).under(other).push(place),
    {
        broadcast use vstd::std_specs::hash::group_hash_axioms;

        let hash: u64 = left_hash(LEFT_SEED, name);
        let ghost before = self.lists@;
        let mut list: Vec<usize> = match self.lists.remove(&hash) {
            Some(list) => list,
            None => Vec::new(),
        };
        assert(list@ =~= old(self).under(name@));
        list.push(place);
        self.lists.insert(hash, list);
        assert forall|other: Seq<u8>| #[trigger] self.under(other) == old(self).under(other) || self.under(other) == old(self).under(
            other,
        ).push(place) by {
            let h = left_lane(LEFT_SEED, other);
            if h != hash {
                assert(self.lists@.contains_key(h) <==> before.contains_key(h));
            }
        }
    }

    /// The places noted under a name, and maybe others.
    pub fn candidates(&self, name: &[u8]) -> (r: Option<&Vec<usize>>)
        ensures
            match r {
                Some(list) => list@ == self.under(name@),
                None => self.under(name@).len() == 0,
            },
    {
        broadcast use vstd::std_specs::hash::group_hash_axioms;

        let hash: u64 = left_hash(LEFT_SEED, name);
        self.lists.get(&hash)
    }
}

/// What was noted stays noted, and in order.
pub proof fn lemma_noted(before: Places, after: Places, name: Seq<u8>, place: usize)
    requires
        before.ordered_below(place + 1),
        after.under(name) == before.under(name).push(place),
        forall|other: Seq<u8>|
            #[trigger] after.under(other) == before.under(other) || after.under(other) == before.under(other).push(place),
    ensures
        after.ordered_below(place + 1),
        after.under(name).contains(place),
        forall|other: Seq<u8>, p: usize| #[trigger] before.under(other).contains(p) ==> after.under(other).contains(p),
{
    assert(after.under(name)[before.under(name).len() as int] == place);
    assert forall|other: Seq<u8>|
        places_ascend(#[trigger] after.under(other)) && forall|i: int| 0 <= i < after.under(other).len() ==> after.under(other)[i] < place + 1 by {
        assert(places_ascend(before.under(other)));
    }
    assert forall|other: Seq<u8>, p: usize| #[trigger] before.under(other).contains(p) implies after.under(other).contains(p) by {
        let i = choose|i: int| 0 <= i < before.under(other).len() && before.under(other)[i] == p;
        assert(after.under(other)[i] == p);
    }
}

} // verus!
