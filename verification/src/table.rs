//! A map keyed by identifier that keeps its keys in the order in which they
//! first came.

use std::collections::HashMap;
use vstd::prelude::*;

verus! {

broadcast use vstd::std_specs::hash::group_hash_axioms;

/// A map from identifiers to values that can also be walked, in the order
/// in which its keys were first inserted.
pub struct IdMap<V> {
    keys: Vec<u32>,
    values: Vec<V>,
    /// Where each key stands in `keys` and `values`.
    slots: HashMap<u32, usize>,
}

/// What an [`IdMap`] holds: its keys in order, and the value of each.
pub struct IdMapView<V> {
    pub order: Seq<u32>,
    pub entries: Map<u32, V>,
}

impl<V> IdMapView<V> {
    /// No key stands twice in the order, and the order holds exactly the
    /// keys that have a value.
    pub open spec fn wf(self) -> bool {
        &&& self.order.no_duplicates()
        &&& forall|id: u32| self.entries.contains_key(id) <==> self.order.contains(id)
    }

    pub open spec fn contains(self, id: u32) -> bool {
        self.entries.contains_key(id)
    }

    pub open spec fn get(self, id: u32) -> Option<V> {
        if self.entries.contains_key(id) {
            Some(self.entries[id])
        } else {
            None
        }
    }

    pub open spec fn len(self) -> nat {
        self.order.len()
    }
}

impl<V> View for IdMap<V> {
    type V = IdMapView<V>;

    closed spec fn view(&self) -> IdMapView<V> {
        IdMapView {
            order: self.keys@,
            entries: Map::new(
                |k: u32| self.slots@.contains_key(k),
                |k: u32| self.values@[self.slots@[k] as int],
            ),
        }
    }
}

impl<V> IdMap<V> {
    /// The three parts agree with each other.
    pub closed spec fn wf(&self) -> bool {
        &&& self.keys.len() == self.values.len()
        &&& forall|i: int|
            0 <= i < self.keys.len() ==> self.slots@.contains_key(#[trigger] self.keys@[i])
                && self.slots@[self.keys@[i]] == i
        &&& forall|k: u32| #[trigger]
            self.slots@.contains_key(k) ==> self.slots@[k] < self.keys.len()
                && self.keys@[self.slots@[k] as int] == k
    }

    /// A well-formed map has a well-formed view.
    pub proof fn lemma_view_wf(&self)
        requires
            self.wf(),
        ensures
            self@.wf(),
    {
        let v = self@;
        assert forall|id: u32| v.entries.contains_key(id) implies v.order.contains(id) by {
            assert(v.order[self.slots@[id] as int] == id);
        }
    }

    pub fn new() -> (r: Self)
        ensures
            r.wf(),
            r@.order == Seq::<u32>::empty(),
            r@.entries == Map::<u32, V>::empty(),
    {
        IdMap { keys: Vec::new(), values: Vec::new(), slots: HashMap::new() }
    }

    /// Maps `id` to `value`. A key that is new goes to the end of the
    /// order; one that was there keeps its place.
    pub fn insert(&mut self, id: u32, value: V)
        requires
            old(self).wf(),
        ensures
            final(self).wf(),
            final(self)@.entries == old(self)@.entries.insert(id, value),
            final(self)@.order == if old(self)@.entries.contains_key(id) {
                old(self)@.order
            } else {
                old(self)@.order.push(id)
            },
    {
        let found = self.slots.get(&id);
        match found {
            Some(slot) => {
                let at: usize = *slot;
                self.values.set(at, value);
                assert(final(self)@.entries =~= old(self)@.entries.insert(id, value));
            },
            None => {
                let at = self.keys.len();
                self.keys.push(id);
                self.values.push(value);
                self.slots.insert(id, at);
            },
        }
    }

    /// The value of `id`, if it has one.
    pub fn get(&self, id: u32) -> (r: Option<&V>)
        requires
            self.wf(),
        ensures
            r matches Some(v) ==> self@.get(id) == Some(*v),
            r is None ==> self@.get(id) is None,
    {
        match self.slots.get(&id) {
            Some(slot) => Some(&self.values[*slot]),
            None => None,
        }
    }

    pub fn contains(&self, id: u32) -> (r: bool)
        requires
            self.wf(),
        ensures
            r == self@.contains(id),
    {
        self.slots.contains_key(&id)
    }

    pub fn len(&self) -> (r: usize)
        requires
            self.wf(),
        ensures
            r == self@.len(),
    {
        self.keys.len()
    }

    /// The key that stands at place `i` of the order.
    pub fn key_at(&self, i: usize) -> (r: u32)
        requires
            self.wf(),
            i < self@.len(),
        ensures
            r == self@.order[i as int],
    {
        self.keys[i]
    }

    /// The value of the key that stands at place `i` of the order.
    pub fn value_at(&self, i: usize) -> (r: &V)
        requires
            self.wf(),
            i < self@.len(),
        ensures
            self@.get(self@.order[i as int]) == Some(*r),
    {
        &self.values[i]
    }
}

} // verus!
