//! Stores for the items of a document that are kept beside the network:
//! text elements in id-indexed slots, and gradient definitions under ids
//! handed out by a counter.

use vstd::prelude::*;
use std::collections::HashMap;
use crate::graph::{count_some, live_ids, lemma_live_ids_contains};
use crate::model::GradientId;

verus! {

broadcast use vstd::std_specs::hash::group_hash_axioms;

/// Items in slots indexed by id; a removed item leaves an empty slot.
pub struct Slots<T> {
    pub items: Vec<Option<T>>,
}

impl<T> Slots<T> {
    /// Item `id` exists.
    pub open spec fn live(&self, id: int) -> bool {
        0 <= id < self.items@.len() && self.items@[id] is Some
    }

    /// No slots.
    pub fn new() -> (s: Self)
        ensures
            s.items@.len() == 0,
    {
        Slots { items: Vec::new() }
    }

    /// Store `item` in a new slot; its id is the number of slots.
    pub fn add(&mut self, item: T) -> (id: u32)
        requires
            old(self).items@.len() < u32::MAX,
        ensures
            id == old(self).items@.len(),
            final(self).items@ == old(self).items@.push(Some(item)),
    {
        let id = self.items.len() as u32;
        self.items.push(Some(item));
        id
    }

    /// Empty slot `id`; true when it held an item.
    pub fn remove(&mut self, id: u32) -> (removed: bool)
        ensures
            removed == old(self).live(id as int),
            removed ==> final(self).items@ == old(self).items@.update(id as int, None),
            !removed ==> *final(self) == *old(self),
    {
        if (id as usize) < self.items.len() && self.items[id as usize].is_some() {
            self.items[id as usize] = None;
            true
        } else {
            false
        }
    }

    /// Item `id`, if it exists.
    pub fn get(&self, id: u32) -> (r: Option<&T>)
        ensures
            r == (if self.live(id as int) {
                Some(&self.items@[id as int]->0)
            } else {
                None
            }),
    {
        if (id as usize) < self.items.len() {
            match &self.items[id as usize] {
                Some(t) => Some(t),
                None => None,
            }
        } else {
            None
        }
    }

    /// IDs of the existing items, in increasing order.
    pub fn ids(&self) -> (ids: Vec<u32>)
        requires
            self.items@.len() <= u32::MAX,
        ensures
            ids@ == live_ids(self.items@, self.items@.len() as int),
    {
        let mut ids: Vec<u32> = Vec::new();
        let mut i: usize = 0;
        while i < self.items.len()
            invariant
                i <= self.items@.len(),
                self.items@.len() <= u32::MAX,
                ids@ == live_ids(self.items@, i as int),
            decreases self.items@.len() - i,
        {
            if self.items[i].is_some() {
                ids.push(i as u32);
            }
            i = i + 1;
        }
        ids
    }

    /// Number of existing items.
    pub fn count(&self) -> (c: u32)
        requires
            self.items@.len() <= u32::MAX,
        ensures
            c == count_some(self.items@),
    {
        let mut c: u32 = 0;
        let mut i: usize = 0;
        while i < self.items.len()
            invariant
                i <= self.items@.len(),
                self.items@.len() <= u32::MAX,
                c == count_some(self.items@.take(i as int)),
                c <= i,
            decreases self.items@.len() - i,
        {
            proof {
                assert(self.items@.take(i + 1).drop_last() =~= self.items@.take(i as int));
            }
            if self.items[i].is_some() {
                c = c + 1;
            }
            i = i + 1;
        }
        assert(self.items@.take(i as int) =~= self.items@);
        c
    }
}

/// An added item is found under the id it was given, and ids of existing
/// items are listed exactly once each.
pub proof fn lemma_slots_add_then_get<T>(before: Seq<Option<T>>, item: T, id: u32)
    requires
        id == before.len(),
        before.len() < u32::MAX,
    ensures
        before.push(Some(item))[id as int] == Some(item),
        live_ids(before.push(Some(item)), before.len() as int + 1).contains(id),
{
    lemma_live_ids_contains(before.push(Some(item)), before.len() as int + 1, id);
}

/// Gradient definitions under ids handed out by a counter.
pub struct Gradients<G> {
    pub map: HashMap<GradientId, G>,
    /// The id the next added gradient gets.
    pub next_id: GradientId,
}

impl<G> Gradients<G> {
    /// Every id in use is below the counter.
    pub open spec fn wf(&self) -> bool {
        forall|k: GradientId| #[trigger] self.map@.contains_key(k) ==> k < self.next_id
    }

    /// No gradients; the first id is 0.
    pub fn new() -> (s: Self)
        ensures
            s.wf(),
            s.map@.is_empty(),
            s.next_id == 0,
    {
        Gradients { map: HashMap::new(), next_id: 0 }
    }

    /// Add a gradient under the next id; returns the id.
    pub fn add(&mut self, gradient: G) -> (id: GradientId)
        requires
            old(self).wf(),
            old(self).next_id < u32::MAX,
        ensures
            final(self).wf(),
            id == old(self).next_id,
            !old(self).map@.contains_key(id),
            final(self).map@ == old(self).map@.insert(id, gradient),
            final(self).next_id == old(self).next_id + 1,
    {
        let id = self.next_id;
        self.next_id = self.next_id + 1;
        self.map.insert(id, gradient);
        id
    }

    /// Replace gradient `id`; false when there is none.
    pub fn update(&mut self, id: GradientId, gradient: G) -> (found: bool)
        requires
            old(self).wf(),
        ensures
            final(self).wf(),
            found == old(self).map@.contains_key(id),
            found ==> final(self).map@ == old(self).map@.insert(id, gradient),
            !found ==> final(self).map@ == old(self).map@,
            final(self).next_id == old(self).next_id,
    {
        if self.map.contains_key(&id) {
            self.map.insert(id, gradient);
            true
        } else {
            false
        }
    }

    /// Remove gradient `id`; false when there is none.
    pub fn remove(&mut self, id: GradientId) -> (found: bool)
        requires
            old(self).wf(),
        ensures
            final(self).wf(),
            found == old(self).map@.contains_key(id),
            final(self).map@ == old(self).map@.remove(id),
            final(self).next_id == old(self).next_id,
    {
        self.map.remove(&id).is_some()
    }

    /// Gradient `id`, if any.
    pub fn get(&self, id: GradientId) -> (r: Option<&G>)
        ensures
            r == (if self.map@.contains_key(id) {
                Some(&self.map@[id])
            } else {
                None
            }),
    {
        self.map.get(&id)
    }

    /// Whether gradient `id` exists.
    pub fn contains(&self, id: GradientId) -> (r: bool)
        ensures
            r == self.map@.contains_key(id),
    {
        self.map.contains_key(&id)
    }

    /// The ids in use, in increasing order.
    pub fn ids(&self) -> (ids: Vec<GradientId>)
        requires
            self.wf(),
        ensures
            forall|k: GradientId| #[trigger] ids@.contains(k) <==> self.map@.contains_key(k),
            forall|a: int, b: int| 0 <= a < b < ids@.len() ==> #[trigger] ids@[a] < #[trigger] ids@[b],
    {
        let mut ids: Vec<GradientId> = Vec::new();
        let mut i: GradientId = 0;
        while i < self.next_id
            invariant
                self.wf(),
                i <= self.next_id,
                forall|k: GradientId| #[trigger] ids@.contains(k) <==> k < i && self.map@.contains_key(k),
                forall|a: int| 0 <= a < ids@.len() ==> #[trigger] ids@[a] < i,
                forall|a: int, b: int| 0 <= a < b < ids@.len() ==> #[trigger] ids@[a] < #[trigger] ids@[b],
            decreases self.next_id - i,
        {
            if self.map.contains_key(&i) {
                let ghost before = ids@;
                ids.push(i);
                proof {
                    assert forall|k: GradientId| #[trigger] ids@.contains(k) <==> k < i + 1 && self.map@.contains_key(k) by {
                        if ids@.contains(k) && k != i {
                            let q = choose|q: int| 0 <= q < ids@.len() && ids@[q] == k;
                            assert(before[q] == k);
                        }
                        if before.contains(k) {
                            let q = choose|q: int| 0 <= q < before.len() && before[q] == k;
                            assert(ids@[q] == k);
                        }
                        if k == i {
                            assert(ids@[before.len() as int] == k);
                        }
                    }
                }
            } else {
                proof {
                    assert forall|k: GradientId| #[trigger] ids@.contains(k) <==> k < i + 1 && self.map@.contains_key(k) by {
                        if k == i && ids@.contains(k) {
                            let q = choose|q: int| 0 <= q < ids@.len() && ids@[q] == k;
                        }
                    }
                }
            }
            i = i + 1;
        }
        proof {
            assert forall|k: GradientId| #[trigger] ids@.contains(k) <==> self.map@.contains_key(k) by {
                if self.map@.contains_key(k) {
                    assert(k < self.next_id);
                }
            }
        }
        ids
    }
}

} // verus!
