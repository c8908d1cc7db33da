//! A dense, identifier-indexed arena.
//!
//! Records are stored in slots addressed by `usize` identifiers.  Inserting
//! returns a fresh identifier (the first free slot); removing frees the slot
//! for reuse.  Identifiers of currently live records are always distinct.

use vstd::prelude::*;

verus! {

/// A slot arena mapping `usize` identifiers to records.
pub struct IdMap<T> {
    slots: Vec<Option<T>>,
}

impl<T> IdMap<T> {
    /// The arena as a finite map from live identifiers to records.
    pub closed spec fn spec_map(self) -> Map<usize, T> {
        Map::new(
            |i: usize| i < self.slots.len() && self.slots[i as int] is Some,
            |i: usize| self.slots[i as int]->0,
        )
    }

    /// Creates an empty arena.
    pub fn new() -> (r: Self)
        ensures
            r.spec_map() == Map::<usize, T>::empty(),
    {
        let r = IdMap { slots: Vec::new() };
        proof {
            assert(r.spec_map() =~= Map::<usize, T>::empty());
        }
        r
    }

    /// Stores `value` in the first free slot and returns its identifier,
    /// which is fresh among the live identifiers.
    pub fn push(&mut self, value: T) -> (id: usize)
        ensures
            !old(self).spec_map().dom().contains(id),
            final(self).spec_map() == old(self).spec_map().insert(id, value),
    {
        let mut i: usize = 0;
        while i < self.slots.len()
            invariant
                i <= self.slots.len(),
                *self == *old(self),
                forall|j: int| 0 <= j < i ==> self.slots[j] is Some,
            decreases self.slots.len() - i,
        {
            if self.slots[i].is_none() {
                self.slots.set(i, Some(value));
                proof {
                    assert(final(self).spec_map() =~= old(self).spec_map().insert(i, value));
                }
                return i;
            }
            i += 1;
        }
        let id = self.slots.len();
        self.slots.push(Some(value));
        proof {
            assert(final(self).spec_map() =~= old(self).spec_map().insert(id, value));
        }
        id
    }

    /// Looks up the record stored at `id`, or `None` if `id` is unknown or
    /// already removed.
    pub fn get(&self, id: usize) -> (r: Option<&T>)
        ensures
            match r {
                Some(v) => self.spec_map().dom().contains(id) && *v == self.spec_map()[id],
                None => !self.spec_map().dom().contains(id),
            },
    {
        if id < self.slots.len() {
            match &self.slots[id] {
                Some(v) => Some(v),
                None => None,
            }
        } else {
            None
        }
    }

    /// Replaces the record stored at the live identifier `id`.
    pub fn set(&mut self, id: usize, value: T)
        requires
            old(self).spec_map().dom().contains(id),
        ensures
            final(self).spec_map() == old(self).spec_map().insert(id, value),
    {
        self.slots.set(id, Some(value));
        proof {
            assert(final(self).spec_map() =~= old(self).spec_map().insert(id, value));
        }
    }

    /// Removes and returns the record at `id`, or `None` if `id` is unknown
    /// or already removed.  The slot becomes free for reuse.
    pub fn remove(&mut self, id: usize) -> (r: Option<T>)
        ensures
            match r {
                Some(v) => old(self).spec_map().dom().contains(id) && v == old(self).spec_map()[id]
                    && final(self).spec_map() == old(self).spec_map().remove(id),
                None => !old(self).spec_map().dom().contains(id)
                    && final(self).spec_map() == old(self).spec_map(),
            },
    {
        if id < self.slots.len() {
            let r = self.slots[id].take();
            proof {
                if r is Some {
                    assert(final(self).spec_map() =~= old(self).spec_map().remove(id));
                } else {
                    assert(final(self).spec_map() =~= old(self).spec_map());
                }
            }
            r
        } else {
            None
        }
    }
}

} // verus!
