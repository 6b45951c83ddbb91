//! A component table that records which entries changed since the flags
//! were last cleared.

use vstd::prelude::*;
use hibitset::BitSet;
use crate::bits::{
    MAX_INDEX, members, bits_new, bits_add, bits_remove, bits_contains, bits_clear,
};
use crate::class::Entity;

verus! {

/// One component per entity, with three change sets: `touched` (any
/// insert, removal or mutable access), `inserted` and `removed`.
pub struct TrackStorage<C> {
    mask: BitSet,
    inserted: BitSet,
    removed: BitSet,
    storage: Vec<Option<C>>,
}

impl<C> TrackStorage<C> {
    /// Slots exist only for indices that a bit set can hold.
    pub closed spec fn wf(&self) -> bool {
        &&& self.storage@.len() <= MAX_INDEX
        &&& forall|i: u32| #[trigger] members(self.mask).contains(i) ==> i < MAX_INDEX
        &&& forall|i: u32| #[trigger] members(self.inserted).contains(i) ==> i < MAX_INDEX
        &&& forall|i: u32| #[trigger] members(self.removed).contains(i) ==> i < MAX_INDEX
    }

    /// Every index that holds a component is one that a bit set can hold.
    pub proof fn lemma_dom_in_range(&self)
        requires
            self.wf(),
        ensures
            forall|i: u32| #[trigger] self@.contains_key(i) ==> i < MAX_INDEX,
    {
    }

    /// Every flagged index is one that a bit set can hold.
    pub proof fn lemma_flags_in_range(&self)
        requires
            self.wf(),
        ensures
            forall|i: u32| #[trigger] self.touched().contains(i) ==> i < MAX_INDEX,
            forall|i: u32| #[trigger] self.inserted_set().contains(i) ==> i < MAX_INDEX,
            forall|i: u32| #[trigger] self.removed_set().contains(i) ==> i < MAX_INDEX,
    {
    }

    /// The component held for each entity index.
    pub closed spec fn view(&self) -> Map<u32, C> {
        Map::new(
            |i: u32| (i as int) < self.storage@.len() && self.storage@[i as int] is Some,
            |i: u32| self.storage@[i as int]->Some_0,
        )
    }

    /// The component held for an entity index, if any.
    pub open spec fn at(&self, id: u32) -> Option<C> {
        if self@.contains_key(id) {
            Some(self@[id])
        } else {
            None
        }
    }

    pub closed spec fn touched(&self) -> Set<u32> {
        members(self.mask)
    }

    pub closed spec fn inserted_set(&self) -> Set<u32> {
        members(self.inserted)
    }

    pub closed spec fn removed_set(&self) -> Set<u32> {
        members(self.removed)
    }

    /// The three change sets are empty.
    pub open spec fn unflagged(&self) -> bool {
        &&& self.touched() == Set::<u32>::empty()
        &&& self.inserted_set() == Set::<u32>::empty()
        &&& self.removed_set() == Set::<u32>::empty()
    }

    pub fn new() -> (r: TrackStorage<C>)
        ensures
            r@ == Map::<u32, C>::empty(),
            r.unflagged(),
            r.wf(),
    {
        let r = TrackStorage { mask: bits_new(), inserted: bits_new(), removed: bits_new(), storage: Vec::new() };
        assert(r@ =~= Map::<u32, C>::empty());
        r
    }

    /// Empties the table and its change sets.
    pub fn clean(&mut self)
        requires
            old(self).wf(),
        ensures
            final(self).wf(),
            final(self)@ == Map::<u32, C>::empty(),
            final(self).unflagged(),
    {
        bits_clear(&mut self.mask);
        bits_clear(&mut self.inserted);
        bits_clear(&mut self.removed);
        self.storage = Vec::new();
        assert(self@ =~= Map::<u32, C>::empty());
    }

    pub fn get(&self, entity: Entity) -> (r: Option<&C>)
        ensures
            r is Some == self@.contains_key(entity.id),
            r is Some ==> *r->Some_0 == self@[entity.id],
    {
        let i = entity.id as usize;
        if i < self.storage.len() {
            self.storage[i].as_ref()
        } else {
            None
        }
    }

    pub fn contains(&self, entity: Entity) -> (r: bool)
        ensures
            r == self@.contains_key(entity.id),
    {
        let i = entity.id as usize;
        i < self.storage.len() && self.storage[i].is_some()
    }

    /// Stores a component for the entity and flags it as touched and inserted;
    /// returns the component it replaces.
    pub fn insert(&mut self, entity: Entity, comp: C) -> (r: Option<C>)
        requires
            old(self).wf(),
            entity.id < MAX_INDEX,
        ensures
            final(self).wf(),
            final(self)@ == old(self)@.insert(entity.id, comp),
            r == old(self).at(entity.id),
            final(self).touched() == old(self).touched().insert(entity.id),
            final(self).inserted_set() == old(self).inserted_set().insert(entity.id),
            final(self).removed_set() == old(self).removed_set(),
    {
        let i = entity.id as usize;
        while self.storage.len() <= i
            invariant
                self@ == old(self)@,
                self.mask == old(self).mask,
                self.inserted == old(self).inserted,
                self.removed == old(self).removed,
                self.storage@.len() <= MAX_INDEX,
                i < MAX_INDEX,
            decreases i + 1 - self.storage.len(),
        {
            self.storage.push(None);
            assert(self@ =~= old(self)@);
        }
        self.storage.push(Some(comp));
        let prev = self.storage.swap_remove(i);
        bits_add(&mut self.mask, entity.id);
        bits_add(&mut self.inserted, entity.id);
        assert(self@ =~= old(self)@.insert(entity.id, comp));
        prev
    }

    /// Takes the entity's component out; when there was one, flags the entity
    /// as touched and removed.
    pub fn remove(&mut self, entity: Entity) -> (r: Option<C>)
        requires
            old(self).wf(),
            entity.id < MAX_INDEX,
        ensures
            final(self).wf(),
            final(self)@ == old(self)@.remove(entity.id),
            r == old(self).at(entity.id),
            final(self).touched() == if r is Some {
                old(self).touched().insert(entity.id)
            } else {
                old(self).touched()
            },
            final(self).removed_set() == if r is Some {
                old(self).removed_set().insert(entity.id)
            } else {
                old(self).removed_set()
            },
            final(self).inserted_set() == old(self).inserted_set(),
    {
        let i = entity.id as usize;
        if i < self.storage.len() && self.storage[i].is_some() {
            bits_add(&mut self.mask, entity.id);
            bits_add(&mut self.removed, entity.id);
            self.storage.push(None);
            let prev = self.storage.swap_remove(i);
            assert(self@ =~= old(self)@.remove(entity.id));
            prev
        } else {
            assert(self@ =~= old(self)@.remove(entity.id));
            None
        }
    }

    /// Mutable access to the entity's component. Any such access counts as a
    /// change: the entity is flagged as touched when it holds a component.
    pub fn get_mut(&mut self, entity: Entity) -> (r: Option<&mut C>)
        requires
            old(self).wf(),
            entity.id < MAX_INDEX,
        ensures
            final(self).wf(),
            r is Some == old(self)@.contains_key(entity.id),
            r is Some ==> *r->Some_0 == old(self)@[entity.id],
            r is Some ==> final(self)@ == old(self)@.insert(entity.id, *final(r->Some_0)),
            r is None ==> final(self)@ == old(self)@,
            final(self).touched() == if r is Some {
                old(self).touched().insert(entity.id)
            } else {
                old(self).touched()
            },
            final(self).inserted_set() == old(self).inserted_set(),
            final(self).removed_set() == old(self).removed_set(),
    {
        let i = entity.id as usize;
        if i < self.storage.len() && self.storage[i].is_some() {
            bits_add(&mut self.mask, entity.id);
            self.storage[i].as_mut()
        } else {
            None
        }
    }
    /// The entities flagged as inserted.
    pub fn inserted(&self) -> (r: &BitSet)
        ensures
            members(*r) == self.inserted_set(),
    {
        &self.inserted
    }

    /// The entities flagged as removed.
    pub fn removed(&self) -> (r: &BitSet)
        ensures
            members(*r) == self.removed_set(),
    {
        &self.removed
    }

    /// The entities flagged as touched.
    pub fn mask(&self) -> (r: &BitSet)
        ensures
            members(*r) == self.touched(),
    {
        &self.mask
    }

    /// Whether the entity's component was flagged as touched.
    pub fn was_flagged(&self, entity: Entity) -> (r: bool)
        ensures
            r == self.touched().contains(entity.id),
    {
        bits_contains(&self.mask, entity.id)
    }

    /// Whether the entity's component was flagged as inserted.
    pub fn was_inserted(&self, entity: Entity) -> (r: bool)
        ensures
            r == self.inserted_set().contains(entity.id),
    {
        bits_contains(&self.inserted, entity.id)
    }

    /// Whether the entity's component was flagged as removed.
    pub fn was_removed(&self, entity: Entity) -> (r: bool)
        ensures
            r == self.removed_set().contains(entity.id),
    {
        bits_contains(&self.removed, entity.id)
    }

    /// Empties the three change sets; the components stay as they are.
    pub fn clear_flags(&mut self)
        requires
            old(self).wf(),
        ensures
            final(self).wf(),
            final(self)@ == old(self)@,
            final(self).unflagged(),
    {
        bits_clear(&mut self.mask);
        bits_clear(&mut self.inserted);
        bits_clear(&mut self.removed);
    }

    /// Removes the touched flag of the entity.
    pub fn unflag(&mut self, entity: Entity)
        requires
            old(self).wf(),
        ensures
            final(self).wf(),
            final(self)@ == old(self)@,
            final(self).touched() == old(self).touched().remove(entity.id),
            final(self).inserted_set() == old(self).inserted_set(),
            final(self).removed_set() == old(self).removed_set(),
    {
        bits_remove(&mut self.mask, entity.id);
    }

    /// Removes the inserted flag of the entity.
    pub fn unflag_inserted(&mut self, entity: Entity)
        requires
            old(self).wf(),
        ensures
            final(self).wf(),
            final(self)@ == old(self)@,
            final(self).touched() == old(self).touched(),
            final(self).inserted_set() == old(self).inserted_set().remove(entity.id),
            final(self).removed_set() == old(self).removed_set(),
    {
        bits_remove(&mut self.inserted, entity.id);
    }

    /// Removes the removed flag of the entity.
    pub fn unflag_removed(&mut self, entity: Entity)
        requires
            old(self).wf(),
        ensures
            final(self).wf(),
            final(self)@ == old(self)@,
            final(self).touched() == old(self).touched(),
            final(self).inserted_set() == old(self).inserted_set(),
            final(self).removed_set() == old(self).removed_set().remove(entity.id),
    {
        bits_remove(&mut self.removed, entity.id);
    }

    /// Flags the entity's component as touched.
    pub fn flag(&mut self, entity: Entity)
        requires
            old(self).wf(),
            entity.id < MAX_INDEX,
        ensures
            final(self).wf(),
            final(self)@ == old(self)@,
            final(self).touched() == old(self).touched().insert(entity.id),
            final(self).inserted_set() == old(self).inserted_set(),
            final(self).removed_set() == old(self).removed_set(),
    {
        bits_add(&mut self.mask, entity.id);
    }

    /// Flags the entity's component as inserted.
    pub fn flag_inserted(&mut self, entity: Entity)
        requires
            old(self).wf(),
            entity.id < MAX_INDEX,
        ensures
            final(self).wf(),
            final(self)@ == old(self)@,
            final(self).touched() == old(self).touched(),
            final(self).inserted_set() == old(self).inserted_set().insert(entity.id),
            final(self).removed_set() == old(self).removed_set(),
    {
        bits_add(&mut self.inserted, entity.id);
    }

    /// Flags the entity's component as removed.
    pub fn flag_removed(&mut self, entity: Entity)
        requires
            old(self).wf(),
            entity.id < MAX_INDEX,
        ensures
            final(self).wf(),
            final(self)@ == old(self)@,
            final(self).touched() == old(self).touched(),
            final(self).inserted_set() == old(self).inserted_set(),
            final(self).removed_set() == old(self).removed_set().insert(entity.id),
    {
        bits_add(&mut self.removed, entity.id);
    }

    /// The indices of the entities that hold a component, in increasing order.
    pub fn ids(&self) -> (r: Vec<u32>)
        requires
            self.wf(),
        ensures
            r@.no_duplicates(),
            r@.to_set() == self@.dom(),
    {
        let mut r: Vec<u32> = Vec::new();
        let mut i: usize = 0;
        while i < self.storage.len()
            invariant
                i <= self.storage@.len() <= MAX_INDEX,
                r@.no_duplicates(),
                forall|k: int| 0 <= k < r@.len() ==> r@[k] < i,
                forall|j: u32| #[trigger] r@.contains(j) <==> (j < i && self@.contains_key(j)),
            decreases self.storage@.len() - i,
        {
            let ghost prev = r@;
            let present = self.storage[i].is_some();
            if present {
                r.push(i as u32);
            }
            proof {
                assert(present == self@.contains_key(i as u32));
                assert(present ==> r@ == prev.push(i as u32));
                assert(!present ==> r@ == prev);
                assert forall|j: u32| #[trigger] r@.contains(j) <==> (j < i + 1 && self@.contains_key(j)) by {
                    if r@.contains(j) {
                        let k = choose|k: int| 0 <= k < r@.len() && r@[k] == j;
                        if k < prev.len() {
                            assert(prev[k] == j);
                            assert(prev.contains(j));
                        } else {
                            assert(present);
                            assert(j == i as u32);
                        }
                        assert(j < i + 1 && self@.contains_key(j));
                    }
                    if j < i + 1 && self@.contains_key(j) {
                        if j < i {
                            assert(prev.contains(j));
                            let k = choose|k: int| 0 <= k < prev.len() && prev[k] == j;
                            assert(r@[k] == j);
                        } else {
                            assert(r@[r@.len() - 1] == j);
                        }
                    }
                }
            }
            i += 1;
        }
        assert(r@.to_set() =~= self@.dom());
        r
    }
}

impl<C> Default for TrackStorage<C> {
    fn default() -> (r: TrackStorage<C>)
        ensures
            r@ == Map::<u32, C>::empty(),
            r.unflagged(),
            r.wf(),
    {
        TrackStorage::new()
    }
}


} // verus!
