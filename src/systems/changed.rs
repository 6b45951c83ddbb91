//! Publishes the values the solver resolved: first as a list of
//! (key, variable, value) changes, then into each element's edges.

use vstd::prelude::*;
use crate::bits::MAX_INDEX;
use crate::class::{Entity, Positional};
use crate::constraint::Variable;
use crate::solver::{Attr, Key, KeyId, SolverSystem};
use crate::track::TrackStorage;

verus! {

/// The values that changed in the last solve, each with the key of its variable.
#[derive(Clone, Debug)]
pub struct Changes {
    changes: Vec<(Key, Variable, i64)>,
}

impl Changes {
    pub closed spec fn view(&self) -> Seq<(Key, Variable, i64)> {
        self.changes@
    }

    pub fn new() -> (r: Changes)
        ensures
            r@ == Seq::<(Key, Variable, i64)>::empty(),
    {
        Changes { changes: Vec::new() }
    }

    pub fn set_changes(&mut self, changes: Vec<(Key, Variable, i64)>)
        ensures
            final(self)@ == changes@,
    {
        self.changes = changes;
    }

    pub fn changes(&self) -> (r: &Vec<(Key, Variable, i64)>)
        ensures
            r@ == self@,
    {
        &self.changes
    }
}

impl Default for Changes {
    fn default() -> (r: Changes)
        ensures
            r@ == Seq::<(Key, Variable, i64)>::empty(),
    {
        Changes::new()
    }
}

/// The solver's (variable, value) pairs, in their order, each with the key
/// of its variable; variables the registry did not make are left out.
pub open spec fn published(keys: Seq<Key>, raw: Seq<(Variable, i64)>) -> Seq<(Key, Variable, i64)>
    decreases raw.len(),
{
    if raw.len() == 0 {
        Seq::empty()
    } else {
        let rest = published(keys, raw.drop_last());
        let (v, x) = raw.last();
        if v.0 < keys.len() {
            rest.push((keys[v.0 as int], v, x))
        } else {
            rest
        }
    }
}

impl SolverSystem {
    /// Names each resolved value by the key of its variable.
    pub fn publish(&self, raw: &Vec<(Variable, i64)>) -> (r: Changes)
        ensures
            r@ == published(self.keys(), raw@),
    {
        let mut out: Vec<(Key, Variable, i64)> = Vec::new();
        let mut i: usize = 0;
        while i < raw.len()
            invariant
                i <= raw@.len(),
                out@ == published(self.keys(), raw@.subrange(0, i as int)),
            decreases raw@.len() - i,
        {
            let (v, x) = raw[i];
            match self.key_of(v) {
                Some(k) => out.push((k, v, x)),
                None => {},
            }
            proof {
                assert(raw@.subrange(0, i + 1).drop_last() =~= raw@.subrange(0, i as int));
            }
            i += 1;
        }
        assert(raw@.subrange(0, raw@.len() as int) =~= raw@);
        Changes { changes: out }
    }
}

/// One change written into the edges of its element, when that element has them.
pub open spec fn apply_change(m: Map<u32, Positional>, change: (Key, Variable, i64)) -> Map<u32, Positional> {
    let (key, _, value) = change;
    match key {
        Key(KeyId::Entity(e), a) => if m.contains_key(e.id) {
            match a {
                Attr::LeftBound => m.insert(e.id, Positional { left: value, ..m[e.id] }),
                Attr::RightBound => m.insert(e.id, Positional { right: value, ..m[e.id] }),
                Attr::UpperBound => m.insert(e.id, Positional { top: value, ..m[e.id] }),
                Attr::LowerBound => m.insert(e.id, Positional { bottom: value, ..m[e.id] }),
                _ => m,
            }
        } else {
            m
        },
        _ => m,
    }
}

/// The changes written in their order.
pub open spec fn apply_changes(m: Map<u32, Positional>, changes: Seq<(Key, Variable, i64)>) -> Map<u32, Positional>
    decreases changes.len(),
{
    if changes.len() == 0 {
        m
    } else {
        apply_change(apply_changes(m, changes.drop_last()), changes.last())
    }
}

/// Writes resolved edge values into the `Positional` of their elements.
pub struct ChangedSystem;

impl ChangedSystem {
    /// Writes each change to a left, right, upper or lower edge into the
    /// element's `Positional`, in order; other keys, and elements without a
    /// `Positional`, are passed over.
    pub fn run(&mut self, changes: &Changes, positions: &mut TrackStorage<Positional>)
        requires
            old(positions).wf(),
        ensures
            final(positions).wf(),
            final(positions)@ == apply_changes(old(positions)@, changes@),
            final(positions).inserted_set() == old(positions).inserted_set(),
            final(positions).removed_set() == old(positions).removed_set(),
            old(positions).touched().subset_of(final(positions).touched()),
    {
        let list = changes.changes();
        let mut i: usize = 0;
        while i < list.len()
            invariant
                i <= list@.len(),
                list@ == changes@,
                positions.wf(),
                positions@ == apply_changes(old(positions)@, list@.subrange(0, i as int)),
                positions.inserted_set() == old(positions).inserted_set(),
                positions.removed_set() == old(positions).removed_set(),
                old(positions).touched().subset_of(positions.touched()),
            decreases list@.len() - i,
        {
            let (key, _, value) = list[i];
            let ghost before = positions@;
            proof {
                positions.lemma_dom_in_range();
            }
            match key {
                Key(KeyId::Entity(e), a) => {
                    if e.id < MAX_INDEX {
                        match a {
                            Attr::LeftBound => match positions.get_mut(e) {
                                Some(p) => p.left = value,
                                None => {},
                            },
                            Attr::RightBound => match positions.get_mut(e) {
                                Some(p) => p.right = value,
                                None => {},
                            },
                            Attr::UpperBound => match positions.get_mut(e) {
                                Some(p) => p.top = value,
                                None => {},
                            },
                            Attr::LowerBound => match positions.get_mut(e) {
                                Some(p) => p.bottom = value,
                                None => {},
                            },
                            _ => {},
                        }
                    }
                },
                _ => {},
            }
            proof {
                assert(list@.subrange(0, i + 1).drop_last() =~= list@.subrange(0, i as int));
                assert(positions@ =~= apply_change(before, list@[i as int]));
            }
            i += 1;
        }
        assert(list@.subrange(0, list@.len() as int) =~= list@);
    }
}

} // verus!
