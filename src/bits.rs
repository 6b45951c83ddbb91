//! Sets of entity indices, held in `hibitset`'s hierarchical bit set.

use vstd::prelude::*;
use hibitset::BitSet;

verus! {

/// Largest entity index (exclusive) that a bit set can hold on every target:
/// with a 32-bit `usize`, `hibitset` covers `32^4` indices.
pub const MAX_INDEX: u32 = 1048576;

#[verifier::external_type_specification]
#[verifier::external_body]
pub struct ExBitSet(hibitset::BitSet);

/// The indices that a bit set holds.
pub uninterp spec fn members(b: BitSet) -> Set<u32>;

/// Relies on `BitSet::new`: it creates an empty set.
#[verifier::external_body]
pub(crate) fn bits_new() -> (r: BitSet)
    ensures
        members(r) == Set::<u32>::empty(),
{
    BitSet::new()
}

/// Relies on `BitSet::add`: it adds the index, and returns whether it was
/// already there; it panics only for indices beyond its range.
#[verifier::external_body]
pub(crate) fn bits_add(b: &mut BitSet, id: u32) -> (was: bool)
    requires
        id < MAX_INDEX,
    ensures
        members(*final(b)) == members(*old(b)).insert(id),
        was == members(*old(b)).contains(id),
{
    b.add(id)
}

/// Relies on `BitSet::remove`: it removes the index, and returns whether it
/// was there.
#[verifier::external_body]
pub(crate) fn bits_remove(b: &mut BitSet, id: u32) -> (was: bool)
    ensures
        members(*final(b)) == members(*old(b)).remove(id),
        was == members(*old(b)).contains(id),
{
    b.remove(id)
}

/// Relies on `BitSet::contains`.
#[verifier::external_body]
pub(crate) fn bits_contains(b: &BitSet, id: u32) -> (r: bool)
    ensures
        r == members(*b).contains(id),
{
    b.contains(id)
}

/// Relies on `BitSet::clear`: it empties the set.
#[verifier::external_body]
pub(crate) fn bits_clear(b: &mut BitSet)
    ensures
        members(*final(b)) == Set::<u32>::empty(),
{
    b.clear()
}

/// Relies on `BitSetLike::iter` for `&BitSet`: it yields each member once.
#[verifier::external_body]
pub(crate) fn bits_to_vec(b: &BitSet) -> (r: Vec<u32>)
    ensures
        r@.no_duplicates(),
        r@.to_set() == members(*b),
{
    hibitset::BitSetLike::iter(b).collect()
}

/// Relies on `BitOrAssign<&B> for BitSet`: afterwards `into` holds the
/// members of both sets.
#[verifier::external_body]
pub(crate) fn bits_union_into(into: &mut BitSet, from: &BitSet)
    ensures
        members(*final(into)) == members(*old(into)).union(members(*from)),
{
    *into |= from;
}

} // verus!
