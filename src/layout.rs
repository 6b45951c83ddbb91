//! The layout pass: for each element whose position, size or parent
//! changed, the constraints that contain it in its parent (or in the
//! viewport) and that give it its requested size.

use vstd::prelude::*;
use hibitset::BitSet;
use crate::bits::{MAX_INDEX, members, bits_new, bits_contains, bits_to_vec, bits_union_into};
use crate::class::{
    Bounds, Coordinate, Entity, Parent, Position, Viewport, DEFAULT_SIZE, UNITS_PER_PIXEL, size_or_default,
};
use crate::constraint::{
    LinearConstraint, Relation, Strength, Variable, compare, compare_zero, span_is, span_fraction,
    span_fraction_of, make_compare, make_compare_zero, make_span_is, make_span_fraction,
    make_span_fraction_of,
};
use crate::solver::{
    Attr, CommandView, Key, KeyId, LayoutError, SolverSystem, context_key, entity_key,
    is_edge, issued, viewport_keys_added,
};
use crate::track::TrackStorage;

verus! {

/// The element that `id` is laid out in: its parent, when that one is alive.
/// A parent that is no longer alive counts as none.
pub open spec fn live_parent(parents: &TrackStorage<Parent>, alive: Set<u32>, id: u32) -> Option<Entity> {
    match parents.at(id) {
        Some(p) => if alive.contains(p.entity.id) {
            Some(p.entity)
        } else {
            None
        },
        None => None,
    }
}

/// The variables made between two states belong to `e`, to `parent`, or
/// to the viewport.
pub open spec fn keys_about(before: SolverSystem, after: SolverSystem, e: Entity, parent: Option<Entity>) -> bool {
    forall|k: Key| #[trigger] after.has_var(k) && !before.has_var(k) ==> {
        ||| k.0 == KeyId::Entity(e)
        ||| parent is Some && k.0 == KeyId::Entity(parent->Some_0)
        ||| k == context_key(Attr::ViewportWidth)
        ||| k == context_key(Attr::ViewportHeight)
    }
}

/// A key of a viewport variable, of an element that `chosen` picks, or of
/// the live parent of one.
pub open spec fn made_for(live: Set<u32>, parents: &TrackStorage<Parent>, chosen: Set<u32>, k: Key) -> bool {
    ||| k == context_key(Attr::ViewportWidth)
    ||| k == context_key(Attr::ViewportHeight)
    ||| k.0 is Entity && chosen.contains(k.0->Entity_0.id)
    ||| k.0 is Entity && exists|c: u32| #[trigger] chosen.contains(c) && live_parent(parents, live, c) == Some(k.0->Entity_0)
}

proof fn lemma_keys_about_trans(s0: SolverSystem, s1: SolverSystem, s2: SolverSystem, e: Entity, parent: Option<Entity>)
    requires
        keys_about(s0, s1, e, parent),
        keys_about(s1, s2, e, parent),
    ensures
        keys_about(s0, s2, e, parent),
{
    assert forall|k: Key| #[trigger] s2.has_var(k) && !s0.has_var(k) implies {
        ||| k.0 == KeyId::Entity(e)
        ||| parent is Some && k.0 == KeyId::Entity(parent->Some_0)
        ||| k == context_key(Attr::ViewportWidth)
        ||| k == context_key(Attr::ViewportHeight)
    } by {
        if s1.has_var(k) {
            assert(s1.has_var(k) && !s0.has_var(k));
        } else {
            assert(s2.has_var(k) && !s1.has_var(k));
        }
    }
}

/// The edge `a` of `e` is bounded by `bound`, as a required constraint.
pub open spec fn edge_bounded(s: SolverSystem, e: Entity, a: Attr, relation: Relation, bound: Variable) -> bool {
    &&& s.has_var(entity_key(e, a))
    &&& s.constraint_at(entity_key(e, a)) == Some(compare(s.edge(e, a), relation, bound, Strength::Required))
}

/// The box of `e` lies within the box of `p`.
pub open spec fn contained_in_parent(s: SolverSystem, e: Entity, p: Entity) -> bool {
    &&& s.has_var(entity_key(p, Attr::LeftBound))
    &&& s.has_var(entity_key(p, Attr::RightBound))
    &&& s.has_var(entity_key(p, Attr::UpperBound))
    &&& s.has_var(entity_key(p, Attr::LowerBound))
    &&& edge_bounded(s, e, Attr::LeftBound, Relation::Ge, s.edge(p, Attr::LeftBound))
    &&& edge_bounded(s, e, Attr::RightBound, Relation::Le, s.edge(p, Attr::RightBound))
    &&& edge_bounded(s, e, Attr::UpperBound, Relation::Ge, s.edge(p, Attr::UpperBound))
    &&& edge_bounded(s, e, Attr::LowerBound, Relation::Le, s.edge(p, Attr::LowerBound))
}

/// The box of `e` lies within `[0, viewport width] x [0, viewport height]`.
pub open spec fn contained_in_viewport(s: SolverSystem, e: Entity) -> bool {
    &&& s.has_var(context_key(Attr::ViewportWidth))
    &&& s.has_var(context_key(Attr::ViewportHeight))
    &&& s.has_var(entity_key(e, Attr::LeftBound))
    &&& s.has_var(entity_key(e, Attr::UpperBound))
    &&& s.constraint_at(entity_key(e, Attr::LeftBound)) == Some(
        compare_zero(s.edge(e, Attr::LeftBound), Relation::Ge, Strength::Required),
    )
    &&& edge_bounded(s, e, Attr::RightBound, Relation::Le, s.var(context_key(Attr::ViewportWidth)))
    &&& s.constraint_at(entity_key(e, Attr::UpperBound)) == Some(
        compare_zero(s.edge(e, Attr::UpperBound), Relation::Ge, Strength::Required),
    )
    &&& edge_bounded(s, e, Attr::LowerBound, Relation::Le, s.var(context_key(Attr::ViewportHeight)))
}

/// `e` is contained in its parent, or in the viewport when it has none.
pub open spec fn placed(s: SolverSystem, e: Entity, parent: Option<Entity>) -> bool {
    match parent {
        Some(p) => contained_in_parent(s, e, p),
        None => contained_in_viewport(s, e),
    }
}

/// The weak pull of the left and upper edges of `e` towards zero.
pub open spec fn aligned(s: SolverSystem, e: Entity) -> bool {
    &&& s.has_var(entity_key(e, Attr::LeftBound))
    &&& s.has_var(entity_key(e, Attr::UpperBound))
    &&& s.constraint_at(entity_key(e, Attr::LeftAlign)) == Some(
        compare_zero(s.edge(e, Attr::LeftBound), Relation::Eq, Strength::Weak),
    )
    &&& s.constraint_at(entity_key(e, Attr::TopAlign)) == Some(
        compare_zero(s.edge(e, Attr::UpperBound), Relation::Eq, Strength::Weak),
    )
}

/// One axis of a box: its high and low edges, the variable of its fixed
/// size, and the viewport variable of the same axis.
#[derive(Clone, Copy, Debug, PartialEq, Eq, Structural)]
pub struct Axis {
    pub hi: Attr,
    pub lo: Attr,
    pub size: Attr,
    pub whole: Attr,
}

pub open spec fn horizontal() -> Axis {
    Axis { hi: Attr::RightBound, lo: Attr::LeftBound, size: Attr::Width, whole: Attr::ViewportWidth }
}

pub open spec fn vertical() -> Axis {
    Axis { hi: Attr::LowerBound, lo: Attr::UpperBound, size: Attr::Height, whole: Attr::ViewportHeight }
}

/// The variables that the extent constraint of `e` along `x` refers to.
pub open spec fn extent_vars(s: SolverSystem, e: Entity, c: Coordinate, parent: Option<Entity>, x: Axis) -> bool {
    &&& s.has_var(entity_key(e, x.hi))
    &&& s.has_var(entity_key(e, x.lo))
    &&& match c {
        Coordinate::Pixel(_) => s.has_var(entity_key(e, x.size)),
        Coordinate::Percent(_) => match parent {
            Some(p) => s.has_var(entity_key(p, x.hi)) && s.has_var(entity_key(p, x.lo)),
            None => s.has_var(context_key(x.whole)),
        },
    }
}

/// The weak constraint on the extent of `e` along `x`: a fixed size, a
/// fraction of the parent's extent, or a fraction of the viewport.
pub open spec fn extent_rule(s: SolverSystem, e: Entity, c: Coordinate, parent: Option<Entity>, x: Axis) -> LinearConstraint {
    match c {
        Coordinate::Pixel(_) => span_is(s.edge(e, x.hi), s.edge(e, x.lo), s.edge(e, x.size), Strength::Weak),
        Coordinate::Percent(n) => match parent {
            Some(p) => span_fraction(
                s.edge(e, x.hi),
                s.edge(e, x.lo),
                s.edge(p, x.hi),
                s.edge(p, x.lo),
                n,
                Strength::Weak,
            ),
            None => span_fraction_of(s.edge(e, x.hi), s.edge(e, x.lo), s.var(context_key(x.whole)), n, Strength::Weak),
        },
    }
}

/// The extent of `e` along `x` is constrained by `c`, and a fixed size has
/// been suggested to its size variable.
pub open spec fn extent_set(s: SolverSystem, e: Entity, c: Coordinate, parent: Option<Entity>, x: Axis) -> bool {
    &&& extent_vars(s, e, c, parent, x)
    &&& s.constraint_at(entity_key(e, x.size)) == Some(extent_rule(s, e, c, parent, x))
    &&& match c {
        Coordinate::Pixel(v) => s.pending().contains(CommandView::SuggestValue(s.edge(e, x.size), v as int)),
        Coordinate::Percent(_) => true,
    }
}

/// Both extents of `e` follow its bounds, an absent one at the default size.
pub open spec fn sized(s: SolverSystem, e: Entity, b: Bounds, parent: Option<Entity>) -> bool {
    &&& extent_set(s, e, size_or_default(b.width), parent, horizontal())
    &&& extent_set(s, e, size_or_default(b.height), parent, vertical())
}

} // verus!

verus! {

/// `id` is alive and held inside its containing box.
pub open spec fn contained_live(alive: Set<u32>, positions: &TrackStorage<Position>, id: u32) -> bool {
    alive.contains(id) && positions.at(id) is Some && positions.at(id)->Some_0.kind.is_contained()
}

/// `id` is alive and has bounds.
pub open spec fn sized_live(alive: Set<u32>, bounds: &TrackStorage<Bounds>, id: u32) -> bool {
    alive.contains(id) && bounds.at(id) is Some
}

/// The position of `id`, its parent, or the loss of its parent changed.
pub open spec fn dirty_position(parents: &TrackStorage<Parent>, positions: &TrackStorage<Position>, id: u32) -> bool {
    positions.touched().contains(id) || parents.touched().contains(id) || parents.removed_set().contains(id)
}

/// The bounds of `id`, its parent, or the loss of its parent changed.
pub open spec fn dirty_bounds(parents: &TrackStorage<Parent>, bounds: &TrackStorage<Bounds>, id: u32) -> bool {
    bounds.touched().contains(id) || parents.touched().contains(id) || parents.removed_set().contains(id)
}

/// `id` is due to be laid out, has no live parent, and asks for a fraction
/// of the viewport.
pub open spec fn needs_viewport(
    alive: Set<u32>,
    parents: &TrackStorage<Parent>,
    bounds: &TrackStorage<Bounds>,
    id: u32,
) -> bool {
    &&& dirty_bounds(parents, bounds, id)
    &&& alive.contains(id)
    &&& bounds.at(id) is Some
    &&& live_parent(parents, alive, id) is None
    &&& (size_or_default(bounds.at(id)->Some_0.width) is Percent
        || size_or_default(bounds.at(id)->Some_0.height) is Percent)
}

/// A live element that is held inside its containing box is contained in it.
pub open spec fn position_done(
    s: SolverSystem,
    alive: Set<u32>,
    parents: &TrackStorage<Parent>,
    positions: &TrackStorage<Position>,
    id: u32,
) -> bool {
    (alive.contains(id) && positions.at(id) is Some && positions.at(id)->Some_0.kind.is_contained())
        ==> placed(s, Entity { id }, live_parent(parents, alive, id))
}

/// A live element that is held inside its containing box is pulled to the origin.
pub open spec fn align_done(s: SolverSystem, alive: Set<u32>, positions: &TrackStorage<Position>, id: u32) -> bool {
    (alive.contains(id) && positions.at(id) is Some && positions.at(id)->Some_0.kind.is_contained())
        ==> aligned(s, Entity { id })
}

/// A live element with bounds is sized by them.
pub open spec fn size_done(
    s: SolverSystem,
    alive: Set<u32>,
    parents: &TrackStorage<Parent>,
    bounds: &TrackStorage<Bounds>,
    id: u32,
) -> bool {
    (alive.contains(id) && bounds.at(id) is Some)
        ==> sized(s, Entity { id }, bounds.at(id)->Some_0, live_parent(parents, alive, id))
}

proof fn lemma_extent_kept(s1: SolverSystem, s2: SolverSystem, e: Entity, c: Coordinate, parent: Option<Entity>, x: Axis)
    requires
        s1.wf(),
        s2.keeps(&s1),
        s2.constraint_at(entity_key(e, x.size)) == s1.constraint_at(entity_key(e, x.size)),
        extent_set(s1, e, c, parent, x),
    ensures
        extent_set(s2, e, c, parent, x),
{
    s2.lemma_keeps_vars(&s1);
    assert forall|y: CommandView| s1.pending().contains(y) implies s2.pending().contains(y) by {
        let i = choose|i: int| 0 <= i < s1.pending().len() && s1.pending()[i] == y;
        assert(s2.pending()[i] == y);
    }
}

pub proof fn lemma_placed_kept(s1: SolverSystem, s2: SolverSystem, e: Entity, parent: Option<Entity>)
    requires
        s1.wf(),
        s2.keeps(&s1),
        forall|a: Attr| is_edge(a) ==> s2.constraint_at(entity_key(e, a)) == s1.constraint_at(entity_key(e, a)),
        placed(s1, e, parent),
    ensures
        placed(s2, e, parent),
{
    s2.lemma_keeps_vars(&s1);
    assert(is_edge(Attr::LeftBound) && is_edge(Attr::RightBound) && is_edge(Attr::UpperBound) && is_edge(Attr::LowerBound));
}

proof fn lemma_aligned_kept(s1: SolverSystem, s2: SolverSystem, e: Entity)
    requires
        s1.wf(),
        s2.keeps(&s1),
        s2.constraint_at(entity_key(e, Attr::LeftAlign)) == s1.constraint_at(entity_key(e, Attr::LeftAlign)),
        s2.constraint_at(entity_key(e, Attr::TopAlign)) == s1.constraint_at(entity_key(e, Attr::TopAlign)),
        aligned(s1, e),
    ensures
        aligned(s2, e),
{
    s2.lemma_keeps_vars(&s1);
}

proof fn lemma_sized_kept(s1: SolverSystem, s2: SolverSystem, e: Entity, b: Bounds, parent: Option<Entity>)
    requires
        s1.wf(),
        s2.keeps(&s1),
        s2.constraint_at(entity_key(e, Attr::Width)) == s1.constraint_at(entity_key(e, Attr::Width)),
        s2.constraint_at(entity_key(e, Attr::Height)) == s1.constraint_at(entity_key(e, Attr::Height)),
        sized(s1, e, b, parent),
    ensures
        sized(s2, e, b, parent),
{
    lemma_extent_kept(s1, s2, e, size_or_default(b.width), parent, horizontal());
    lemma_extent_kept(s1, s2, e, size_or_default(b.height), parent, vertical());
}

/// The live parent of `e`, if it has one.
fn parent_of(parents: &TrackStorage<Parent>, alive: &BitSet, e: Entity) -> (r: Option<Entity>)
    ensures
        r == live_parent(parents, members(*alive), e.id),
{
    match parents.get(e) {
        Some(p) => if bits_contains(alive, p.entity.id) {
            Some(p.entity)
        } else {
            None
        },
        None => None,
    }
}

impl SolverSystem {
    /// Bounds the edge `a` of `e` by `bound`, as a required constraint kept
    /// under that edge's key.
    fn bound_edge(&mut self, e: Entity, a: Attr, relation: Relation, bound: Variable)
        requires
            old(self).wf(),
        ensures
            final(self).keeps(old(self)),
            final(self).dimensions() == old(self).dimensions(),
            keys_about(*old(self), *final(self), e, None),
            edge_bounded(*final(self), e, a, relation, bound),
            forall|k: Key| k != entity_key(e, a) ==> #[trigger] final(self).constraint_at(k) == old(self).constraint_at(k),
    {
        let key = Key(KeyId::Entity(e), a);
        let v = self.fill_variable(&key, None);
        let ghost mid = *self;
        let c = make_compare(v, relation, bound, Strength::Required);
        self.replace_constraint(&key, c);
        proof {
            self.lemma_keeps_vars(&mid);
            self.lemma_keeps_trans(&mid, old(self));
        }
    }

    /// The four required constraints that keep the box of `e` within the box of `p`.
    #[verifier::rlimit(80)]
    fn place_in_parent(&mut self, e: Entity, p: Entity)
        requires
            old(self).wf(),
        ensures
            final(self).keeps(old(self)),
            final(self).dimensions() == old(self).dimensions(),
            keys_about(*old(self), *final(self), e, Some(p)),
            contained_in_parent(*final(self), e, p),
            forall|k: Key| !(k.0 == KeyId::Entity(e) && is_edge(k.1))
                ==> #[trigger] final(self).constraint_at(k) == old(self).constraint_at(k),
    {
        let ghost s0 = *self;
        let pl = self.fill_variable(&Key(KeyId::Entity(p), Attr::LeftBound), None);
        let ghost s1 = *self;
        let pr = self.fill_variable(&Key(KeyId::Entity(p), Attr::RightBound), None);
        let ghost s2 = *self;
        let pu = self.fill_variable(&Key(KeyId::Entity(p), Attr::UpperBound), None);
        let ghost s3 = *self;
        let pd = self.fill_variable(&Key(KeyId::Entity(p), Attr::LowerBound), None);
        let ghost s4 = *self;
        proof {
            s4.lemma_keeps_vars(&s1);
            s4.lemma_keeps_vars(&s2);
            s4.lemma_keeps_vars(&s3);
            s2.lemma_keeps_trans(&s1, &s0);
            s3.lemma_keeps_trans(&s2, &s0);
            s4.lemma_keeps_trans(&s3, &s0);
        }
        self.bound_edge(e, Attr::LeftBound, Relation::Ge, pl);
        let ghost s5 = *self;
        self.bound_edge(e, Attr::RightBound, Relation::Le, pr);
        let ghost s6 = *self;
        self.bound_edge(e, Attr::UpperBound, Relation::Ge, pu);
        let ghost s7 = *self;
        self.bound_edge(e, Attr::LowerBound, Relation::Le, pd);
        proof {
            self.lemma_keeps_vars(&s4);
            self.lemma_keeps_vars(&s5);
            self.lemma_keeps_vars(&s6);
            self.lemma_keeps_vars(&s7);
            s6.lemma_keeps_trans(&s5, &s4);
            s7.lemma_keeps_trans(&s6, &s4);
            self.lemma_keeps_trans(&s7, &s4);
            self.lemma_keeps_trans(&s4, &s0);
            assert(keys_about(s0, s1, e, Some(p)));
            assert(keys_about(s1, s2, e, Some(p)));
            assert(keys_about(s2, s3, e, Some(p)));
            assert(keys_about(s3, s4, e, Some(p)));
            assert(keys_about(s4, s5, e, Some(p)));
            assert(keys_about(s5, s6, e, Some(p)));
            assert(keys_about(s6, s7, e, Some(p)));
            assert(keys_about(s7, *self, e, Some(p)));
            lemma_keys_about_trans(s0, s1, s2, e, Some(p));
            lemma_keys_about_trans(s0, s2, s3, e, Some(p));
            lemma_keys_about_trans(s0, s3, s4, e, Some(p));
            lemma_keys_about_trans(s0, s4, s5, e, Some(p));
            lemma_keys_about_trans(s0, s5, s6, e, Some(p));
            lemma_keys_about_trans(s0, s6, s7, e, Some(p));
            lemma_keys_about_trans(s0, s7, *self, e, Some(p));
            assert(self.constraint_at(entity_key(e, Attr::LeftBound)) == s5.constraint_at(entity_key(e, Attr::LeftBound)));
            assert(self.constraint_at(entity_key(e, Attr::RightBound)) == s6.constraint_at(entity_key(e, Attr::RightBound)));
            assert(self.constraint_at(entity_key(e, Attr::UpperBound)) == s7.constraint_at(entity_key(e, Attr::UpperBound)));
        }
    }
    /// The four required constraints that keep the box of `e` within the viewport.
    #[verifier::rlimit(60)]
    fn place_in_viewport(&mut self, e: Entity)
        requires
            old(self).wf(),
        ensures
            final(self).keeps(old(self)),
            final(self).dimensions() == old(self).dimensions(),
            keys_about(*old(self), *final(self), e, None),
            contained_in_viewport(*final(self), e),
            forall|k: Key| !(k.0 == KeyId::Entity(e) && is_edge(k.1))
                ==> #[trigger] final(self).constraint_at(k) == old(self).constraint_at(k),
    {
        let ghost s0 = *self;
        let width = self.fill_variable(&Key(KeyId::Context, Attr::ViewportWidth), Some(Strength::NearlyRequired));
        let ghost s1 = *self;
        let height = self.fill_variable(&Key(KeyId::Context, Attr::ViewportHeight), Some(Strength::NearlyRequired));
        let ghost s2 = *self;
        proof {
            s2.lemma_keeps_vars(&s1);
            s2.lemma_keeps_trans(&s1, &s0);
        }
        let left_key = Key(KeyId::Entity(e), Attr::LeftBound);
        let left = self.fill_variable(&left_key, None);
        let ghost s3 = *self;
        self.replace_constraint(&left_key, make_compare_zero(left, Relation::Ge, Strength::Required));
        let ghost s4 = *self;
        self.bound_edge(e, Attr::RightBound, Relation::Le, width);
        let ghost s5 = *self;
        let upper_key = Key(KeyId::Entity(e), Attr::UpperBound);
        let upper = self.fill_variable(&upper_key, None);
        let ghost s6 = *self;
        self.replace_constraint(&upper_key, make_compare_zero(upper, Relation::Ge, Strength::Required));
        let ghost s7 = *self;
        self.bound_edge(e, Attr::LowerBound, Relation::Le, height);
        proof {
            s3.lemma_keeps_trans(&s2, &s0);
            s4.lemma_keeps_trans(&s3, &s0);
            s5.lemma_keeps_trans(&s4, &s0);
            s6.lemma_keeps_trans(&s5, &s0);
            s7.lemma_keeps_trans(&s6, &s0);
            self.lemma_keeps_trans(&s7, &s0);
            self.lemma_keeps_trans(&s7, &s2);
            self.lemma_keeps_vars(&s2);
            self.lemma_keeps_vars(&s3);
            self.lemma_keeps_vars(&s4);
            self.lemma_keeps_vars(&s5);
            self.lemma_keeps_vars(&s6);
            self.lemma_keeps_vars(&s7);
            s4.lemma_keeps_trans(&s3, &s2);
            s5.lemma_keeps_trans(&s4, &s2);
            s6.lemma_keeps_trans(&s5, &s2);
            s7.lemma_keeps_trans(&s6, &s2);
            assert(self.constraint_at(left_key) == s4.constraint_at(left_key));
            assert(self.constraint_at(entity_key(e, Attr::RightBound)) == s5.constraint_at(entity_key(e, Attr::RightBound)));
            assert(self.constraint_at(upper_key) == s7.constraint_at(upper_key));
            assert(keys_about(s0, s1, e, None));
            assert(keys_about(s1, s2, e, None));
            assert(keys_about(s2, s3, e, None));
            assert(keys_about(s3, s4, e, None));
            assert(keys_about(s5, s6, e, None));
            assert(keys_about(s6, s7, e, None));
            lemma_keys_about_trans(s0, s1, s2, e, None);
            lemma_keys_about_trans(s0, s2, s3, e, None);
            lemma_keys_about_trans(s0, s3, s4, e, None);
            lemma_keys_about_trans(s0, s4, s5, e, None);
            lemma_keys_about_trans(s0, s5, s6, e, None);
            lemma_keys_about_trans(s0, s6, s7, e, None);
            lemma_keys_about_trans(s0, s7, *self, e, None);
        }
    }

    /// The weak constraints that pull the left and upper edges of `e` to zero.
    fn align(&mut self, e: Entity)
        requires
            old(self).wf(),
        ensures
            final(self).keeps(old(self)),
            final(self).dimensions() == old(self).dimensions(),
            keys_about(*old(self), *final(self), e, None),
            aligned(*final(self), e),
            forall|k: Key| !(k.0 == KeyId::Entity(e) && (k.1 is LeftAlign || k.1 is TopAlign))
                ==> #[trigger] final(self).constraint_at(k) == old(self).constraint_at(k),
    {
        let ghost s0 = *self;
        let left = self.fill_variable(&Key(KeyId::Entity(e), Attr::LeftBound), None);
        let ghost s1 = *self;
        let upper = self.fill_variable(&Key(KeyId::Entity(e), Attr::UpperBound), None);
        let ghost s2 = *self;
        self.replace_constraint(&Key(KeyId::Entity(e), Attr::LeftAlign), make_compare_zero(left, Relation::Eq, Strength::Weak));
        let ghost s3 = *self;
        self.replace_constraint(&Key(KeyId::Entity(e), Attr::TopAlign), make_compare_zero(upper, Relation::Eq, Strength::Weak));
        proof {
            s2.lemma_keeps_trans(&s1, &s0);
            s3.lemma_keeps_trans(&s2, &s0);
            self.lemma_keeps_trans(&s3, &s0);
            s3.lemma_keeps_trans(&s2, &s1);
            self.lemma_keeps_trans(&s3, &s1);
            self.lemma_keeps_vars(&s1);
            self.lemma_keeps_vars(&s2);
            assert(self.constraint_at(entity_key(e, Attr::LeftAlign)) == s3.constraint_at(entity_key(e, Attr::LeftAlign)));
        }
    }
    /// The weak constraint on the extent of `e` along `x`, kept under the key
    /// of its size; a fixed size is also suggested to the size variable.
    fn extent(&mut self, e: Entity, c: Coordinate, parent: Option<Entity>, x: Axis)
        requires
            old(self).wf(),
            x.whole is ViewportWidth || x.whole is ViewportHeight,
        ensures
            final(self).keeps(old(self)),
            final(self).dimensions() == old(self).dimensions(),
            keys_about(*old(self), *final(self), e, parent),
            extent_set(*final(self), e, c, parent, x),
            forall|k: Key| k != entity_key(e, x.size) ==> #[trigger] final(self).constraint_at(k) == old(self).constraint_at(k),
    {
        let ghost s0 = *self;
        let lo = self.fill_variable(&Key(KeyId::Entity(e), x.lo), None);
        let ghost s1 = *self;
        let hi = self.fill_variable(&Key(KeyId::Entity(e), x.hi), None);
        let ghost s2 = *self;
        proof {
            s2.lemma_keeps_vars(&s1);
            s2.lemma_keeps_trans(&s1, &s0);
        }
        let rule = match c {
            Coordinate::Pixel(units) => {
                let size = self.fill_variable(&Key(KeyId::Entity(e), x.size), Some(Strength::Medium));
                let ghost s3 = *self;
                self.suggest_value(size, units);
                proof {
                    self.lemma_keeps_trans(&s3, &s2);
                    self.lemma_keeps_vars(&s3);
                    let last = self.pending().len() - 1;
                    assert(self.pending()[last] == CommandView::SuggestValue(size, units as int));
                }
                make_span_is(hi, lo, size, Strength::Weak)
            },
            Coordinate::Percent(n) => match parent {
                Some(p) => {
                    let plo = self.fill_variable(&Key(KeyId::Entity(p), x.lo), None);
                    let ghost s3 = *self;
                    let phi = self.fill_variable(&Key(KeyId::Entity(p), x.hi), None);
                    proof {
                        self.lemma_keeps_trans(&s3, &s2);
                        self.lemma_keeps_vars(&s3);
                    }
                    make_span_fraction(hi, lo, phi, plo, n, Strength::Weak)
                },
                None => {
                    let whole = self.fill_variable(&Key(KeyId::Context, x.whole), Some(Strength::NearlyRequired));
                    make_span_fraction_of(hi, lo, whole, n, Strength::Weak)
                },
            },
        };
        let ghost s4 = *self;
        proof {
            assert(keys_about(s0, s1, e, parent));
            assert(keys_about(s1, s2, e, parent));
            assert(keys_about(s2, s4, e, parent));
            lemma_keys_about_trans(s0, s1, s2, e, parent);
            lemma_keys_about_trans(s0, s2, s4, e, parent);
            s4.lemma_keeps_vars(&s2);
            s4.lemma_keeps_trans(&s2, &s0);
        }
        self.replace_constraint(&Key(KeyId::Entity(e), x.size), rule);
        proof {
            assert(keys_about(s4, *self, e, parent));
            lemma_keys_about_trans(s0, s4, *self, e, parent);
            self.lemma_keeps_vars(&s4);
            self.lemma_keeps_trans(&s4, &s0);
            assert forall|y: CommandView| s4.pending().contains(y) implies self.pending().contains(y) by {
                let i = choose|i: int| 0 <= i < s4.pending().len() && s4.pending()[i] == y;
                assert(self.pending()[i] == y);
            }
        }
    }

    /// The extent constraints of both axes of `e`.
    fn size(&mut self, e: Entity, b: &Bounds, parent: Option<Entity>)
        requires
            old(self).wf(),
        ensures
            final(self).keeps(old(self)),
            final(self).dimensions() == old(self).dimensions(),
            keys_about(*old(self), *final(self), e, parent),
            sized(*final(self), e, *b, parent),
            forall|k: Key| !(k.0 == KeyId::Entity(e) && (k.1 is Width || k.1 is Height))
                ==> #[trigger] final(self).constraint_at(k) == old(self).constraint_at(k),
    {
        let ghost s0 = *self;
        let width = match b.width {
            Some(c) => c,
            None => Coordinate::Pixel(DEFAULT_SIZE),
        };
        let height = match b.height {
            Some(c) => c,
            None => Coordinate::Pixel(DEFAULT_SIZE),
        };
        let across = Axis { hi: Attr::RightBound, lo: Attr::LeftBound, size: Attr::Width, whole: Attr::ViewportWidth };
        let down = Axis { hi: Attr::LowerBound, lo: Attr::UpperBound, size: Attr::Height, whole: Attr::ViewportHeight };
        self.extent(e, width, parent, across);
        let ghost s1 = *self;
        self.extent(e, height, parent, down);
        proof {
            self.lemma_keeps_trans(&s1, &s0);
            lemma_extent_kept(s1, *self, e, width, parent, across);
        }
    }
    /// Containment constraints for each listed element.
    fn place_all(&mut self, alive: &BitSet, parents: &TrackStorage<Parent>, positions: &TrackStorage<Position>, ids: &Vec<u32>)
        requires
            old(self).wf(),
        ensures
            final(self).keeps(old(self)),
            final(self).dimensions() == old(self).dimensions(),
            ids@.len() == 0 ==> *final(self) == *old(self),
            forall|k: Key| #[trigger] final(self).has_var(k) && !old(self).has_var(k) ==> made_for(members(*alive), parents, Set::new(|x: u32| ids@.contains(x) && contained_live(members(*alive), positions, x)), k),
            forall|id: u32| #[trigger] ids@.contains(id) ==> position_done(*final(self), members(*alive), parents, positions, id),
            forall|k: Key| !(k.0 is Entity && ids@.contains(k.0->Entity_0.id) && is_edge(k.1)
                && contained_live(members(*alive), positions, k.0->Entity_0.id))
                ==> #[trigger] final(self).constraint_at(k) == old(self).constraint_at(k),
    {
        let ghost start = *self;
        let ghost live = members(*alive);
        let mut i: usize = 0;
        while i < ids.len()
            invariant
                i <= ids@.len(),
                i == 0 ==> *self == start,
                self.keeps(&start),
                start.wf(),
                self.dimensions() == start.dimensions(),
                live == members(*alive),
                forall|k: Key| #[trigger] self.has_var(k) && !start.has_var(k) ==> made_for(live, parents, Set::new(|x: u32| (exists|j: int| 0 <= j < i && ids@[j] == x) && contained_live(live, positions, x)), k),
                forall|j: int| 0 <= j < i ==> position_done(*self, live, parents, positions, #[trigger] ids@[j]),
                forall|k: Key| !(k.0 is Entity && (exists|j: int| 0 <= j < i && ids@[j] == k.0->Entity_0.id) && is_edge(k.1)
                    && contained_live(live, positions, k.0->Entity_0.id))
                    ==> #[trigger] self.constraint_at(k) == start.constraint_at(k),
            decreases ids@.len() - i,
        {
            let id = ids[i];
            let e = Entity { id };
            let ghost before = *self;
            if bits_contains(alive, id) {
                match positions.get(e) {
                    Some(pos) => {
                        if pos.kind.contained() {
                            match parent_of(parents, alive, e) {
                                Some(p) => self.place_in_parent(e, p),
                                None => self.place_in_viewport(e),
                            }
                        }
                    },
                    None => {},
                }
            }
            proof {
                if !contained_live(live, positions, id) {
                    assert(*self == before);
                }
                self.lemma_keeps_trans(&before, &start);
                if contained_live(live, positions, id) {
                    assert(keys_about(before, *self, e, live_parent(parents, live, id)));
                }
                assert forall|k: Key| #[trigger] self.has_var(k) && !start.has_var(k) implies made_for(live, parents, Set::new(|x: u32| (exists|j: int| 0 <= j < i + 1 && ids@[j] == x) && contained_live(live, positions, x)), k) by {
                    if before.has_var(k) {
                        let so = Set::new(|x: u32| (exists|j: int| 0 <= j < i && ids@[j] == x) && contained_live(live, positions, x));
                        let sn = Set::new(|x: u32| (exists|j: int| 0 <= j < i + 1 && ids@[j] == x) && contained_live(live, positions, x));
                        assert(made_for(live, parents, so, k));
                        if k.0 is Entity && exists|c: u32| #[trigger] so.contains(c) && live_parent(parents, live, c) == Some(k.0->Entity_0) {
                            let c = choose|c: u32| #[trigger] so.contains(c) && live_parent(parents, live, c) == Some(k.0->Entity_0);
                            assert(sn.contains(c));
                        }
                        if k.0 is Entity && so.contains(k.0->Entity_0.id) {
                            assert(sn.contains(k.0->Entity_0.id));
                        }
                    } else {
                        assert(ids@[i as int] == id);
                        assert(Set::new(|x: u32| (exists|j: int| 0 <= j < i + 1 && ids@[j] == x) && contained_live(live, positions, x)).contains(id));
                    }
                }
                assert forall|j: int| 0 <= j < i + 1 implies position_done(*self, live, parents, positions, #[trigger] ids@[j]) by {
                    if ids@[j] != id && live.contains(ids@[j]) && positions.at(ids@[j]) is Some
                        && positions.at(ids@[j])->Some_0.kind.is_contained() {
                        lemma_placed_kept(before, *self, Entity { id: ids@[j] }, live_parent(parents, live, ids@[j]));
                    }
                }
                assert forall|k: Key| !(k.0 is Entity && (exists|j: int| 0 <= j < i + 1 && ids@[j] == k.0->Entity_0.id) && is_edge(k.1)
                    && contained_live(live, positions, k.0->Entity_0.id))
                    implies #[trigger] self.constraint_at(k) == start.constraint_at(k) by {
                    if k.0 is Entity && is_edge(k.1) && contained_live(live, positions, k.0->Entity_0.id) {
                        assert(!(exists|j: int| 0 <= j < i && ids@[j] == k.0->Entity_0.id));
                        assert(k.0->Entity_0.id != id);
                        assert(k.0 != KeyId::Entity(e));
                    }
                    assert(self.constraint_at(k) == before.constraint_at(k));
                }
            }
            i += 1;
        }
        proof {
            assert(Set::new(|x: u32| (exists|j: int| 0 <= j < ids@.len() && ids@[j] == x) && contained_live(live, positions, x))
                =~= Set::new(|x: u32| ids@.contains(x) && contained_live(members(*alive), positions, x)));
            assert forall|id: u32| #[trigger] ids@.contains(id) implies position_done(*self, live, parents, positions, id) by {
                let j = choose|j: int| 0 <= j < ids@.len() && ids@[j] == id;
                assert(position_done(*self, live, parents, positions, ids@[j]));
            }
            assert forall|k: Key| !(k.0 is Entity && ids@.contains(k.0->Entity_0.id) && is_edge(k.1)
                && contained_live(live, positions, k.0->Entity_0.id))
                implies #[trigger] self.constraint_at(k) == start.constraint_at(k) by {
                if k.0 is Entity && is_edge(k.1) && contained_live(live, positions, k.0->Entity_0.id) {
                    if exists|j: int| 0 <= j < ids@.len() && ids@[j] == k.0->Entity_0.id {
                        let j = choose|j: int| 0 <= j < ids@.len() && ids@[j] == k.0->Entity_0.id;
                        assert(ids@.contains(k.0->Entity_0.id));
                    }
                }
            }
        }
    }

    /// Alignment constraints for each listed element.
    fn align_all(&mut self, alive: &BitSet, positions: &TrackStorage<Position>, ids: &Vec<u32>)
        requires
            old(self).wf(),
        ensures
            final(self).keeps(old(self)),
            final(self).dimensions() == old(self).dimensions(),
            ids@.len() == 0 ==> *final(self) == *old(self),
            forall|k: Key| #[trigger] final(self).has_var(k) && !old(self).has_var(k) ==> k == context_key(Attr::ViewportWidth) || k == context_key(Attr::ViewportHeight)
                || k.0 is Entity && ids@.contains(k.0->Entity_0.id) && contained_live(members(*alive), positions, k.0->Entity_0.id),
            forall|id: u32| #[trigger] ids@.contains(id) ==> align_done(*final(self), members(*alive), positions, id),
            forall|k: Key| !(k.0 is Entity && ids@.contains(k.0->Entity_0.id) && (k.1 is LeftAlign || k.1 is TopAlign)
                && contained_live(members(*alive), positions, k.0->Entity_0.id))
                ==> #[trigger] final(self).constraint_at(k) == old(self).constraint_at(k),
    {
        let ghost start = *self;
        let ghost live = members(*alive);
        let mut i: usize = 0;
        while i < ids.len()
            invariant
                i <= ids@.len(),
                i == 0 ==> *self == start,
                self.keeps(&start),
                start.wf(),
                self.dimensions() == start.dimensions(),
                live == members(*alive),
                forall|k: Key| #[trigger] self.has_var(k) && !start.has_var(k) ==> k == context_key(Attr::ViewportWidth) || k == context_key(Attr::ViewportHeight)
                    || k.0 is Entity && (exists|j: int| 0 <= j < i && ids@[j] == k.0->Entity_0.id) && contained_live(live, positions, k.0->Entity_0.id),
                forall|j: int| 0 <= j < i ==> align_done(*self, live, positions, #[trigger] ids@[j]),
                forall|k: Key| !(k.0 is Entity && (exists|j: int| 0 <= j < i && ids@[j] == k.0->Entity_0.id) && (k.1 is LeftAlign || k.1 is TopAlign)
                    && contained_live(live, positions, k.0->Entity_0.id))
                    ==> #[trigger] self.constraint_at(k) == start.constraint_at(k),
            decreases ids@.len() - i,
        {
            let id = ids[i];
            let e = Entity { id };
            let ghost before = *self;
            if bits_contains(alive, id) {
                match positions.get(e) {
                    Some(pos) => {
                        if pos.kind.contained() {
                            self.align(e);
                        }
                    },
                    None => {},
                }
            }
            proof {
                if !contained_live(live, positions, id) {
                    assert(*self == before);
                }
                self.lemma_keeps_trans(&before, &start);
                if contained_live(live, positions, id) {
                    assert(keys_about(before, *self, e, None));
                }
                assert forall|k: Key| #[trigger] self.has_var(k) && !start.has_var(k) implies k == context_key(Attr::ViewportWidth) || k == context_key(Attr::ViewportHeight)
                    || k.0 is Entity && (exists|j: int| 0 <= j < i + 1 && ids@[j] == k.0->Entity_0.id) && contained_live(live, positions, k.0->Entity_0.id) by {
                    if !before.has_var(k) {
                        assert(ids@[i as int] == id);
                    } else if k.0 is Entity && (exists|j: int| 0 <= j < i && ids@[j] == k.0->Entity_0.id) {
                        let j = choose|j: int| 0 <= j < i && ids@[j] == k.0->Entity_0.id;
                        assert(ids@[j] == k.0->Entity_0.id);
                    }
                }
                assert forall|j: int| 0 <= j < i + 1 implies align_done(*self, live, positions, #[trigger] ids@[j]) by {
                    if ids@[j] != id && live.contains(ids@[j]) && positions.at(ids@[j]) is Some
                        && positions.at(ids@[j])->Some_0.kind.is_contained() {
                        lemma_aligned_kept(before, *self, Entity { id: ids@[j] });
                    }
                }
                assert forall|k: Key| !(k.0 is Entity && (exists|j: int| 0 <= j < i + 1 && ids@[j] == k.0->Entity_0.id) && (k.1 is LeftAlign || k.1 is TopAlign)
                    && contained_live(live, positions, k.0->Entity_0.id))
                    implies #[trigger] self.constraint_at(k) == start.constraint_at(k) by {
                    if k.0 is Entity && (k.1 is LeftAlign || k.1 is TopAlign) && contained_live(live, positions, k.0->Entity_0.id) {
                        assert(!(exists|j: int| 0 <= j < i && ids@[j] == k.0->Entity_0.id));
                        assert(k.0->Entity_0.id != id);
                        assert(k.0 != KeyId::Entity(e));
                    }
                    assert(self.constraint_at(k) == before.constraint_at(k));
                }
            }
            i += 1;
        }
        proof {
            assert forall|k: Key| #[trigger] self.has_var(k) && !start.has_var(k) && k.0 is Entity && (exists|j: int| 0 <= j < ids@.len() && ids@[j] == k.0->Entity_0.id) implies ids@.contains(k.0->Entity_0.id) by {
                let j = choose|j: int| 0 <= j < ids@.len() && ids@[j] == k.0->Entity_0.id;
                assert(ids@[j] == k.0->Entity_0.id);
            }
            assert forall|id: u32| #[trigger] ids@.contains(id) implies align_done(*self, live, positions, id) by {
                let j = choose|j: int| 0 <= j < ids@.len() && ids@[j] == id;
                assert(align_done(*self, live, positions, ids@[j]));
            }
            assert forall|k: Key| !(k.0 is Entity && ids@.contains(k.0->Entity_0.id) && (k.1 is LeftAlign || k.1 is TopAlign)
                && contained_live(live, positions, k.0->Entity_0.id))
                implies #[trigger] self.constraint_at(k) == start.constraint_at(k) by {
                if k.0 is Entity && (k.1 is LeftAlign || k.1 is TopAlign) && contained_live(live, positions, k.0->Entity_0.id) {
                    if exists|j: int| 0 <= j < ids@.len() && ids@[j] == k.0->Entity_0.id {
                        let j = choose|j: int| 0 <= j < ids@.len() && ids@[j] == k.0->Entity_0.id;
                        assert(ids@.contains(k.0->Entity_0.id));
                    }
                }
            }
        }
    }

    /// Extent constraints for each listed element.
    fn size_all(&mut self, alive: &BitSet, parents: &TrackStorage<Parent>, bounds: &TrackStorage<Bounds>, ids: &Vec<u32>)
        requires
            old(self).wf(),
        ensures
            final(self).keeps(old(self)),
            final(self).dimensions() == old(self).dimensions(),
            ids@.len() == 0 ==> *final(self) == *old(self),
            forall|k: Key| #[trigger] final(self).has_var(k) && !old(self).has_var(k) ==> made_for(members(*alive), parents, Set::new(|x: u32| ids@.contains(x) && sized_live(members(*alive), bounds, x)), k),
            forall|id: u32| #[trigger] ids@.contains(id) ==> size_done(*final(self), members(*alive), parents, bounds, id),
            forall|k: Key| !(k.0 is Entity && ids@.contains(k.0->Entity_0.id) && (k.1 is Width || k.1 is Height)
                && sized_live(members(*alive), bounds, k.0->Entity_0.id))
                ==> #[trigger] final(self).constraint_at(k) == old(self).constraint_at(k),
    {
        let ghost start = *self;
        let ghost live = members(*alive);
        let mut i: usize = 0;
        while i < ids.len()
            invariant
                i <= ids@.len(),
                i == 0 ==> *self == start,
                self.keeps(&start),
                start.wf(),
                self.dimensions() == start.dimensions(),
                live == members(*alive),
                forall|k: Key| #[trigger] self.has_var(k) && !start.has_var(k) ==> made_for(live, parents, Set::new(|x: u32| (exists|j: int| 0 <= j < i && ids@[j] == x) && sized_live(live, bounds, x)), k),
                forall|j: int| 0 <= j < i ==> size_done(*self, live, parents, bounds, #[trigger] ids@[j]),
                forall|k: Key| !(k.0 is Entity && (exists|j: int| 0 <= j < i && ids@[j] == k.0->Entity_0.id) && (k.1 is Width || k.1 is Height)
                    && sized_live(live, bounds, k.0->Entity_0.id))
                    ==> #[trigger] self.constraint_at(k) == start.constraint_at(k),
            decreases ids@.len() - i,
        {
            let id = ids[i];
            let e = Entity { id };
            let ghost before = *self;
            if bits_contains(alive, id) {
                match bounds.get(e) {
                    Some(b) => {
                        let parent = parent_of(parents, alive, e);
                        self.size(e, b, parent);
                    },
                    None => {},
                }
            }
            proof {
                if !sized_live(live, bounds, id) {
                    assert(*self == before);
                }
                self.lemma_keeps_trans(&before, &start);
                if sized_live(live, bounds, id) {
                    assert(keys_about(before, *self, e, live_parent(parents, live, id)));
                }
                assert forall|k: Key| #[trigger] self.has_var(k) && !start.has_var(k) implies made_for(live, parents, Set::new(|x: u32| (exists|j: int| 0 <= j < i + 1 && ids@[j] == x) && sized_live(live, bounds, x)), k) by {
                    if before.has_var(k) {
                        let so = Set::new(|x: u32| (exists|j: int| 0 <= j < i && ids@[j] == x) && sized_live(live, bounds, x));
                        let sn = Set::new(|x: u32| (exists|j: int| 0 <= j < i + 1 && ids@[j] == x) && sized_live(live, bounds, x));
                        assert(made_for(live, parents, so, k));
                        if k.0 is Entity && exists|c: u32| #[trigger] so.contains(c) && live_parent(parents, live, c) == Some(k.0->Entity_0) {
                            let c = choose|c: u32| #[trigger] so.contains(c) && live_parent(parents, live, c) == Some(k.0->Entity_0);
                            assert(sn.contains(c));
                        }
                        if k.0 is Entity && so.contains(k.0->Entity_0.id) {
                            assert(sn.contains(k.0->Entity_0.id));
                        }
                    } else {
                        assert(ids@[i as int] == id);
                        assert(Set::new(|x: u32| (exists|j: int| 0 <= j < i + 1 && ids@[j] == x) && sized_live(live, bounds, x)).contains(id));
                    }
                }
                assert forall|j: int| 0 <= j < i + 1 implies size_done(*self, live, parents, bounds, #[trigger] ids@[j]) by {
                    if ids@[j] != id && live.contains(ids@[j]) && bounds.at(ids@[j]) is Some {
                        lemma_sized_kept(before, *self, Entity { id: ids@[j] }, bounds.at(ids@[j])->Some_0, live_parent(parents, live, ids@[j]));
                    }
                }
                assert forall|k: Key| !(k.0 is Entity && (exists|j: int| 0 <= j < i + 1 && ids@[j] == k.0->Entity_0.id) && (k.1 is Width || k.1 is Height)
                    && sized_live(live, bounds, k.0->Entity_0.id))
                    implies #[trigger] self.constraint_at(k) == start.constraint_at(k) by {
                    if k.0 is Entity && (k.1 is Width || k.1 is Height) && sized_live(live, bounds, k.0->Entity_0.id) {
                        assert(!(exists|j: int| 0 <= j < i && ids@[j] == k.0->Entity_0.id));
                        assert(k.0->Entity_0.id != id);
                        assert(k.0 != KeyId::Entity(e));
                    }
                    assert(self.constraint_at(k) == before.constraint_at(k));
                }
            }
            i += 1;
        }
        proof {
            assert(Set::new(|x: u32| (exists|j: int| 0 <= j < ids@.len() && ids@[j] == x) && sized_live(live, bounds, x))
                =~= Set::new(|x: u32| ids@.contains(x) && sized_live(members(*alive), bounds, x)));
            assert forall|id: u32| #[trigger] ids@.contains(id) implies size_done(*self, live, parents, bounds, id) by {
                let j = choose|j: int| 0 <= j < ids@.len() && ids@[j] == id;
                assert(size_done(*self, live, parents, bounds, ids@[j]));
            }
            assert forall|k: Key| !(k.0 is Entity && ids@.contains(k.0->Entity_0.id) && (k.1 is Width || k.1 is Height)
                && sized_live(live, bounds, k.0->Entity_0.id))
                implies #[trigger] self.constraint_at(k) == start.constraint_at(k) by {
                if k.0 is Entity && (k.1 is Width || k.1 is Height) && sized_live(live, bounds, k.0->Entity_0.id) {
                    if exists|j: int| 0 <= j < ids@.len() && ids@[j] == k.0->Entity_0.id {
                        let j = choose|j: int| 0 <= j < ids@.len() && ids@[j] == k.0->Entity_0.id;
                        assert(ids@.contains(k.0->Entity_0.id));
                    }
                }
            }
        }
    }
}


/// The indices in any of three bit sets, each once.
fn union_list(a: &BitSet, b: &BitSet, c: &BitSet) -> (r: Vec<u32>)
    requires
        forall|i: u32| #[trigger] members(*a).contains(i) ==> i < MAX_INDEX,
        forall|i: u32| #[trigger] members(*b).contains(i) ==> i < MAX_INDEX,
        forall|i: u32| #[trigger] members(*c).contains(i) ==> i < MAX_INDEX,
    ensures
        r@.no_duplicates(),
        forall|i: u32| #[trigger] r@.contains(i) == (members(*a).contains(i) || members(*b).contains(i) || members(*c).contains(i)),
{
    let mut u = bits_new();
    bits_union_into(&mut u, a);
    bits_union_into(&mut u, b);
    bits_union_into(&mut u, c);
    let r = bits_to_vec(&u);
    assert forall|i: u32| #[trigger] r@.contains(i) == (members(*a).contains(i) || members(*b).contains(i) || members(*c).contains(i)) by {
        assert(r@.to_set().contains(i) == r@.contains(i));
    }
    r
}

fn is_percent(c: Option<Coordinate>) -> (r: bool)
    ensures
        r == size_or_default(c) is Percent,
{
    match c {
        Some(Coordinate::Percent(_)) => true,
        _ => false,
    }
}

/// No change is flagged in the tables the pass reads, and the viewport, if
/// given, has the size last suggested.
pub open spec fn quiet(
    s: SolverSystem,
    viewport: Option<Viewport>,
    parents: &TrackStorage<Parent>,
    positions: &TrackStorage<Position>,
    bounds: &TrackStorage<Bounds>,
) -> bool {
    &&& positions.touched() == Set::<u32>::empty()
    &&& parents.touched() == Set::<u32>::empty()
    &&& parents.removed_set() == Set::<u32>::empty()
    &&& bounds.touched() == Set::<u32>::empty()
    &&& match viewport {
        Some(v) => s.dimensions() == (v.width, v.height),
        None => true,
    }
}

/// The constraint under `k` is one that a layout pass may set: an edge of
/// a live, contained element whose position or parent changed, the
/// alignment of a live, contained element whose position changed, or the
/// size of a live element with bounds whose bounds or parent changed.
/// Elements of kind `Free` get neither edges nor alignment.
pub open spec fn may_change(
    alive: Set<u32>,
    parents: &TrackStorage<Parent>,
    positions: &TrackStorage<Position>,
    bounds: &TrackStorage<Bounds>,
    k: Key,
) -> bool {
    match k.0 {
        KeyId::Entity(e) => {
            ||| is_edge(k.1) && dirty_position(parents, positions, e.id) && contained_live(alive, positions, e.id)
            ||| (k.1 is LeftAlign || k.1 is TopAlign) && positions.touched().contains(e.id)
                && contained_live(alive, positions, e.id)
            ||| (k.1 is Width || k.1 is Height) && dirty_bounds(parents, bounds, e.id) && sized_live(alive, bounds, e.id)
        },
        KeyId::Context => false,
    }
}

/// `id` is laid out by the pass: a live, contained element whose position
/// or parent changed, or a live element with bounds whose bounds or parent
/// changed.
pub open spec fn laid_out(
    alive: Set<u32>,
    parents: &TrackStorage<Parent>,
    positions: &TrackStorage<Position>,
    bounds: &TrackStorage<Bounds>,
    id: u32,
) -> bool {
    ||| dirty_position(parents, positions, id) && contained_live(alive, positions, id)
    ||| dirty_bounds(parents, bounds, id) && sized_live(alive, bounds, id)
}

/// What one layout pass does, when it runs: the registry keeps its
/// variables and issued operations; it takes the viewport's size; each
/// element whose position or parent changed is contained, each whose
/// position changed is aligned, each whose bounds or parent changed is
/// sized; constraints of the other elements are left as they were; and a
/// pass with nothing to do changes nothing.
pub open spec fn layout_pass(
    before: SolverSystem,
    after: SolverSystem,
    alive: Set<u32>,
    viewport: Option<Viewport>,
    parents: &TrackStorage<Parent>,
    positions: &TrackStorage<Position>,
    bounds: &TrackStorage<Bounds>,
) -> bool {
    &&& after.keeps(&before)
    &&& after.dimensions() == match viewport {
        Some(v) => (v.width, v.height),
        None => before.dimensions(),
    }
    &&& forall|id: u32| dirty_position(parents, positions, id)
        ==> #[trigger] position_done(after, alive, parents, positions, id)
    &&& forall|id: u32| positions.touched().contains(id)
        ==> #[trigger] align_done(after, alive, positions, id)
    &&& forall|id: u32| dirty_bounds(parents, bounds, id)
        ==> #[trigger] size_done(after, alive, parents, bounds, id)
    &&& forall|k: Key| !may_change(alive, parents, positions, bounds, k)
        ==> #[trigger] after.constraint_at(k) == before.constraint_at(k)
    &&& forall|k: Key| #[trigger] after.has_var(k) && !before.has_var(k)
        ==> made_for(alive, parents, Set::new(|x: u32| laid_out(alive, parents, positions, bounds, x)), k)
    &&& match viewport {
        Some(v) => before.dimensions() != (v.width, v.height) ==> {
            &&& after.has_var(context_key(Attr::ViewportWidth))
            &&& after.has_var(context_key(Attr::ViewportHeight))
            &&& issued(before, after, CommandView::SuggestValue(
                after.var(context_key(Attr::ViewportWidth)),
                v.width * UNITS_PER_PIXEL,
            ))
            &&& issued(before, after, CommandView::SuggestValue(
                after.var(context_key(Attr::ViewportHeight)),
                v.height * UNITS_PER_PIXEL,
            ))
        },
        None => true,
    }
    &&& quiet(before, viewport, parents, positions, bounds) ==> after == before
}

impl SolverSystem {
    /// One layout pass over what changed since the flags were last cleared.
    ///
    /// A new viewport size is suggested to the solver. Each live element whose
    /// position changed, or whose parent was set or taken away, is contained
    /// in its live parent, or in the viewport when it has none; elements of
    /// kind `Free` are left alone. Each live element whose position changed
    /// is weakly pulled to the origin. Each live element whose bounds or
    /// parent changed is sized by its bounds. Constraints of other elements
    /// stay as they were. When an element would need the viewport and none
    /// is given, nothing is done.
    #[verifier::rlimit(100)]
    pub fn run(
        &mut self,
        alive: &BitSet,
        viewport: Option<Viewport>,
        parents: &TrackStorage<Parent>,
        positions: &TrackStorage<Position>,
        bounds: &TrackStorage<Bounds>,
    ) -> (r: Result<(), LayoutError>)
        requires
            old(self).wf(),
            parents.wf(),
            positions.wf(),
            bounds.wf(),
        ensures
            final(self).wf(),
            r is Err == (viewport is None && exists|id: u32| needs_viewport(members(*alive), parents, bounds, id)),
            r is Err ==> *final(self) == *old(self),
            r matches Err(LayoutError::MissingViewport(e)) ==> needs_viewport(members(*alive), parents, bounds, e.id),
            r is Ok ==> layout_pass(*old(self), *final(self), members(*alive), viewport, parents, positions, bounds),
    {
        proof {
            parents.lemma_flags_in_range();
            positions.lemma_flags_in_range();
            bounds.lemma_flags_in_range();
        }
        let ghost live = members(*alive);
        let position_ids = union_list(positions.mask(), parents.mask(), parents.removed());
        let bounds_ids = union_list(bounds.mask(), parents.mask(), parents.removed());
        let ghost s_init = *self;
        assert(forall|x: u32| #[trigger] bounds_ids@.contains(x) == dirty_bounds(parents, bounds, x));
        assert(forall|x: u32| #[trigger] position_ids@.contains(x) == dirty_position(parents, positions, x));
        if viewport.is_none() {
            let mut i: usize = 0;
            while i < bounds_ids.len()
                invariant
                    i <= bounds_ids@.len(),
                    *self == s_init,
                    s_init == *old(self),
                    self.wf(),
                    viewport is None,
                    forall|x: u32| #[trigger] bounds_ids@.contains(x) == dirty_bounds(parents, bounds, x),
                    live == members(*alive),
                    forall|j: int| 0 <= j < i ==> !needs_viewport(live, parents, bounds, #[trigger] bounds_ids@[j]),
                decreases bounds_ids@.len() - i,
            {
                let id = bounds_ids[i];
                let e = Entity { id };
                if bits_contains(alive, id) {
                    match bounds.get(e) {
                        Some(b) => {
                            if parent_of(parents, alive, e).is_none() && (is_percent(b.width) || is_percent(b.height)) {
                                assert(bounds_ids@[i as int] == id);
                                assert(bounds_ids@.contains(id));
                                assert(dirty_bounds(parents, bounds, id));
                                assert(live.contains(id));
                                assert(bounds.at(id) is Some);
                                assert(live_parent(parents, live, id) is None);
                                assert(needs_viewport(live, parents, bounds, id));
                                return Err(LayoutError::MissingViewport(e));
                            }
                        },
                        None => {},
                    }
                }
                i += 1;
            }
            proof {
                assert forall|id: u32| !needs_viewport(live, parents, bounds, id) by {
                    if dirty_bounds(parents, bounds, id) {
                        assert(bounds_ids@.contains(id));
                        let j = choose|j: int| 0 <= j < bounds_ids@.len() && bounds_ids@[j] == id;
                        assert(!needs_viewport(live, parents, bounds, bounds_ids@[j]));
                    }
                }
            }
        }
        let ghost s0 = *self;
        match viewport {
            Some(v) => {
                let (width, height) = self.viewport_dimensions();
                if width != v.width || height != v.height {
                    self.suggest_viewport(v.width, v.height);
                }
            },
            None => {},
        }
        let ghost s1 = *self;
        proof {
            match viewport {
                Some(v) => if s0.dimensions() != (v.width, v.height) {
                    let n = s1.pending().len();
                    let w = s1.var(context_key(Attr::ViewportWidth));
                    let h = s1.var(context_key(Attr::ViewportHeight));
                    assert(s1.pending().subrange(n - 2, n as int) =~= seq![
                        CommandView::SuggestValue(w, v.width * UNITS_PER_PIXEL),
                        CommandView::SuggestValue(h, v.height * UNITS_PER_PIXEL),
                    ]);
                    assert(s1.pending()[n - 2] == CommandView::SuggestValue(w, v.width * UNITS_PER_PIXEL));
                    assert(s1.pending()[n - 1] == CommandView::SuggestValue(h, v.height * UNITS_PER_PIXEL));
                    assert(issued(s0, s1, CommandView::SuggestValue(w, v.width * UNITS_PER_PIXEL)));
                    assert(issued(s0, s1, CommandView::SuggestValue(h, v.height * UNITS_PER_PIXEL)));
                },
                None => {},
            }
        }
        let touched_ids = bits_to_vec(positions.mask());
        self.align_all(alive, positions, &touched_ids);
        let ghost s2 = *self;
        self.place_all(alive, parents, positions, &position_ids);
        let ghost s3 = *self;
        self.size_all(alive, parents, bounds, &bounds_ids);
        proof {
            self.lemma_keeps_vars(&s1);
            match viewport {
                Some(v) => if s0.dimensions() != (v.width, v.height) {
                    let w = s1.var(context_key(Attr::ViewportWidth));
                    let h = s1.var(context_key(Attr::ViewportHeight));
                    let xw = CommandView::SuggestValue(w, v.width * UNITS_PER_PIXEL);
                    let xh = CommandView::SuggestValue(h, v.height * UNITS_PER_PIXEL);
                    let iw = choose|i: int| s0.pending().len() <= i < s1.pending().len() && s1.pending()[i] == xw;
                    let ih = choose|i: int| s0.pending().len() <= i < s1.pending().len() && s1.pending()[i] == xh;
                    s2.lemma_keeps_trans(&s1, &s0);
                    s3.lemma_keeps_trans(&s2, &s1);
                    self.lemma_keeps_trans(&s3, &s1);
                    assert(self.pending()[iw] == xw);
                    assert(self.pending()[ih] == xh);
                },
                None => {},
            }
            s2.lemma_keeps_trans(&s1, &s0);
            s3.lemma_keeps_trans(&s2, &s0);
            self.lemma_keeps_trans(&s3, &s0);
            self.lemma_keeps_trans(&s3, &s2);
            s3.lemma_keeps_trans(&s2, &s1);
            self.lemma_keeps_trans(&s2, &s1);
            assert forall|id: u32| dirty_position(parents, positions, id)
                implies #[trigger] position_done(*self, live, parents, positions, id) by {
                assert(position_ids@.contains(id));
                if live.contains(id) && positions.at(id) is Some && positions.at(id)->Some_0.kind.is_contained() {
                    lemma_placed_kept(s3, *self, Entity { id }, live_parent(parents, live, id));
                }
            }
            assert forall|id: u32| positions.touched().contains(id)
                implies #[trigger] align_done(*self, live, positions, id) by {
                assert(touched_ids@.to_set().contains(id));
                assert(touched_ids@.contains(id));
                if live.contains(id) && positions.at(id) is Some && positions.at(id)->Some_0.kind.is_contained() {
                    lemma_aligned_kept(s2, s3, Entity { id });
                    lemma_aligned_kept(s3, *self, Entity { id });
                }
            }
            assert forall|id: u32| dirty_bounds(parents, bounds, id)
                implies #[trigger] size_done(*self, live, parents, bounds, id) by {
                assert(bounds_ids@.contains(id));
            }
            assert forall|k: Key| !may_change(live, parents, positions, bounds, k)
                implies #[trigger] self.constraint_at(k) == old(self).constraint_at(k) by {
                if k.0 is Entity {
                    let id = k.0->Entity_0.id;
                    if touched_ids@.contains(id) {
                        assert(touched_ids@.to_set().contains(id));
                    }
                    assert(position_ids@.contains(id) == dirty_position(parents, positions, id));
                    assert(bounds_ids@.contains(id) == dirty_bounds(parents, bounds, id));
                }
                assert(s1.constraint_at(k) == s0.constraint_at(k));
                assert(s2.constraint_at(k) == s1.constraint_at(k));
                assert(s3.constraint_at(k) == s2.constraint_at(k));
            }
            let chosen = Set::new(|x: u32| laid_out(live, parents, positions, bounds, x));
            let placed_set = Set::new(|x: u32| position_ids@.contains(x) && contained_live(live, positions, x));
            let sized_set = Set::new(|x: u32| bounds_ids@.contains(x) && sized_live(live, bounds, x));
            assert forall|k: Key| #[trigger] self.has_var(k) && !s0.has_var(k) implies made_for(live, parents, chosen, k) by {
                if !s1.has_var(k) {
                    if !s2.has_var(k) {
                        if !s3.has_var(k) {
                            assert(self.has_var(k) && !s3.has_var(k));
                            assert(made_for(live, parents, sized_set, k));
                            if k.0 is Entity && sized_set.contains(k.0->Entity_0.id) {
                                assert(chosen.contains(k.0->Entity_0.id));
                            }
                            if k.0 is Entity && exists|c: u32| #[trigger] sized_set.contains(c) && live_parent(parents, live, c) == Some(k.0->Entity_0) {
                                let c = choose|c: u32| #[trigger] sized_set.contains(c) && live_parent(parents, live, c) == Some(k.0->Entity_0);
                                assert(chosen.contains(c));
                            }
                        } else {
                            assert(s3.has_var(k) && !s2.has_var(k));
                            assert(made_for(live, parents, placed_set, k));
                            if k.0 is Entity && placed_set.contains(k.0->Entity_0.id) {
                                assert(chosen.contains(k.0->Entity_0.id));
                            }
                            if k.0 is Entity && exists|c: u32| #[trigger] placed_set.contains(c) && live_parent(parents, live, c) == Some(k.0->Entity_0) {
                                let c = choose|c: u32| #[trigger] placed_set.contains(c) && live_parent(parents, live, c) == Some(k.0->Entity_0);
                                assert(chosen.contains(c));
                            }
                        }
                    } else {
                        assert(s2.has_var(k) && !s1.has_var(k));
                        if k.0 is Entity && touched_ids@.contains(k.0->Entity_0.id) {
                            assert(touched_ids@.to_set().contains(k.0->Entity_0.id));
                            assert(chosen.contains(k.0->Entity_0.id));
                        }
                    }
                } else {
                    assert(s1.has_var(k) && !s0.has_var(k));
                    let j = choose|j: int| 0 <= j < s1.keys().len() && s1.keys()[j] == k;
                    assert(s1.keys() == s0.keys() + viewport_keys_added(s0));
                    if j < s0.keys().len() {
                        assert(s0.keys()[j] == k);
                    } else {
                        let added = viewport_keys_added(s0);
                        assert(added[j - s0.keys().len()] == k);
                        assert(added.len() <= 2);
                        assert(k == context_key(Attr::ViewportWidth) || k == context_key(Attr::ViewportHeight));
                    }
                }
            }
            if quiet(*old(self), viewport, parents, positions, bounds) {
                assert(touched_ids@.len() == 0) by {
                    if touched_ids@.len() > 0 {
                        assert(touched_ids@.to_set().contains(touched_ids@[0]));
                    }
                }
                assert(position_ids@.len() == 0) by {
                    if position_ids@.len() > 0 {
                        assert(position_ids@.contains(position_ids@[0]));
                    }
                }
                assert(bounds_ids@.len() == 0) by {
                    if bounds_ids@.len() > 0 {
                        assert(bounds_ids@.contains(bounds_ids@[0]));
                    }
                }
            }
        }
        Ok(())
    }
}

} // verus!
