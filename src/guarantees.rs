//! What the passes guarantee together, stated over the registry's
//! constraints and over any values that satisfy them.

use vstd::prelude::*;
use crate::class::{Bounds, Children, Coordinate, Entity, Parent, Position, Viewport, PERCENT_WHOLE};
use crate::constraint::{Term, Variable, holds, lemma_sum_of_small};
use crate::layout::{
    Axis, contained_in_parent, contained_in_viewport, dirty_position, extent_rule, extent_set,
    layout_pass, lemma_placed_kept, live_parent, may_change, position_done,
};
use crate::solver::{Attr, CommandView, Key, SolverSystem, context_key, entity_key, is_edge, issued};
use crate::systems::children::{children_synced, listed};
use crate::track::TrackStorage;

verus! {

/// Every required constraint of the registry holds under `value`: what a
/// solver's answer meets whenever it reports no conflict.
pub open spec fn meets_required(s: SolverSystem, value: spec_fn(Variable) -> int) -> bool {
    forall|k: Key| #[trigger] s.constraint_at(k) is Some && s.constraint_at(k)->Some_0.strength is Required
        ==> holds(s.constraint_at(k)->Some_0, value)
}

/// Every live element held inside its containing box is contained in its
/// live parent, or in the viewport when it has none.
pub open spec fn layout_consistent(
    s: SolverSystem,
    alive: Set<u32>,
    parents: &TrackStorage<Parent>,
    positions: &TrackStorage<Position>,
) -> bool {
    forall|id: u32| #[trigger] position_done(s, alive, parents, positions, id)
}

proof fn lemma_unit_coefficients(x: int)
    ensures
        1 * x == x,
        (-1) * x == -x,
{
    assert(1 * x == x) by (nonlinear_arith);
    assert((-1) * x == -x) by (nonlinear_arith);
}

/// An element contained in its parent lies inside the parent's box in any
/// values that meet the required constraints.
pub proof fn contained_child_within_parent(s: SolverSystem, e: Entity, p: Entity, value: spec_fn(Variable) -> int)
    requires
        contained_in_parent(s, e, p),
        meets_required(s, value),
    ensures
        value(s.edge(e, Attr::LeftBound)) >= value(s.edge(p, Attr::LeftBound)),
        value(s.edge(e, Attr::RightBound)) <= value(s.edge(p, Attr::RightBound)),
        value(s.edge(e, Attr::UpperBound)) >= value(s.edge(p, Attr::UpperBound)),
        value(s.edge(e, Attr::LowerBound)) <= value(s.edge(p, Attr::LowerBound)),
{
    let one = Term { var: s.edge(e, Attr::LeftBound), coeff: 1 };
    lemma_sum_of_small(value, one, one, one, one);
    lemma_unit_coefficients(value(s.edge(e, Attr::LeftBound)));
    lemma_unit_coefficients(value(s.edge(e, Attr::RightBound)));
    lemma_unit_coefficients(value(s.edge(e, Attr::UpperBound)));
    lemma_unit_coefficients(value(s.edge(e, Attr::LowerBound)));
    lemma_unit_coefficients(value(s.edge(p, Attr::LeftBound)));
    lemma_unit_coefficients(value(s.edge(p, Attr::RightBound)));
    lemma_unit_coefficients(value(s.edge(p, Attr::UpperBound)));
    lemma_unit_coefficients(value(s.edge(p, Attr::LowerBound)));
    lemma_sum_of_small(value, Term { var: s.edge(e, Attr::LeftBound), coeff: 1 }, Term { var: s.edge(p, Attr::LeftBound), coeff: (-1) as i64 }, one, one);
    lemma_sum_of_small(value, Term { var: s.edge(e, Attr::RightBound), coeff: 1 }, Term { var: s.edge(p, Attr::RightBound), coeff: (-1) as i64 }, one, one);
    lemma_sum_of_small(value, Term { var: s.edge(e, Attr::UpperBound), coeff: 1 }, Term { var: s.edge(p, Attr::UpperBound), coeff: (-1) as i64 }, one, one);
    lemma_sum_of_small(value, Term { var: s.edge(e, Attr::LowerBound), coeff: 1 }, Term { var: s.edge(p, Attr::LowerBound), coeff: (-1) as i64 }, one, one);
    assert(s.constraint_at(entity_key(e, Attr::LeftBound)) is Some);
    assert(s.constraint_at(entity_key(e, Attr::RightBound)) is Some);
    assert(s.constraint_at(entity_key(e, Attr::UpperBound)) is Some);
    assert(s.constraint_at(entity_key(e, Attr::LowerBound)) is Some);
}

/// An element without a parent lies inside `[0, viewport width] x
/// [0, viewport height]` in any values that meet the required constraints.
pub proof fn root_within_viewport(s: SolverSystem, e: Entity, value: spec_fn(Variable) -> int)
    requires
        contained_in_viewport(s, e),
        meets_required(s, value),
    ensures
        value(s.edge(e, Attr::LeftBound)) >= 0,
        value(s.edge(e, Attr::RightBound)) <= value(s.var(context_key(Attr::ViewportWidth))),
        value(s.edge(e, Attr::UpperBound)) >= 0,
        value(s.edge(e, Attr::LowerBound)) <= value(s.var(context_key(Attr::ViewportHeight))),
{
    let vw = s.var(context_key(Attr::ViewportWidth));
    let vh = s.var(context_key(Attr::ViewportHeight));
    let one = Term { var: s.edge(e, Attr::LeftBound), coeff: 1 };
    lemma_unit_coefficients(value(s.edge(e, Attr::LeftBound)));
    lemma_unit_coefficients(value(s.edge(e, Attr::RightBound)));
    lemma_unit_coefficients(value(s.edge(e, Attr::UpperBound)));
    lemma_unit_coefficients(value(s.edge(e, Attr::LowerBound)));
    lemma_unit_coefficients(value(vw));
    lemma_unit_coefficients(value(vh));
    lemma_sum_of_small(value, Term { var: s.edge(e, Attr::LeftBound), coeff: 1 }, one, one, one);
    lemma_sum_of_small(value, Term { var: s.edge(e, Attr::UpperBound), coeff: 1 }, one, one, one);
    lemma_sum_of_small(value, Term { var: s.edge(e, Attr::RightBound), coeff: 1 }, Term { var: vw, coeff: (-1) as i64 }, one, one);
    lemma_sum_of_small(value, Term { var: s.edge(e, Attr::LowerBound), coeff: 1 }, Term { var: vh, coeff: (-1) as i64 }, one, one);
    assert(s.constraint_at(entity_key(e, Attr::LeftBound)) is Some);
    assert(s.constraint_at(entity_key(e, Attr::RightBound)) is Some);
    assert(s.constraint_at(entity_key(e, Attr::UpperBound)) is Some);
    assert(s.constraint_at(entity_key(e, Attr::LowerBound)) is Some);
}

/// A layout pass keeps every live element contained, provided the tables
/// flag every change: an element whose position and parent were not
/// flagged has the same ones as at the previous pass.
pub proof fn pass_keeps_layout_consistent(
    before: SolverSystem,
    after: SolverSystem,
    alive: Set<u32>,
    viewport: Option<Viewport>,
    earlier_parents: &TrackStorage<Parent>,
    earlier_positions: &TrackStorage<Position>,
    parents: &TrackStorage<Parent>,
    positions: &TrackStorage<Position>,
    bounds: &TrackStorage<Bounds>,
)
    requires
        before.wf(),
        layout_consistent(before, alive, earlier_parents, earlier_positions),
        forall|id: u32| !dirty_position(parents, positions, id) ==> #[trigger] parents.at(id) == earlier_parents.at(id)
            && positions.at(id) == earlier_positions.at(id),
        layout_pass(before, after, alive, viewport, parents, positions, bounds),
    ensures
        layout_consistent(after, alive, parents, positions),
{
    assert forall|id: u32| #[trigger] position_done(after, alive, parents, positions, id) by {
        if !dirty_position(parents, positions, id) {
            assert(parents.at(id) == earlier_parents.at(id));
            assert(position_done(before, alive, earlier_parents, earlier_positions, id));
            let e = Entity { id };
            if alive.contains(id) && positions.at(id) is Some && positions.at(id)->Some_0.kind.is_contained() {
                assert forall|a: Attr| is_edge(a) implies after.constraint_at(entity_key(e, a)) == before.constraint_at(entity_key(e, a)) by {
                    assert(!may_change(alive, parents, positions, bounds, entity_key(e, a)));
                }
                lemma_placed_kept(before, after, e, live_parent(parents, alive, id));
            }
        }
    }
}

/// Under a fraction `n` (in millionths) of its parent, an element's extent
/// is that fraction of the parent's extent, in any values that meet the
/// extent constraint.
pub proof fn fraction_of_parent_extent(
    s: SolverSystem,
    e: Entity,
    p: Entity,
    n: i32,
    x: Axis,
    value: spec_fn(Variable) -> int,
)
    requires
        extent_set(s, e, Coordinate::Percent(n), Some(p), x),
        holds(extent_rule(s, e, Coordinate::Percent(n), Some(p), x), value),
    ensures
        PERCENT_WHOLE * (value(s.edge(e, x.hi)) - value(s.edge(e, x.lo)))
            == n * (value(s.edge(p, x.hi)) - value(s.edge(p, x.lo))),
{
    let a = value(s.edge(e, x.hi));
    let b = value(s.edge(e, x.lo));
    let c = value(s.edge(p, x.hi));
    let d = value(s.edge(p, x.lo));
    lemma_sum_of_small(
        value,
        Term { var: s.edge(e, x.hi), coeff: PERCENT_WHOLE },
        Term { var: s.edge(e, x.lo), coeff: (-PERCENT_WHOLE) as i64 },
        Term { var: s.edge(p, x.hi), coeff: (-n) as i64 },
        Term { var: s.edge(p, x.lo), coeff: n as i64 },
    );
    let w = PERCENT_WHOLE as int;
    let m = n as int;
    assert(w * a + (-w) * b + (-m) * c + m * d == 0);
    assert(w * (a - b) == m * (c - d)) by (nonlinear_arith)
        requires
            w * a + (-w) * b + (-m) * c + m * d == 0,
    ;
}

/// Without a parent, an element's extent under a fraction `n` (in
/// millionths) is that fraction of the viewport's extent, in any values
/// that meet the extent constraint.
pub proof fn fraction_of_viewport_extent(
    s: SolverSystem,
    e: Entity,
    n: i32,
    x: Axis,
    value: spec_fn(Variable) -> int,
)
    requires
        extent_set(s, e, Coordinate::Percent(n), None, x),
        holds(extent_rule(s, e, Coordinate::Percent(n), None, x), value),
    ensures
        PERCENT_WHOLE * (value(s.edge(e, x.hi)) - value(s.edge(e, x.lo)))
            == n * value(s.var(context_key(x.whole))),
{
    let a = value(s.edge(e, x.hi));
    let b = value(s.edge(e, x.lo));
    let c = value(s.var(context_key(x.whole)));
    let one = Term { var: s.edge(e, x.hi), coeff: 1 };
    lemma_sum_of_small(
        value,
        Term { var: s.edge(e, x.hi), coeff: PERCENT_WHOLE },
        Term { var: s.edge(e, x.lo), coeff: (-PERCENT_WHOLE) as i64 },
        Term { var: s.var(context_key(x.whole)), coeff: (-n) as i64 },
        one,
    );
    let w = PERCENT_WHOLE as int;
    let m = n as int;
    assert(w * a + (-w) * b + (-m) * c == 0);
    assert(w * (a - b) == m * c) by (nonlinear_arith)
        requires
            w * a + (-w) * b + (-m) * c == 0,
    ;
}

/// A pass over tables with no flagged change, under a viewport of the size
/// last suggested, changes nothing and issues no operation for the solver.
pub proof fn idle_pass_changes_nothing(
    before: SolverSystem,
    after: SolverSystem,
    alive: Set<u32>,
    viewport: Viewport,
    parents: &TrackStorage<Parent>,
    positions: &TrackStorage<Position>,
    bounds: &TrackStorage<Bounds>,
)
    requires
        layout_pass(before, after, alive, Some(viewport), parents, positions, bounds),
        before.dimensions() == (viewport.width, viewport.height),
        parents.unflagged(),
        positions.unflagged(),
        bounds.unflagged(),
    ensures
        after == before,
        after.pending() == before.pending(),
{
}

/// Of two passes under the same viewport, the second, once the flags have
/// been cleared and nothing changed, leaves the registry as the first left
/// it: no operation reaches the solver, so no value changes.
pub proof fn second_pass_is_idle(
    s0: SolverSystem,
    s1: SolverSystem,
    s2: SolverSystem,
    alive: Set<u32>,
    viewport: Viewport,
    parents: &TrackStorage<Parent>,
    positions: &TrackStorage<Position>,
    bounds: &TrackStorage<Bounds>,
    cleared_parents: &TrackStorage<Parent>,
    cleared_positions: &TrackStorage<Position>,
    cleared_bounds: &TrackStorage<Bounds>,
)
    requires
        layout_pass(s0, s1, alive, Some(viewport), parents, positions, bounds),
        cleared_parents.unflagged(),
        cleared_positions.unflagged(),
        cleared_bounds.unflagged(),
        layout_pass(s1, s2, alive, Some(viewport), cleared_parents, cleared_positions, cleared_bounds),
    ensures
        s2 == s1,
{
}

/// When an element's `Parent` is set to a new parent, the children pass
/// takes it off the list of any other element and puts it on the new
/// parent's list.
pub proof fn reparenting_moves_child(
    parents: &TrackStorage<Parent>,
    before: &TrackStorage<Children>,
    after: &TrackStorage<Children>,
    e: Entity,
    old_parent: u32,
    new_parent: u32,
)
    requires
        children_synced(parents, before, after),
        parents.at(e.id) is Some,
        parents.at(e.id)->Some_0.entity.id == new_parent,
        parents.touched().contains(e.id),
        old_parent != new_parent,
    ensures
        !listed(after, old_parent, e),
        listed(after, new_parent, e),
{
}

/// After a pass, an element whose `Parent` was set to a live parent is
/// bounded by that parent's edges, and by no other element's.
pub proof fn reparented_element_bounded_by_new_parent(
    before: SolverSystem,
    after: SolverSystem,
    alive: Set<u32>,
    viewport: Option<Viewport>,
    parents: &TrackStorage<Parent>,
    positions: &TrackStorage<Position>,
    bounds: &TrackStorage<Bounds>,
    e: Entity,
    new_parent: Entity,
)
    requires
        layout_pass(before, after, alive, viewport, parents, positions, bounds),
        parents.touched().contains(e.id),
        alive.contains(e.id),
        positions.at(e.id) is Some,
        positions.at(e.id)->Some_0.kind.is_contained(),
        live_parent(parents, alive, e.id) == Some(new_parent),
    ensures
        contained_in_parent(after, e, new_parent),
        forall|a: Attr| is_edge(a) && #[trigger] before.constraint_at(entity_key(e, a)) is Some
            && before.constraint_at(entity_key(e, a)) != after.constraint_at(entity_key(e, a))
            ==> issued(before, after, CommandView::RemoveConstraint(before.constraint_at(entity_key(e, a))->Some_0)),
{
    assert(position_done(after, alive, parents, positions, e.id));
}

} // verus!
