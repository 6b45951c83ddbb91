//! Resolves positions and bounds straight against the viewport, without
//! the solver.

use vstd::prelude::*;
use hibitset::BitSet;
use crate::bits::{MAX_INDEX, members, bits_new, bits_contains, bits_to_vec, bits_union_into};
use crate::class::{
    AbsolutePosition, Bounds, Coordinate, Entity, Position, Viewport, DEFAULT_SIZE, PERCENT_WHOLE,
    UNITS_PER_PIXEL, offset_or_default, size_or_default,
};
use crate::track::TrackStorage;

verus! {

/// `a / d`, rounded toward zero.
pub open spec fn div_toward_zero(a: int, d: int) -> int {
    if a >= 0 {
        a / d
    } else {
        -((-a) / d)
    }
}

/// A coordinate resolved against a containing length of `parent` device
/// pixels, in layout units; a fraction is rounded toward zero.
pub open spec fn resolve_against(parent: u32, c: Coordinate) -> i64 {
    match c {
        Coordinate::Pixel(x) => x,
        Coordinate::Percent(p) => div_toward_zero(parent * UNITS_PER_PIXEL * p, PERCENT_WHOLE as int) as i64,
    }
}

/// Resolves a coordinate against a containing length of `parent` device pixels.
pub fn relative_parent(parent: u32, coordinate: Coordinate) -> (r: i64)
    ensures
        r == resolve_against(parent, coordinate),
{
    match coordinate {
        Coordinate::Percent(percent) => {
            let units: i128 = UNITS_PER_PIXEL as i128;
            assert(units == 1000);
            let whole = parent as i128 * units;
            assert(0 <= whole <= 4294967295 * 1000);
            assert(-2147483648 <= percent <= 2147483647);
            assert(-4294967295000 * 2147483648 <= whole * percent <= 4294967295000 * 2147483648) by (nonlinear_arith)
                requires
                    0 <= whole <= 4294967295000,
                    -2147483648 <= percent <= 2147483647,
            ;
            let product = whole * percent as i128;
            let q = if product >= 0 {
                product / PERCENT_WHOLE as i128
            } else {
                -((-product) / PERCENT_WHOLE as i128)
            };
            assert(-4294967295000 * 2147483648 / 1000000 <= q <= 4294967295000 * 2147483648 / 1000000);
            q as i64
        },
        Coordinate::Pixel(pixel) => pixel,
    }
}

/// The box an element resolves to against the viewport: its position
/// (the origin when it has none, an absent coordinate at zero) and its
/// bounds (the default size when it has none, or for an absent one).
/// The stacking order is kept.
pub open spec fn resolved(v: Viewport, pos: Option<Position>, b: Option<Bounds>, prior: AbsolutePosition) -> AbsolutePosition {
    AbsolutePosition {
        x: match pos {
            Some(p) => resolve_against(v.width, offset_or_default(p.x)),
            None => 0,
        },
        y: match pos {
            Some(p) => resolve_against(v.height, offset_or_default(p.y)),
            None => 0,
        },
        width: match b {
            Some(b) => resolve_against(v.width, size_or_default(b.width)),
            None => DEFAULT_SIZE,
        },
        height: match b {
            Some(b) => resolve_against(v.height, size_or_default(b.height)),
            None => DEFAULT_SIZE,
        },
        z: prior.z,
    }
}

/// Whether `id` is resolved again this tick: it is alive, its position or
/// bounds were touched, and it holds an `AbsolutePosition`.
pub open spec fn due(
    alive: Set<u32>,
    positions: &TrackStorage<Position>,
    bounds: &TrackStorage<Bounds>,
    absolutes: &TrackStorage<AbsolutePosition>,
    id: u32,
) -> bool {
    &&& alive.contains(id)
    &&& (positions.touched().contains(id) || bounds.touched().contains(id))
    &&& absolutes@.contains_key(id)
}

fn offset(c: Option<Coordinate>) -> (r: Coordinate)
    ensures
        r == offset_or_default(c),
{
    match c {
        Some(c) => c,
        None => Coordinate::Pixel(0),
    }
}

fn size_of(c: Option<Coordinate>) -> (r: Coordinate)
    ensures
        r == size_or_default(c),
{
    match c {
        Some(c) => c,
        None => Coordinate::Pixel(DEFAULT_SIZE),
    }
}

/// Computes the `AbsolutePosition` of elements straight from their
/// position and bounds, relative to the viewport.
pub struct PositionSystem;

impl PositionSystem {
    /// Clears the flags of the absolute positions, rewrites the absolute
    /// position of each element that is due, then clears the flags of the
    /// positions and bounds it has consumed.
    pub fn run(
        &mut self,
        alive: &BitSet,
        viewport: &Viewport,
        positions: &mut TrackStorage<Position>,
        bounds: &mut TrackStorage<Bounds>,
        absolutes: &mut TrackStorage<AbsolutePosition>,
    )
        requires
            old(positions).wf(),
            old(bounds).wf(),
            old(absolutes).wf(),
        ensures
            final(positions).wf(),
            final(bounds).wf(),
            final(absolutes).wf(),
            final(positions)@ == old(positions)@,
            final(bounds)@ == old(bounds)@,
            final(positions).unflagged(),
            final(bounds).unflagged(),
            final(absolutes)@.dom() == old(absolutes)@.dom(),
            forall|id: u32| #[trigger] final(absolutes).at(id) == if due(members(*alive), old(positions), old(bounds), old(absolutes), id) {
                Some(resolved(*viewport, old(positions).at(id), old(bounds).at(id), old(absolutes)@[id]))
            } else {
                old(absolutes).at(id)
            },
            forall|id: u32| #[trigger] final(absolutes).touched().contains(id)
                == due(members(*alive), old(positions), old(bounds), old(absolutes), id),
            final(absolutes).inserted_set() == Set::<u32>::empty(),
            final(absolutes).removed_set() == Set::<u32>::empty(),
    {
        absolutes.clear_flags();
        proof {
            positions.lemma_flags_in_range();
            bounds.lemma_flags_in_range();
        }
        let mut filter = bits_new();
        bits_union_into(&mut filter, positions.mask());
        bits_union_into(&mut filter, bounds.mask());
        let ids = bits_to_vec(&filter);
        proof {
            assert forall|x: u32| #[trigger] ids@.contains(x) == (positions.touched().contains(x) || bounds.touched().contains(x)) by {
                assert(ids@.to_set().contains(x) == ids@.contains(x));
            }
        }
        let ghost live = members(*alive);
        let ghost start = *absolutes;
        let mut i: usize = 0;
        while i < ids.len()
            invariant
                i <= ids@.len(),
                ids@.no_duplicates(),
                forall|x: u32| #[trigger] ids@.contains(x) == (positions.touched().contains(x) || bounds.touched().contains(x)),
                forall|x: u32| #[trigger] ids@.contains(x) ==> x < MAX_INDEX,
                live == members(*alive),
                absolutes.wf(),
                start.unflagged(),
                absolutes@.dom() == start@.dom(),
                forall|id: u32| #[trigger] absolutes.at(id) == if (exists|j: int| 0 <= j < i && ids@[j] == id)
                    && due(live, positions, bounds, &start, id) {
                    Some(resolved(*viewport, positions.at(id), bounds.at(id), start@[id]))
                } else {
                    start.at(id)
                },
                forall|id: u32| #[trigger] absolutes.touched().contains(id)
                    == ((exists|j: int| 0 <= j < i && ids@[j] == id) && due(live, positions, bounds, &start, id)),
                absolutes.inserted_set() == Set::<u32>::empty(),
                absolutes.removed_set() == Set::<u32>::empty(),
            decreases ids@.len() - i,
        {
            let id = ids[i];
            let e = Entity { id };
            assert(ids@.contains(id));
            let ghost before = *absolutes;
            proof {
                assert(!(exists|j: int| 0 <= j < i && ids@[j] == id)) by {
                    if exists|j: int| 0 <= j < i && ids@[j] == id {
                        let j = choose|j: int| 0 <= j < i && ids@[j] == id;
                        assert(ids@[j] == ids@[i as int]);
                    }
                }
                assert(before.at(id) == start.at(id));
                assert(!before.touched().contains(id));
            }
            if bits_contains(alive, id) {
                let (x, y) = match positions.get(e) {
                    Some(position) => (
                        relative_parent(viewport.width, offset(position.x)),
                        relative_parent(viewport.height, offset(position.y)),
                    ),
                    None => (0, 0),
                };
                let (width, height) = match bounds.get(e) {
                    Some(b) => (
                        relative_parent(viewport.width, size_of(b.width)),
                        relative_parent(viewport.height, size_of(b.height)),
                    ),
                    None => (DEFAULT_SIZE, DEFAULT_SIZE),
                };
                assert(x == resolved(*viewport, positions.at(id), bounds.at(id), start@[id]).x);
                assert(y == resolved(*viewport, positions.at(id), bounds.at(id), start@[id]).y);
                assert(width == resolved(*viewport, positions.at(id), bounds.at(id), start@[id]).width);
                assert(height == resolved(*viewport, positions.at(id), bounds.at(id), start@[id]).height);
                match absolutes.get_mut(e) {
                    Some(absolute) => {
                        absolute.x = x;
                        absolute.y = y;
                        absolute.width = width;
                        absolute.height = height;
                    },
                    None => {},
                }
                proof {
                    if start@.contains_key(id) {
                        assert(before.at(id) == start.at(id));
                        assert(absolutes@[id] == resolved(*viewport, positions.at(id), bounds.at(id), start@[id]));
                    }
                }
            }
            proof {
                assert(absolutes.at(id) == if due(live, positions, bounds, &start, id) {
                    Some(resolved(*viewport, positions.at(id), bounds.at(id), start@[id]))
                } else {
                    start.at(id)
                });
                assert forall|q: u32| q != id implies #[trigger] absolutes.at(q) == before.at(q) by {
                    assert(absolutes@.contains_key(q) == before@.contains_key(q));
                }
                assert forall|q: u32| #[trigger] absolutes.at(q) == if (exists|j: int| 0 <= j < i + 1 && ids@[j] == q)
                    && due(live, positions, bounds, &start, q) {
                    Some(resolved(*viewport, positions.at(q), bounds.at(q), start@[q]))
                } else {
                    start.at(q)
                } by {
                    if q == id {
                        assert(ids@[i as int] == q);
                    } else if exists|j: int| 0 <= j < i + 1 && ids@[j] == q {
                        let j = choose|j: int| 0 <= j < i + 1 && ids@[j] == q;
                        assert(j < i);
                    }
                }
                assert forall|q: u32| #[trigger] absolutes.touched().contains(q)
                    == ((exists|j: int| 0 <= j < i + 1 && ids@[j] == q) && due(live, positions, bounds, &start, q)) by {
                    if q == id {
                        assert(ids@[i as int] == q);
                        assert(!(exists|j: int| 0 <= j < i && ids@[j] == q)) by {
                            if exists|j: int| 0 <= j < i && ids@[j] == q {
                                let j = choose|j: int| 0 <= j < i && ids@[j] == q;
                                assert(ids@[j] == ids@[i as int]);
                            }
                        }
                    } else if exists|j: int| 0 <= j < i + 1 && ids@[j] == q {
                        let j = choose|j: int| 0 <= j < i + 1 && ids@[j] == q;
                        assert(j < i);
                    }
                }
            }
            i += 1;
        }
        proof {
            assert forall|q: u32| (positions.touched().contains(q) || bounds.touched().contains(q))
                implies exists|j: int| 0 <= j < ids@.len() && ids@[j] == q by {
                assert(ids@.contains(q));
            }
        }
        positions.clear_flags();
        bounds.clear_flags();
    }
}

} // verus!
