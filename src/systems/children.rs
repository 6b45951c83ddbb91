//! Keeps the `Children` of each element in step with the `Parent`
//! components that point at it.

use vstd::prelude::*;
use crate::bits::{MAX_INDEX, bits_to_vec};
use crate::class::{Children, Entity, Parent};
use crate::track::TrackStorage;

verus! {

/// `c` names `p` as its parent.
pub open spec fn is_child_of(parents: &TrackStorage<Parent>, c: u32, p: u32) -> bool {
    parents.at(c) is Some && parents.at(c)->Some_0.entity.id == p
}

/// `p` is named as parent by an element whose `Parent` was touched.
pub open spec fn newly_named(parents: &TrackStorage<Parent>, p: u32) -> bool {
    exists|e: u32| #[trigger] parents.touched().contains(e) && is_child_of(parents, e, p)
}

/// The children listed for `p`, if it has a list.
pub open spec fn listed(children: &TrackStorage<Children>, p: u32, c: Entity) -> bool {
    children.at(p) is Some && children.at(p)->Some_0@.contains(c)
}

/// The list of `p`, where there is one, has no repeated entry.
pub open spec fn distinct_at(children: &TrackStorage<Children>, p: u32) -> bool {
    children.at(p) is Some ==> children.at(p)->Some_0@.no_duplicates()
}

/// Each parent's list, after the pass: the entries already there, and the
/// elements whose `Parent` was touched and names it, less those that no
/// longer name it; a parent gets a list when one of its children is touched.
pub open spec fn children_synced(
    parents: &TrackStorage<Parent>,
    before: &TrackStorage<Children>,
    after: &TrackStorage<Children>,
) -> bool {
    &&& forall|p: u32| #[trigger] after@.contains_key(p) == (before@.contains_key(p) || newly_named(parents, p))
    &&& forall|p: u32, c: Entity| #[trigger] listed(after, p, c) == (is_child_of(parents, c.id, p)
        && (listed(before, p, c) || parents.touched().contains(c.id)))
    &&& forall|p: u32| distinct_at(before, p) ==> #[trigger] distinct_at(after, p)
    &&& forall|p: u32| #[trigger] after@.contains_key(p) ==> ordered_after(parents, before, after, p)
}

/// Whether an entry names `p` as its parent.
pub open spec fn child_filter(parents: &TrackStorage<Parent>, p: u32) -> spec_fn(Entity) -> bool {
    |c: Entity| is_child_of(parents, c.id, p)
}

/// The list of `p`, or an empty one where it has none.
pub open spec fn list_of(children: &TrackStorage<Children>, p: u32) -> Seq<Entity> {
    if children@.contains_key(p) {
        children@[p]@
    } else {
        Seq::empty()
    }
}

/// The list of `p` after the pass: its old entries that still name it, in
/// their order, followed by entries that were not in it before.
pub open spec fn ordered_after(
    parents: &TrackStorage<Parent>,
    before: &TrackStorage<Children>,
    after: &TrackStorage<Children>,
    p: u32,
) -> bool {
    exists|n: Seq<Entity>| #![auto]
        after@[p]@ == list_of(before, p).filter(child_filter(parents, p)) + n
        && forall|c: Entity| n.contains(c) ==> !list_of(before, p).contains(c)
}

/// The list of `p` is its list in `before` followed by new entries, each
/// naming `p` as parent and not in the old list.
pub open spec fn grown_by_children(
    parents: &TrackStorage<Parent>,
    before: &TrackStorage<Children>,
    now: &TrackStorage<Children>,
    p: u32,
) -> bool {
    exists|n: Seq<Entity>| #![auto]
        now@[p]@ == list_of(before, p) + n
        && forall|c: Entity| n.contains(c) ==> !list_of(before, p).contains(c) && is_child_of(parents, c.id, p)
}

proof fn lemma_filter_push(s: Seq<Entity>, x: Entity, pred: spec_fn(Entity) -> bool)
    ensures
        s.push(x).filter(pred) == if pred(x) {
            s.filter(pred).push(x)
        } else {
            s.filter(pred)
        },
{
    reveal(Seq::filter);
    assert(s.push(x).drop_last() =~= s);
}

proof fn lemma_filter_keeps_all(s: Seq<Entity>, pred: spec_fn(Entity) -> bool)
    requires
        forall|i: int| 0 <= i < s.len() ==> pred(#[trigger] s[i]),
    ensures
        s.filter(pred) == s,
    decreases s.len(),
{
    reveal(Seq::filter);
    if s.len() > 0 {
        lemma_filter_keeps_all(s.drop_last(), pred);
        assert(s.drop_last().push(s.last()) =~= s);
    }
}

proof fn lemma_filter_full_length(s: Seq<Entity>, pred: spec_fn(Entity) -> bool)
    requires
        s.filter(pred).len() >= s.len(),
    ensures
        s.filter(pred) == s,
    decreases s.len(),
{
    reveal(Seq::filter);
    if s.len() > 0 {
        s.drop_last().lemma_filter_len(pred);
        lemma_filter_full_length(s.drop_last(), pred);
        assert(s.drop_last().push(s.last()) =~= s);
    }
}

/// The entries of `list` whose parent is still `p`.
fn still_children(parents: &TrackStorage<Parent>, list: &Vec<Entity>, p: u32) -> (r: Vec<Entity>)
    ensures
        r@ == list@.filter(child_filter(parents, p)),
        forall|c: Entity| #[trigger] r@.contains(c) == (list@.contains(c) && is_child_of(parents, c.id, p)),
        list@.no_duplicates() ==> r@.no_duplicates(),
        r@.len() >= list@.len() ==> forall|j: int| 0 <= j < list@.len() ==> is_child_of(parents, (#[trigger] list@[j]).id, p),
{
    let mut r: Vec<Entity> = Vec::new();
    let mut i: usize = 0;
    let ghost mut all_kept = true;
    while i < list.len()
        invariant
            i <= list@.len(),
            forall|c: Entity| #[trigger] r@.contains(c) == ((exists|j: int| 0 <= j < i && list@[j] == c) && is_child_of(parents, c.id, p)),
            list@.no_duplicates() ==> r@.no_duplicates(),
            forall|k: int| 0 <= k < r@.len() ==> exists|j: int| 0 <= j < i && list@[j] == #[trigger] r@[k],
            r@ == list@.subrange(0, i as int).filter(child_filter(parents, p)),
            r@.len() <= i,
            all_kept ==> forall|j: int| 0 <= j < i ==> is_child_of(parents, (#[trigger] list@[j]).id, p),
            !all_kept ==> r@.len() < i,
        decreases list@.len() - i,
    {
        let c = list[i];
        let keep = match parents.get(c) {
            Some(par) => par.entity.id == p,
            None => false,
        };
        let ghost prev = r@;
        proof {
            assert(list@.subrange(0, i + 1) =~= list@.subrange(0, i as int).push(c));
            lemma_filter_push(list@.subrange(0, i as int), c, child_filter(parents, p));
        }
        if keep {
            proof {
                if list@.no_duplicates() {
                    assert(!prev.contains(c)) by {
                        if prev.contains(c) {
                            let k = choose|k: int| 0 <= k < prev.len() && prev[k] == c;
                            let j = choose|j: int| 0 <= j < i && list@[j] == prev[k];
                            assert(list@[j] == list@[i as int]);
                        }
                    }
                }
            }
            r.push(c);
        } else {
            proof {
                all_kept = false;
            }
        }
        proof {
            assert forall|c2: Entity| #[trigger] r@.contains(c2) == ((exists|j: int| 0 <= j < i + 1 && list@[j] == c2) && is_child_of(parents, c2.id, p)) by {
                if r@.contains(c2) {
                    let k = choose|k: int| 0 <= k < r@.len() && r@[k] == c2;
                    if k < prev.len() {
                        assert(prev.contains(c2));
                    }
                }
                if (exists|j: int| 0 <= j < i + 1 && list@[j] == c2) && is_child_of(parents, c2.id, p) {
                    let j = choose|j: int| 0 <= j < i + 1 && list@[j] == c2;
                    if j < i {
                        assert(prev.contains(c2));
                        let k = choose|k: int| 0 <= k < prev.len() && prev[k] == c2;
                        assert(r@[k] == c2);
                    } else {
                        assert(r@[r@.len() - 1] == c2);
                    }
                }
            }
            if list@.no_duplicates() && keep {
                assert forall|a: int, b: int| 0 <= a < b < r@.len() implies r@[a] != r@[b] by {
                    if b == r@.len() - 1 {
                        assert(prev.contains(r@[a]));
                    }
                }
            }
            assert forall|k: int| 0 <= k < r@.len() implies exists|j: int| 0 <= j < i + 1 && list@[j] == #[trigger] r@[k] by {
                if k < prev.len() {
                    let j = choose|j: int| 0 <= j < i && list@[j] == prev[k];
                    assert(list@[j] == r@[k]);
                } else {
                    assert(list@[i as int] == r@[k]);
                }
            }
        }
        i += 1;
    }
    assert(list@.subrange(0, list@.len() as int) =~= list@);
    r
}

proof fn lemma_push_contains(s: Seq<Entity>, x: Entity, y: Entity)
    ensures
        s.push(x).contains(y) == (s.contains(y) || x == y),
{
    if s.contains(y) {
        let j = choose|j: int| 0 <= j < s.len() && s[j] == y;
        assert(s.push(x)[j] == y);
    }
    if x == y {
        assert(s.push(x)[s.len() as int] == y);
    }
    if s.push(x).contains(y) {
        let j = choose|j: int| 0 <= j < s.len() + 1 && s.push(x)[j] == y;
        if j < s.len() {
            assert(s[j] == y);
        }
    }
}

fn contains_entity(v: &Vec<Entity>, e: Entity) -> (r: bool)
    ensures
        r == v@.contains(e),
{
    let mut i: usize = 0;
    while i < v.len()
        invariant
            i <= v@.len(),
            forall|j: int| 0 <= j < i ==> v@[j] != e,
        decreases v@.len() - i,
    {
        if v[i] == e {
            assert(v@[i as int] == e);
            return true;
        }
        i += 1;
    }
    false
}

/// Maintains the `Children` lists from the `Parent` components.
pub struct ChildrenSystem;

impl ChildrenSystem {
    /// Appends each element whose `Parent` was touched to its parent's list
    /// (making the list when there is none), then drops from every list the
    /// entries whose parent is no longer that element.
    pub fn run(&mut self, parents: &TrackStorage<Parent>, children: &mut TrackStorage<Children>)
        requires
            parents.wf(),
            old(children).wf(),
            forall|e: u32| #[trigger] parents@.contains_key(e) ==> parents@[e].entity.id < MAX_INDEX,
        ensures
            final(children).wf(),
            children_synced(parents, old(children), final(children)),
    {
        let touched = bits_to_vec(parents.mask());
        let ghost start = *children;
        proof {
            assert forall|p: u32| #[trigger] children@.contains_key(p) implies grown_by_children(parents, &start, children, p) by {
                assert(children@[p]@ =~= list_of(&start, p) + Seq::<Entity>::empty());
            }
        }
        let mut i: usize = 0;
        while i < touched.len()
            invariant
                i <= touched@.len(),
                touched@.to_set() == parents.touched(),
                children.wf(),
                forall|e: u32| #[trigger] parents@.contains_key(e) ==> parents@[e].entity.id < MAX_INDEX,
                forall|p: u32| #[trigger] children@.contains_key(p) == (start@.contains_key(p)
                    || exists|j: int| 0 <= j < i && is_child_of(parents, #[trigger] touched@[j], p)),
                forall|p: u32, c: Entity| #[trigger] listed(children, p, c) == (listed(&start, p, c)
                    || exists|j: int| 0 <= j < i && c.id == #[trigger] touched@[j] && is_child_of(parents, c.id, p)),
                forall|p: u32| distinct_at(&start, p) ==> #[trigger] distinct_at(children, p),
                forall|p: u32| #[trigger] children@.contains_key(p) ==> grown_by_children(parents, &start, children, p),
            decreases touched@.len() - i,
        {
            let e = Entity { id: touched[i] };
            let ghost before = *children;
            match parents.get(e) {
                Some(par) => {
                    let p = par.entity;
                    if !children.contains(p) {
                        children.insert(p, Children::new());
                    }
                    let ghost made = *children;
                    let already = match children.get(p) {
                        Some(list) => contains_entity(list.entities(), e),
                        None => false,
                    };
                    if !already {
                        match children.get_mut(p) {
                            Some(list) => list.push(e),
                            None => {},
                        }
                    }
                    proof {
                        assert(made@[p.id]@ == if before@.contains_key(p.id) {
                            before@[p.id]@
                        } else {
                            Seq::<Entity>::empty()
                        });
                        assert(children@[p.id]@ == if already {
                            made@[p.id]@
                        } else {
                            made@[p.id]@.push(e)
                        });
                        assert(touched@[i as int] == e.id);
                        assert forall|c: Entity| #[trigger] listed(children, p.id, c) == (listed(&before, p.id, c) || c == e) by {
                            lemma_push_contains(made@[p.id]@, e, c);
                        }
                        assert forall|q: u32| #[trigger] children@.contains_key(q) == (start@.contains_key(q)
                            || exists|j: int| 0 <= j < i + 1 && is_child_of(parents, #[trigger] touched@[j], q)) by {
                            if q == p.id {
                                assert(is_child_of(parents, touched@[i as int], q));
                            } else if exists|j: int| 0 <= j < i + 1 && is_child_of(parents, #[trigger] touched@[j], q) {
                                let j = choose|j: int| 0 <= j < i + 1 && is_child_of(parents, #[trigger] touched@[j], q);
                                assert(j < i);
                            }
                        }
                        assert forall|q: u32, c: Entity| #[trigger] listed(children, q, c) == (listed(&start, q, c)
                            || exists|j: int| 0 <= j < i + 1 && c.id == #[trigger] touched@[j] && is_child_of(parents, c.id, q)) by {
                            if q == p.id && c == e {
                                assert(is_child_of(parents, touched@[i as int], q));
                            } else {
                                if q != p.id {
                                    assert(children@.contains_key(q) == before@.contains_key(q));
                                    assert(children@.contains_key(q) ==> children@[q] == before@[q]);
                                }
                                assert(listed(children, q, c) == listed(&before, q, c));
                                if exists|j: int| 0 <= j < i + 1 && c.id == #[trigger] touched@[j] && is_child_of(parents, c.id, q) {
                                    let j = choose|j: int| 0 <= j < i + 1 && c.id == #[trigger] touched@[j] && is_child_of(parents, c.id, q);
                                    if j == i {
                                        assert(q == p.id);
                                    }
                                }
                            }
                        }
                        assert forall|q: u32| distinct_at(&start, q) implies #[trigger] distinct_at(children, q) by {
                            assert(distinct_at(&before, q));
                            if q == p.id && !already {
                                let l = made@[p.id]@;
                                assert(children@[q]@ == l.push(e));
                                assert forall|a: int, b: int| 0 <= a < b < l.len() + 1 implies l.push(e)[a] != l.push(e)[b] by {
                                    if b == l.len() {
                                        assert(l.contains(l[a]));
                                    }
                                }
                            }
                        }
                        assert forall|q: u32| #[trigger] children@.contains_key(q) implies grown_by_children(parents, &start, children, q) by {
                            if q != p.id {
                                assert(children@[q] == before@[q]);
                                assert(grown_by_children(parents, &start, &before, q));
                            } else {
                                let ghost n0: Seq<Entity> = if before@.contains_key(q) {
                                    choose|n: Seq<Entity>| #![auto] before@[q]@ == list_of(&start, q) + n
                                        && forall|c: Entity| n.contains(c) ==> !list_of(&start, q).contains(c) && is_child_of(parents, c.id, q)
                                } else {
                                    Seq::empty()
                                };
                                if !before@.contains_key(q) {
                                    assert(!start@.contains_key(q));
                                    assert(made@[q]@ =~= list_of(&start, q) + n0);
                                } else {
                                    assert(grown_by_children(parents, &start, &before, q));
                                }
                                assert(made@[q]@ == list_of(&start, q) + n0);
                                let n1 = if already { n0 } else { n0.push(e) };
                                if !already {
                                    assert(children@[q]@ =~= list_of(&start, q) + n1);
                                    assert forall|c: Entity| n1.contains(c) implies !list_of(&start, q).contains(c) && is_child_of(parents, c.id, q) by {
                                        lemma_push_contains(n0, e, c);
                                        if c == e {
                                            if list_of(&start, q).contains(c) {
                                                let j = choose|j: int| 0 <= j < list_of(&start, q).len() && list_of(&start, q)[j] == c;
                                                assert(made@[q]@[j] == c);
                                            }
                                        }
                                    }
                                } else {
                                    assert(children@[q]@ == list_of(&start, q) + n1);
                                }
                                assert(grown_by_children(parents, &start, children, q));
                            }
                        }
                    }
                },
                None => {
                    proof {
                        assert forall|q: u32| #[trigger] children@.contains_key(q) implies grown_by_children(parents, &start, children, q) by {
                            assert(grown_by_children(parents, &start, &before, q));
                        }
                        assert forall|q: u32| #[trigger] children@.contains_key(q) == (start@.contains_key(q)
                            || exists|j: int| 0 <= j < i + 1 && is_child_of(parents, #[trigger] touched@[j], q)) by {
                            if exists|j: int| 0 <= j < i + 1 && is_child_of(parents, #[trigger] touched@[j], q) {
                                let j = choose|j: int| 0 <= j < i + 1 && is_child_of(parents, #[trigger] touched@[j], q);
                                assert(j < i);
                            }
                        }
                        assert forall|q: u32, c: Entity| #[trigger] listed(children, q, c) == (listed(&start, q, c)
                            || exists|j: int| 0 <= j < i + 1 && c.id == #[trigger] touched@[j] && is_child_of(parents, c.id, q)) by {
                            if exists|j: int| 0 <= j < i + 1 && c.id == #[trigger] touched@[j] && is_child_of(parents, c.id, q) {
                                let j = choose|j: int| 0 <= j < i + 1 && c.id == #[trigger] touched@[j] && is_child_of(parents, c.id, q);
                                assert(j < i);
                            }
                        }
                    }
                },
            }
            i += 1;
        }
        let ghost mid = *children;
        let ids = children.ids();
        proof {
            children.lemma_dom_in_range();
            assert forall|j: int| 0 <= j < ids@.len() implies #[trigger] ids@[j] < MAX_INDEX by {
                assert(ids@.to_set().contains(ids@[j]));
            }
        }
        let mut k: usize = 0;
        while k < ids.len()
            invariant
                k <= ids@.len(),
                ids@.no_duplicates(),
                ids@.to_set() == mid@.dom(),
                forall|j: int| 0 <= j < ids@.len() ==> #[trigger] ids@[j] < MAX_INDEX,
                children.wf(),
                forall|p: u32| #[trigger] children@.contains_key(p) == mid@.contains_key(p),
                forall|p: u32, c: Entity| #[trigger] listed(children, p, c) == (listed(&mid, p, c)
                    && (is_child_of(parents, c.id, p) || !(exists|j: int| 0 <= j < k && ids@[j] == p))),
                forall|p: u32| distinct_at(&mid, p) ==> #[trigger] distinct_at(children, p),
                forall|q: u32| #[trigger] children@.contains_key(q) ==> children@[q]@ == if exists|j: int| 0 <= j < k && ids@[j] == q {
                    mid@[q]@.filter(child_filter(parents, q))
                } else {
                    mid@[q]@
                },
            decreases ids@.len() - k,
        {
            let p = Entity { id: ids[k] };
            let ghost before = *children;
            assert(ids@.to_set().contains(p.id));
            let kept = match children.get(p) {
                Some(list) => {
                    let kept = still_children(parents, list.entities(), p.id);
                    if kept.len() < list.entities().len() {
                        Some(kept)
                    } else {
                        None
                    }
                },
                None => None,
            };
            match kept {
                Some(kept) => {
                    match children.get_mut(p) {
                        Some(list) => {
                            *list = Children::from_vec(kept);
                        },
                        None => {},
                    }
                },
                None => {},
            }
            proof {
                assert(!(exists|j: int| 0 <= j < k && ids@[j] == p.id)) by {
                    if exists|j: int| 0 <= j < k && ids@[j] == p.id {
                        let j = choose|j: int| 0 <= j < k && ids@[j] == p.id;
                        assert(ids@[j] == ids@[k as int]);
                    }
                }
                if kept is None && before@.contains_key(p.id) {
                    lemma_filter_full_length(before@[p.id]@, child_filter(parents, p.id));
                }
                assert forall|q: u32| #[trigger] children@.contains_key(q) implies children@[q]@ == if exists|j: int| 0 <= j < k + 1 && ids@[j] == q {
                    mid@[q]@.filter(child_filter(parents, q))
                } else {
                    mid@[q]@
                } by {
                    if q != p.id {
                        assert(children@[q] == before@[q]);
                        if exists|j: int| 0 <= j < k + 1 && ids@[j] == q {
                            let j = choose|j: int| 0 <= j < k + 1 && ids@[j] == q;
                            assert(j < k);
                        }
                    } else {
                        assert(ids@[k as int] == q);
                    }
                }
                assert forall|q: u32| distinct_at(&mid, q) implies #[trigger] distinct_at(children, q) by {
                    assert(distinct_at(&before, q));
                }
                assert forall|q: u32, c: Entity| #[trigger] listed(children, q, c) == (listed(&mid, q, c)
                    && (is_child_of(parents, c.id, q) || !(exists|j: int| 0 <= j < k + 1 && ids@[j] == q))) by {
                    if q == p.id {
                        assert(ids@[k as int] == q);
                        assert(!(exists|j: int| 0 <= j < k && ids@[j] == q)) by {
                            if exists|j: int| 0 <= j < k && ids@[j] == q {
                                let j = choose|j: int| 0 <= j < k && ids@[j] == q;
                                assert(ids@[j] == ids@[k as int]);
                            }
                        }
                        if listed(&before, q, c) {
                            let l = before@[q]@;
                            let j = choose|j: int| 0 <= j < l.len() && l[j] == c;
                            assert(is_child_of(parents, l[j].id, q) || kept is Some);
                        }
                    } else {
                        assert(listed(children, q, c) == listed(&before, q, c));
                        if exists|j: int| 0 <= j < k + 1 && ids@[j] == q {
                            let j = choose|j: int| 0 <= j < k + 1 && ids@[j] == q;
                            assert(j < k);
                        }
                    }
                }
            }
            k += 1;
        }
        proof {
            assert forall|p: u32| #[trigger] children@.contains_key(p) implies ordered_after(parents, &start, children, p) by {
                assert(grown_by_children(parents, &start, &mid, p));
                let n = choose|n: Seq<Entity>| #![auto] mid@[p]@ == list_of(&start, p) + n
                    && forall|c: Entity| n.contains(c) ==> !list_of(&start, p).contains(c) && is_child_of(parents, c.id, p);
                assert(ids@.to_set().contains(p));
                let j = choose|j: int| 0 <= j < ids@.len() && ids@[j] == p;
                assert(children@[p]@ == mid@[p]@.filter(child_filter(parents, p)));
                Seq::filter_distributes_over_add(list_of(&start, p), n, child_filter(parents, p));
                assert forall|i: int| 0 <= i < n.len() implies (child_filter(parents, p))(#[trigger] n[i]) by {
                    assert(n.contains(n[i]));
                }
                lemma_filter_keeps_all(n, child_filter(parents, p));
                assert(children@[p]@ == list_of(&start, p).filter(child_filter(parents, p)) + n);
            }
            assert forall|p: u32| #[trigger] children@.contains_key(p) == (start@.contains_key(p) || newly_named(parents, p)) by {
                if exists|j: int| 0 <= j < touched@.len() && is_child_of(parents, #[trigger] touched@[j], p) {
                    let j = choose|j: int| 0 <= j < touched@.len() && is_child_of(parents, #[trigger] touched@[j], p);
                    assert(touched@.to_set().contains(touched@[j]));
                    assert(parents.touched().contains(touched@[j]));
                }
                if newly_named(parents, p) {
                    let e = choose|e: u32| #[trigger] parents.touched().contains(e) && is_child_of(parents, e, p);
                    assert(touched@.to_set().contains(e));
                    let j = choose|j: int| 0 <= j < touched@.len() && touched@[j] == e;
                    assert(is_child_of(parents, touched@[j], p));
                }
            }
            assert forall|p: u32, c: Entity| #[trigger] listed(children, p, c) == (is_child_of(parents, c.id, p)
                && (listed(&start, p, c) || parents.touched().contains(c.id))) by {
                if listed(children, p, c) {
                    assert(mid@.contains_key(p));
                    assert(ids@.to_set().contains(p));
                    let j = choose|j: int| 0 <= j < ids@.len() && ids@[j] == p;
                    assert(exists|j: int| 0 <= j < ids@.len() && ids@[j] == p);
                }
                if exists|j: int| 0 <= j < touched@.len() && c.id == #[trigger] touched@[j] && is_child_of(parents, c.id, p) {
                    let j = choose|j: int| 0 <= j < touched@.len() && c.id == #[trigger] touched@[j] && is_child_of(parents, c.id, p);
                    assert(touched@.to_set().contains(touched@[j]));
                }
                if is_child_of(parents, c.id, p) && parents.touched().contains(c.id) {
                    assert(touched@.to_set().contains(c.id));
                    let j = choose|j: int| 0 <= j < touched@.len() && touched@[j] == c.id;
                    assert(c.id == touched@[j]);
                    assert(listed(&mid, p, c));
                }
            }
        }
    }
}

} // verus!
