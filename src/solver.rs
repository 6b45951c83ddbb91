//! The variable registry and the layout pass that turns what changed in
//! the component tables into constraints for the solver.

use vstd::prelude::*;
use crate::class::{Entity, UNITS_PER_PIXEL};
use crate::constraint::{Constraint, LinearConstraint, Strength, Variable};

verus! {

/// What a solver variable belongs to: an element, or the shared context.
#[derive(Clone, Copy, Debug, PartialEq, Eq, Hash, Structural)]
pub enum KeyId {
    Entity(Entity),
    Context,
}

/// The attributes that variables and constraints are kept under.
#[derive(Clone, Copy, Debug, PartialEq, Eq, Hash, Structural)]
pub enum Attr {
    LeftBound,
    RightBound,
    UpperBound,
    LowerBound,
    Width,
    Height,
    LeftAlign,
    TopAlign,
    ViewportWidth,
    ViewportHeight,
}

/// Names a solver variable, or the constraint kept for one purpose.
#[derive(Clone, Copy, Debug, PartialEq, Eq, Hash, Structural)]
pub struct Key(pub KeyId, pub Attr);

pub open spec fn entity_key(e: Entity, a: Attr) -> Key {
    Key(KeyId::Entity(e), a)
}

pub open spec fn context_key(a: Attr) -> Key {
    Key(KeyId::Context, a)
}

/// The four edges of an element's box.
pub open spec fn is_edge(a: Attr) -> bool {
    a is LeftBound || a is RightBound || a is UpperBound || a is LowerBound
}

/// An operation for the solver, in the order the registry issued it.
#[derive(Clone, Debug, PartialEq, Eq)]
pub enum Command {
    /// Let the variable take suggested values, held at this strength.
    AddEditVariable(Variable, Strength),
    /// Suggest a value, in layout units, for an edit variable.
    SuggestValue(Variable, i64),
    AddConstraint(Constraint),
    RemoveConstraint(Constraint),
}

/// The mathematical content of a [`Command`].
pub enum CommandView {
    AddEditVariable(Variable, Strength),
    SuggestValue(Variable, int),
    AddConstraint(LinearConstraint),
    RemoveConstraint(LinearConstraint),
}

impl Command {
    pub open spec fn view(&self) -> CommandView {
        match self {
            Command::AddEditVariable(v, s) => CommandView::AddEditVariable(*v, *s),
            Command::SuggestValue(v, x) => CommandView::SuggestValue(*v, *x as int),
            Command::AddConstraint(c) => CommandView::AddConstraint(c@),
            Command::RemoveConstraint(c) => CommandView::RemoveConstraint(c@),
        }
    }
}

/// Why a layout pass refused to run.
#[derive(Clone, Copy, Debug, PartialEq, Eq, Structural)]
pub enum LayoutError {
    /// This element asks for a fraction of the viewport, and no viewport was given.
    MissingViewport(Entity),
}

/// `tail` is the last part of `s`.
pub open spec fn ends_with(s: Seq<CommandView>, tail: Seq<CommandView>) -> bool {
    s.len() >= tail.len() && s.subrange(s.len() - tail.len(), s.len() as int) == tail
}

pub open spec fn edit_commands(v: Variable, strength: Option<Strength>) -> Seq<CommandView> {
    match strength {
        Some(s) => seq![CommandView::AddEditVariable(v, s)],
        None => Seq::empty(),
    }
}

/// `x` is among the operations issued between two states.
pub open spec fn issued(before: SolverSystem, after: SolverSystem, x: CommandView) -> bool {
    exists|i: int| before.pending().len() <= i < after.pending().len() && after.pending()[i] == x
}

/// The change of the constraint under `k` was announced: the one held
/// before was taken back, and the one held after was added.
pub open spec fn announced_at(before: SolverSystem, after: SolverSystem, k: Key) -> bool {
    &&& before.constraint_at(k) is Some ==> issued(before, after, CommandView::RemoveConstraint(before.constraint_at(k)->Some_0))
    &&& after.constraint_at(k) is Some ==> issued(before, after, CommandView::AddConstraint(after.constraint_at(k)->Some_0))
}

/// Every constraint that changed between two states was announced.
pub open spec fn announced(before: SolverSystem, after: SolverSystem) -> bool {
    forall|k: Key| #[trigger] after.constraint_at(k) != before.constraint_at(k) ==> announced_at(before, after, k)
}

/// The viewport keys a registry does not have yet, width first.
pub open spec fn viewport_keys_added(s: SolverSystem) -> Seq<Key> {
    (if s.has_var(context_key(Attr::ViewportWidth)) {
        Seq::empty()
    } else {
        seq![context_key(Attr::ViewportWidth)]
    }) + (if s.has_var(context_key(Attr::ViewportHeight)) {
        Seq::empty()
    } else {
        seq![context_key(Attr::ViewportHeight)]
    })
}

/// The edit strengths of the viewport variables a registry does not have yet.
pub open spec fn viewport_edits_added(s: SolverSystem) -> Seq<Option<Strength>> {
    viewport_keys_added(s).map_values(|k: Key| Some(Strength::NearlyRequired))
}

/// What suggesting a viewport size issues: each viewport variable that is
/// new is made an edit variable, then both get the size in layout units.
pub open spec fn viewport_commands(before: SolverSystem, after: SolverSystem, width: u32, height: u32) -> Seq<CommandView> {
    let w = after.var(context_key(Attr::ViewportWidth));
    let h = after.var(context_key(Attr::ViewportHeight));
    (if before.has_var(context_key(Attr::ViewportWidth)) {
        Seq::empty()
    } else {
        seq![CommandView::AddEditVariable(w, Strength::NearlyRequired)]
    }) + (if before.has_var(context_key(Attr::ViewportHeight)) {
        Seq::empty()
    } else {
        seq![CommandView::AddEditVariable(h, Strength::NearlyRequired)]
    }) + seq![
        CommandView::SuggestValue(w, width * UNITS_PER_PIXEL),
        CommandView::SuggestValue(h, height * UNITS_PER_PIXEL),
    ]
}

/// A registry as made: the two viewport variables, in that order, as edit
/// variables that have been suggested 300 by 300 pixels, and no constraint.
pub open spec fn fresh_registry(r: SolverSystem) -> bool {
    &&& r.dimensions() == (300u32, 300u32)
    &&& r.keys() == seq![context_key(Attr::ViewportWidth), context_key(Attr::ViewportHeight)]
    &&& r.edit_strengths() == seq![Some(Strength::NearlyRequired), Some(Strength::NearlyRequired)]
    &&& r.pending() == seq![
        CommandView::AddEditVariable(Variable(0), Strength::NearlyRequired),
        CommandView::AddEditVariable(Variable(1), Strength::NearlyRequired),
        CommandView::SuggestValue(Variable(0), 300000),
        CommandView::SuggestValue(Variable(1), 300000),
    ]
    &&& forall|k: Key| r.constraint_at(k) is None
}

/// Keeps the solver variable of each key, the constraint currently held
/// under each key, the viewport size last told to the solver, and the
/// operations not yet handed to the solver.
pub struct SolverSystem {
    dimensions: (u32, u32),
    keys: Vec<Key>,
    edits: Vec<Option<Strength>>,
    constraint_keys: Vec<Key>,
    constraints: Vec<Constraint>,
    pending: Vec<Command>,
}

proof fn lemma_index_of(s: Seq<Key>, i: int)
    requires
        s.no_duplicates(),
        0 <= i < s.len(),
    ensures
        s.index_of(s[i]) == i,
{
    assert(s[i] == s[i]);
    let j = s.index_of(s[i]);
    assert(0 <= j < s.len() && s[j] == s[i]);
}

fn find_key(v: &Vec<Key>, key: &Key) -> (r: Option<usize>)
    ensures
        r is None ==> !v@.contains(*key),
        r is Some ==> r->Some_0 < v@.len() && v@[r->Some_0 as int] == *key,
{
    let mut i: usize = 0;
    while i < v.len()
        invariant
            i <= v@.len(),
            forall|j: int| 0 <= j < i ==> v@[j] != *key,
        decreases v@.len() - i,
    {
        if v[i] == *key {
            return Some(i);
        }
        i += 1;
    }
    None
}

impl SolverSystem {
    pub closed spec fn wf(&self) -> bool {
        &&& self.keys@.no_duplicates()
        &&& self.edits@.len() == self.keys@.len()
        &&& self.constraint_keys@.no_duplicates()
        &&& self.constraint_keys@.len() == self.constraints@.len()
    }

    /// The key of each variable, by the variable's index.
    pub closed spec fn keys(&self) -> Seq<Key> {
        self.keys@
    }

    /// The edit strength of each variable, by the variable's index; `None`
    /// for a variable that takes no suggested values.
    pub closed spec fn edit_strengths(&self) -> Seq<Option<Strength>> {
        self.edits@
    }

    /// The viewport size, in device pixels, last suggested to the solver.
    pub closed spec fn dimensions(&self) -> (u32, u32) {
        self.dimensions
    }

    /// The operations issued and not yet taken.
    pub closed spec fn pending(&self) -> Seq<CommandView> {
        self.pending@.map_values(|c: Command| c@)
    }

    /// The constraint held under a key.
    pub closed spec fn constraint_at(&self, k: Key) -> Option<LinearConstraint> {
        if self.constraint_keys@.contains(k) {
            Some(self.constraints@[self.constraint_keys@.index_of(k)]@)
        } else {
            None
        }
    }

    pub open spec fn has_var(&self, k: Key) -> bool {
        self.keys().contains(k)
    }

    /// The variable of a key that has one.
    pub open spec fn var(&self, k: Key) -> Variable {
        Variable(self.keys().index_of(k) as usize)
    }

    /// The edit strength of the variable of a key that has one.
    pub open spec fn edit_strength(&self, k: Key) -> Option<Strength> {
        self.edit_strengths()[self.keys().index_of(k)]
    }

    pub open spec fn edge(&self, e: Entity, a: Attr) -> Variable {
        self.var(entity_key(e, a))
    }

    /// What a later state keeps of an earlier one: every variable with its
    /// edit strength, the issued operations as a prefix; and each constraint
    /// that changed in between was announced to the solver.
    pub open spec fn keeps(&self, earlier: &SolverSystem) -> bool {
        &&& self.wf()
        &&& earlier.keys().is_prefix_of(self.keys())
        &&& earlier.edit_strengths().is_prefix_of(self.edit_strengths())
        &&& earlier.pending().is_prefix_of(self.pending())
        &&& announced(*earlier, *self)
    }

    pub proof fn lemma_keeps_vars(&self, earlier: &SolverSystem)
        requires
            earlier.wf(),
            self.keeps(earlier),
        ensures
            forall|k: Key| #[trigger] earlier.has_var(k) ==> self.has_var(k) && self.var(k) == earlier.var(k)
                && self.edit_strength(k) == earlier.edit_strength(k),
    {
        assert forall|k: Key| #[trigger] earlier.has_var(k) implies self.has_var(k) && self.var(k) == earlier.var(k)
            && self.edit_strength(k) == earlier.edit_strength(k) by {
            let i = earlier.keys().index_of(k);
            lemma_index_of(earlier.keys(), i);
            assert(self.keys()[i] == k);
            lemma_index_of(self.keys(), i);
        }
    }

    pub proof fn lemma_keeps_trans(&self, mid: &SolverSystem, earlier: &SolverSystem)
        requires
            mid.keeps(earlier),
            self.keeps(mid),
        ensures
            self.keeps(earlier),
    {
        assert forall|x: CommandView| issued(*earlier, *mid, x) implies issued(*earlier, *self, x) by {
            let i = choose|i: int| earlier.pending().len() <= i < mid.pending().len() && mid.pending()[i] == x;
            assert(self.pending()[i] == x);
        }
        assert forall|x: CommandView| issued(*mid, *self, x) implies issued(*earlier, *self, x) by {
            let i = choose|i: int| mid.pending().len() <= i < self.pending().len() && self.pending()[i] == x;
            assert(self.pending()[i] == x);
        }
        assert forall|k: Key| #[trigger] self.constraint_at(k) != earlier.constraint_at(k) implies announced_at(*earlier, *self, k) by {
            if mid.constraint_at(k) != earlier.constraint_at(k) {
                assert(announced_at(*earlier, *mid, k));
            }
            if self.constraint_at(k) != mid.constraint_at(k) {
                assert(announced_at(*mid, *self, k));
            }
        }
    }

    /// An empty registry; the viewport variables are made and suggested
    /// a size of 300 by 300 pixels.
    pub fn new() -> (r: SolverSystem)
        ensures
            r.wf(),
            fresh_registry(r),
    {
        let mut r = SolverSystem {
            dimensions: (0, 0),
            keys: Vec::new(),
            edits: Vec::new(),
            constraint_keys: Vec::new(),
            constraints: Vec::new(),
            pending: Vec::new(),
        };
        proof {
            assert(r.keys() =~= Seq::<Key>::empty());
            assert(r.edit_strengths() =~= Seq::<Option<Strength>>::empty());
            assert(r.pending() =~= Seq::<CommandView>::empty());
        }
        r.setup();
        proof {
            let w = context_key(Attr::ViewportWidth);
            let h = context_key(Attr::ViewportHeight);
            assert(r.keys() =~= seq![w, h]);
            assert(r.edit_strengths() =~= seq![Some(Strength::NearlyRequired), Some(Strength::NearlyRequired)]);
            lemma_index_of(r.keys(), 0);
            lemma_index_of(r.keys(), 1);
            assert(r.pending() =~= seq![
                CommandView::AddEditVariable(Variable(0), Strength::NearlyRequired),
                CommandView::AddEditVariable(Variable(1), Strength::NearlyRequired),
                CommandView::SuggestValue(Variable(0), 300000),
                CommandView::SuggestValue(Variable(1), 300000),
            ]);
        }
        r
    }

    fn setup(&mut self)
        requires
            old(self).wf(),
        ensures
            final(self).wf(),
            final(self).dimensions() == (300u32, 300u32),
            final(self).keys() == old(self).keys() + viewport_keys_added(*old(self)),
            final(self).edit_strengths() == old(self).edit_strengths() + viewport_edits_added(*old(self)),
            final(self).pending() == old(self).pending() + viewport_commands(*old(self), *final(self), 300, 300),
            forall|k: Key| final(self).constraint_at(k) == old(self).constraint_at(k),
    {
        self.suggest_viewport(300, 300);
    }

    /// Records the viewport size and suggests it, in layout units, to the two
    /// viewport edit variables.
    pub fn suggest_viewport(&mut self, width: u32, height: u32)
        requires
            old(self).wf(),
        ensures
            final(self).keeps(old(self)),
            final(self).dimensions() == (width, height),
            forall|k: Key| final(self).constraint_at(k) == old(self).constraint_at(k),
            final(self).has_var(context_key(Attr::ViewportWidth)),
            final(self).has_var(context_key(Attr::ViewportHeight)),
            final(self).keys() == old(self).keys() + viewport_keys_added(*old(self)),
            final(self).edit_strengths() == old(self).edit_strengths() + viewport_edits_added(*old(self)),
            final(self).pending() == old(self).pending() + viewport_commands(*old(self), *final(self), width, height),
            ends_with(final(self).pending(), seq![
                CommandView::SuggestValue(final(self).var(context_key(Attr::ViewportWidth)), width * UNITS_PER_PIXEL),
                CommandView::SuggestValue(final(self).var(context_key(Attr::ViewportHeight)), height * UNITS_PER_PIXEL),
            ]),
    {
        self.dimensions = (width, height);
        let ghost start = *self;
        assert(forall|k: Key| start.constraint_at(k) == old(self).constraint_at(k));
        let w = self.fill_variable(&Key(KeyId::Context, Attr::ViewportWidth), Some(Strength::NearlyRequired));
        let ghost mid = *self;
        let h = self.fill_variable(&Key(KeyId::Context, Attr::ViewportHeight), Some(Strength::NearlyRequired));
        proof {
            self.lemma_keeps_vars(&mid);
        }
        proof {
            let wk = context_key(Attr::ViewportWidth);
            let hk = context_key(Attr::ViewportHeight);
            assert(self.keys() =~= old(self).keys() + viewport_keys_added(*old(self)));
            assert(self.edit_strengths() =~= old(self).edit_strengths() + viewport_edits_added(*old(self)));
            assert(self.pending() =~= old(self).pending() + edit_commands(w, if old(self).has_var(wk) {
                None
            } else {
                Some(Strength::NearlyRequired)
            }) + edit_commands(h, if old(self).has_var(hk) {
                None
            } else {
                Some(Strength::NearlyRequired)
            }));
        }
        let ghost before = self.pending();
        let ghost filled = *self;
        self.pending.push(Command::SuggestValue(w, width as i64 * UNITS_PER_PIXEL));
        self.pending.push(Command::SuggestValue(h, height as i64 * UNITS_PER_PIXEL));
        proof {
            let tail = seq![
                CommandView::SuggestValue(w, width * UNITS_PER_PIXEL),
                CommandView::SuggestValue(h, height * UNITS_PER_PIXEL),
            ];
            assert(self.pending() =~= before + tail);
            assert(self.pending().subrange(self.pending().len() - 2, self.pending().len() as int) =~= tail);
            assert forall|k: Key| self.constraint_at(k) == old(self).constraint_at(k) by {
                assert(self.constraint_at(k) == filled.constraint_at(k));
                assert(filled.constraint_at(k) == mid.constraint_at(k));
                assert(mid.constraint_at(k) == start.constraint_at(k));
            }
        }
    }

    /// The viewport size, in device pixels, last suggested to the solver.
    pub fn viewport_dimensions(&self) -> (r: (u32, u32))
        ensures
            r == self.dimensions(),
    {
        self.dimensions
    }

    /// The key of a variable, when this registry made it.
    pub fn key_of(&self, v: Variable) -> (r: Option<Key>)
        ensures
            r == if v.0 < self.keys().len() {
                Some(self.keys()[v.0 as int])
            } else {
                None
            },
    {
        if v.0 < self.keys.len() {
            Some(self.keys[v.0])
        } else {
            None
        }
    }

    pub fn has_variable(&self, key: &Key) -> (r: bool)
        ensures
            r == self.has_var(*key),
    {
        find_key(&self.keys, key).is_some()
    }

    /// The variable of the key; made on first use, and then, when a strength
    /// is given, made an edit variable at that strength.
    pub fn fill_variable(&mut self, key: &Key, strength: Option<Strength>) -> (v: Variable)
        requires
            old(self).wf(),
        ensures
            final(self).keeps(old(self)),
            final(self).has_var(*key),
            v == final(self).var(*key),
            old(self).has_var(*key) ==> *final(self) == *old(self),
            forall|k: Key| #[trigger] final(self).has_var(k) == (old(self).has_var(k) || k == *key),
            !old(self).has_var(*key) ==> final(self).keys() == old(self).keys().push(*key)
                && final(self).edit_strengths() == old(self).edit_strengths().push(strength)
                && final(self).pending() == old(self).pending() + edit_commands(v, strength),
            final(self).dimensions() == old(self).dimensions(),
            forall|k: Key| final(self).constraint_at(k) == old(self).constraint_at(k),
    {
        match find_key(&self.keys, key) {
            Some(i) => {
                proof {
                    lemma_index_of(self.keys@, i as int);
                    assert(self.keys()[i as int] == *key);
                    assert(self.keys().contains(*key));
                    assert forall|k: Key| #[trigger] self.has_var(k) == (old(self).has_var(k) || k == *key) by {
                        if k == *key {
                            assert(self.keys().contains(*key));
                        }
                    }
                }
                Variable(i)
            },
            None => {
                let v = Variable(self.keys.len());
                self.keys.push(*key);
                self.edits.push(strength);
                proof {
                    lemma_index_of(self.keys@, v.0 as int);
                    assert forall|k: Key| #[trigger] self.has_var(k) == (old(self).has_var(k) || k == *key) by {
                        if old(self).has_var(k) {
                            let j = choose|j: int| 0 <= j < old(self).keys().len() && old(self).keys()[j] == k;
                            assert(self.keys()[j] == k);
                        }
                        if self.has_var(k) && k != *key {
                            let j = choose|j: int| 0 <= j < self.keys().len() && self.keys()[j] == k;
                            assert(old(self).keys()[j] == k);
                        }
                    }
                }
                let ghost before = self.pending();
                match strength {
                    Some(s) => {
                        self.pending.push(Command::AddEditVariable(v, s));
                    },
                    None => {},
                }
                proof {
                    assert(self.pending() =~= before + edit_commands(v, strength));
                    assert forall|k: Key| #[trigger] self.has_var(k) == (old(self).has_var(k) || k == *key) by {
                        if old(self).has_var(k) {
                            let j = choose|j: int| 0 <= j < old(self).keys().len() && old(self).keys()[j] == k;
                            assert(self.keys()[j] == k);
                        }
                        if self.has_var(k) && k != *key {
                            let j = choose|j: int| 0 <= j < self.keys().len() && self.keys()[j] == k;
                            assert(old(self).keys()[j] == k);
                        }
                        if k == *key {
                            assert(self.keys()[v.0 as int] == k);
                        }
                    }
                }
                v
            },
        }
    }

    pub fn has_constraint(&self, key: &Key) -> (r: bool)
        ensures
            r == self.constraint_at(*key) is Some,
    {
        find_key(&self.constraint_keys, key).is_some()
    }

    /// Holds `constraint` under the key. A different constraint held there
    /// before is taken back from the solver first; the same one again
    /// changes nothing.
    pub fn replace_constraint(&mut self, key: &Key, constraint: Constraint)
        requires
            old(self).wf(),
        ensures
            final(self).keeps(old(self)),
            final(self).keys() == old(self).keys(),
            final(self).dimensions() == old(self).dimensions(),
            final(self).constraint_at(*key) == Some(constraint@),
            forall|k: Key| k != *key ==> #[trigger] final(self).constraint_at(k) == old(self).constraint_at(k),
            old(self).constraint_at(*key) == Some(constraint@) ==> *final(self) == *old(self),
            match old(self).constraint_at(*key) {
                Some(c) => c != constraint@ ==> final(self).pending() == old(self).pending()
                    + seq![CommandView::RemoveConstraint(c), CommandView::AddConstraint(constraint@)],
                None => final(self).pending() == old(self).pending()
                    + seq![CommandView::AddConstraint(constraint@)],
            },
    {
        let ghost before = self.pending();
        match find_key(&self.constraint_keys, key) {
            Some(i) => {
                proof {
                    lemma_index_of(self.constraint_keys@, i as int);
                }
                if self.constraints[i].same_as(&constraint) {
                    return;
                }
                let sent = constraint.copy();
                self.constraints.push(constraint);
                let previous = self.constraints.swap_remove(i);
                self.pending.push(Command::RemoveConstraint(previous));
                self.pending.push(Command::AddConstraint(sent));
                proof {
                    assert(self.pending() =~= before + seq![
                        CommandView::RemoveConstraint(previous@),
                        CommandView::AddConstraint(sent@),
                    ]);
                    assert(self.pending()[before.len() as int] == CommandView::RemoveConstraint(previous@));
                    assert(self.pending()[before.len() as int + 1] == CommandView::AddConstraint(sent@));
                    lemma_index_of(self.constraint_keys@, i as int);
                    assert forall|k: Key| k != *key implies #[trigger] self.constraint_at(k) == old(self).constraint_at(k) by {
                        if self.constraint_keys@.contains(k) {
                            let j = self.constraint_keys@.index_of(k);
                            lemma_index_of(self.constraint_keys@, j);
                        }
                    }
                }
            },
            None => {
                let sent = constraint.copy();
                self.constraint_keys.push(*key);
                self.constraints.push(constraint);
                self.pending.push(Command::AddConstraint(sent));
                proof {
                    let n = self.constraint_keys@.len() - 1;
                    lemma_index_of(self.constraint_keys@, n);
                    assert(self.pending() =~= before + seq![CommandView::AddConstraint(sent@)]);
                    assert(self.pending()[before.len() as int] == CommandView::AddConstraint(sent@));
                    assert forall|k: Key| k != *key implies #[trigger] self.constraint_at(k) == old(self).constraint_at(k) by {
                        if old(self).constraint_keys@.contains(k) {
                            let j = old(self).constraint_keys@.index_of(k);
                            lemma_index_of(old(self).constraint_keys@, j);
                            lemma_index_of(self.constraint_keys@, j);
                        }
                        if self.constraint_keys@.contains(k) {
                            let j = self.constraint_keys@.index_of(k);
                            assert(self.constraint_keys@[j] == k);
                            assert(j != n);
                            assert(old(self).constraint_keys@[j] == k);
                        }
                    }
                }
            },
        }
    }

    /// The key a constraint is held under, if it is held at all.
    pub fn constraint_key(&self, c: &Constraint) -> (r: Option<Key>)
        requires
            self.wf(),
        ensures
            r matches Some(k) ==> self.constraint_at(k) == Some(c@),
            r is None ==> forall|k: Key| #[trigger] self.constraint_at(k) != Some(c@),
    {
        let mut i: usize = 0;
        while i < self.constraints.len()
            invariant
                self.wf(),
                i <= self.constraints@.len(),
                forall|j: int| 0 <= j < i ==> self.constraints@[j]@ != c@,
            decreases self.constraints@.len() - i,
        {
            if self.constraints[i].same_as(c) {
                proof {
                    lemma_index_of(self.constraint_keys@, i as int);
                }
                return Some(self.constraint_keys[i]);
            }
            i += 1;
        }
        proof {
            assert forall|k: Key| #[trigger] self.constraint_at(k) != Some(c@) by {
                if self.constraint_keys@.contains(k) {
                    let j = self.constraint_keys@.index_of(k);
                    assert(self.constraint_keys@[j] == k);
                }
            }
        }
        None
    }

    /// Suggests a value, in layout units, for an edit variable.
    pub fn suggest_value(&mut self, v: Variable, value: i64)
        requires
            old(self).wf(),
        ensures
            final(self).keeps(old(self)),
            final(self).keys() == old(self).keys(),
            final(self).dimensions() == old(self).dimensions(),
            final(self).pending() == old(self).pending().push(CommandView::SuggestValue(v, value as int)),
            forall|k: Key| final(self).constraint_at(k) == old(self).constraint_at(k),
    {
        let ghost before = self.pending();
        self.pending.push(Command::SuggestValue(v, value));
        proof {
            assert(self.pending() =~= before.push(CommandView::SuggestValue(v, value as int)));
        }
    }

    /// Hands over the operations issued since they were last taken.
    pub fn take_commands(&mut self) -> (r: Vec<Command>)
        requires
            old(self).wf(),
        ensures
            r@.map_values(|c: Command| c@) == old(self).pending(),
            final(self).pending() == Seq::<CommandView>::empty(),
            final(self).wf(),
            final(self).keys() == old(self).keys(),
            final(self).dimensions() == old(self).dimensions(),
            forall|k: Key| final(self).constraint_at(k) == old(self).constraint_at(k),
    {
        let r = self.pending.split_off(0);
        proof {
            assert(self.pending() =~= Seq::<CommandView>::empty());
        }
        r
    }
}

impl Default for SolverSystem {
    fn default() -> (r: SolverSystem)
        ensures
            r.wf(),
            fresh_registry(r),
    {
        SolverSystem::new()
    }
}

} // verus!
