//! In-memory atom space: stores atoms, answers queries, and notifies its
//! observers of every change.
use vstd::prelude::*;

use crate::atom::{Atom, atom_eq, atoms_copy, atoms_view, lemma_atoms_view, lemma_atoms_view_push};
use crate::bindings::{Bindings, set_view};
use crate::query::{all_wf, is_conjunction, no_outside_var, query_atoms, query_rel};
use crate::term::{Subst, Term, subst};

verus! {

/// Whether a space keeps several copies of one atom.
#[derive(Clone, Copy, Debug, PartialEq, Eq, Structural)]
pub enum DuplicationStrategy {
    AllowDuplication,
    NoDuplication,
}

pub const ALLOW_DUPLICATION: DuplicationStrategy = DuplicationStrategy::AllowDuplication;

pub const NO_DUPLICATION: DuplicationStrategy = DuplicationStrategy::NoDuplication;

/// A change of a space, as its observers are told of it.
#[derive(Clone, Debug, PartialEq)]
pub enum SpaceEvent {
    Add(Atom),
    Remove(Atom),
    Replace(Atom, Atom),
}

/// The value of a space event.
pub enum EventTerm {
    Add(Term),
    Remove(Term),
    Replace(Term, Term),
}

impl View for SpaceEvent {
    type V = EventTerm;

    open spec fn view(&self) -> EventTerm {
        match self {
            SpaceEvent::Add(a) => EventTerm::Add(a@),
            SpaceEvent::Remove(a) => EventTerm::Remove(a@),
            SpaceEvent::Replace(a, b) => EventTerm::Replace(a@, b@),
        }
    }
}

impl SpaceEvent {
    pub fn duplicate(&self) -> (r: SpaceEvent)
        ensures
            r@ == self@,
    {
        match self {
            SpaceEvent::Add(a) => SpaceEvent::Add(a.duplicate()),
            SpaceEvent::Remove(a) => SpaceEvent::Remove(a.duplicate()),
            SpaceEvent::Replace(a, b) => SpaceEvent::Replace(a.duplicate(), b.duplicate()),
        }
    }
}

pub open spec fn events_view(v: Seq<SpaceEvent>) -> Seq<EventTerm> {
    Seq::new(v.len(), |i: int| v[i]@)
}

/// The event logs of the observers after `ev`: each registered observer
/// receives it, a slot whose observer left stays empty.
pub open spec fn notify(obs: Seq<Option<Seq<EventTerm>>>, ev: EventTerm) -> Seq<Option<Seq<EventTerm>>> {
    Seq::new(
        obs.len(),
        |i: int|
            match obs[i] {
                Some(l) => Some(l.push(ev)),
                None => None,
            },
    )
}

pub open spec fn log_view(o: Option<Vec<SpaceEvent>>) -> Option<Seq<EventTerm>> {
    match o {
        Some(l) => Some(events_view(l@)),
        None => None,
    }
}

/// The number of observer slots that hold a registered observer.
pub open spec fn registered(obs: Seq<Option<Seq<EventTerm>>>) -> nat
    decreases obs.len(),
{
    if obs.len() == 0 {
        0
    } else {
        registered(obs.drop_last()) + if obs.last() is Some {
            1nat
        } else {
            0nat
        }
    }
}

/// The atoms after adding `a` under `strategy`.
pub open spec fn added(s: Seq<Term>, strategy: DuplicationStrategy, a: Term) -> Seq<Term> {
    if strategy == DuplicationStrategy::NoDuplication && s.contains(a) {
        s
    } else {
        s.push(a)
    }
}

/// `i` is the position of the first occurrence of `a` in `s`.
pub open spec fn first_at(s: Seq<Term>, a: Term, i: int) -> bool {
    0 <= i < s.len() && s[i] == a && forall|j: int| 0 <= j < i ==> s[j] != a
}

/// `t` is `s` without the first occurrence of `a`, or `s` itself where `a`
/// does not occur.
pub open spec fn removed_first(s: Seq<Term>, a: Term, t: Seq<Term>) -> bool {
    if s.contains(a) {
        exists|i: int| first_at(s, a, i) && t == s.remove(i)
    } else {
        t == s
    }
}

/// Removing an atom that the space does not hold leaves it unchanged;
/// removing one that it holds `k` times leaves `k - 1` occurrences of it and
/// every other atom as often as before.
pub proof fn lemma_remove_counts(s: Seq<Term>, a: Term, t: Seq<Term>)
    requires
        removed_first(s, a, t),
    ensures
        !s.contains(a) ==> t == s,
        s.contains(a) ==> t.to_multiset().count(a) == s.to_multiset().count(a) - 1,
        forall|b: Term| b != a ==> #[trigger] t.to_multiset().count(b) == s.to_multiset().count(b),
{
    broadcast use vstd::seq_lib::group_to_multiset_ensures;

    if s.contains(a) {
        let i = choose|i: int| first_at(s, a, i) && t == s.remove(i);
        assert(t.to_multiset() =~= s.to_multiset().remove(s[i]));
    }
}

/// In-memory space of atoms.
#[derive(Clone, Debug)]
pub struct GroundingSpace {
    atoms: Vec<Atom>,
    strategy: DuplicationStrategy,
    observers: Vec<Option<Vec<SpaceEvent>>>,
    name: Option<String>,
}

impl View for GroundingSpace {
    type V = Seq<Term>;

    closed spec fn view(&self) -> Seq<Term> {
        atoms_view(self.atoms@)
    }
}

impl GroundingSpace {
    pub closed spec fn spec_strategy(&self) -> DuplicationStrategy {
        self.strategy
    }

    pub closed spec fn spec_name(&self) -> Option<Seq<char>> {
        match self.name {
            Some(s) => Some(s@),
            None => None,
        }
    }

    /// The event log of each observer slot.
    pub closed spec fn spec_observers(&self) -> Seq<Option<Seq<EventTerm>>> {
        Seq::new(self.observers@.len(), |i: int| log_view(self.observers@[i]))
    }

    /// Constructs a new empty space that keeps duplicates.
    pub fn new() -> (r: GroundingSpace)
        ensures
            r@ == Seq::<Term>::empty(),
            r.spec_strategy() == DuplicationStrategy::AllowDuplication,
            r.spec_name() is None,
            r.spec_observers().len() == 0,
    {
        Self::with_strategy(ALLOW_DUPLICATION)
    }

    /// Constructs a space from a vector of atoms.
    pub fn from_vec(atoms: Vec<Atom>) -> (r: GroundingSpace)
        ensures
            r@ == atoms_view(atoms@),
            r.spec_strategy() == DuplicationStrategy::AllowDuplication,
            r.spec_name() is None,
            r.spec_observers().len() == 0,
    {
        let mut space = Self::with_strategy(ALLOW_DUPLICATION);
        let mut i: usize = 0;
        proof {
            assert(atoms_view(atoms@.take(0)) =~= Seq::<Term>::empty());
        }
        while i < atoms.len()
            invariant
                0 <= i <= atoms.len(),
                space@ == atoms_view(atoms@.take(i as int)),
                space.spec_strategy() == DuplicationStrategy::AllowDuplication,
                space.spec_name() is None,
                space.observers@.len() == 0,
            decreases atoms.len() - i,
        {
            let ghost before = space.atoms@;
            let a = atoms[i].duplicate();
            let ghost av = a;
            space.atoms.push(a);
            proof {
                assert(atoms@.take(i + 1) =~= atoms@.take(i as int).push(atoms@[i as int]));
                lemma_atoms_view_push(atoms@.take(i as int), atoms@[i as int]);
                lemma_atoms_view_push(before, av);
            }
            i += 1;
        }
        proof {
            assert(atoms@.take(atoms.len() as int) =~= atoms@);
            assert(space.spec_observers() =~= Seq::<Option<Seq<EventTerm>>>::empty());
        }
        space
    }

    /// Constructs a new empty space with the given duplication strategy.
    pub fn with_strategy(strategy: DuplicationStrategy) -> (r: GroundingSpace)
        ensures
            r@ == Seq::<Term>::empty(),
            r.spec_strategy() == strategy,
            r.spec_name() is None,
            r.spec_observers().len() == 0,
    {
        let r = GroundingSpace { atoms: Vec::new(), strategy, observers: Vec::new(), name: None };
        proof {
            lemma_atoms_view(r.atoms@);
        }
        r
    }

    /// Tells every registered observer of `ev`.
    fn notify_all(&mut self, ev: &SpaceEvent)
        ensures
            final(self).atoms == old(self).atoms,
            final(self).strategy == old(self).strategy,
            final(self).name == old(self).name,
            final(self).spec_observers() == notify(old(self).spec_observers(), ev@),
    {
        let ghost pre = self.spec_observers();
        let mut out: Vec<Option<Vec<SpaceEvent>>> = Vec::new();
        let mut i: usize = 0;
        while i < self.observers.len()
            invariant
                0 <= i <= self.observers@.len(),
                pre == self.spec_observers(),
                out@.len() == i,
                forall|j: int| 0 <= j < i ==> #[trigger] log_view(out@[j]) == notify(pre, ev@)[j],
            decreases self.observers.len() - i,
        {
            let ghost o = out@;
            match &self.observers[i] {
                Some(log) => {
                    let mut l = copy_events(log);
                    let ghost lv = l@;
                    l.push(ev.duplicate());
                    assert(events_view(l@) =~= events_view(lv).push(ev@));
                    out.push(Some(l));
                },
                None => out.push(None),
            }
            assert forall|j: int| 0 <= j < i implies out@[j] == o[j] by {}
            assert(log_view(out@[i as int]) == notify(pre, ev@)[i as int]);
            i += 1;
        }
        self.observers = out;
        assert(self.spec_observers() =~= notify(pre, ev@)) by {
            assert forall|j: int| 0 <= j < out@.len() implies #[trigger] self.spec_observers()[j] == notify(pre, ev@)[j] by {
                assert(log_view(out@[j]) == notify(pre, ev@)[j]);
            }
        }
    }

    /// Registers a new observer; it receives every later event. Returns its
    /// identifier.
    pub fn register_observer(&mut self) -> (r: usize)
        requires
            old(self).spec_observers().len() < usize::MAX,
        ensures
            r == old(self).spec_observers().len(),
            final(self).spec_observers() == old(self).spec_observers().push(Some(Seq::empty())),
            final(self)@ == old(self)@,
            final(self).spec_strategy() == old(self).spec_strategy(),
            final(self).spec_name() == old(self).spec_name(),
    {
        let id = self.observers.len();
        let ghost pre = self.spec_observers();
        let log: Vec<SpaceEvent> = Vec::new();
        assert(events_view(log@) =~= Seq::<EventTerm>::empty());
        self.observers.push(Some(log));
        assert(self.spec_observers() =~= pre.push(Some(Seq::empty())));
        id
    }

    /// Removes the observer `id`; it receives no later event.
    pub fn unregister_observer(&mut self, id: usize)
        ensures
            id < old(self).spec_observers().len() ==> final(self).spec_observers() == old(
                self,
            ).spec_observers().update(id as int, None),
            id >= old(self).spec_observers().len() ==> final(self).spec_observers() == old(
                self,
            ).spec_observers(),
            final(self)@ == old(self)@,
            final(self).spec_strategy() == old(self).spec_strategy(),
            final(self).spec_name() == old(self).spec_name(),
    {
        let ghost pre = self.spec_observers();
        if id < self.observers.len() {
            self.observers.set(id, None);
            assert(self.spec_observers() =~= pre.update(id as int, None));
        }
    }

    /// The number of registered observers.
    pub fn observer_count(&self) -> (r: usize)
        ensures
            r == registered(self.spec_observers()),
    {
        let mut n: usize = 0;
        let mut i: usize = 0;
        let ghost obs = self.spec_observers();
        assert(obs.take(0) =~= Seq::<Option<Seq<EventTerm>>>::empty());
        while i < self.observers.len()
            invariant
                0 <= i <= self.observers@.len(),
                obs == self.spec_observers(),
                n == registered(obs.take(i as int)),
                n <= i,
            decreases self.observers.len() - i,
        {
            assert(obs.take(i + 1).drop_last() =~= obs.take(i as int));
            assert(obs.take(i + 1).last() == obs[i as int]);
            if self.observers[i].is_some() {
                n += 1;
            }
            i += 1;
        }
        assert(obs.take(self.observers.len() as int) =~= obs);
        n
    }

    /// The events the observer `id` received, if it is registered.
    pub fn observed_events(&self, id: usize) -> (r: Option<Vec<SpaceEvent>>)
        ensures
            id < self.spec_observers().len() && self.spec_observers()[id as int] is Some <==> r is Some,
            r matches Some(v) ==> events_view(v@) == self.spec_observers()[id as int]->Some_0,
    {
        if id < self.observers.len() {
            match &self.observers[id] {
                Some(log) => Some(copy_events(log)),
                None => None,
            }
        } else {
            None
        }
    }

    /// Adds `atom` into the space; under `NoDuplication` an atom already
    /// present is not added again. Observers are told in either case.
    pub fn add(&mut self, atom: Atom)
        ensures
            final(self)@ == added(old(self)@, old(self).spec_strategy(), atom@),
            final(self).spec_observers() == notify(old(self).spec_observers(), EventTerm::Add(atom@)),
            final(self).spec_strategy() == old(self).spec_strategy(),
            final(self).spec_name() == old(self).spec_name(),
    {
        let ev = SpaceEvent::Add(atom.duplicate());
        self.insert(atom);
        self.notify_all(&ev);
    }

    fn insert(&mut self, atom: Atom)
        ensures
            final(self)@ == added(old(self)@, old(self).spec_strategy(), atom@),
            final(self).observers == old(self).observers,
            final(self).strategy == old(self).strategy,
            final(self).name == old(self).name,
    {
        if self.strategy == DuplicationStrategy::NoDuplication {
            if self.position(&atom).is_some() {
                return;
            }
        }
        let ghost before = self.atoms@;
        self.atoms.push(atom);
        proof {
            lemma_atoms_view_push(before, atom);
        }
    }

    /// The position of the first atom equal to `atom`.
    fn position(&self, atom: &Atom) -> (r: Option<usize>)
        ensures
            r is Some <==> self@.contains(atom@),
            r matches Some(i) ==> first_at(self@, atom@, i as int),
    {
        proof {
            lemma_atoms_view(self.atoms@);
        }
        let mut i: usize = 0;
        while i < self.atoms.len()
            invariant
                0 <= i <= self.atoms@.len(),
                self@.len() == self.atoms@.len(),
                forall|j: int| 0 <= j < i ==> self@[j] != atom@,
            decreases self.atoms.len() - i,
        {
            proof {
                lemma_atoms_view(self.atoms@);
            }
            if atom_eq(&self.atoms[i], atom) {
                assert(self@[i as int] == atom@);
                return Some(i);
            }
            i += 1;
        }
        None
    }

    /// Removes the first occurrence of `atom`. Returns whether it was found;
    /// only then are the observers told.
    pub fn remove(&mut self, atom: &Atom) -> (r: bool)
        ensures
            r == old(self)@.contains(atom@),
            removed_first(old(self)@, atom@, final(self)@),
            r ==> final(self).spec_observers() == notify(old(self).spec_observers(), EventTerm::Remove(atom@)),
            !r ==> final(self).spec_observers() == old(self).spec_observers(),
            final(self).spec_strategy() == old(self).spec_strategy(),
            final(self).spec_name() == old(self).spec_name(),
    {
        let found = self.take_out(atom);
        if found {
            self.notify_all(&SpaceEvent::Remove(atom.duplicate()));
        }
        found
    }

    fn take_out(&mut self, atom: &Atom) -> (r: bool)
        ensures
            r == old(self)@.contains(atom@),
            removed_first(old(self)@, atom@, final(self)@),
            final(self).observers == old(self).observers,
            final(self).strategy == old(self).strategy,
            final(self).name == old(self).name,
    {
        match self.position(atom) {
            Some(i) => {
                let ghost before = self.atoms@;
                proof {
                    lemma_atoms_view(before);
                }
                self.atoms.remove(i);
                proof {
                    lemma_atoms_view(before);
                    lemma_atoms_view(self.atoms@);
                    assert(self@ =~= atoms_view(before).remove(i as int));
                }
                true
            },
            None => false,
        }
    }

    /// Replaces the first occurrence of `from` by `to`. Does not add `to`
    /// where `from` is not found. Returns whether `from` was found.
    pub fn replace(&mut self, from: &Atom, to: Atom) -> (r: bool)
        ensures
            r == old(self)@.contains(from@),
            r ==> exists|t: Seq<Term>|
                removed_first(old(self)@, from@, t) && final(self)@ == added(t, old(self).spec_strategy(), to@),
            !r ==> final(self)@ == old(self)@,
            r ==> final(self).spec_observers() == notify(old(self).spec_observers(), EventTerm::Replace(from@, to@)),
            !r ==> final(self).spec_observers() == old(self).spec_observers(),
            final(self).spec_strategy() == old(self).spec_strategy(),
            final(self).spec_name() == old(self).spec_name(),
    {
        let found = self.take_out(from);
        if found {
            let ghost mid = self@;
            let ev = SpaceEvent::Replace(from.duplicate(), to.duplicate());
            self.insert(to);
            self.notify_all(&ev);
        }
        found
    }

    /// Executes `query` on the space; see [`query_atoms`].
    pub fn query(&self, query: &Atom) -> (r: Vec<Bindings>)
        ensures
            all_wf(r@),
            query_rel(self@, query@, set_view(r@)),
            !is_conjunction(query@) ==> forall|j: int|
                0 <= j < r@.len() ==> no_outside_var(#[trigger] set_view(r@)[j], query@),
    {
        query_atoms(&self.atoms, query)
    }

    /// Executes `pattern` on the space and instantiates `template` with each
    /// answer.
    pub fn subst(&self, pattern: &Atom, template: &Atom) -> (r: Vec<Atom>)
        ensures
            exists|res: Seq<Subst>|
                query_rel(self@, pattern@, res) && res.len() == r@.len() && forall|i: int|
                    0 <= i < res.len() ==> #[trigger] r@[i]@ == subst(template@, res[i]),
    {
        let res = self.query(pattern);
        let mut out: Vec<Atom> = Vec::new();
        let mut i: usize = 0;
        while i < res.len()
            invariant
                0 <= i <= res.len(),
                all_wf(res@),
                out@.len() == i,
                forall|j: int| 0 <= j < i ==> #[trigger] out@[j]@ == subst(template@, res@[j]@),
            decreases res.len() - i,
        {
            out.push(res[i].apply(template));
            i += 1;
        }
        assert(query_rel(self@, pattern@, set_view(res@)));
        out
    }

    /// The number of atoms.
    pub fn atom_count(&self) -> (r: usize)
        ensures
            r == self@.len(),
    {
        proof {
            lemma_atoms_view(self.atoms@);
        }
        self.atoms.len()
    }

    /// A copy of the atoms, in store order.
    pub fn into_vec(&self) -> (r: Vec<Atom>)
        ensures
            atoms_view(r@) == self@,
    {
        atoms_copy(&self.atoms)
    }

    /// Sets the name of the space.
    pub fn set_name(&mut self, name: String)
        ensures
            final(self).spec_name() == Some(name@),
            final(self)@ == old(self)@,
            final(self).spec_strategy() == old(self).spec_strategy(),
            final(self).spec_observers() == old(self).spec_observers(),
    {
        self.name = Some(name);
    }

    /// The name of the space, if one has been set.
    pub fn name(&self) -> (r: Option<&str>)
        ensures
            match r {
                Some(s) => self.spec_name() == Some(s@),
                None => self.spec_name() is None,
            },
    {
        match &self.name {
            Some(s) => Some(s.as_str()),
            None => None,
        }
    }
}

fn copy_events(v: &Vec<SpaceEvent>) -> (r: Vec<SpaceEvent>)
    ensures
        events_view(r@) == events_view(v@),
{
    let mut r: Vec<SpaceEvent> = Vec::new();
    let mut i: usize = 0;
    while i < v.len()
        invariant
            0 <= i <= v.len(),
            r@.len() == i,
            forall|j: int| 0 <= j < i ==> #[trigger] r@[j]@ == v@[j]@,
        decreases v.len() - i,
    {
        r.push(v[i].duplicate());
        i += 1;
    }
    assert(events_view(r@) =~= events_view(v@));
    r
}

} // verus!
