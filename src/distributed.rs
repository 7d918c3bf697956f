//! A space whose queries go to the remote matching service, while additions
//! and removals only change a local index used for counting and listing.
use vstd::prelude::*;

use crate::atom::{Atom, atoms_view};
use crate::das::{DasQuery, build_das_query, request_tokens, request_vars, strings_view, subpatterns};
use crate::space::{EventTerm, GroundingSpace, notify, removed_first};
use crate::term::Term;

verus! {

/// A distributed space: the remote service answers queries; the local index
/// holds what was added here and notifies observers of changes.
#[derive(Clone, Debug)]
pub struct DistributedAtomSpace {
    index: GroundingSpace,
    name: Option<String>,
}

impl View for DistributedAtomSpace {
    type V = Seq<Term>;

    closed spec fn view(&self) -> Seq<Term> {
        self.index@
    }
}

impl DistributedAtomSpace {
    pub closed spec fn spec_name(&self) -> Option<Seq<char>> {
        match self.name {
            Some(s) => Some(s@),
            None => None,
        }
    }

    /// The local index keeps duplicates.
    pub closed spec fn wf(&self) -> bool {
        self.index.spec_strategy() == crate::space::DuplicationStrategy::AllowDuplication
    }

    pub closed spec fn spec_observers(&self) -> Seq<Option<Seq<EventTerm>>> {
        self.index.spec_observers()
    }

    /// The context of the remote queries: the space's name, or `context`.
    pub open spec fn spec_context(&self) -> Seq<char> {
        match self.spec_name() {
            Some(n) => n,
            None => "context"@,
        }
    }

    pub fn new(name: Option<String>) -> (r: DistributedAtomSpace)
        ensures
            r.wf(),
            r@ == Seq::<Term>::empty(),
            r.spec_name() == match name {
                Some(s) => Some(s@),
                None => None::<Seq<char>>,
            },
            r.spec_observers().len() == 0,
    {
        DistributedAtomSpace { index: GroundingSpace::new(), name }
    }

    /// Adds `atom` to the local index.
    pub fn add(&mut self, atom: Atom)
        requires
            old(self).wf(),
        ensures
            final(self).wf(),
            final(self)@ == old(self)@.push(atom@),
            final(self).spec_observers() == notify(old(self).spec_observers(), EventTerm::Add(atom@)),
            final(self).spec_name() == old(self).spec_name(),
    {
        self.index.add(atom);
    }

    /// Removes the first occurrence of `atom` from the local index.
    pub fn remove(&mut self, atom: &Atom) -> (r: bool)
        requires
            old(self).wf(),
        ensures
            final(self).wf(),
            r == old(self)@.contains(atom@),
            removed_first(old(self)@, atom@, final(self)@),
            r ==> final(self).spec_observers() == notify(old(self).spec_observers(), EventTerm::Remove(atom@)),
            !r ==> final(self).spec_observers() == old(self).spec_observers(),
            final(self).spec_name() == old(self).spec_name(),
    {
        self.index.remove(atom)
    }

    /// Replaces the first occurrence of `from` by `to` in the local index.
    pub fn replace(&mut self, from: &Atom, to: Atom) -> (r: bool)
        requires
            old(self).wf(),
        ensures
            final(self).wf(),
            r == old(self)@.contains(from@),
            r ==> exists|t: Seq<Term>| removed_first(old(self)@, from@, t) && final(self)@ == t.push(to@),
            !r ==> final(self)@ == old(self)@,
            r ==> final(self).spec_observers() == notify(old(self).spec_observers(), EventTerm::Replace(from@, to@)),
            !r ==> final(self).spec_observers() == old(self).spec_observers(),
            final(self).spec_name() == old(self).spec_name(),
    {
        self.index.replace(from, to)
    }

    /// Registers an observer of the local index; see
    /// [`GroundingSpace::register_observer`].
    pub fn register_observer(&mut self) -> (r: usize)
        requires
            old(self).wf(),
            old(self).spec_observers().len() < usize::MAX,
        ensures
            final(self).wf(),
            r == old(self).spec_observers().len(),
            final(self).spec_observers() == old(self).spec_observers().push(Some(Seq::empty())),
            final(self)@ == old(self)@,
            final(self).spec_name() == old(self).spec_name(),
    {
        self.index.register_observer()
    }

    /// The number of atoms of the local index.
    pub fn atom_count(&self) -> (r: usize)
        ensures
            r == self@.len(),
    {
        self.index.atom_count()
    }

    /// A copy of the atoms of the local index.
    pub fn into_vec(&self) -> (r: Vec<Atom>)
        ensures
            atoms_view(r@) == self@,
    {
        self.index.into_vec()
    }

    /// The context of the remote queries.
    pub fn context(&self) -> (r: String)
        ensures
            r@ == self.spec_context(),
    {
        match &self.name {
            Some(n) => n.clone(),
            None => "context".to_owned(),
        }
    }

    /// The request that a query of this space sends to the remote service;
    /// `None` for a query that has no answer.
    pub fn query_request(&self, query: &Atom) -> (r: Option<DasQuery>)
        ensures
            match subpatterns(query@) {
                None => r is None,
                Some(ps) => r matches Some(dq) && strings_view(dq.tokens@) == request_tokens(ps)
                    && strings_view(dq.variables@) == request_vars(ps),
            },
    {
        build_das_query(query)
    }
}

} // verus!
