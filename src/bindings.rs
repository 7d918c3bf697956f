//! Variable bindings: one assignment of atoms to variable names, and ordered
//! sets of such assignments.
use vstd::prelude::*;

use crate::atom::{Atom, atom_eq, atoms_view, lemma_atoms_view};
use crate::term::{Subst, Term, lemma_subst_seq_index, single, subst, subst_seq, vars};
use crate::unify::{
    Equations, eqs_view, idempotent, lemma_mgu_unifies, satisfies, unifies, unify_equations,
};

verus! {

/// An assignment of atoms to variable names; each name occurs once.
#[derive(Debug)]
pub struct Bindings {
    entries: Vec<(String, Atom)>,
}

/// The alternative solutions of one query, in order.
pub type BindingsSet = Vec<Bindings>;

pub open spec fn entries_map(s: Seq<(String, Atom)>) -> Subst
    decreases s.len(),
{
    if s.len() == 0 {
        Map::empty()
    } else {
        entries_map(s.drop_last()).insert(s.last().0@, s.last().1@)
    }
}

pub open spec fn entry_in(m: Subst, e: (String, Atom)) -> bool {
    m.contains_key(e.0@) && m[e.0@] == e.1@
}

pub open spec fn keys_unique(s: Seq<(String, Atom)>) -> bool {
    forall|i: int, j: int| 0 <= i < j < s.len() ==> s[i].0@ != s[j].0@
}

pub proof fn lemma_entries_map(s: Seq<(String, Atom)>)
    requires
        keys_unique(s),
    ensures
        forall|k: Seq<char>|
            entries_map(s).contains_key(k) <==> exists|i: int| 0 <= i < s.len() && #[trigger] s[i].0@ == k,
        forall|i: int| 0 <= i < s.len() ==> #[trigger] entries_map(s)[s[i].0@] == s[i].1@,
        entries_map(s).dom().finite(),
    decreases s.len(),
{
    if s.len() > 0 {
        let p = s.drop_last();
        lemma_entries_map(p);
        assert forall|k: Seq<char>|
            entries_map(s).contains_key(k) <==> exists|i: int| 0 <= i < s.len() && #[trigger] s[i].0@ == k by {
            if entries_map(s).contains_key(k) && k != s.last().0@ {
                let i = choose|i: int| 0 <= i < p.len() && #[trigger] p[i].0@ == k;
                assert(s[i] == p[i]);
            }
            if exists|i: int| 0 <= i < s.len() && #[trigger] s[i].0@ == k {
                let i = choose|i: int| 0 <= i < s.len() && #[trigger] s[i].0@ == k;
                if i < s.len() - 1 {
                    assert(p[i] == s[i]);
                }
            }
        }
        assert forall|i: int| 0 <= i < s.len() implies #[trigger] entries_map(s)[s[i].0@] == s[i].1@ by {
            if i < s.len() - 1 {
                assert(p[i] == s[i]);
            }
        }
    }
}

impl Clone for Bindings {
    fn clone(&self) -> (r: Bindings)
        ensures
            r@ == self@,
    {
        proof {
            use_type_invariant(self);
        }
        self.narrow_to_all()
    }
}

impl PartialEq for Bindings {
    fn eq(&self, other: &Bindings) -> (r: bool) {
        self.same_as(other)
    }
}

impl vstd::std_specs::cmp::PartialEqSpecImpl for Bindings {
    open spec fn obeys_eq_spec() -> bool {
        true
    }

    open spec fn eq_spec(&self, other: &Bindings) -> bool {
        self@ == other@
    }
}

impl View for Bindings {
    type V = Subst;

    closed spec fn view(&self) -> Subst {
        entries_map(self.entries@)
    }
}

/// The bindings of a set, each as a substitution.
pub open spec fn set_view(s: Seq<Bindings>) -> Seq<Subst> {
    Seq::new(s.len(), |i: int| s[i]@)
}

impl Bindings {
    pub closed spec fn wf(&self) -> bool {
        keys_unique(self.entries@)
    }

    #[verifier::type_invariant]
    closed spec fn inv(&self) -> bool {
        self.wf()
    }

    /// Whether every binding of `self` is one of `other`.
    fn within(&self, other: &Bindings) -> (r: bool)
        requires
            self.wf(),
            other.wf(),
        ensures
            r == (forall|k: Seq<char>| #[trigger] self@.contains_key(k) ==> other@.contains_key(k) && other@[k] == self@[k]),
    {
        proof {
            lemma_entries_map(self.entries@);
            lemma_entries_map(other.entries@);
        }
        let mut i: usize = 0;
        while i < self.entries.len()
            invariant
                0 <= i <= self.entries@.len(),
                self.wf(),
                other.wf(),
                forall|j: int| 0 <= j < i ==> #[trigger] entry_in(other@, self.entries@[j]),
            decreases self.entries.len() - i,
        {
            proof {
                lemma_entries_map(self.entries@);
                lemma_entries_map(other.entries@);
            }
            let ghost k = self.entries@[i as int].0@;
            assert(self@.contains_key(k) && self@[k] == self.entries@[i as int].1@);
            match other.find(&self.entries[i].0) {
                Some(j) => {
                    assert(other@[k] == other.entries@[j as int].1@);
                    if !atom_eq(&other.entries[j].1, &self.entries[i].1) {
                        return false;
                    }
                },
                None => {
                    return false;
                },
            }
            assert(entry_in(other@, self.entries@[i as int]));
            i += 1;
        }
        proof {
            lemma_entries_map(self.entries@);
            assert forall|k: Seq<char>| #[trigger] self@.contains_key(k) implies other@.contains_key(k) && other@[k] == self@[k] by {
                let j = choose|j: int| 0 <= j < self.entries@.len() && #[trigger] self.entries@[j].0@ == k;
                assert(entry_in(other@, self.entries@[j]));
            }
        }
        true
    }

    /// Whether the two bindings bind the same variables to the same atoms.
    pub fn same_as(&self, other: &Bindings) -> (r: bool)
        ensures
            r == (self@ == other@),
    {
        proof {
            use_type_invariant(self);
            use_type_invariant(other);
        }
        let r = self.within(other) && other.within(self);
        if r {
            assert(self@ =~= other@);
        }
        r
    }

    /// Bindings with no variable.
    pub fn new() -> (r: Bindings)
        ensures
            r.wf(),
            r@ == Map::<Seq<char>, Term>::empty(),
    {
        Bindings { entries: Vec::new() }
    }

    /// The number of bound variables.
    pub fn len(&self) -> (r: usize)
        requires
            self.wf(),
        ensures
            r == self@.dom().len(),
    {
        proof {
            self.lemma_dom_len();
        }
        self.entries.len()
    }

    proof fn lemma_dom_len(&self)
        requires
            self.wf(),
        ensures
            self@.dom().len() == self.entries@.len(),
    {
        lemma_dom_len_seq(self.entries@);
    }

    /// The value bound to `name`, if any.
    pub fn resolve(&self, name: &str) -> (r: Option<Atom>)
        requires
            self.wf(),
        ensures
            r.is_some() == self@.contains_key(name@),
            r.is_some() ==> r.unwrap()@ == self@[name@],
    {
        let key = name.to_owned();
        proof {
            lemma_entries_map(self.entries@);
        }
        match self.find(&key) {
            Some(i) => Some(self.entries[i].1.duplicate()),
            None => None,
        }
    }

    fn find(&self, name: &String) -> (r: Option<usize>)
        requires
            self.wf(),
        ensures
            r.is_some() == self@.contains_key(name@),
            r.is_some() ==> r.unwrap() < self.entries@.len() && self.entries@[r.unwrap() as int].0@ == name@,
    {
        proof {
            lemma_entries_map(self.entries@);
        }
        let mut i: usize = 0;
        while i < self.entries.len()
            invariant
                0 <= i <= self.entries@.len(),
                keys_unique(self.entries@),
                forall|j: int| 0 <= j < i ==> self.entries@[j].0@ != name@,
            decreases self.entries.len() - i,
        {
            if self.entries[i].0 == *name {
                proof {
                    lemma_entries_map(self.entries@);
                }
                return Some(i);
            }
            i += 1;
        }
        None
    }

    /// Adds a binding for a variable that has none yet.
    pub fn insert_new(&mut self, name: String, value: Atom)
        requires
            old(self).wf(),
            !old(self)@.contains_key(name@),
        ensures
            final(self).wf(),
            final(self)@ == old(self)@.insert(name@, value@),
    {
        proof {
            lemma_entries_map(self.entries@);
        }
        let ghost pre = self.entries@;
        let mut e: Vec<(String, Atom)> = Vec::new();
        let mut i: usize = 0;
        while i < self.entries.len()
            invariant
                0 <= i <= pre.len(),
                pre == self.entries@,
                e@.len() == i,
                forall|j: int| 0 <= j < i ==> #[trigger] e@[j].0@ == pre[j].0@ && e@[j].1@ == pre[j].1@,
            decreases pre.len() - i,
        {
            e.push((self.entries[i].0.clone(), self.entries[i].1.duplicate()));
            i += 1;
        }
        e.push((name, value));
        proof {
            assert(keys_unique(e@)) by {
                assert forall|a: int, b: int| 0 <= a < b < e@.len() implies e@[a].0@ != e@[b].0@ by {
                    if b == pre.len() {
                        assert(entries_map(pre).contains_key(pre[a].0@));
                    }
                }
            }
            assert(entries_map(e@.drop_last()) =~= entries_map(pre)) by {
                lemma_entries_map(e@.drop_last());
                assert forall|k: Seq<char>| entries_map(e@.drop_last()).contains_key(k) <==> entries_map(pre).contains_key(k) by {
                    if entries_map(pre).contains_key(k) {
                        let j = choose|j: int| 0 <= j < pre.len() && #[trigger] pre[j].0@ == k;
                        assert(e@.drop_last()[j].0@ == k);
                    }
                    if entries_map(e@.drop_last()).contains_key(k) {
                        let j = choose|j: int| 0 <= j < e@.drop_last().len() && #[trigger] e@.drop_last()[j].0@ == k;
                        assert(pre[j].0@ == k);
                    }
                }
                assert forall|k: Seq<char>| entries_map(pre).contains_key(k) implies entries_map(e@.drop_last())[k] == entries_map(pre)[k] by {
                    let j = choose|j: int| 0 <= j < pre.len() && #[trigger] pre[j].0@ == k;
                    assert(e@.drop_last()[j].0@ == k);
                }
            }
        }
        *self = Bindings { entries: e };
    }

    /// Replaces, in every bound value, the variable `x` by `u`.
    pub fn subst_values(&mut self, x: &String, u: &Atom)
        requires
            old(self).wf(),
        ensures
            final(self).wf(),
            final(self)@.dom() == old(self)@.dom(),
            forall|k: Seq<char>| #[trigger] final(self)@.contains_key(k) ==> final(self)@[k] == subst(old(self)@[k], single(x@, u@)),
    {
        let ghost pre = self.entries@;
        proof {
            lemma_entries_map(pre);
        }
        let mut out: Vec<(String, Atom)> = Vec::new();
        let mut i: usize = 0;
        while i < self.entries.len()
            invariant
                0 <= i <= self.entries@.len(),
                self.entries@ == pre,
                out@.len() == i,
                forall|j: int| 0 <= j < i ==> #[trigger] out@[j].0@ == pre[j].0@,
                forall|j: int| 0 <= j < i ==> #[trigger] out@[j].1@ == subst(pre[j].1@, single(x@, u@)),
            decreases self.entries.len() - i,
        {
            let v = self.entries[i].1.subst_var(x, u);
            let ghost o = out@;
            out.push((self.entries[i].0.clone(), v));
            assert forall|j: int| 0 <= j < i + 1 implies #[trigger] out@[j].1@ == subst(
                pre[j].1@,
                single(x@, u@),
            ) by {
                if j < i {
                    assert(out@[j] == o[j]);
                }
            }
            i += 1;
        }
        self.entries = out;
        proof {
            assert(keys_unique(self.entries@));
            lemma_entries_map(self.entries@);
            assert forall|k: Seq<char>| self@.contains_key(k) <==> entries_map(pre).contains_key(k) by {
                if self@.contains_key(k) {
                    let i = choose|i: int| 0 <= i < self.entries@.len() && #[trigger] self.entries@[i].0@ == k;
                    assert(pre[i].0@ == k);
                }
                if entries_map(pre).contains_key(k) {
                    let i = choose|i: int| 0 <= i < pre.len() && #[trigger] pre[i].0@ == k;
                    assert(self.entries@[i].0@ == k);
                }
            }
            assert(self@.dom() =~= entries_map(pre).dom());
            assert forall|k: Seq<char>| #[trigger] self@.contains_key(k) implies self@[k] == subst(
                entries_map(pre)[k],
                single(x@, u@),
            ) by {
                let i = choose|i: int| 0 <= i < self.entries@.len() && #[trigger] self.entries@[i].0@ == k;
                assert(pre[i].0@ == k);
            }
        }
    }

    /// Appends one equation `variable = value` per binding to `out`.
    pub fn push_equations(&self, out: &mut Vec<(Atom, Atom)>)
        requires
            self.wf(),
        ensures
            final(out)@.len() >= old(out)@.len(),
            final(out)@.take(old(out)@.len() as int) == old(out)@,
            forall|th: Subst|
                #[trigger] unifies(th, eqs_view(final(out)@.skip(old(out)@.len() as int))) <==> satisfies(th, self@),
    {
        let ghost start = out@;
        let ghost s = self.entries@;
        let mut i: usize = 0;
        while i < self.entries.len()
            invariant
                0 <= i <= s.len(),
                s == self.entries@,
                out@.len() == start.len() + i,
                out@.take(start.len() as int) == start,
                forall|j: int| 0 <= j < i ==> #[trigger] out@[start.len() + j].0@ == Term::Var(s[j].0@)
                    && out@[start.len() + j].1@ == s[j].1@,
            decreases s.len() - i,
        {
            let v = Atom::Variable(self.entries[i].0.clone());
            let ghost o = out@;
            out.push((v, self.entries[i].1.duplicate()));
            proof {
                assert(out@.take(start.len() as int) =~= o.take(start.len() as int));
                assert forall|j: int| 0 <= j < i + 1 implies #[trigger] out@[start.len() + j].0@ == Term::Var(s[j].0@)
                    && out@[start.len() + j].1@ == s[j].1@ by {
                    if j < i {
                        assert(out@[start.len() + j] == o[start.len() + j]);
                    }
                }
            }
            i += 1;
        }
        proof {
            lemma_entries_map(s);
            let e = eqs_view(out@.skip(start.len() as int));
            assert forall|th: Subst| #[trigger] unifies(th, e) <==> satisfies(th, self@) by {
                if unifies(th, e) {
                    assert forall|x: Seq<char>| #[trigger] self@.contains_key(x) implies subst(Term::Var(x), th) == subst(self@[x], th) by {
                        let j = choose|j: int| 0 <= j < s.len() && #[trigger] s[j].0@ == x;
                        assert(e[j] == (out@[start.len() + j].0@, out@[start.len() + j].1@));
                        assert(self@[x] == s[j].1@);
                        assert(e[j].0 == Term::Var(x));
                        assert(e[j].1 == self@[x]);
                        assert(subst(e[j].0, th) == subst(e[j].1, th));
                    }
                }
                if satisfies(th, self@) {
                    assert forall|k: int| 0 <= k < e.len() implies #[trigger] subst(e[k].0, th) == subst(e[k].1, th) by {
                        assert(e[k] == (out@[start.len() + k].0@, out@[start.len() + k].1@));
                        assert(self@.contains_key(s[k].0@));
                    }
                }
            }
        }
    }

    /// The bindings that agree with both `self` and `other`, or `None` where
    /// no substitution agrees with both.
    pub fn merge(&self, other: &Bindings) -> (r: Option<Bindings>)
        requires
            self.wf(),
            other.wf(),
        ensures
            r is Some <==> compatible(self@, other@),
            r matches Some(m) ==> m.wf() && merged(self@, other@, m@),
    {
        let mut eqs: Vec<(Atom, Atom)> = Vec::new();
        self.push_equations(&mut eqs);
        let ghost e1 = eqs@;
        other.push_equations(&mut eqs);
        let ghost e = eqs_view(eqs@);
        proof {
            assert(e1.skip(0) =~= e1);
            assert(eqs@.take(e1.len() as int) == e1);
            assert forall|th: Subst| #[trigger] unifies(th, e) <==> (satisfies(th, self@) && satisfies(th, other@)) by {
                let a = eqs_view(e1);
                let b = eqs_view(eqs@.skip(e1.len() as int));
                assert(e =~= a + b);
                lemma_unifies_concat(th, a, b);
            }
        }
        let r = unify_equations(eqs);
        proof {
            if r is None {
                if compatible(self@, other@) {
                    let th = choose|th: Subst| satisfies(th, self@) && satisfies(th, other@);
                    assert(unifies(th, e));
                }
            } else {
                let m = r.unwrap()@;
                lemma_mgu_unifies(m, e);
                assert(satisfies(m, self@) && satisfies(m, other@));
                assert forall|th: Subst| #[trigger] satisfies(th, m) <==> (satisfies(th, self@) && satisfies(th, other@)) by {
                    assert(unifies(th, e) <==> satisfies(th, m));
                }
            }
        }
        r
    }

    /// `a` with every bound variable replaced by its value.
    pub fn apply(&self, a: &Atom) -> (r: Atom)
        requires
            self.wf(),
        ensures
            r@ == subst(a@, self@),
        decreases a,
    {
        match a {
            Atom::Variable(x) => {
                proof {
                    lemma_entries_map(self.entries@);
                }
                match self.find(x) {
                    Some(i) => self.entries[i].1.duplicate(),
                    None => a.duplicate(),
                }
            },
            Atom::Expression(cs) => Atom::Expression(self.apply_all(cs)),
            _ => a.duplicate(),
        }
    }

    fn apply_all(&self, cs: &Vec<Atom>) -> (r: Vec<Atom>)
        requires
            self.wf(),
        ensures
            atoms_view(r@) == subst_seq(atoms_view(cs@), self@),
        decreases cs@,
    {
        let mut r: Vec<Atom> = Vec::new();
        let mut i: usize = 0;
        while i < cs.len()
            invariant
                self.wf(),
                0 <= i <= cs.len(),
                r@.len() == i,
                forall|j: int| 0 <= j < i ==> r@[j]@ == subst(cs@[j]@, self@),
            decreases cs.len() - i,
        {
            assert(decreases_to!(cs@ => cs@[i as int]));
            r.push(self.apply(&cs[i]));
            i += 1;
        }
        proof {
            lemma_atoms_view(cs@);
            lemma_atoms_view(r@);
            lemma_subst_seq_index(atoms_view(cs@), self@);
            assert(atoms_view(r@) =~= subst_seq(atoms_view(cs@), self@));
        }
        r
    }

    /// A copy of these bindings.
    fn narrow_to_all(&self) -> (r: Bindings)
        requires
            self.wf(),
        ensures
            r@ == self@,
    {
        let ghost s = self.entries@;
        let mut out = Bindings::new();
        let mut i: usize = 0;
        while i < self.entries.len()
            invariant
                0 <= i <= s.len(),
                s == self.entries@,
                keys_unique(s),
                out.wf(),
                out@ == entries_map(s.take(i as int)),
            decreases s.len() - i,
        {
            proof {
                assert(s.take(i + 1).drop_last() =~= s.take(i as int));
                lemma_entries_map(s.take(i as int));
                if entries_map(s.take(i as int)).contains_key(s[i as int].0@) {
                    let k = choose|k: int| 0 <= k < i && #[trigger] s.take(i as int)[k].0@ == s[i as int].0@;
                    assert(s[k] == s.take(i as int)[k]);
                }
            }
            out.insert_new(self.entries[i].0.clone(), self.entries[i].1.duplicate());
            i += 1;
        }
        assert(s.take(s.len() as int) =~= s);
        out
    }

    /// These bindings kept to the variables that occur in `a`.
    pub fn narrow_vars(&self, a: &Atom) -> (r: Bindings)
        requires
            self.wf(),
        ensures
            r.wf(),
            r@ == self@.restrict(vars(a@)),
    {
        let ghost s = self.entries@;
        let ghost keep = vars(a@);
        let mut out = Bindings::new();
        let mut i: usize = 0;
        while i < self.entries.len()
            invariant
                0 <= i <= s.len(),
                s == self.entries@,
                keys_unique(s),
                keep == vars(a@),
                out.wf(),
                out@ == entries_map(s.take(i as int)).restrict(keep),
            decreases s.len() - i,
        {
            proof {
                assert(s.take(i + 1).drop_last() =~= s.take(i as int));
                lemma_entries_map(s.take(i as int));
                if entries_map(s.take(i as int)).contains_key(s[i as int].0@) {
                    let k = choose|k: int| 0 <= k < i && #[trigger] s.take(i as int)[k].0@ == s[i as int].0@;
                    assert(s[k] == s.take(i as int)[k]);
                }
            }
            if a.has_var(&self.entries[i].0) {
                out.insert_new(self.entries[i].0.clone(), self.entries[i].1.duplicate());
                assert(out@ =~= entries_map(s.take(i + 1)).restrict(keep));
            } else {
                assert(out@ =~= entries_map(s.take(i + 1)).restrict(keep));
            }
            i += 1;
        }
        assert(s.take(s.len() as int) =~= s);
        out
    }
}

/// `m` describes exactly the substitutions that agree with both `a` and `b`.
pub open spec fn merged(a: Subst, b: Subst, m: Subst) -> bool {
    &&& idempotent(m)
    &&& forall|th: Subst| #[trigger] satisfies(th, m) <==> (satisfies(th, a) && satisfies(th, b))
}

/// Some substitution agrees with both `a` and `b`.
pub open spec fn compatible(a: Subst, b: Subst) -> bool {
    exists|th: Subst| satisfies(th, a) && satisfies(th, b)
}

pub proof fn lemma_unifies_concat(th: Subst, a: Equations, b: Equations)
    ensures
        unifies(th, a + b) <==> (unifies(th, a) && unifies(th, b)),
{
    let f = a + b;
    if unifies(th, f) {
        assert forall|k: int| 0 <= k < a.len() implies #[trigger] subst(a[k].0, th) == subst(a[k].1, th) by {
            assert(f[k] == a[k]);
        }
        assert forall|k: int| 0 <= k < b.len() implies #[trigger] subst(b[k].0, th) == subst(b[k].1, th) by {
            assert(f[a.len() + k] == b[k]);
        }
    }
    if unifies(th, a) && unifies(th, b) {
        assert forall|k: int| 0 <= k < f.len() implies #[trigger] subst(f[k].0, th) == subst(f[k].1, th) by {
            if k < a.len() {
                assert(f[k] == a[k]);
            } else {
                assert(f[k] == b[k - a.len()]);
            }
        }
    }
}

proof fn lemma_dom_len_seq(s: Seq<(String, Atom)>)
    requires
        keys_unique(s),
    ensures
        entries_map(s).dom().len() == s.len(),
    decreases s.len(),
{
    if s.len() > 0 {
        let p = s.drop_last();
        lemma_entries_map(p);
        lemma_dom_len_seq(p);
        assert(!entries_map(p).contains_key(s.last().0@)) by {
            if entries_map(p).contains_key(s.last().0@) {
                let i = choose|i: int| 0 <= i < p.len() && #[trigger] p[i].0@ == s.last().0@;
                assert(s[i] == p[i]);
            }
        }
    }
}

} // verus!
