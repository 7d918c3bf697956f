//! Atoms: symbols, variables, expressions and grounded values.
use vstd::prelude::*;

use crate::common::Operation;
use crate::term::{
    GndTerm, Term, decimal, fresh_prefix, join_text, text, lemma_rename_seq_index, lemma_subst_seq_index, lemma_vars_seq,
    rename, rename_seq, single, subst, subst_seq, var_text, var_text_seq, vars, vars_seq,
};

verus! {

/// A grounded value: an opaque datum carried through matching.
#[derive(Clone, Debug)]
pub enum Grounded {
    Number(i64),
    Op(Operation),
    Space(Vec<Atom>),
}

/// A symbolic term.
#[derive(Debug)]
pub enum Atom {
    Symbol(String),
    Variable(String),
    Expression(Vec<Atom>),
    Grounded(Grounded),
}

pub open spec fn atoms_view(v: Seq<Atom>) -> Seq<Term>
    decreases v,
{
    if v.len() == 0 {
        Seq::empty()
    } else {
        atoms_view(v.drop_last()).push(atom_view(v.last()))
    }
}

pub open spec fn atom_view(a: Atom) -> Term
    decreases a,
{
    match a {
        Atom::Symbol(s) => Term::Sym(s@),
        Atom::Variable(s) => Term::Var(s@),
        Atom::Expression(cs) => Term::Expr(atoms_view(cs@)),
        Atom::Grounded(g) => Term::Gnd(
            match g {
                Grounded::Number(n) => GndTerm::Num(n as int),
                Grounded::Op(op) => GndTerm::Op(op.name@),
                Grounded::Space(sp) => GndTerm::Space(atoms_view(sp@)),
            },
        ),
    }
}

impl View for Atom {
    type V = Term;

    open spec fn view(&self) -> Term {
        atom_view(*self)
    }
}

pub broadcast proof fn lemma_atoms_view(v: Seq<Atom>)
    ensures
        #[trigger] atoms_view(v).len() == v.len(),
        forall|i: int| 0 <= i < v.len() ==> #[trigger] atoms_view(v)[i] == atom_view(v[i]),
    decreases v.len(),
{
    if v.len() > 0 {
        lemma_atoms_view(v.drop_last());
    }
}

pub proof fn lemma_atoms_view_push(v: Seq<Atom>, a: Atom)
    ensures
        atoms_view(v.push(a)) == atoms_view(v).push(a@),
{
    assert(v.push(a).drop_last() =~= v);
}

/// Structural equality of two sequences of atoms.
fn atoms_eq(x: &Vec<Atom>, y: &Vec<Atom>) -> (r: bool)
    ensures
        r == (atoms_view(x@) == atoms_view(y@)),
    decreases x@,
{
    proof {
        lemma_atoms_view(x@);
        lemma_atoms_view(y@);
    }
    if x.len() != y.len() {
        return false;
    }
    let mut i: usize = 0;
    while i < x.len()
        invariant
            x.len() == y.len(),
            0 <= i <= x.len(),
            forall|j: int| 0 <= j < i ==> atom_view(x@[j]) == atom_view(y@[j]),
        decreases x.len() - i,
    {
        assert(decreases_to!(x@ => x@[i as int]));
        proof {
            lemma_atoms_view(x@);
            lemma_atoms_view(y@);
        }
        if !atom_eq(&x[i], &y[i]) {
            assert(atoms_view(x@)[i as int] != atoms_view(y@)[i as int]);
            return false;
        }
        i += 1;
    }
    assert(atoms_view(x@) =~= atoms_view(y@));
    true
}

/// Structural equality of atoms.
pub fn atom_eq(a: &Atom, b: &Atom) -> (r: bool)
    ensures
        r == (a@ == b@),
    decreases a,
{
    match (a, b) {
        (Atom::Symbol(x), Atom::Symbol(y)) => *x == *y,
        (Atom::Variable(x), Atom::Variable(y)) => *x == *y,
        (Atom::Expression(x), Atom::Expression(y)) => atoms_eq(x, y),
        (Atom::Grounded(Grounded::Number(x)), Atom::Grounded(Grounded::Number(y))) => *x == *y,
        (Atom::Grounded(Grounded::Op(x)), Atom::Grounded(Grounded::Op(y))) => x.name == y.name,
        (Atom::Grounded(Grounded::Space(x)), Atom::Grounded(Grounded::Space(y))) => atoms_eq(x, y),
        _ => false,
    }
}

impl Clone for Atom {
    fn clone(&self) -> (r: Atom)
        ensures
            r@ == self@,
    {
        self.duplicate()
    }
}

impl PartialEq for Atom {
    fn eq(&self, other: &Atom) -> (r: bool) {
        atom_eq(self, other)
    }
}

impl vstd::std_specs::cmp::PartialEqSpecImpl for Atom {
    open spec fn obeys_eq_spec() -> bool {
        true
    }

    open spec fn eq_spec(&self, other: &Atom) -> bool {
        self@ == other@
    }
}

/// A copy of every atom of `v`.
pub fn atoms_copy(v: &Vec<Atom>) -> (r: Vec<Atom>)
    ensures
        atoms_view(r@) == atoms_view(v@),
    decreases v@,
{
    proof {
        lemma_atoms_view(v@);
    }
    let mut r: Vec<Atom> = Vec::new();
    let mut i: usize = 0;
    while i < v.len()
        invariant
            0 <= i <= v.len(),
            r@.len() == i,
            forall|j: int| 0 <= j < i ==> atom_view(r@[j]) == atom_view(v@[j]),
        decreases v.len() - i,
    {
        assert(decreases_to!(v@ => v@[i as int]));
        r.push(v[i].duplicate());
        i += 1;
    }
    proof {
        lemma_atoms_view(r@);
    }
    assert(atoms_view(r@) =~= atoms_view(v@));
    r
}

/// Whether the variable `x` occurs in one of the atoms of `cs`.
fn atoms_have_var(cs: &Vec<Atom>, x: &String) -> (r: bool)
    ensures
        r == vars_seq(atoms_view(cs@)).contains(x@),
    decreases cs@,
{
    proof {
        lemma_atoms_view(cs@);
        lemma_vars_seq(atoms_view(cs@));
    }
    let mut i: usize = 0;
    while i < cs.len()
        invariant
            0 <= i <= cs.len(),
            forall|j: int| 0 <= j < i ==> !vars(atom_view(cs@[j])).contains(x@),
        decreases cs.len() - i,
    {
        assert(decreases_to!(cs@ => cs@[i as int]));
        proof {
            lemma_atoms_view(cs@);
            lemma_vars_seq(atoms_view(cs@));
        }
        if cs[i].has_var(x) {
            assert(vars(atoms_view(cs@)[i as int]).contains(x@));
            return true;
        }
        i += 1;
    }
    assert forall|j: int| 0 <= j < cs.len() implies !#[trigger] vars(atoms_view(cs@)[j]).contains(
        x@,
    ) by {}
    false
}

/// The atoms of `cs`, each with the variable `x` replaced by `u`.
fn atoms_subst_var(cs: &Vec<Atom>, x: &String, u: &Atom) -> (r: Vec<Atom>)
    ensures
        atoms_view(r@) == subst_seq(atoms_view(cs@), single(x@, u@)),
    decreases cs@,
{
    let ghost s = single(x@, u@);
    let mut r: Vec<Atom> = Vec::new();
    let mut i: usize = 0;
    while i < cs.len()
        invariant
            0 <= i <= cs.len(),
            r@.len() == i,
            s == single(x@, u@),
            forall|j: int| 0 <= j < i ==> atom_view(r@[j]) == subst(atom_view(cs@[j]), s),
        decreases cs.len() - i,
    {
        assert(decreases_to!(cs@ => cs@[i as int]));
        r.push(cs[i].subst_var(x, u));
        i += 1;
    }
    proof {
        lemma_atoms_view(cs@);
        lemma_atoms_view(r@);
        lemma_subst_seq_index(atoms_view(cs@), s);
        assert(atoms_view(r@) =~= subst_seq(atoms_view(cs@), s));
    }
    r
}

/// The atoms of `cs`, each with its variables renamed by the prefix `pre`.
fn atoms_rename(cs: &Vec<Atom>, pre: &String) -> (r: Vec<Atom>)
    ensures
        atoms_view(r@) == rename_seq(atoms_view(cs@), pre@),
    decreases cs@,
{
    let mut r: Vec<Atom> = Vec::new();
    let mut i: usize = 0;
    while i < cs.len()
        invariant
            0 <= i <= cs.len(),
            r@.len() == i,
            forall|j: int| 0 <= j < i ==> atom_view(r@[j]) == rename(atom_view(cs@[j]), pre@),
        decreases cs.len() - i,
    {
        assert(decreases_to!(cs@ => cs@[i as int]));
        r.push(cs[i].rename_vars(pre));
        i += 1;
    }
    proof {
        lemma_atoms_view(cs@);
        lemma_atoms_view(r@);
        lemma_rename_seq_index(atoms_view(cs@), pre@);
        assert(atoms_view(r@) =~= rename_seq(atoms_view(cs@), pre@));
    }
    r
}

/// Appends the variable names of the atoms of `cs` to `out`.
fn atoms_var_text(cs: &Vec<Atom>, out: &mut String)
    ensures
        final(out)@ == old(out)@ + var_text_seq(atoms_view(cs@)),
    decreases cs@,
{
    let ghost start = out@;
    let mut i: usize = 0;
    while i < cs.len()
        invariant
            0 <= i <= cs.len(),
            out@ == start + var_text_seq(atoms_view(cs@.take(i as int))),
        decreases cs.len() - i,
    {
        assert(decreases_to!(cs@ => cs@[i as int]));
        cs[i].var_text(out);
        proof {
            assert(cs@.take(i + 1).drop_last() =~= cs@.take(i as int));
            lemma_atoms_view(cs@.take(i + 1));
            assert(atoms_view(cs@.take(i + 1)).drop_last() =~= atoms_view(cs@.take(i as int)));
        }
        i += 1;
    }
    assert(cs@.take(cs.len() as int) =~= cs@);
}

/// Appends the decimal digits of `n` to `out`.
pub fn push_decimal(out: &mut String, n: u64)
    ensures
        final(out)@ == old(out)@ + decimal(n as nat),
    decreases n,
{
    if n >= 10 {
        push_decimal(out, n / 10);
    }
    let d = (48u8 + (n % 10) as u8) as char;
    out.push(d);
    assert(final(out)@ =~= old(out)@ + decimal(n as nat));
}

/// Appends the texts of the atoms of `cs`, separated by spaces, to `out`.
fn atoms_text(cs: &Vec<Atom>, out: &mut String)
    ensures
        final(out)@ == old(out)@ + join_text(atoms_view(cs@)),
    decreases cs@,
{
    let ghost start = out@;
    let mut i: usize = 0;
    proof {
        lemma_atoms_view(cs@.take(0));
        assert(out@ =~= start + join_text(atoms_view(cs@.take(0))));
    }
    while i < cs.len()
        invariant
            0 <= i <= cs.len(),
            out@ == start + join_text(atoms_view(cs@.take(i as int))),
        decreases cs.len() - i,
    {
        assert(decreases_to!(cs@ => cs@[i as int]));
        let ghost mid = out@;
        if i > 0 {
            out.push(' ');
        }
        cs[i].write_text(out);
        proof {
            assert(cs@.take(i + 1) =~= cs@.take(i as int).push(cs@[i as int]));
            lemma_atoms_view_push(cs@.take(i as int), cs@[i as int]);
            lemma_atoms_view(cs@.take(i as int));
            let w = atoms_view(cs@.take(i + 1));
            assert(w.drop_last() =~= atoms_view(cs@.take(i as int)));
            if i == 0 {
                assert(out@ =~= start + join_text(w));
            } else {
                assert(out@ =~= start + join_text(w));
            }
        }
        i += 1;
    }
    assert(cs@.take(cs.len() as int) =~= cs@);
}

impl Atom {
    /// Appends the text of this atom, in s-expression syntax, to `out`.
    pub fn write_text(&self, out: &mut String)
        ensures
            final(out)@ == old(out)@ + text(self@),
        decreases self,
    {
        let ghost start = out@;
        match self {
            Atom::Symbol(s) => out.append(s.as_str()),
            Atom::Variable(x) => {
                out.push('$');
                out.append(x.as_str());
                assert(out@ =~= start + text(self@));
            },
            Atom::Expression(cs) => {
                out.push('(');
                atoms_text(cs, out);
                out.push(')');
                assert(out@ =~= start + text(self@));
            },
            Atom::Grounded(Grounded::Number(n)) => {
                if *n < 0 {
                    out.push('-');
                    let m: u64 = (0i128 - *n as i128) as u64;
                    push_decimal(out, m);
                } else {
                    push_decimal(out, *n as u64);
                }
                assert(out@ =~= start + text(self@));
            },
            Atom::Grounded(Grounded::Op(op)) => out.append(op.name.as_str()),
            Atom::Grounded(Grounded::Space(_)) => out.append("GroundingSpace"),
        }
    }

    /// The text of this atom, in s-expression syntax.
    pub fn to_text(&self) -> (r: String)
        ensures
            r@ == text(self@),
    {
        let mut out = String::new();
        self.write_text(&mut out);
        assert(out@ =~= text(self@));
        out
    }

    pub fn sym(name: &str) -> (r: Atom)
        ensures
            r@ == Term::Sym(name@),
    {
        Atom::Symbol(name.to_owned())
    }

    pub fn var(name: &str) -> (r: Atom)
        ensures
            r@ == Term::Var(name@),
    {
        Atom::Variable(name.to_owned())
    }

    pub fn expr(children: Vec<Atom>) -> (r: Atom)
        ensures
            r@ == Term::Expr(atoms_view(children@)),
    {
        Atom::Expression(children)
    }

    pub fn number(n: i64) -> (r: Atom)
        ensures
            r@ == Term::Gnd(GndTerm::Num(n as int)),
    {
        Atom::Grounded(Grounded::Number(n))
    }

    pub fn gnd_op(op: Operation) -> (r: Atom)
        ensures
            r@ == Term::Gnd(GndTerm::Op(op.name@)),
    {
        Atom::Grounded(Grounded::Op(op))
    }

    /// A grounded atom that holds the atoms of a space and matches as the
    /// space does.
    pub fn gnd_space(atoms: Vec<Atom>) -> (r: Atom)
        ensures
            r@ == Term::Gnd(GndTerm::Space(atoms_view(atoms@))),
    {
        Atom::Grounded(Grounded::Space(atoms))
    }

    /// A copy of this atom with the same value.
    pub fn duplicate(&self) -> (r: Atom)
        ensures
            r@ == self@,
        decreases self,
    {
        match self {
            Atom::Symbol(s) => Atom::Symbol(s.clone()),
            Atom::Variable(s) => Atom::Variable(s.clone()),
            Atom::Expression(cs) => Atom::Expression(atoms_copy(cs)),
            Atom::Grounded(Grounded::Number(n)) => Atom::Grounded(Grounded::Number(*n)),
            Atom::Grounded(Grounded::Op(op)) => Atom::Grounded(Grounded::Op(op.duplicate())),
            Atom::Grounded(Grounded::Space(sp)) => Atom::Grounded(Grounded::Space(atoms_copy(sp))),
        }
    }

    /// This atom with every variable name prefixed by `pre`.
    pub fn rename_vars(&self, pre: &String) -> (r: Atom)
        ensures
            r@ == rename(self@, pre@),
        decreases self,
    {
        match self {
            Atom::Variable(x) => Atom::Variable(pre.clone().concat(x.as_str())),
            Atom::Expression(cs) => Atom::Expression(atoms_rename(cs, pre)),
            _ => self.duplicate(),
        }
    }

    /// Appends the names of the variables of this atom to `out`.
    pub fn var_text(&self, out: &mut String)
        ensures
            final(out)@ == old(out)@ + var_text(self@),
        decreases self,
    {
        match self {
            Atom::Variable(x) => out.append(x.as_str()),
            Atom::Expression(cs) => atoms_var_text(cs, out),
            _ => {
                assert(out@ =~= out@ + var_text(self@));
            },
        }
    }

    /// A prefix that makes the variables of stored atoms differ from those
    /// of this pattern.
    pub fn fresh_prefix(&self) -> (r: String)
        ensures
            r@ == fresh_prefix(self@),
    {
        let mut r = "#".to_owned();
        proof {
            reveal_strlit("#");
        }
        self.var_text(&mut r);
        r
    }

    /// Whether the variable `x` occurs in this atom.
    pub fn has_var(&self, x: &String) -> (r: bool)
        ensures
            r == vars(self@).contains(x@),
        decreases self,
    {
        match self {
            Atom::Variable(s) => *s == *x,
            Atom::Expression(cs) => atoms_have_var(cs, x),
            _ => false,
        }
    }

    /// This atom with the variable `x` replaced by `u`.
    pub fn subst_var(&self, x: &String, u: &Atom) -> (r: Atom)
        ensures
            r@ == subst(self@, single(x@, u@)),
        decreases self,
    {
        match self {
            Atom::Variable(s) => {
                if *s == *x {
                    u.duplicate()
                } else {
                    self.duplicate()
                }
            },
            Atom::Expression(cs) => Atom::Expression(atoms_subst_var(cs, x, u)),
            _ => self.duplicate(),
        }
    }
}

} // verus!
