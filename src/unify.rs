//! Unification of systems of equations between atoms.
use vstd::prelude::*;

use crate::atom::{Atom, atom_eq, atoms_view, lemma_atoms_view};
use crate::bindings::Bindings;
use crate::term::{
    Subst, Term, lemma_occurs_size, lemma_size_pos, lemma_subst_absent, lemma_subst_seq_index,
    lemma_subst_single_agree, lemma_subst_single_vars, lemma_vars_finite, lemma_vars_seq, single,
    size, size_seq, subst, vars, vars_seq,
};

verus! {

pub type Equations = Seq<(Term, Term)>;

/// `th` makes both sides of every equation equal.
pub open spec fn unifies(th: Subst, e: Equations) -> bool {
    forall|k: int| 0 <= k < e.len() ==> #[trigger] subst(e[k].0, th) == subst(e[k].1, th)
}

/// Some substitution makes both sides of every equation equal.
pub open spec fn unifiable(e: Equations) -> bool {
    exists|th: Subst| #[trigger] unifies(th, e)
}

/// `th` agrees with every binding of `s`.
pub open spec fn satisfies(th: Subst, s: Subst) -> bool {
    forall|x: Seq<char>| #[trigger] s.contains_key(x) ==> subst(Term::Var(x), th) == subst(s[x], th)
}

/// No bound value mentions a bound variable.
pub open spec fn idempotent(s: Subst) -> bool {
    &&& s.dom().finite()
    &&& forall|x: Seq<char>| #[trigger] s.contains_key(x) ==> vars(s[x]).disjoint(s.dom())
}

/// No variable of `k` is bound to a bare variable outside `k`.
pub open spec fn keeps_free(s: Subst, k: Set<Seq<char>>) -> bool {
    forall|x: Seq<char>|
        #[trigger] s.contains_key(x) && k.contains(x) && s[x] is Var ==> k.contains(s[x]->Var_0)
}

proof fn lemma_keeps_free_step(pre: Subst, post: Subst, x: Seq<char>, u: Term, k: Set<Seq<char>>)
    requires
        keeps_free(pre, k),
        !pre.contains_key(x),
        post.dom() == pre.dom().insert(x),
        post[x] == u,
        forall|y: Seq<char>| #[trigger] pre.contains_key(y) ==> post[y] == subst(pre[y], single(x, u)),
        k.contains(x) && u is Var ==> k.contains(u->Var_0),
    ensures
        keeps_free(post, k),
{
    assert forall|y: Seq<char>| #[trigger] post.contains_key(y) && k.contains(y) && post[y] is Var implies k.contains(
        post[y]->Var_0,
    ) by {
        if y != x {
            assert(pre.contains_key(y));
            if let Term::Expr(cs) = pre[y] {
                assert(subst(pre[y], single(x, u)) is Expr);
            }
        }
    }
}

/// `s` is a most general unifier of `e`: the unifiers of `e` are exactly the
/// substitutions that agree with `s`.
pub open spec fn is_mgu(s: Subst, e: Equations) -> bool {
    &&& idempotent(s)
    &&& forall|th: Subst| #[trigger] unifies(th, e) <==> satisfies(th, s)
}

pub open spec fn eqs_view(v: Seq<(Atom, Atom)>) -> Equations {
    Seq::new(v.len(), |i: int| (v[i].0@, v[i].1@))
}

pub open spec fn eqs_vars(e: Equations) -> Set<Seq<char>>
    decreases e.len(),
{
    if e.len() == 0 {
        Set::empty()
    } else {
        eqs_vars(e.drop_last()).union(vars(e.last().0)).union(vars(e.last().1))
    }
}

pub open spec fn eqs_size(e: Equations) -> nat
    decreases e.len(),
{
    if e.len() == 0 {
        0
    } else {
        eqs_size(e.drop_last()) + size(e.last().0) + size(e.last().1)
    }
}

/// An idempotent substitution unifies every system whose unifiers it describes.
pub proof fn lemma_mgu_unifies(s: Subst, e: Equations)
    requires
        is_mgu(s, e),
    ensures
        unifies(s, e),
{
    assert forall|x: Seq<char>| #[trigger] s.contains_key(x) implies subst(Term::Var(x), s) == subst(
        s[x],
        s,
    ) by {
        lemma_subst_absent(s[x], s);
    }
    assert(satisfies(s, s));
}

proof fn lemma_eqs_vars(e: Equations)
    ensures
        eqs_vars(e).finite(),
        forall|x: Seq<char>|
            eqs_vars(e).contains(x) <==> exists|k: int|
                0 <= k < e.len() && (#[trigger] vars(e[k].0).contains(x) || vars(e[k].1).contains(x)),
    decreases e.len(),
{
    if e.len() > 0 {
        let p = e.drop_last();
        lemma_eqs_vars(p);
        lemma_vars_finite(e.last().0);
        lemma_vars_finite(e.last().1);
        assert forall|x: Seq<char>|
            eqs_vars(e).contains(x) <==> exists|k: int|
                0 <= k < e.len() && (#[trigger] vars(e[k].0).contains(x) || vars(e[k].1).contains(x)) by {
            if eqs_vars(p).contains(x) {
                let k = choose|k: int|
                    0 <= k < p.len() && (#[trigger] vars(p[k].0).contains(x) || vars(p[k].1).contains(x));
                assert(e[k] == p[k]);
            }
            if vars(e.last().0).contains(x) || vars(e.last().1).contains(x) {
                assert(vars(e[e.len() - 1].0).contains(x) || vars(e[e.len() - 1].1).contains(x));
            }
            if exists|k: int| 0 <= k < e.len() && (#[trigger] vars(e[k].0).contains(x) || vars(e[k].1).contains(x)) {
                let k = choose|k: int|
                    0 <= k < e.len() && (#[trigger] vars(e[k].0).contains(x) || vars(e[k].1).contains(x));
                if k < e.len() - 1 {
                    assert(p[k] == e[k]);
                }
            }
        }
    }
}

proof fn lemma_eqs_push(e: Equations, p: (Term, Term))
    ensures
        eqs_vars(e.push(p)) == eqs_vars(e).union(vars(p.0)).union(vars(p.1)),
        eqs_size(e.push(p)) == eqs_size(e) + size(p.0) + size(p.1),
{
    assert(e.push(p).drop_last() =~= e);
}

proof fn lemma_unifies_push(th: Subst, e: Equations, p: (Term, Term))
    ensures
        unifies(th, e.push(p)) <==> (unifies(th, e) && subst(p.0, th) == subst(p.1, th)),
{
    let f = e.push(p);
    if unifies(th, f) {
        assert forall|k: int| 0 <= k < e.len() implies #[trigger] subst(e[k].0, th) == subst(e[k].1, th) by {
            assert(f[k] == e[k]);
        }
        assert(f[e.len() as int] == p);
    }
}

/// The size of a sequence of terms, counted from its first element.
proof fn lemma_size_seq_first(s: Seq<Term>)
    requires
        s.len() > 0,
    ensures
        size_seq(s) == size(s[0]) + size_seq(s.subrange(1, s.len() as int)),
    decreases s.len(),
{
    let t = s.subrange(1, s.len() as int);
    if s.len() > 1 {
        let p = s.drop_last();
        lemma_size_seq_first(p);
        assert(p.subrange(1, p.len() as int) =~= t.drop_last());
        assert(t.last() == s.last());
        assert(size_seq(t) == size_seq(t.drop_last()) + size(t.last()));
        assert(p[0] == s[0]);
    } else {
        assert(s.drop_last() =~= Seq::<Term>::empty());
        assert(t =~= Seq::<Term>::empty());
        assert(s.last() == s[0]);
    }
}

/// The equations left after replacing `x` by `u` on both sides.
pub open spec fn eqs_subst(e: Equations, x: Seq<char>, u: Term) -> Equations {
    Seq::new(e.len(), |k: int| (subst(e[k].0, single(x, u)), subst(e[k].1, single(x, u))))
}

proof fn lemma_eqs_subst_vars(e: Equations, x: Seq<char>, u: Term)
    ensures
        eqs_vars(eqs_subst(e, x, u)).subset_of(eqs_vars(e).remove(x).union(vars(u))),
{
    let f = eqs_subst(e, x, u);
    lemma_eqs_vars(e);
    lemma_eqs_vars(f);
    assert forall|y: Seq<char>| eqs_vars(f).contains(y) implies eqs_vars(e).remove(x).union(
        vars(u),
    ).contains(y) by {
        let k = choose|k: int|
            0 <= k < f.len() && (#[trigger] vars(f[k].0).contains(y) || vars(f[k].1).contains(y));
        lemma_subst_single_vars(e[k].0, x, u);
        lemma_subst_single_vars(e[k].1, x, u);
        if vars(e[k].0).contains(y) || vars(e[k].1).contains(y) {
            assert(eqs_vars(e).contains(y));
        }
    }
}

proof fn lemma_eqs_subst_unifies(th: Subst, e: Equations, x: Seq<char>, u: Term)
    requires
        subst(Term::Var(x), th) == subst(u, th),
    ensures
        unifies(th, eqs_subst(e, x, u)) <==> unifies(th, e),
{
    let f = eqs_subst(e, x, u);
    assert forall|k: int| 0 <= k < e.len() implies subst(f[k].0, th) == subst(e[k].0, th) && subst(
        f[k].1,
        th,
    ) == subst(e[k].1, th) by {
        lemma_subst_single_agree(e[k].0, x, u, th);
        lemma_subst_single_agree(e[k].1, x, u, th);
    }
    if unifies(th, e) {
        assert forall|k: int| 0 <= k < f.len() implies #[trigger] subst(f[k].0, th) == subst(f[k].1, th) by {
            assert(subst(e[k].0, th) == subst(e[k].1, th));
        }
    }
    if unifies(th, f) {
        assert forall|k: int| 0 <= k < e.len() implies #[trigger] subst(e[k].0, th) == subst(e[k].1, th) by {
            assert(subst(f[k].0, th) == subst(f[k].1, th));
        }
    }
}

/// Two terms that differ at the root, neither being a variable, never unify.
proof fn lemma_clash(s: Term, t: Term, th: Subst)
    requires
        !(s is Var),
        !(t is Var),
        !(s is Expr && t is Expr && s->Expr_0.len() == t->Expr_0.len()),
        s != t,
    ensures
        subst(s, th) != subst(t, th),
{
    if let Term::Expr(cs) = s {
        lemma_subst_seq_index(cs, th);
    }
    if let Term::Expr(ds) = t {
        lemma_subst_seq_index(ds, th);
    }
}

/// Two expressions of one length unify where their children unify pairwise.
proof fn lemma_decompose(cs: Seq<Term>, ds: Seq<Term>, th: Subst)
    requires
        cs.len() == ds.len(),
    ensures
        subst(Term::Expr(cs), th) == subst(Term::Expr(ds), th) <==> forall|k: int|
            0 <= k < cs.len() ==> #[trigger] subst(cs[k], th) == subst(ds[k], th),
{
    lemma_subst_seq_index(cs, th);
    lemma_subst_seq_index(ds, th);
    if forall|k: int| 0 <= k < cs.len() ==> #[trigger] subst(cs[k], th) == subst(ds[k], th) {
        assert(crate::term::subst_seq(cs, th) =~= crate::term::subst_seq(ds, th));
    }
    if subst(Term::Expr(cs), th) == subst(Term::Expr(ds), th) {
        assert forall|k: int| 0 <= k < cs.len() implies #[trigger] subst(cs[k], th) == subst(ds[k], th) by {
            assert(crate::term::subst_seq(cs, th)[k] == crate::term::subst_seq(ds, th)[k]);
        }
    }
}

/// The children of two expressions as equations, last child first.
pub open spec fn rev_pairs(cs: Seq<Term>, ds: Seq<Term>) -> Equations {
    Seq::new(cs.len(), |k: int| (cs[cs.len() - 1 - k], ds[cs.len() - 1 - k]))
}

proof fn lemma_rev_pairs_size(rest: Equations, cs: Seq<Term>, ds: Seq<Term>)
    requires
        cs.len() == ds.len(),
    ensures
        eqs_size(rest + rev_pairs(cs, ds)) == eqs_size(rest) + size_seq(cs) + size_seq(ds),
    decreases cs.len(),
{
    let n = cs.len();
    if n == 0 {
        assert(rest + rev_pairs(cs, ds) =~= rest);
    } else {
        let cs1 = cs.subrange(1, n as int);
        let ds1 = ds.subrange(1, n as int);
        lemma_rev_pairs_size(rest, cs1, ds1);
        assert((rest + rev_pairs(cs, ds)).drop_last() =~= rest + rev_pairs(cs1, ds1));
        lemma_size_seq_first(cs);
        lemma_size_seq_first(ds);
    }
}

proof fn lemma_bind_step(
    e0: Equations,
    e: Equations,
    rest: Equations,
    x: Seq<char>,
    u: Term,
    pre: Subst,
    post: Subst,
)
    requires
        forall|th: Subst| #[trigger] unifies(th, e) <==> (unifies(th, rest) && subst(Term::Var(x), th) == subst(u, th)),
        !vars(u).contains(x),
        vars(u).subset_of(eqs_vars(e)),
        eqs_vars(e).contains(x),
        eqs_vars(e).finite(),
        eqs_vars(rest).subset_of(eqs_vars(e)),
        idempotent(pre),
        pre.dom().disjoint(eqs_vars(e)),
        forall|th: Subst| #[trigger] unifies(th, e0) <==> (unifies(th, e) && satisfies(th, pre)),
        post.dom() == pre.dom().insert(x),
        post[x] == u,
        forall|y: Seq<char>| #[trigger] pre.contains_key(y) ==> post[y] == subst(pre[y], single(x, u)),
    ensures
        idempotent(post),
        eqs_vars(eqs_subst(rest, x, u)).finite(),
        post.dom().disjoint(eqs_vars(eqs_subst(rest, x, u))),
        eqs_vars(eqs_subst(rest, x, u)).len() < eqs_vars(e).len(),
        forall|th: Subst| #[trigger] unifies(th, e0) <==> (unifies(th, eqs_subst(rest, x, u)) && satisfies(th, post)),
{
    let f = eqs_subst(rest, x, u);
    lemma_eqs_subst_vars(rest, x, u);
    assert(eqs_vars(f).subset_of(eqs_vars(e).remove(x)));
    vstd::set_lib::lemma_len_subset(eqs_vars(f), eqs_vars(e).remove(x));
    assert forall|y: Seq<char>| #[trigger] post.contains_key(y) implies vars(post[y]).disjoint(post.dom()) by {
        if y != x {
            lemma_subst_single_vars(pre[y], x, u);
        }
    }
    assert forall|th: Subst| #[trigger] unifies(th, e0) <==> (unifies(th, f) && satisfies(th, post)) by {
        if subst(Term::Var(x), th) == subst(u, th) {
            lemma_eqs_subst_unifies(th, rest, x, u);
            assert forall|y: Seq<char>| #[trigger] pre.contains_key(y) implies subst(post[y], th) == subst(pre[y], th) by {
                lemma_subst_single_agree(pre[y], x, u, th);
            }
            if satisfies(th, post) {
                assert forall|y: Seq<char>| #[trigger] pre.contains_key(y) implies subst(Term::Var(y), th) == subst(pre[y], th) by {
                    assert(post.contains_key(y));
                }
            }
            if satisfies(th, pre) {
                assert forall|y: Seq<char>| #[trigger] post.contains_key(y) implies subst(Term::Var(y), th) == subst(post[y], th) by {
                    if y != x {
                        assert(pre.contains_key(y));
                    }
                }
            }
        } else {
            if satisfies(th, post) {
                assert(post.contains_key(x));
            }
        }
    }
}

proof fn lemma_decompose_step(
    e0: Equations,
    e: Equations,
    rest: Equations,
    cs: Seq<Term>,
    ds: Seq<Term>,
    sigma: Subst,
)
    requires
        cs.len() == ds.len(),
        forall|th: Subst| #[trigger] unifies(th, e) <==> (unifies(th, rest) && subst(Term::Expr(cs), th) == subst(Term::Expr(ds), th)),
        eqs_vars(e) == eqs_vars(rest).union(vars(Term::Expr(cs))).union(vars(Term::Expr(ds))),
        eqs_size(e) == eqs_size(rest) + size(Term::Expr(cs)) + size(Term::Expr(ds)),
        eqs_vars(e).finite(),
        sigma.dom().disjoint(eqs_vars(e)),
        forall|th: Subst| #[trigger] unifies(th, e0) <==> (unifies(th, e) && satisfies(th, sigma)),
    ensures
        eqs_vars(rest + rev_pairs(cs, ds)).subset_of(eqs_vars(e)),
        eqs_vars(rest + rev_pairs(cs, ds)).finite(),
        eqs_vars(rest + rev_pairs(cs, ds)).len() <= eqs_vars(e).len(),
        eqs_size(rest + rev_pairs(cs, ds)) < eqs_size(e),
        sigma.dom().disjoint(eqs_vars(rest + rev_pairs(cs, ds))),
        forall|th: Subst| #[trigger] unifies(th, e0) <==> (unifies(th, rest + rev_pairs(cs, ds)) && satisfies(th, sigma)),
{
    let n = cs.len();
    let p = rev_pairs(cs, ds);
    let f = rest + p;
    lemma_rev_pairs_size(rest, cs, ds);
    lemma_eqs_vars(f);
    lemma_eqs_vars(rest);
    lemma_vars_seq(cs);
    lemma_vars_seq(ds);
    assert forall|y: Seq<char>| eqs_vars(f).contains(y) implies eqs_vars(e).contains(y) by {
        let k = choose|k: int| 0 <= k < f.len() && (#[trigger] vars(f[k].0).contains(y) || vars(f[k].1).contains(y));
        if k < rest.len() {
            assert(f[k] == rest[k]);
            assert(vars(rest[k].0).contains(y) || vars(rest[k].1).contains(y));
            assert(eqs_vars(rest).contains(y));
        } else {
            let j = n - 1 - (k - rest.len());
            assert(f[k] == (cs[j], ds[j]));
            if vars(cs[j]).contains(y) {
                assert(vars_seq(cs).contains(y));
            } else {
                assert(vars_seq(ds).contains(y));
            }
        }
    }
    vstd::set_lib::lemma_len_subset(eqs_vars(f), eqs_vars(e));
    assert forall|th: Subst| #[trigger] unifies(th, e) <==> unifies(th, f) by {
        lemma_decompose(cs, ds, th);
        if unifies(th, e) {
            assert forall|k: int| 0 <= k < f.len() implies #[trigger] subst(f[k].0, th) == subst(f[k].1, th) by {
                if k < rest.len() {
                    assert(f[k] == rest[k]);
                } else {
                    let j = n - 1 - (k - rest.len());
                    assert(f[k] == (cs[j], ds[j]));
                }
            }
        }
        if unifies(th, f) {
            assert forall|k: int| 0 <= k < rest.len() implies #[trigger] subst(rest[k].0, th) == subst(rest[k].1, th) by {
                assert(f[k] == rest[k]);
            }
            assert forall|j: int| 0 <= j < n implies #[trigger] subst(cs[j], th) == subst(ds[j], th) by {
                let k = rest.len() + (n - 1 - j);
                assert(f[k] == (cs[j], ds[j]));
                assert(subst(f[k].0, th) == subst(f[k].1, th));
            }
        }
    }
}

proof fn lemma_no_unifier(e0: Equations, e: Equations, sigma: Subst, s: Term, t: Term)
    requires
        forall|th: Subst| #[trigger] unifies(th, e) ==> subst(s, th) == subst(t, th),
        forall|th: Subst| subst(s, th) != subst(t, th),
        forall|th: Subst| #[trigger] unifies(th, e0) <==> (unifies(th, e) && satisfies(th, sigma)),
    ensures
        !unifiable(e0),
{
    if unifiable(e0) {
        let th = choose|th: Subst| #[trigger] unifies(th, e0);
        assert(unifies(th, e));
    }
}

/// Replaces `x` by `u` on both sides of every equation.
fn subst_work(w: &Vec<(Atom, Atom)>, x: &String, u: &Atom) -> (r: Vec<(Atom, Atom)>)
    ensures
        eqs_view(r@) == eqs_subst(eqs_view(w@), x@, u@),
{
    let mut r: Vec<(Atom, Atom)> = Vec::new();
    let mut i: usize = 0;
    while i < w.len()
        invariant
            0 <= i <= w.len(),
            r@.len() == i,
            forall|j: int| 0 <= j < i ==> #[trigger] eqs_view(r@)[j] == eqs_subst(eqs_view(w@), x@, u@)[j],
        decreases w.len() - i,
    {
        let a = w[i].0.subst_var(x, u);
        let b = w[i].1.subst_var(x, u);
        let ghost o = r@;
        r.push((a, b));
        proof {
            assert forall|j: int| 0 <= j < i + 1 implies #[trigger] eqs_view(r@)[j] == eqs_subst(eqs_view(w@), x@, u@)[j] by {
                if j < i {
                    assert(r@[j] == o[j]);
                    assert(eqs_view(o)[j] == eqs_view(r@)[j]);
                }
            }
        }
        i += 1;
    }
    assert(eqs_view(r@) =~= eqs_subst(eqs_view(w@), x@, u@));
    r
}

/// Pushes the child pairs of two expressions of one length, last child first.
fn push_children(work: &mut Vec<(Atom, Atom)>, cs: &Vec<Atom>, ds: &Vec<Atom>)
    requires
        cs.len() == ds.len(),
    ensures
        eqs_view(final(work)@) == eqs_view(old(work)@) + rev_pairs(atoms_view(cs@), atoms_view(ds@)),
{
    let ghost w0 = eqs_view(work@);
    let ghost p = rev_pairs(atoms_view(cs@), atoms_view(ds@));
    proof {
        lemma_atoms_view(cs@);
        lemma_atoms_view(ds@);
    }
    let mut i: usize = cs.len();
    while i > 0
        invariant
            0 <= i <= cs.len(),
            cs.len() == ds.len(),
            p == rev_pairs(atoms_view(cs@), atoms_view(ds@)),
            atoms_view(cs@).len() == cs.len(),
            atoms_view(ds@).len() == ds.len(),
            eqs_view(work@) == w0 + p.subrange(0, cs.len() - i),
        decreases i,
    {
        i -= 1;
        let ghost o = eqs_view(work@);
        work.push((cs[i].duplicate(), ds[i].duplicate()));
        proof {
            lemma_atoms_view(cs@);
            lemma_atoms_view(ds@);
            assert(eqs_view(work@) =~= o.push((cs@[i as int]@, ds@[i as int]@)));
            assert(eqs_view(work@) =~= w0 + p.subrange(0, cs.len() - i));
        }
    }
    assert(p.subrange(0, cs.len() as int) =~= p);
}

/// A most general unifier of the equations `eqs`, or `None` where they have
/// no unifier.
pub fn unify_equations(eqs: Vec<(Atom, Atom)>) -> (r: Option<Bindings>)
    ensures
        match r {
            Some(b) => b.wf() && is_mgu(b@, eqs_view(eqs@)),
            None => !unifiable(eqs_view(eqs@)),
        },
{
    let nothing = Atom::Expression(Vec::new());
    unify_keeping(eqs, &nothing)
}

/// A most general unifier of `eqs`, as `unify_equations` gives it, that
/// binds no variable of `keep` to a bare variable outside `keep`: where a
/// variable of `keep` meets another variable, the other one is bound.
pub fn unify_keeping(eqs: Vec<(Atom, Atom)>, keep: &Atom) -> (r: Option<Bindings>)
    ensures
        match r {
            Some(b) => b.wf() && is_mgu(b@, eqs_view(eqs@)) && keeps_free(b@, vars(keep@)),
            None => !unifiable(eqs_view(eqs@)),
        },
{
    let ghost e0 = eqs_view(eqs@);
    let mut work = eqs;
    let mut sigma = Bindings::new();
    proof {
        lemma_eqs_vars(e0);
        assert(eqs_view(work@) == e0);
    }
    while work.len() > 0
        invariant
            e0 == eqs_view(eqs@),
            sigma.wf(),
            idempotent(sigma@),
            keeps_free(sigma@, vars(keep@)),
            eqs_vars(eqs_view(work@)).finite(),
            sigma@.dom().disjoint(eqs_vars(eqs_view(work@))),
            forall|th: Subst| #[trigger] unifies(th, e0) <==> (unifies(th, eqs_view(work@)) && satisfies(th, sigma@)),
        decreases eqs_vars(eqs_view(work@)).len(), eqs_size(eqs_view(work@)),
    {
        let ghost e = eqs_view(work@);
        let (s, t) = work.pop().unwrap();
        let ghost rest = eqs_view(work@);
        proof {
            assert(e =~= rest.push((s@, t@)));
            lemma_eqs_push(rest, (s@, t@));
            lemma_eqs_vars(rest);
            lemma_vars_finite(s@);
            lemma_vars_finite(t@);
            assert forall|th: Subst| #[trigger] unifies(th, e) <==> (unifies(th, rest) && subst(s@, th) == subst(t@, th)) by {
                lemma_unifies_push(th, rest, (s@, t@));
            }
        }
        if atom_eq(&s, &t) {
            proof {
                if eqs_vars(rest).len() == eqs_vars(e).len() {
                    lemma_size_pos(s@);
                }
                vstd::set_lib::lemma_len_subset(eqs_vars(rest), eqs_vars(e));
            }
        } else {
            let bound = match (&s, &t) {
                (Atom::Variable(a), Atom::Variable(b)) => {
                    if keep.has_var(b) && !keep.has_var(a) {
                        Some((a.clone(), t.duplicate()))
                    } else {
                        Some((b.clone(), s.duplicate()))
                    }
                },
                (_, Atom::Variable(x)) => Some((x.clone(), s.duplicate())),
                (Atom::Variable(x), _) => Some((x.clone(), t.duplicate())),
                _ => None,
            };
            match bound {
                Some((x, u)) => {
                    assert((t@ == Term::Var(x@) && u@ == s@) || (s@ == Term::Var(x@) && u@ == t@));
                    assert(vars(keep@).contains(x@) && u@ is Var ==> vars(keep@).contains(u@->Var_0));
                    if u.has_var(&x) {
                        proof {
                            assert forall|th: Subst| subst(s@, th) != subst(t@, th) by {
                                lemma_occurs_size(u@, x@, th);
                            }
                            lemma_no_unifier(e0, e, sigma@, s@, t@);
                        }
                        return None;
                    }
                    proof {
                        assert(vars(u@).subset_of(eqs_vars(e)));
                        assert(eqs_vars(e).contains(x@));
                    }
                    let ghost pre = sigma@;
                    let ghost xv = x@;
                    let ghost uv = u@;
                    work = subst_work(&work, &x, &u);
                    sigma.subst_values(&x, &u);
                    sigma.insert_new(x, u);
                    proof {
                        assert forall|th: Subst| #[trigger] unifies(th, e) <==> (unifies(th, rest) && subst(Term::Var(xv), th) == subst(uv, th)) by {
                            lemma_unifies_push(th, rest, (s@, t@));
                        }
                        assert(sigma@.dom() =~= pre.dom().insert(xv));
                        lemma_bind_step(e0, e, rest, xv, uv, pre, sigma@);
                        lemma_keeps_free_step(pre, sigma@, xv, uv, vars(keep@));
                    }
                },
                None => {
                    match (&s, &t) {
                        (Atom::Expression(cs), Atom::Expression(ds)) => {
                            if cs.len() != ds.len() {
                                proof {
                                    lemma_atoms_view(cs@);
                                    lemma_atoms_view(ds@);
                                    assert forall|th: Subst| subst(s@, th) != subst(t@, th) by {
                                        lemma_clash(s@, t@, th);
                                    }
                                    lemma_no_unifier(e0, e, sigma@, s@, t@);
                                }
                                return None;
                            }
                            push_children(&mut work, cs, ds);
                            proof {
                                lemma_atoms_view(cs@);
                                lemma_atoms_view(ds@);
                                lemma_decompose_step(e0, e, rest, atoms_view(cs@), atoms_view(ds@), sigma@);
                            }
                        },
                        _ => {
                            proof {
                                assert forall|th: Subst| subst(s@, th) != subst(t@, th) by {
                                    lemma_clash(s@, t@, th);
                                }
                                lemma_no_unifier(e0, e, sigma@, s@, t@);
                            }
                            return None;
                        },
                    }
                },
            }
        }
    }
    proof {
        assert forall|th: Subst| #[trigger] unifies(th, e0) <==> satisfies(th, sigma@) by {
            assert(unifies(th, eqs_view(work@)));
        }
    }
    Some(sigma)
}

} // verus!
