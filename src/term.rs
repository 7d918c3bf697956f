//! The mathematical model of atoms: terms, their variables, sizes and
//! substitutions.
use vstd::prelude::*;

verus! {

/// The value of a grounded atom as the contracts see it.
pub enum GndTerm {
    Num(int),
    Op(Seq<char>),
    Space(Seq<Term>),
}

/// The value of an atom.
pub enum Term {
    Sym(Seq<char>),
    Var(Seq<char>),
    Expr(Seq<Term>),
    Gnd(GndTerm),
}

/// A substitution: variable name to term.
pub type Subst = Map<Seq<char>, Term>;

/// The names of the variables that occur in `t`.
pub open spec fn vars(t: Term) -> Set<Seq<char>>
    decreases t,
{
    match t {
        Term::Var(x) => set![x],
        Term::Expr(cs) => vars_seq(cs),
        _ => Set::empty(),
    }
}

pub open spec fn vars_seq(cs: Seq<Term>) -> Set<Seq<char>>
    decreases cs,
{
    if cs.len() == 0 {
        Set::empty()
    } else {
        vars_seq(cs.drop_last()).union(vars(cs.last()))
    }
}

/// The number of nodes of `t`.
pub open spec fn size(t: Term) -> nat
    decreases t,
{
    match t {
        Term::Expr(cs) => 1 + size_seq(cs),
        _ => 1,
    }
}

pub open spec fn size_seq(cs: Seq<Term>) -> nat
    decreases cs,
{
    if cs.len() == 0 {
        0
    } else {
        size_seq(cs.drop_last()) + size(cs.last())
    }
}

/// `t` with every variable in the domain of `s` replaced by its value.
pub open spec fn subst(t: Term, s: Subst) -> Term
    decreases t,
{
    match t {
        Term::Var(x) => if s.contains_key(x) {
            s[x]
        } else {
            t
        },
        Term::Expr(cs) => Term::Expr(subst_seq(cs, s)),
        _ => t,
    }
}

pub open spec fn subst_seq(cs: Seq<Term>, s: Subst) -> Seq<Term>
    decreases cs,
{
    if cs.len() == 0 {
        Seq::empty()
    } else {
        subst_seq(cs.drop_last(), s).push(subst(cs.last(), s))
    }
}

/// `t` with every variable name prefixed by `pre`.
pub open spec fn rename(t: Term, pre: Seq<char>) -> Term
    decreases t,
{
    match t {
        Term::Var(x) => Term::Var(pre + x),
        Term::Expr(cs) => Term::Expr(rename_seq(cs, pre)),
        _ => t,
    }
}

pub open spec fn rename_seq(cs: Seq<Term>, pre: Seq<char>) -> Seq<Term>
    decreases cs,
{
    if cs.len() == 0 {
        Seq::empty()
    } else {
        rename_seq(cs.drop_last(), pre).push(rename(cs.last(), pre))
    }
}

/// The names of the variables of `t`, one after the other.
pub open spec fn var_text(t: Term) -> Seq<char>
    decreases t,
{
    match t {
        Term::Var(x) => x,
        Term::Expr(cs) => var_text_seq(cs),
        _ => Seq::empty(),
    }
}

pub open spec fn var_text_seq(cs: Seq<Term>) -> Seq<char>
    decreases cs,
{
    if cs.len() == 0 {
        Seq::empty()
    } else {
        var_text_seq(cs.drop_last()) + var_text(cs.last())
    }
}

/// A prefix longer than every variable name of `p`: stored atoms get their
/// variables renamed with it, so that they never clash with the query's.
pub open spec fn fresh_prefix(p: Term) -> Seq<char> {
    seq!['#'] + var_text(p)
}

/// The decimal digits of `n`.
pub open spec fn decimal(n: nat) -> Seq<char>
    decreases n,
{
    if n < 10 {
        seq![digit(n)]
    } else {
        decimal(n / 10).push(digit(n % 10))
    }
}

pub open spec fn digit(d: nat) -> char {
    ((48 + d) as u8) as char
}

/// The decimal text of the integer `n`.
pub open spec fn int_text(n: int) -> Seq<char> {
    if n < 0 {
        seq!['-'] + decimal((-n) as nat)
    } else {
        decimal(n as nat)
    }
}

/// The text of `t`, in s-expression syntax.
pub open spec fn text(t: Term) -> Seq<char>
    decreases t,
{
    match t {
        Term::Sym(s) => s,
        Term::Var(x) => seq!['$'] + x,
        Term::Expr(cs) => seq!['('] + join_text(cs) + seq![')'],
        Term::Gnd(GndTerm::Num(n)) => int_text(n),
        Term::Gnd(GndTerm::Op(name)) => name,
        Term::Gnd(GndTerm::Space(_)) => "GroundingSpace"@,
    }
}

/// The texts of the terms of `cs`, separated by spaces.
pub open spec fn join_text(cs: Seq<Term>) -> Seq<char>
    decreases cs,
{
    if cs.len() == 0 {
        Seq::empty()
    } else if cs.len() == 1 {
        text(cs[0])
    } else {
        join_text(cs.drop_last()) + seq![' '] + text(cs.last())
    }
}

/// The substitution that replaces the single variable `x` by `u`.
pub open spec fn single(x: Seq<char>, u: Term) -> Subst {
    Map::empty().insert(x, u)
}

pub proof fn lemma_subst_seq_index(cs: Seq<Term>, s: Subst)
    ensures
        subst_seq(cs, s).len() == cs.len(),
        forall|i: int| 0 <= i < cs.len() ==> #[trigger] subst_seq(cs, s)[i] == subst(cs[i], s),
    decreases cs,
{
    if cs.len() > 0 {
        lemma_subst_seq_index(cs.drop_last(), s);
    }
}

pub proof fn lemma_rename_seq_index(cs: Seq<Term>, pre: Seq<char>)
    ensures
        rename_seq(cs, pre).len() == cs.len(),
        forall|i: int| 0 <= i < cs.len() ==> #[trigger] rename_seq(cs, pre)[i] == rename(cs[i], pre),
    decreases cs,
{
    if cs.len() > 0 {
        lemma_rename_seq_index(cs.drop_last(), pre);
    }
}

pub proof fn lemma_vars_seq(cs: Seq<Term>)
    ensures
        vars_seq(cs).finite(),
        forall|x: Seq<char>|
            vars_seq(cs).contains(x) <==> exists|i: int| 0 <= i < cs.len() && #[trigger] vars(cs[i]).contains(x),
    decreases cs,
{
    if cs.len() > 0 {
        lemma_vars_seq(cs.drop_last());
        lemma_vars_finite(cs.last());
        let p = cs.drop_last();
        assert forall|x: Seq<char>|
            vars_seq(cs).contains(x) <==> exists|i: int| 0 <= i < cs.len() && #[trigger] vars(cs[i]).contains(x) by {
            if vars_seq(cs).contains(x) {
                if vars_seq(p).contains(x) {
                    let i = choose|i: int| 0 <= i < p.len() && #[trigger] vars(p[i]).contains(x);
                    assert(cs[i] == p[i]);
                } else {
                    assert(vars(cs[cs.len() - 1]).contains(x));
                }
            }
            if exists|i: int| 0 <= i < cs.len() && #[trigger] vars(cs[i]).contains(x) {
                let i = choose|i: int| 0 <= i < cs.len() && #[trigger] vars(cs[i]).contains(x);
                if i < cs.len() - 1 {
                    assert(p[i] == cs[i]);
                }
            }
        }
    }
}

pub proof fn lemma_vars_finite(t: Term)
    ensures
        vars(t).finite(),
    decreases t,
{
    if let Term::Expr(cs) = t {
        lemma_vars_seq(cs);
    }
}

pub proof fn lemma_size_seq(cs: Seq<Term>, i: int)
    requires
        0 <= i < cs.len(),
    ensures
        size_seq(cs) >= size(cs[i]),
    decreases cs,
{
    if i < cs.len() - 1 {
        lemma_size_seq(cs.drop_last(), i);
    }
}

pub proof fn lemma_size_pos(t: Term)
    ensures
        size(t) >= 1,
{
}

/// A term without the variable `x` is left alone by a substitution of `x`.
pub proof fn lemma_subst_absent(t: Term, s: Subst)
    requires
        vars(t).disjoint(s.dom()),
    ensures
        subst(t, s) == t,
    decreases t,
{
    if let Term::Expr(cs) = t {
        lemma_subst_seq_index(cs, s);
        lemma_vars_seq(cs);
        assert forall|i: int| 0 <= i < cs.len() implies subst(cs[i], s) == cs[i] by {
            assert(vars(cs[i]).subset_of(vars(t)));
            lemma_subst_absent(cs[i], s);
        }
        assert(subst_seq(cs, s) =~= cs);
    }
}

/// A substitution reads only the variables of the term.
pub proof fn lemma_subst_restrict(t: Term, s: Subst, r: Subst)
    requires
        forall|x: Seq<char>| #[trigger] vars(t).contains(x) ==> (s.contains_key(x) <==> r.contains_key(x)),
        forall|x: Seq<char>| #[trigger] vars(t).contains(x) && s.contains_key(x) ==> s[x] == r[x],
    ensures
        subst(t, s) == subst(t, r),
    decreases t,
{
    if let Term::Var(x) = t {
        assert(vars(t).contains(x));
    }
    if let Term::Expr(cs) = t {
        lemma_subst_seq_index(cs, s);
        lemma_subst_seq_index(cs, r);
        lemma_vars_seq(cs);
        assert forall|i: int| 0 <= i < cs.len() implies subst(cs[i], s) == subst(cs[i], r) by {
            assert(vars(cs[i]).subset_of(vars(t)));
            lemma_subst_restrict(cs[i], s, r);
        }
        assert(subst_seq(cs, s) =~= subst_seq(cs, r));
    }
}

/// The substitution that does to a term what renaming it by `pre` and then
/// applying `s` does.
pub open spec fn after_rename(s: Subst, pre: Seq<char>) -> Subst {
    Map::new(|x: Seq<char>| true, |x: Seq<char>| subst(Term::Var(pre + x), s))
}

/// Renaming and then substituting is one substitution.
pub proof fn lemma_rename_subst(t: Term, pre: Seq<char>, s: Subst)
    ensures
        subst(rename(t, pre), s) == subst(t, after_rename(s, pre)),
    decreases t,
{
    if let Term::Expr(cs) = t {
        let th = after_rename(s, pre);
        lemma_rename_seq_index(cs, pre);
        lemma_subst_seq_index(rename_seq(cs, pre), s);
        lemma_subst_seq_index(cs, th);
        assert forall|i: int| 0 <= i < cs.len() implies subst(rename(cs[i], pre), s) == subst(cs[i], th) by {
            lemma_rename_subst(cs[i], pre, s);
        }
        assert(subst_seq(rename_seq(cs, pre), s) =~= subst_seq(cs, th));
    }
}

/// The variables left after replacing `x` by `u`.
pub proof fn lemma_subst_single_vars(t: Term, x: Seq<char>, u: Term)
    ensures
        vars(subst(t, single(x, u))).subset_of(vars(t).remove(x).union(vars(u))),
        vars(t).contains(x) ==> vars(u).subset_of(vars(subst(t, single(x, u)))),
    decreases t,
{
    let s = single(x, u);
    if let Term::Expr(cs) = t {
        lemma_subst_seq_index(cs, s);
        lemma_vars_seq(cs);
        lemma_vars_seq(subst_seq(cs, s));
        assert forall|y: Seq<char>| vars(subst(t, s)).contains(y) implies vars(t).remove(x).union(
            vars(u),
        ).contains(y) by {
            let i = choose|i: int| 0 <= i < cs.len() && #[trigger] vars(subst_seq(cs, s)[i]).contains(y);
            lemma_subst_single_vars(cs[i], x, u);
        }
        if vars(t).contains(x) {
            let i = choose|i: int| 0 <= i < cs.len() && #[trigger] vars(cs[i]).contains(x);
            lemma_subst_single_vars(cs[i], x, u);
            assert forall|y: Seq<char>| vars(u).contains(y) implies vars(subst(t, s)).contains(y) by {
                assert(vars(subst_seq(cs, s)[i]).contains(y));
            }
        }
    }
}

/// Where `th` makes `x` and `u` equal, replacing `x` by `u` first changes nothing.
pub proof fn lemma_subst_single_agree(t: Term, x: Seq<char>, u: Term, th: Subst)
    requires
        subst(Term::Var(x), th) == subst(u, th),
    ensures
        subst(subst(t, single(x, u)), th) == subst(t, th),
    decreases t,
{
    let s = single(x, u);
    if let Term::Expr(cs) = t {
        lemma_subst_seq_index(cs, s);
        lemma_subst_seq_index(subst_seq(cs, s), th);
        lemma_subst_seq_index(cs, th);
        assert forall|i: int| 0 <= i < cs.len() implies subst(subst(cs[i], s), th) == subst(cs[i], th) by {
            lemma_subst_single_agree(cs[i], x, u, th);
        }
        assert(subst_seq(subst_seq(cs, s), th) =~= subst_seq(cs, th));
    }
}

/// A variable is never equal, under any substitution, to a larger term that holds it.
pub proof fn lemma_occurs_size(t: Term, x: Seq<char>, th: Subst)
    requires
        vars(t).contains(x),
    ensures
        size(subst(t, th)) >= size(subst(Term::Var(x), th)),
        t != Term::Var(x) ==> size(subst(t, th)) > size(subst(Term::Var(x), th)),
    decreases t,
{
    if let Term::Expr(cs) = t {
        lemma_vars_seq(cs);
        lemma_subst_seq_index(cs, th);
        let i = choose|i: int| 0 <= i < cs.len() && #[trigger] vars(cs[i]).contains(x);
        lemma_occurs_size(cs[i], x, th);
        lemma_size_seq(subst_seq(cs, th), i);
    }
}

} // verus!
