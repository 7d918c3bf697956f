//! Query evaluation over a sequence of stored atoms: single patterns, and
//! conjunctions of patterns glued by the `,` symbol.
use vstd::prelude::*;

use crate::atom::{Atom, Grounded, atoms_view, lemma_atoms_view, lemma_atoms_view_push};
use crate::bindings::{Bindings, compatible, merged, set_view};
use crate::term::{GndTerm, Subst, Term, fresh_prefix, rename, subst, vars};
use crate::unify::{
    Equations, eqs_view, is_mgu, lemma_mgu_unifies, unifiable, unify_equations, unify_keeping,
};

verus! {

/// The equation that matching the pattern `p` against the stored atom `a`
/// solves: the stored atom's variables are renamed apart from the pattern's.
pub open spec fn match_eqs(p: Term, a: Term) -> Equations {
    seq![(p, rename(a, fresh_prefix(p)))]
}

/// The stored atom `a` matches the pattern `p`.
pub open spec fn matches_stored(p: Term, a: Term) -> bool {
    unifiable(match_eqs(p, a))
}

/// `b` is an answer of matching `p` against `a`: a most general unifier kept
/// to the pattern's variables.
pub open spec fn is_match(p: Term, a: Term, b: Subst) -> bool {
    exists|s: Subst| is_mgu(s, match_eqs(p, a)) && b == s.restrict(vars(p))
}

/// `res` holds one answer per stored atom that matches `p`, in store order.
pub open spec fn single_rel(atoms: Seq<Term>, p: Term, res: Seq<Subst>) -> bool
    decreases atoms.len(),
{
    if atoms.len() == 0 {
        res.len() == 0
    } else if matches_stored(p, atoms.last()) {
        &&& res.len() > 0
        &&& is_match(p, atoms.last(), res.last())
        &&& single_rel(atoms.drop_last(), p, res.drop_last())
    } else {
        single_rel(atoms.drop_last(), p, res)
    }
}

/// `out` holds, in order, the merge of each answer of `res` with `b`, where
/// the two are compatible.
pub open spec fn merge_rel(res: Seq<Subst>, b: Subst, out: Seq<Subst>) -> bool
    decreases res.len(),
{
    if res.len() == 0 {
        out.len() == 0
    } else if compatible(res.last(), b) {
        &&& out.len() > 0
        &&& merged(res.last(), b, out.last())
        &&& merge_rel(res.drop_last(), b, out.drop_last())
    } else {
        merge_rel(res.drop_last(), b, out)
    }
}

/// The answers of the conjunct `c` under the earlier answer `b`.
pub open spec fn step_rel(atoms: Seq<Term>, c: Term, b: Subst, out: Seq<Subst>) -> bool {
    exists|res: Seq<Subst>| single_rel(atoms, subst(c, b), res) && merge_rel(res, b, out)
}

/// The answers of the conjunct `c` under each earlier answer of `prevs`, in order.
pub open spec fn expand_rel(atoms: Seq<Term>, c: Term, prevs: Seq<Subst>, out: Seq<Subst>) -> bool
    decreases prevs.len(),
{
    if prevs.len() == 0 {
        out.len() == 0
    } else {
        exists|k: int|
            0 <= k <= out.len() && expand_rel(atoms, c, prevs.drop_last(), out.take(k)) && step_rel(
                atoms,
                c,
                prevs.last(),
                out.skip(k),
            )
    }
}

/// The answers of the conjunction of `cs`, evaluated left to right.
pub open spec fn conj_rel(atoms: Seq<Term>, cs: Seq<Term>, out: Seq<Subst>) -> bool
    decreases cs.len(),
{
    if cs.len() == 0 {
        out == seq![Map::<Seq<char>, Term>::empty()]
    } else {
        exists|mid: Seq<Subst>|
            conj_rel(atoms, cs.drop_last(), mid) && if mid.len() == 0 {
                out.len() == 0
            } else {
                expand_rel(atoms, cs.last(), mid, out)
            }
    }
}

/// The symbol that glues the patterns of a conjunction.
pub open spec fn comma() -> Term {
    Term::Sym(seq![','])
}

pub open spec fn is_conjunction(q: Term) -> bool {
    q is Expr && q->Expr_0.len() > 0 && q->Expr_0[0] == comma()
}

/// `out` is the answer of the query `q` over the stored atoms.
pub open spec fn query_rel(atoms: Seq<Term>, q: Term, out: Seq<Subst>) -> bool {
    if is_conjunction(q) {
        conj_rel(atoms, q->Expr_0.drop_first(), out)
    } else {
        single_rel(atoms, q, out)
    }
}

/// The number of stored atoms that match `p`.
pub open spec fn count_matching(atoms: Seq<Term>, p: Term) -> nat
    decreases atoms.len(),
{
    if atoms.len() == 0 {
        0
    } else {
        count_matching(atoms.drop_last(), p) + if matches_stored(p, atoms.last()) {
            1nat
        } else {
            0nat
        }
    }
}

/// An atom without variables is left alone by renaming.
proof fn lemma_rename_ground(t: Term, pre: Seq<char>)
    requires
        vars(t) =~= Set::<Seq<char>>::empty(),
    ensures
        rename(t, pre) == t,
    decreases t,
{
    if let Term::Var(x) = t {
        assert(vars(t).contains(x));
    }
    if let Term::Expr(cs) = t {
        crate::term::lemma_rename_seq_index(cs, pre);
        crate::term::lemma_vars_seq(cs);
        assert forall|i: int| 0 <= i < cs.len() implies rename(cs[i], pre) == cs[i] by {
            assert(vars(cs[i]) =~= Set::<Seq<char>>::empty()) by {
                assert forall|x: Seq<char>| !vars(cs[i]).contains(x) by {
                    if vars(cs[i]).contains(x) {
                        assert(vars(t).contains(x));
                    }
                }
            }
            lemma_rename_ground(cs[i], pre);
        }
        assert(crate::term::rename_seq(cs, pre) =~= cs);
    }
}

/// `t` is an instance of `a`: some substitution turns `a` into `t`.
pub open spec fn is_instance(t: Term, a: Term) -> bool {
    exists|th: Subst| t == subst(a, th)
}

/// An answer of matching `p` against the stored atom `a` turns `p` into an
/// instance of `a`.
pub proof fn lemma_match_instance(p: Term, a: Term, b: Subst)
    requires
        is_match(p, a, b),
    ensures
        is_instance(subst(p, b), a),
{
    let s = choose|s: Subst| is_mgu(s, match_eqs(p, a)) && b == s.restrict(vars(p));
    crate::unify::lemma_mgu_unifies(s, match_eqs(p, a));
    assert(subst(match_eqs(p, a)[0].0, s) == subst(match_eqs(p, a)[0].1, s));
    crate::term::lemma_rename_subst(a, fresh_prefix(p), s);
    crate::term::lemma_subst_restrict(p, s, b);
    let th = crate::term::after_rename(s, fresh_prefix(p));
    assert(subst(p, b) == subst(a, th));
}

/// An answer of matching `p` against a stored atom without variables turns
/// `p` into that very atom.
pub proof fn lemma_match_ground(p: Term, a: Term, b: Subst)
    requires
        is_match(p, a, b),
        vars(a) =~= Set::<Seq<char>>::empty(),
    ensures
        subst(p, b) == a,
{
    let s = choose|s: Subst| is_mgu(s, match_eqs(p, a)) && b == s.restrict(vars(p));
    crate::unify::lemma_mgu_unifies(s, match_eqs(p, a));
    assert(subst(match_eqs(p, a)[0].0, s) == subst(match_eqs(p, a)[0].1, s));
    lemma_rename_ground(a, fresh_prefix(p));
    crate::term::lemma_subst_absent(a, s);
    crate::term::lemma_subst_restrict(p, s, b);
}

/// A query for a pattern that is not a conjunction is sound and complete:
/// there is one answer per matching stored atom, each answer is a most
/// general match of the pattern with such an atom and turns the pattern into
/// an instance of that atom, and with a stored atom without variables into
/// that very atom.
pub proof fn lemma_single_query_sound_complete(atoms: Seq<Term>, p: Term, res: Seq<Subst>)
    requires
        single_rel(atoms, p, res),
    ensures
        res.len() == count_matching(atoms, p),
        forall|j: int|
            0 <= j < res.len() ==> exists|i: int|
                0 <= i < atoms.len() && matches_stored(p, atoms[i]) && is_match(p, atoms[i], #[trigger] res[j])
                    && is_instance(subst(p, res[j]), atoms[i])
                    && (vars(atoms[i]) =~= Set::<Seq<char>>::empty() ==> subst(p, res[j]) == atoms[i]),
    decreases atoms.len(),
{
    if atoms.len() > 0 {
        let rest = atoms.drop_last();
        let a = atoms.last();
        if matches_stored(p, a) {
            lemma_single_query_sound_complete(rest, p, res.drop_last());
            assert forall|j: int| 0 <= j < res.len() implies exists|i: int|
                0 <= i < atoms.len() && matches_stored(p, atoms[i]) && is_match(p, atoms[i], #[trigger] res[j])
                    && is_instance(subst(p, res[j]), atoms[i])
                    && (vars(atoms[i]) =~= Set::<Seq<char>>::empty() ==> subst(p, res[j]) == atoms[i]) by {
                if j < res.len() - 1 {
                    assert(res.drop_last()[j] == res[j]);
                    let i = choose|i: int|
                        0 <= i < rest.len() && matches_stored(p, rest[i]) && is_match(p, rest[i], #[trigger] res.drop_last()[j])
                            && is_instance(subst(p, res.drop_last()[j]), rest[i]) && (vars(rest[i]) =~= Set::<Seq<char>>::empty() ==> subst(p, res.drop_last()[j]) == rest[i]);
                    assert(atoms[i] == rest[i]);
                } else {
                    let i = atoms.len() - 1;
                    lemma_match_instance(p, a, res[j]);
                    if vars(a) =~= Set::<Seq<char>>::empty() {
                        lemma_match_ground(p, a, res[j]);
                    }
                    assert(atoms[i] == a);
                }
            }
        } else {
            lemma_single_query_sound_complete(rest, p, res);
            assert forall|j: int| 0 <= j < res.len() implies exists|i: int|
                0 <= i < atoms.len() && matches_stored(p, atoms[i]) && is_match(p, atoms[i], #[trigger] res[j])
                    && is_instance(subst(p, res[j]), atoms[i])
                    && (vars(atoms[i]) =~= Set::<Seq<char>>::empty() ==> subst(p, res[j]) == atoms[i]) by {
                let i = choose|i: int|
                    0 <= i < rest.len() && matches_stored(p, rest[i]) && is_match(p, rest[i], #[trigger] res[j])
                        && is_instance(subst(p, res[j]), rest[i]) && (vars(rest[i]) =~= Set::<Seq<char>>::empty() ==> subst(p, res[j]) == rest[i]);
                assert(atoms[i] == rest[i]);
            }
        }
    }
}

/// No variable is bound to a bare variable outside the pattern `p`: where a
/// query variable met a variable of a stored atom, the stored one was bound.
pub open spec fn no_outside_var(b: Subst, p: Term) -> bool {
    forall|x: Seq<char>| #[trigger] b.contains_key(x) && b[x] is Var ==> vars(p).contains(b[x]->Var_0)
}

pub open spec fn all_wf(v: Seq<Bindings>) -> bool {
    forall|i: int| 0 <= i < v.len() ==> #[trigger] v[i].wf()
}

proof fn lemma_set_view_push(v: Seq<Bindings>, b: Bindings)
    ensures
        set_view(v.push(b)) == set_view(v).push(b@),
        set_view(v.push(b)).drop_last() == set_view(v),
{
    assert(set_view(v.push(b)) =~= set_view(v).push(b@));
    assert(set_view(v.push(b)).drop_last() =~= set_view(v));
}

/// Matches the pattern `p` against one stored atom.
pub fn match_stored(p: &Atom, pre: &String, a: &Atom) -> (r: Option<Bindings>)
    requires
        pre@ == fresh_prefix(p@),
    ensures
        r is Some <==> matches_stored(p@, a@),
        r matches Some(b) ==> b.wf() && is_match(p@, a@, b@) && no_outside_var(b@, p@),
{
    let renamed = a.rename_vars(pre);
    let mut eqs: Vec<(Atom, Atom)> = Vec::new();
    eqs.push((p.duplicate(), renamed));
    assert(eqs_view(eqs@) =~= match_eqs(p@, a@));
    match unify_keeping(eqs, p) {
        Some(s) => {
            let b = s.narrow_vars(p);
            assert(is_mgu(s@, match_eqs(p@, a@)) && b@ == s@.restrict(vars(p@)));
            proof {
                lemma_mgu_unifies(s@, match_eqs(p@, a@));
            }
            Some(b)
        },
        None => None,
    }
}

/// Matches the pattern `p` against every stored atom, in order.
pub fn single_query(atoms: &Vec<Atom>, p: &Atom) -> (r: Vec<Bindings>)
    ensures
        all_wf(r@),
        single_rel(atoms_view(atoms@), p@, set_view(r@)),
        forall|j: int| 0 <= j < r@.len() ==> no_outside_var(#[trigger] set_view(r@)[j], p@),
{
    let pre = p.fresh_prefix();
    let mut r: Vec<Bindings> = Vec::new();
    let mut i: usize = 0;
    assert(atoms_view(atoms@.take(0)) =~= Seq::<Term>::empty());
    assert(set_view(r@) =~= Seq::<Subst>::empty());
    while i < atoms.len()
        invariant
            0 <= i <= atoms.len(),
            pre@ == fresh_prefix(p@),
            all_wf(r@),
            single_rel(atoms_view(atoms@.take(i as int)), p@, set_view(r@)),
            forall|j: int| 0 <= j < r@.len() ==> no_outside_var(#[trigger] set_view(r@)[j], p@),
        decreases atoms.len() - i,
    {
        proof {
            assert(atoms@.take(i + 1) =~= atoms@.take(i as int).push(atoms@[i as int]));
            lemma_atoms_view_push(atoms@.take(i as int), atoms@[i as int]);
            lemma_atoms_view(atoms@.take(i as int));
        }
        let ghost av = atoms_view(atoms@.take(i + 1));
        match match_stored(p, &pre, &atoms[i]) {
            Some(b) => {
                let ghost old_r = r@;
                r.push(b);
                proof {
                    lemma_set_view_push(old_r, b);
                    assert(av.drop_last() =~= atoms_view(atoms@.take(i as int)));
                }
            },
            None => {
                assert(av.drop_last() =~= atoms_view(atoms@.take(i as int)));
            },
        }
        i += 1;
    }
    assert(atoms@.take(atoms.len() as int) =~= atoms@);
    r
}

/// The answers of the conjunct `c` under the earlier answer `b`.
fn query_step(atoms: &Vec<Atom>, c: &Atom, b: &Bindings) -> (r: Vec<Bindings>)
    requires
        b.wf(),
    ensures
        all_wf(r@),
        step_rel(atoms_view(atoms@), c@, b@, set_view(r@)),
{
    let q = b.apply(c);
    let res = single_query(atoms, &q);
    let mut out: Vec<Bindings> = Vec::new();
    let mut i: usize = 0;
    assert(set_view(res@).take(0) =~= Seq::<Subst>::empty());
    assert(set_view(out@) =~= Seq::<Subst>::empty());
    while i < res.len()
        invariant
            0 <= i <= res.len(),
            b.wf(),
            all_wf(res@),
            all_wf(out@),
            merge_rel(set_view(res@).take(i as int), b@, set_view(out@)),
        decreases res.len() - i,
    {
        let ghost rv = set_view(res@).take(i + 1);
        assert(rv.drop_last() =~= set_view(res@).take(i as int));
        assert(rv.last() == res@[i as int]@);
        match res[i].merge(b) {
            Some(m) => {
                let ghost old_out = out@;
                out.push(m);
                proof {
                    lemma_set_view_push(old_out, m);
                }
            },
            None => {},
        }
        i += 1;
    }
    assert(set_view(res@).take(res.len() as int) =~= set_view(res@));
    assert(single_rel(atoms_view(atoms@), subst(c@, b@), set_view(res@)) && merge_rel(
        set_view(res@),
        b@,
        set_view(out@),
    ));
    out
}

/// The answers of the conjunct `c` under each earlier answer of `prevs`.
fn expand(atoms: &Vec<Atom>, c: &Atom, prevs: &Vec<Bindings>) -> (r: Vec<Bindings>)
    requires
        all_wf(prevs@),
    ensures
        all_wf(r@),
        expand_rel(atoms_view(atoms@), c@, set_view(prevs@), set_view(r@)),
{
    let mut out: Vec<Bindings> = Vec::new();
    let mut i: usize = 0;
    assert(set_view(prevs@).take(0) =~= Seq::<Subst>::empty());
    assert(set_view(out@) =~= Seq::<Subst>::empty());
    while i < prevs.len()
        invariant
            0 <= i <= prevs.len(),
            all_wf(prevs@),
            all_wf(out@),
            expand_rel(atoms_view(atoms@), c@, set_view(prevs@).take(i as int), set_view(out@)),
        decreases prevs.len() - i,
    {
        let mut step = query_step(atoms, c, &prevs[i]);
        let ghost old_out = out@;
        let ghost st = step@;
        out.append(&mut step);
        proof {
            let pv = set_view(prevs@).take(i + 1);
            let k = old_out.len() as int;
            assert(pv.drop_last() =~= set_view(prevs@).take(i as int));
            assert(pv.last() == prevs@[i as int]@);
            assert(set_view(out@).take(k) =~= set_view(old_out));
            assert(set_view(out@).skip(k) =~= set_view(st));
            assert(all_wf(out@)) by {
                assert forall|j: int| 0 <= j < out@.len() implies #[trigger] out@[j].wf() by {
                    if j < k {
                        assert(out@[j] == old_out[j]);
                    } else {
                        assert(out@[j] == st[j - k]);
                    }
                }
            }
        }
        i += 1;
    }
    assert(set_view(prevs@).take(prevs.len() as int) =~= set_view(prevs@));
    out
}

proof fn lemma_conj_step(atoms: Seq<Term>, cs: Seq<Term>, mid: Seq<Subst>, out: Seq<Subst>)
    requires
        cs.len() > 0,
        conj_rel(atoms, cs.drop_last(), mid),
        mid.len() == 0 ==> out.len() == 0,
        mid.len() > 0 ==> expand_rel(atoms, cs.last(), mid, out),
    ensures
        conj_rel(atoms, cs, out),
{
}

/// Evaluates the conjunction of the patterns `cs[1..]`, left to right.
fn query_conjunction(atoms: &Vec<Atom>, cs: &Vec<Atom>) -> (r: Vec<Bindings>)
    requires
        cs.len() > 0,
    ensures
        all_wf(r@),
        conj_rel(atoms_view(atoms@), atoms_view(cs@).drop_first(), set_view(r@)),
{
    let ghost conj = atoms_view(cs@).drop_first();
    proof {
        lemma_atoms_view(cs@);
    }
    let mut acc: Vec<Bindings> = Vec::new();
    acc.push(Bindings::new());
    assert(set_view(acc@) =~= seq![Map::<Seq<char>, Term>::empty()]);
    assert(conj.take(0) =~= Seq::<Term>::empty());
    let mut i: usize = 1;
    while i < cs.len()
        invariant
            1 <= i <= cs.len(),
            conj == atoms_view(cs@).drop_first(),
            conj.len() == cs.len() - 1,
            forall|j: int| 0 <= j < conj.len() ==> #[trigger] conj[j] == cs@[j + 1]@,
            all_wf(acc@),
            conj_rel(atoms_view(atoms@), conj.take(i - 1), set_view(acc@)),
        decreases cs.len() - i,
    {
        let ghost prev = set_view(acc@);
        let ghost ct = conj.take(i as int);
        assert(ct.drop_last() =~= conj.take(i - 1));
        assert(ct.last() == cs@[i as int]@);
        if acc.len() > 0 {
            acc = expand(atoms, &cs[i], &acc);
            assert(expand_rel(atoms_view(atoms@), ct.last(), prev, set_view(acc@)));
        } else {
            assert(set_view(acc@).len() == 0);
        }
        proof {
            assert(conj_rel(atoms_view(atoms@), ct.drop_last(), prev));
            assert(prev.len() == 0 ==> set_view(acc@).len() == 0);
            assert(prev.len() > 0 ==> expand_rel(atoms_view(atoms@), ct.last(), prev, set_view(acc@)));
            lemma_conj_step(atoms_view(atoms@), ct, prev, set_view(acc@));
        }
        i += 1;
    }
    assert(conj.take(cs.len() - 1) =~= conj);
    acc
}

/// Evaluates the query `q` over the stored atoms: a conjunction is folded
/// left to right, anything else is matched against every atom.
pub fn query_atoms(atoms: &Vec<Atom>, q: &Atom) -> (r: Vec<Bindings>)
    ensures
        all_wf(r@),
        query_rel(atoms_view(atoms@), q@, set_view(r@)),
        !is_conjunction(q@) ==> forall|j: int| 0 <= j < r@.len() ==> no_outside_var(#[trigger] set_view(r@)[j], q@),
{
    let glue = ",".to_owned();
    proof {
        reveal_strlit(",");
        assert(glue@ =~= seq![',']);
    }
    match q {
        Atom::Expression(cs) => {
            proof {
                lemma_atoms_view(cs@);
            }
            if cs.len() > 0 {
                let glued = match &cs[0] {
                    Atom::Symbol(s) => *s == glue,
                    _ => false,
                };
                assert(glued == (atoms_view(cs@)[0] == comma()));
                if glued {
                    return query_conjunction(atoms, cs);
                }
            }
            single_query(atoms, q)
        },
        _ => single_query(atoms, q),
    }
}

/// The answers of matching two atoms: a grounded space matches as a query
/// over its atoms, other atoms unify as they are.
pub open spec fn match_atoms_rel(a: Term, b: Term, out: Seq<Subst>) -> bool {
    match a {
        Term::Gnd(GndTerm::Space(xs)) => query_rel(xs, b, out),
        _ => match b {
            Term::Gnd(GndTerm::Space(ys)) => query_rel(ys, a, out),
            _ => if unifiable(seq![(a, b)]) {
                out.len() == 1 && is_mgu(out[0], seq![(a, b)])
            } else {
                out.len() == 0
            },
        },
    }
}

/// Matches two atoms; see [`match_atoms_rel`].
pub fn match_atoms(a: &Atom, b: &Atom) -> (r: Vec<Bindings>)
    ensures
        all_wf(r@),
        match_atoms_rel(a@, b@, set_view(r@)),
{
    if let Atom::Grounded(Grounded::Space(xs)) = a {
        return query_atoms(xs, b);
    }
    if let Atom::Grounded(Grounded::Space(ys)) = b {
        return query_atoms(ys, a);
    }
    let mut eqs: Vec<(Atom, Atom)> = Vec::new();
    eqs.push((a.duplicate(), b.duplicate()));
    assert(eqs_view(eqs@) =~= seq![(a@, b@)]);
    let mut out: Vec<Bindings> = Vec::new();
    match unify_equations(eqs) {
        Some(s) => {
            out.push(s);
            assert(set_view(out@) =~= seq![s@]);
        },
        None => {
            assert(set_view(out@) =~= Seq::<Subst>::empty());
        },
    }
    proof {
        if set_view(out@).len() == 1 {
            lemma_mgu_unifies(set_view(out@)[0], seq![(a@, b@)]);
        }
    }
    out
}

} // verus!
