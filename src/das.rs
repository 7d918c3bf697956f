//! Distributed queries: the `new-das` operation's argument checks, the
//! request sent to the remote matching service, and the decoding of its
//! answers into bindings.
use vstd::prelude::*;

use crate::atom::{Atom, atoms_view, lemma_atoms_view};
use crate::bindings::{Bindings, set_view};
use crate::term::{Subst, Term, decimal, text};
use crate::translator::{chars_of, translate, translation};

verus! {

/// An error of executing an operation, with a message for people.
#[derive(Clone, Debug, PartialEq)]
pub enum ExecError {
    Runtime(String),
}

impl ExecError {
    pub fn message(&self) -> (r: String)
        ensures
            match self {
                ExecError::Runtime(m) => r@ == m@,
            },
    {
        match self {
            ExecError::Runtime(m) => m.clone(),
        }
    }
}

/// The message of a malformed endpoint.
pub open spec fn bad_endpoint_message() -> Seq<char> {
    "new-das arguments must be a valid endpoint (eg. 0.0.0.0:8080)"@
}

/// The message of a wrong number of arguments to `new-das`.
pub open spec fn arity_message() -> Seq<char> {
    "new-das expects 2 arguments (eg !(new-das 0.0.0.0:8080 0.0.0.0:35700)"@
}

/// `s` without its parentheses.
pub open spec fn without_parens(s: Seq<char>) -> Seq<char>
    decreases s.len(),
{
    if s.len() == 0 {
        Seq::empty()
    } else if s.last() == '(' || s.last() == ')' {
        without_parens(s.drop_last())
    } else {
        without_parens(s.drop_last()).push(s.last())
    }
}

pub open spec fn is_digit(c: char) -> bool {
    '0' <= c && c <= '9'
}

/// The value of the decimal digits `d`.
pub open spec fn digits_value(d: Seq<char>) -> nat
    decreases d.len(),
{
    if d.len() == 0 {
        0
    } else {
        digits_value(d.drop_last()) * 10 + ((d.last() as u32) as nat - 48) as nat
    }
}

/// `s` is a 16-bit unsigned integer in decimal, with an optional `+`.
pub open spec fn is_port(s: Seq<char>) -> bool {
    &&& port_digits(s).len() > 0
    &&& all_digits(port_digits(s))
    &&& digits_value(port_digits(s)) <= 65535
}

/// `s` without its leading `+`, if any.
pub open spec fn port_digits(s: Seq<char>) -> Seq<char> {
    if s.len() > 0 && s[0] == '+' {
        s.drop_first()
    } else {
        s
    }
}

pub open spec fn all_digits(d: Seq<char>) -> bool {
    forall|i: int| 0 <= i < d.len() ==> is_digit(#[trigger] d[i])
}

/// `i` is the position of the first `:` of `s`.
pub open spec fn first_colon(s: Seq<char>, i: int) -> bool {
    0 <= i < s.len() && s[i] == ':' && forall|j: int| 0 <= j < i ==> s[j] != ':'
}

/// `e` is `host:port`: the text after its first `:` is a port number.
pub open spec fn is_endpoint(e: Seq<char>) -> bool {
    exists|i: int| first_colon(e, i) && is_port(e.skip(i + 1))
}

/// The endpoint that an atom names: its text without parentheses.
pub open spec fn endpoint_text(a: Term) -> Seq<char> {
    without_parens(text(a))
}

proof fn lemma_digits_grow(d: Seq<char>, i: int)
    requires
        0 <= i <= d.len(),
        all_digits(d),
    ensures
        digits_value(d) >= digits_value(d.take(i)),
    decreases d.len(),
{
    if i < d.len() {
        assert(d.drop_last().take(i) =~= d.take(i));
        assert(all_digits(d.drop_last())) by {
            assert forall|j: int| 0 <= j < d.drop_last().len() implies is_digit(#[trigger] d.drop_last()[j]) by {
                assert(d.drop_last()[j] == d[j]);
            }
        }
        lemma_digits_grow(d.drop_last(), i);
    } else {
        assert(d.take(i) =~= d);
    }
}

/// The port number `s[start..]`, if it is one.
fn parse_port(s: &Vec<char>, start: usize) -> (r: Option<u16>)
    requires
        start <= s@.len(),
    ensures
        r is Some == is_port(s@.skip(start as int)),
        r matches Some(v) ==> v as nat == digits_value(port_digits(s@.skip(start as int))),
{
    let ghost t = s@.skip(start as int);
    let mut k: usize = start;
    if k < s.len() && s[k] == '+' {
        k += 1;
    }
    let ghost d = s@.skip(k as int);
    assert(d == port_digits(t)) by {
        if t.len() > 0 && t[0] == '+' {
            assert(t.drop_first() =~= d);
        } else {
            assert(t =~= d);
        }
    }
    if k >= s.len() {
        return None;
    }
    let mut value: u32 = 0;
    let mut i: usize = k;
    assert(d.take(0) =~= Seq::<char>::empty());
    while i < s.len()
        invariant
            k <= i <= s@.len(),
            k < s@.len(),
            d == s@.skip(k as int),
            t == s@.skip(start as int),
            d == port_digits(t),
            value as nat == digits_value(d.take(i - k)),
            value <= 65535,
            forall|j: int| 0 <= j < i - k ==> is_digit(#[trigger] d[j]),
        decreases s.len() - i,
    {
        let c = s[i];
        assert(d[i - k] == c);
        if !('0' <= c && c <= '9') {
            assert(!is_digit(d[i - k]));
            assert(!all_digits(d));
            return None;
        }
        assert(d.take(i - k + 1).drop_last() =~= d.take(i - k));
        value = value * 10 + (c as u32 - 48);
        if value > 65535 {
            proof {
                if all_digits(d) {
                    lemma_digits_grow(d, i - k + 1);
                }
            }
            return None;
        }
        i += 1;
    }
    assert(d.take(s.len() - k) =~= d);
    Some(value as u16)
}

/// The endpoint named by `atom`: its text without parentheses, which must
/// be `host:port` with a 16-bit port.
pub fn extract_host_id(atom: &Atom) -> (r: Result<String, ExecError>)
    ensures
        is_endpoint(endpoint_text(atom@)) ==> (r matches Ok(s) && s@ == endpoint_text(atom@)),
        !is_endpoint(endpoint_text(atom@)) ==> (r matches Err(ExecError::Runtime(m)) && m@ == bad_endpoint_message()),
{
    let full = atom.to_text();
    let cs = chars_of(full.as_str());
    let mut kept: Vec<char> = Vec::new();
    let mut i: usize = 0;
    assert(cs@.take(0) =~= Seq::<char>::empty());
    while i < cs.len()
        invariant
            0 <= i <= cs@.len(),
            kept@ == without_parens(cs@.take(i as int)),
        decreases cs.len() - i,
    {
        assert(cs@.take(i + 1).drop_last() =~= cs@.take(i as int));
        if cs[i] != '(' && cs[i] != ')' {
            kept.push(cs[i]);
        }
        i += 1;
    }
    assert(cs@.take(cs.len() as int) =~= cs@);
    let ghost e = kept@;
    let mut colon: usize = 0;
    while colon < kept.len() && kept[colon] != ':'
        invariant
            0 <= colon <= kept@.len(),
            forall|j: int| 0 <= j < colon ==> kept@[j] != ':',
        decreases kept.len() - colon,
    {
        colon += 1;
    }
    if colon < kept.len() && parse_port(&kept, colon + 1).is_some() {
        assert(first_colon(e, colon as int));
        let s = crate::translator::string_of(&kept);
        return Ok(s);
    }
    proof {
        if is_endpoint(e) {
            let j = choose|j: int| first_colon(e, j) && is_port(e.skip(j + 1));
            if j < colon {
            } else if j > colon {
                assert(kept@[colon as int] == ':');
            }
        }
    }
    Err(ExecError::Runtime("new-das arguments must be a valid endpoint (eg. 0.0.0.0:8080)".to_owned()))
}

/// The host and the port of the endpoint `e`, where it is one.
pub fn split_endpoint(e: &str) -> (r: Option<(String, u16)>)
    ensures
        r is Some == is_endpoint(e@),
        r matches Some((h, p)) ==> exists|i: int|
            first_colon(e@, i) && h@ == e@.take(i) && p as nat == digits_value(port_digits(e@.skip(i + 1))),
{
    let cs = chars_of(e);
    let mut colon: usize = 0;
    while colon < cs.len() && cs[colon] != ':'
        invariant
            0 <= colon <= cs@.len(),
            cs@ == e@,
            forall|j: int| 0 <= j < colon ==> cs@[j] != ':',
        decreases cs.len() - colon,
    {
        colon += 1;
    }
    if colon < cs.len() {
        assert(first_colon(e@, colon as int));
        match parse_port(&cs, colon + 1) {
            Some(port) => {
                let mut host: Vec<char> = Vec::new();
                let mut i: usize = 0;
                while i < colon
                    invariant
                        0 <= i <= colon < cs@.len(),
                        host@ == cs@.take(i as int),
                    decreases colon - i,
                {
                    host.push(cs[i]);
                    i += 1;
                    assert(host@ =~= cs@.take(i as int));
                }
                let h = crate::translator::string_of(&host);
                return Some((h, port));
            },
            None => {},
        }
    }
    proof {
        if is_endpoint(e@) {
            let j = choose|j: int| first_colon(e@, j) && is_port(e@.skip(j + 1));
            if j < colon {
            } else if j > colon {
                assert(cs@[colon as int] == ':');
            }
        }
    }
    None
}

/// The operation `new-das`, which opens a distributed space.
#[derive(Clone, Debug)]
pub struct NewDasOp {}

impl NewDasOp {
    /// Checks the arguments of `new-das`: exactly two endpoints, the
    /// service's and a known peer's. Returns the two endpoints.
    pub fn execute(&self, args: &[Atom]) -> (r: Result<(String, String), ExecError>)
        ensures
            args@.len() != 2 ==> (r matches Err(ExecError::Runtime(m)) && m@ == arity_message()),
            args@.len() == 2 ==> {
                let a = endpoint_text(args@[0]@);
                let b = endpoint_text(args@[1]@);
                &&& (is_endpoint(a) && is_endpoint(b)) ==> (r matches Ok((x, y)) && x@ == a && y@ == b)
                &&& !is_endpoint(a) ==> (r matches Err(ExecError::Runtime(m)) && m@ == bad_endpoint_message())
                &&& (is_endpoint(a) && !is_endpoint(b)) ==> (r matches Err(ExecError::Runtime(m)) && m@
                    == bad_endpoint_message())
            },
    {
        if args.len() == 2 {
            let host_id = match extract_host_id(&args[0]) {
                Ok(h) => h,
                Err(e) => return Err(e),
            };
            let known_peer = match extract_host_id(&args[1]) {
                Ok(p) => p,
                Err(e) => return Err(e),
            };
            Ok((host_id, known_peer))
        } else {
            Err(
                ExecError::Runtime(
                    "new-das expects 2 arguments (eg !(new-das 0.0.0.0:8080 0.0.0.0:35700)".to_owned(),
                ),
            )
        }
    }
}

/// `c` is white space in the sense of Unicode's `White_Space` property.
pub open spec fn is_space_char(c: char) -> bool {
    ('\u{9}' <= c && c <= '\u{D}') || c == ' ' || c == '\u{85}' || c == '\u{A0}' || c == '\u{1680}'
        || ('\u{2000}' <= c && c <= '\u{200A}') || c == '\u{2028}' || c == '\u{2029}' || c == '\u{202F}'
        || c == '\u{205F}' || c == '\u{3000}'
}

/// Whether `c` is white space.
pub fn is_whitespace(c: char) -> (r: bool)
    ensures
        r == is_space_char(c),
{
    ('\u{9}' <= c && c <= '\u{D}') || c == ' ' || c == '\u{85}' || c == '\u{A0}' || c == '\u{1680}'
        || ('\u{2000}' <= c && c <= '\u{200A}') || c == '\u{2028}' || c == '\u{2029}' || c == '\u{202F}'
        || c == '\u{205F}' || c == '\u{3000}'
}

/// The words of `cs[i..]` after the words `acc`, with the word `cur` pending.
pub open spec fn words_from(cs: Seq<char>, i: int, cur: Seq<char>, acc: Seq<Seq<char>>) -> Seq<Seq<char>>
    decreases cs.len() - i,
{
    if i < 0 || i >= cs.len() {
        if cur.len() > 0 {
            acc.push(cur)
        } else {
            acc
        }
    } else if is_space_char(cs[i]) {
        words_from(
            cs,
            i + 1,
            Seq::empty(),
            if cur.len() > 0 {
                acc.push(cur)
            } else {
                acc
            },
        )
    } else {
        words_from(cs, i + 1, cur.push(cs[i]), acc)
    }
}

/// The whitespace-separated words of `s`.
pub open spec fn words(s: Seq<char>) -> Seq<Seq<char>> {
    words_from(s, 0, Seq::empty(), Seq::empty())
}

/// The words `ws` joined by single spaces.
pub open spec fn join_words(ws: Seq<Seq<char>>) -> Seq<char>
    decreases ws.len(),
{
    if ws.len() == 0 {
        Seq::empty()
    } else if ws.len() == 1 {
        ws[0]
    } else {
        join_words(ws.drop_last()) + seq![' '] + ws.last()
    }
}

pub open spec fn strings_view(v: Seq<String>) -> Seq<Seq<char>> {
    Seq::new(v.len(), |i: int| v[i]@)
}

/// The texts of the terms of `cs`, but for the `,` symbol.
pub open spec fn pattern_texts(cs: Seq<Term>) -> Seq<Seq<char>>
    decreases cs.len(),
{
    if cs.len() == 0 {
        Seq::empty()
    } else if text(cs.last()) == seq![','] {
        pattern_texts(cs.drop_last())
    } else {
        pattern_texts(cs.drop_last()).push(text(cs.last()))
    }
}

/// The texts of the patterns of a distributed query: those of the
/// sub-patterns of a conjunction (or of a list of expressions), or of the
/// query itself. `None` for a query that is not an expression headed by a
/// symbol or an expression.
pub open spec fn subpatterns(q: Term) -> Option<Seq<Seq<char>>> {
    match q {
        Term::Expr(cs) => if cs.len() == 0 {
            None
        } else {
            match cs[0] {
                Term::Sym(s) => if s == seq![','] {
                    Some(pattern_texts(cs))
                } else {
                    Some(seq![text(q)])
                },
                Term::Expr(_) => Some(pattern_texts(cs)),
                _ => None,
            }
        },
        _ => None,
    }
}

/// The translation of `s`, or the text `Parse error`.
pub open spec fn translate_text(s: Seq<char>) -> Seq<char> {
    match translation(s) {
        Some(w) => w,
        None => "Parse error"@,
    }
}

/// The wire tokens of one pattern text.
pub open spec fn pattern_tokens(p: Seq<char>) -> Seq<Seq<char>> {
    words(translate_text(join_words(words(p))))
}

pub open spec fn all_pattern_tokens(ps: Seq<Seq<char>>) -> Seq<Seq<char>>
    decreases ps.len(),
{
    if ps.len() == 0 {
        Seq::empty()
    } else {
        all_pattern_tokens(ps.drop_last()) + pattern_tokens(ps.last())
    }
}

/// The tokens of the request for the patterns `ps`: several patterns are
/// preceded by `AND` and their count.
pub open spec fn request_tokens(ps: Seq<Seq<char>>) -> Seq<Seq<char>> {
    if ps.len() > 1 {
        seq!["AND"@, decimal(ps.len())] + all_pattern_tokens(ps)
    } else {
        all_pattern_tokens(ps)
    }
}

/// `w` without its `$` and `)` characters.
pub open spec fn var_name(w: Seq<char>) -> Seq<char>
    decreases w.len(),
{
    if w.len() == 0 {
        Seq::empty()
    } else if w.last() == '$' || w.last() == ')' {
        var_name(w.drop_last())
    } else {
        var_name(w.drop_last()).push(w.last())
    }
}

/// `acc` followed by the names of the variable words of `ws` that it does
/// not hold yet, in order of first occurrence.
pub open spec fn collect_vars(ws: Seq<Seq<char>>, acc: Seq<Seq<char>>) -> Seq<Seq<char>>
    decreases ws.len(),
{
    if ws.len() == 0 {
        acc
    } else {
        let a = collect_vars(ws.drop_last(), acc);
        let w = ws.last();
        if w.len() > 0 && w[0] == '$' && !a.contains(var_name(w)) {
            a.push(var_name(w))
        } else {
            a
        }
    }
}

/// The names of the variables of the patterns `ps`, each once.
pub open spec fn request_vars(ps: Seq<Seq<char>>) -> Seq<Seq<char>>
    decreases ps.len(),
{
    if ps.len() == 0 {
        Seq::empty()
    } else {
        collect_vars(words(ps.last()), request_vars(ps.drop_last()))
    }
}

/// The request of a distributed query: wire tokens, and the variables whose
/// values the answers carry.
#[derive(Clone, Debug)]
pub struct DasQuery {
    pub tokens: Vec<String>,
    pub variables: Vec<String>,
}

/// Splits `s` at whitespace.
pub fn split_words(s: &str) -> (r: Vec<String>)
    ensures
        strings_view(r@) == words(s@),
{
    let cs = chars_of(s);
    let mut out: Vec<String> = Vec::new();
    let mut cur: Vec<char> = Vec::new();
    let mut i: usize = 0;
    assert(strings_view(out@) =~= Seq::<Seq<char>>::empty());
    while i < cs.len()
        invariant
            0 <= i <= cs.len(),
            cs@ == s@,
            words_from(cs@, i as int, cur@, strings_view(out@)) == words(s@),
        decreases cs.len() - i,
    {
        let c = cs[i];
        if is_whitespace(c) {
            if cur.len() > 0 {
                let w = crate::translator::string_of(&cur);
                let ghost o = out@;
                out.push(w);
                assert(strings_view(out@) =~= strings_view(o).push(w@));
            }
            cur.clear();
        } else {
            cur.push(c);
        }
        i += 1;
    }
    if cur.len() > 0 {
        let w = crate::translator::string_of(&cur);
        let ghost o = out@;
        out.push(w);
        assert(strings_view(out@) =~= strings_view(o).push(w@));
    }
    out
}

/// The words `ws` joined by single spaces.
fn join_strings(ws: &Vec<String>) -> (r: String)
    ensures
        r@ == join_words(strings_view(ws@)),
{
    let mut out = String::new();
    let mut i: usize = 0;
    assert(strings_view(ws@.take(0)) =~= Seq::<Seq<char>>::empty());
    while i < ws.len()
        invariant
            0 <= i <= ws.len(),
            out@ == join_words(strings_view(ws@.take(i as int))),
        decreases ws.len() - i,
    {
        let ghost before = out@;
        if i > 0 {
            out.push(' ');
        }
        out.append(ws[i].as_str());
        proof {
            let w = strings_view(ws@.take(i + 1));
            assert(w.drop_last() =~= strings_view(ws@.take(i as int)));
            assert(w.last() == ws@[i as int]@);
            if i == 0 {
                assert(out@ =~= join_words(w));
            } else {
                assert(out@ =~= join_words(w));
            }
        }
        i += 1;
    }
    assert(ws@.take(ws.len() as int) =~= ws@);
    out
}

/// The name of the variable word `w`: `w` without `$` and `)`.
fn var_name_of(w: &String) -> (r: String)
    ensures
        r@ == var_name(w@),
{
    let cs = chars_of(w.as_str());
    let mut kept: Vec<char> = Vec::new();
    let mut i: usize = 0;
    assert(cs@.take(0) =~= Seq::<char>::empty());
    while i < cs.len()
        invariant
            0 <= i <= cs@.len(),
            kept@ == var_name(cs@.take(i as int)),
        decreases cs.len() - i,
    {
        assert(cs@.take(i + 1).drop_last() =~= cs@.take(i as int));
        if cs[i] != '$' && cs[i] != ')' {
            kept.push(cs[i]);
        }
        i += 1;
    }
    assert(cs@.take(cs.len() as int) =~= cs@);
    crate::translator::string_of(&kept)
}

fn contains_string(v: &Vec<String>, s: &String) -> (r: bool)
    ensures
        r == strings_view(v@).contains(s@),
{
    let mut i: usize = 0;
    while i < v.len()
        invariant
            0 <= i <= v.len(),
            forall|j: int| 0 <= j < i ==> v@[j]@ != s@,
        decreases v.len() - i,
    {
        if v[i] == *s {
            assert(strings_view(v@)[i as int] == s@);
            return true;
        }
        i += 1;
    }
    false
}

/// Adds to `vars` the names of the variable words of `ws` it does not hold.
fn add_vars(ws: &Vec<String>, vars: &mut Vec<String>)
    ensures
        strings_view(final(vars)@) == collect_vars(strings_view(ws@), strings_view(old(vars)@)),
{
    let ghost init = strings_view(vars@);
    let mut i: usize = 0;
    assert(strings_view(ws@.take(0)) =~= Seq::<Seq<char>>::empty());
    while i < ws.len()
        invariant
            0 <= i <= ws.len(),
            strings_view(vars@) == collect_vars(strings_view(ws@.take(i as int)), init),
        decreases ws.len() - i,
    {
        let w = &ws[i];
        proof {
            let t = strings_view(ws@.take(i + 1));
            assert(t.drop_last() =~= strings_view(ws@.take(i as int)));
            assert(t.last() == w@);
        }
        let is_var = w.as_str().unicode_len() > 0 && w.as_str().get_char(0) == '$';
        assert(is_var == (w@.len() > 0 && w@[0] == '$'));
        if is_var {
            let name = var_name_of(w);
            if !contains_string(vars, &name) {
                let ghost o = vars@;
                vars.push(name);
                assert(strings_view(vars@) =~= strings_view(o).push(name@));
            }
        }
        i += 1;
    }
    assert(ws@.take(ws.len() as int) =~= ws@);
}

/// The texts of the children of `cs`, but for the `,` symbol.
fn child_texts(cs: &Vec<Atom>) -> (r: Vec<String>)
    ensures
        strings_view(r@) == pattern_texts(atoms_view(cs@)),
{
    let mut out: Vec<String> = Vec::new();
    let mut i: usize = 0;
    proof {
        lemma_atoms_view(cs@.take(0));
        assert(atoms_view(cs@.take(0)) =~= Seq::<Term>::empty());
    }
    assert(strings_view(out@) =~= Seq::<Seq<char>>::empty());
    let comma = ",".to_owned();
    proof {
        reveal_strlit(",");
        assert(comma@ =~= seq![',']);
    }
    while i < cs.len()
        invariant
            0 <= i <= cs.len(),
            comma@ == seq![','],
            strings_view(out@) == pattern_texts(atoms_view(cs@.take(i as int))),
        decreases cs.len() - i,
    {
        let t = cs[i].to_text();
        proof {
            assert(cs@.take(i + 1) =~= cs@.take(i as int).push(cs@[i as int]));
            crate::atom::lemma_atoms_view_push(cs@.take(i as int), cs@[i as int]);
            let w = atoms_view(cs@.take(i + 1));
            assert(w.drop_last() =~= atoms_view(cs@.take(i as int)));
        }
        if t != comma {
            let ghost o = out@;
            out.push(t);
            assert(strings_view(out@) =~= strings_view(o).push(t@));
        }
        i += 1;
    }
    assert(cs@.take(cs.len() as int) =~= cs@);
    out
}

/// The request of a distributed query for `query`; `None` where the query
/// is not an expression headed by a symbol or an expression, which has no
/// answer.
pub fn build_das_query(query: &Atom) -> (r: Option<DasQuery>)
    ensures
        match subpatterns(query@) {
            None => r is None,
            Some(ps) => r matches Some(dq) && strings_view(dq.tokens@) == request_tokens(ps)
                && strings_view(dq.variables@) == request_vars(ps),
        },
{
    let patterns: Vec<String> = match query {
        Atom::Expression(cs) => {
            proof {
                lemma_atoms_view(cs@);
            }
            if cs.len() == 0 {
                return None;
            }
            let comma = ",".to_owned();
            proof {
                reveal_strlit(",");
                assert(comma@ =~= seq![',']);
            }
            match &cs[0] {
                Atom::Symbol(s) => {
                    if *s == comma {
                        child_texts(cs)
                    } else {
                        let mut one: Vec<String> = Vec::new();
                        one.push(query.to_text());
                        assert(strings_view(one@) =~= seq![text(query@)]);
                        one
                    }
                },
                Atom::Expression(_) => child_texts(cs),
                _ => {
                    return None;
                },
            }
        },
        _ => {
            return None;
        },
    };
    let ghost ps = strings_view(patterns@);
    let mut tokens: Vec<String> = Vec::new();
    let mut variables: Vec<String> = Vec::new();
    if patterns.len() > 1 {
        tokens.push("AND".to_owned());
        let mut count = String::new();
        crate::atom::push_decimal(&mut count, patterns.len() as u64);
        tokens.push(count);
    }
    let ghost head = strings_view(tokens@);
    assert(head == if ps.len() > 1 {
        seq!["AND"@, decimal(ps.len())]
    } else {
        Seq::<Seq<char>>::empty()
    }) by {
        if ps.len() > 1 {
            assert(head =~= seq!["AND"@, decimal(ps.len())]);
        } else {
            assert(head =~= Seq::<Seq<char>>::empty());
        }
    }
    let mut i: usize = 0;
    assert(ps.take(0) =~= Seq::<Seq<char>>::empty());
    assert(strings_view(tokens@) =~= head + all_pattern_tokens(ps.take(0)));
    assert(strings_view(variables@) =~= request_vars(ps.take(0)));
    while i < patterns.len()
        invariant
            0 <= i <= patterns.len(),
            ps == strings_view(patterns@),
            strings_view(tokens@) == head + all_pattern_tokens(ps.take(i as int)),
            strings_view(variables@) == request_vars(ps.take(i as int)),
        decreases patterns.len() - i,
    {
        let ws = split_words(patterns[i].as_str());
        add_vars(&ws, &mut variables);
        let joined = join_strings(&ws);
        let translated = translate(joined.as_str());
        let mut tr = split_words(translated.as_str());
        let ghost before = tokens@;
        let ghost trv = tr@;
        tokens.append(&mut tr);
        proof {
            let t = ps.take(i + 1);
            assert(t.drop_last() =~= ps.take(i as int));
            assert(t.last() == patterns@[i as int]@);
            assert(strings_view(tokens@) =~= strings_view(before) + strings_view(trv));
            assert(strings_view(tokens@) =~= head + all_pattern_tokens(t));
        }
        i += 1;
    }
    assert(ps.take(patterns.len() as int) =~= ps);
    Some(DasQuery { tokens, variables })
}

/// The word after the last occurrence of `v` among `ws[..len - 1]`.
pub open spec fn value_after(ws: Seq<Seq<char>>, v: Seq<char>) -> Option<Seq<char>>
    decreases ws.len(),
{
    if ws.len() < 2 {
        None
    } else if ws[ws.len() - 2] == v {
        Some(ws.last())
    } else {
        value_after(ws.drop_last(), v)
    }
}

/// The bindings an answer line gives: each variable whose name occurs in the
/// answer is bound to the symbol that follows it.
pub open spec fn answer_map(vars: Seq<Seq<char>>, answer: Seq<char>) -> Subst {
    Map::new(
        |k: Seq<char>| vars.contains(k) && value_after(words(answer), k) is Some,
        |k: Seq<char>| Term::Sym(value_after(words(answer), k)->Some_0),
    )
}

/// The position of the word after the last occurrence of `v`.
fn find_value(ws: &Vec<String>, v: &String) -> (r: Option<usize>)
    ensures
        match value_after(strings_view(ws@), v@) {
            Some(x) => r matches Some(j) && j < ws@.len() && ws@[j as int]@ == x,
            None => r is None,
        },
{
    let ghost w = strings_view(ws@);
    let mut k: usize = ws.len();
    assert(w.take(k as int) =~= w);
    while k >= 2
        invariant
            0 <= k <= ws@.len(),
            w == strings_view(ws@),
            value_after(w, v@) == value_after(w.take(k as int), v@),
        decreases k,
    {
        assert(w.take(k as int)[k - 2] == ws@[k - 2]@);
        if ws[k - 2] == *v {
            return Some(k - 1);
        }
        assert(w.take(k as int).drop_last() =~= w.take(k - 1));
        k -= 1;
    }
    None
}

proof fn lemma_push_contains(s: Seq<Seq<char>>, x: Seq<char>, k: Seq<char>)
    ensures
        s.push(x).contains(k) <==> (s.contains(k) || k == x),
{
    if s.push(x).contains(k) && k != x {
        let i = choose|i: int| 0 <= i < s.push(x).len() && s.push(x)[i] == k;
        assert(s[i] == k);
    }
    if s.contains(k) {
        let i = choose|i: int| 0 <= i < s.len() && s[i] == k;
        assert(s.push(x)[i] == k);
    }
    if k == x {
        assert(s.push(x)[s.len() as int] == k);
    }
}

/// Decodes one answer line: each variable of `variables` whose name occurs
/// in the answer is bound to the symbol of the word after it.
pub fn decode_answer(variables: &Vec<String>, answer: &str) -> (r: Bindings)
    ensures
        r.wf(),
        r@ == answer_map(strings_view(variables@), answer@),
{
    let ws = split_words(answer);
    let ghost vs = strings_view(variables@);
    let mut b = Bindings::new();
    let mut i: usize = 0;
    assert(b@ =~= answer_map(vs.take(0), answer@));
    while i < variables.len()
        invariant
            0 <= i <= variables.len(),
            vs == strings_view(variables@),
            strings_view(ws@) == words(answer@),
            b.wf(),
            b@ == answer_map(vs.take(i as int), answer@),
        decreases variables.len() - i,
    {
        let v = &variables[i];
        let ghost t = vs.take(i + 1);
        assert(t =~= vs.take(i as int).push(v@));
        proof {
            assert forall|k: Seq<char>| t.contains(k) <==> (vs.take(i as int).contains(k) || k == v@) by {
                lemma_push_contains(vs.take(i as int), v@, k);
            }
        }
        if b.resolve(v.as_str()).is_none() {
            match find_value(&ws, v) {
                Some(j) => {
                    b.insert_new(v.clone(), Atom::sym(ws[j].as_str()));
                    assert(b@ =~= answer_map(t, answer@));
                },
                None => {
                    assert(b@ =~= answer_map(t, answer@));
                },
            }
        } else {
            assert(b@ =~= answer_map(t, answer@));
        }
        i += 1;
    }
    assert(vs.take(variables.len() as int) =~= vs);
    b
}

/// What the proxy reported when polled.
#[derive(Clone, Debug)]
pub enum PollEvent {
    /// The remote side finished sending answers.
    Finished,
    /// One answer line.
    Answer(String),
    /// Nothing new yet.
    Pending,
}

/// What the polling loop does next.
#[derive(Clone, Copy, Debug, PartialEq, Eq, Structural)]
pub enum PollAction {
    /// Poll again at once.
    Continue,
    /// Back off, then poll again.
    Wait,
    /// Stop polling: the answers are complete.
    Done,
}

/// Collects the answers of one distributed query, and decides when the
/// polling stops: when the remote side finishes, or once `max_answers`
/// answers are in where it is positive.
pub struct AnswerCollector {
    variables: Vec<String>,
    max_answers: usize,
    answers: Vec<Bindings>,
    done: bool,
}

impl AnswerCollector {
    pub closed spec fn spec_variables(&self) -> Seq<Seq<char>> {
        strings_view(self.variables@)
    }

    pub closed spec fn spec_max(&self) -> nat {
        self.max_answers as nat
    }

    pub closed spec fn spec_answers(&self) -> Seq<Subst> {
        set_view(self.answers@)
    }

    pub closed spec fn spec_done(&self) -> bool {
        self.done
    }

    pub closed spec fn wf(&self) -> bool {
        &&& forall|i: int| 0 <= i < self.answers@.len() ==> #[trigger] self.answers@[i].wf()
        &&& self.max_answers > 0 ==> self.answers@.len() <= self.max_answers
        &&& (self.max_answers > 0 && self.answers@.len() >= self.max_answers) ==> self.done
    }

    pub fn new(variables: Vec<String>, max_answers: usize) -> (r: AnswerCollector)
        ensures
            r.wf(),
            r.spec_variables() == strings_view(variables@),
            r.spec_max() == max_answers,
            r.spec_answers() == Seq::<Subst>::empty(),
            !r.spec_done(),
    {
        let r = AnswerCollector { variables, max_answers, answers: Vec::new(), done: false };
        assert(r.spec_answers() =~= Seq::<Subst>::empty());
        r
    }

    /// Takes in what one poll of the proxy reported.
    pub fn step(&mut self, event: PollEvent) -> (r: PollAction)
        requires
            old(self).wf(),
        ensures
            final(self).wf(),
            final(self).spec_variables() == old(self).spec_variables(),
            final(self).spec_max() == old(self).spec_max(),
            old(self).spec_done() ==> r == PollAction::Done && final(self).spec_answers() == old(self).spec_answers(),
            !old(self).spec_done() ==> match event {
                PollEvent::Finished => r == PollAction::Done && final(self).spec_done()
                    && final(self).spec_answers() == old(self).spec_answers(),
                PollEvent::Pending => r == PollAction::Wait && !final(self).spec_done()
                    && final(self).spec_answers() == old(self).spec_answers(),
                PollEvent::Answer(s) => {
                    &&& final(self).spec_answers() == old(self).spec_answers().push(
                        answer_map(old(self).spec_variables(), s@),
                    )
                    &&& (old(self).spec_max() > 0 && final(self).spec_answers().len() >= old(self).spec_max())
                        ==> (r == PollAction::Done && final(self).spec_done())
                    &&& !(old(self).spec_max() > 0 && final(self).spec_answers().len() >= old(self).spec_max())
                        ==> (r == PollAction::Continue && !final(self).spec_done())
                },
            },
    {
        if self.done {
            return PollAction::Done;
        }
        match event {
            PollEvent::Finished => {
                self.done = true;
                PollAction::Done
            },
            PollEvent::Pending => PollAction::Wait,
            PollEvent::Answer(line) => {
                let b = decode_answer(&self.variables, line.as_str());
                let ghost before = self.answers@;
                self.answers.push(b);
                assert(set_view(self.answers@) =~= set_view(before).push(b@));
                if self.max_answers > 0 && self.answers.len() >= self.max_answers {
                    self.done = true;
                    PollAction::Done
                } else {
                    PollAction::Continue
                }
            },
        }
    }

    /// The number of answers collected.
    pub fn answer_count(&self) -> (r: usize)
        ensures
            r == self.spec_answers().len(),
    {
        self.answers.len()
    }

    /// Whether polling has stopped.
    pub fn is_done(&self) -> (r: bool)
        ensures
            r == self.spec_done(),
    {
        self.done
    }

    /// The answers collected, in order of arrival.
    pub fn into_answers(self) -> (r: Vec<Bindings>)
        ensures
            set_view(r@) == self.spec_answers(),
    {
        self.answers
    }
}

} // verus!
