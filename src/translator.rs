//! Translation of s-expression queries into the flat token protocol of the
//! remote matching service.
use vstd::prelude::*;

use crate::atom::{Atom, atoms_view, lemma_atoms_view, lemma_atoms_view_push, push_decimal};
use crate::term::{Term, decimal, lemma_vars_seq, vars, vars_seq};

verus! {

/// Relies on `String::push`: the character is appended.
pub assume_specification[ String::push ](s: &mut String, ch: char)
    ensures
        final(s)@ == old(s)@.push(ch),
;

/// A token of an s-expression.
#[derive(Clone, Debug)]
pub enum Token {
    Symbol(String),
    Variable(String),
    OpenParen,
    CloseParen,
}

pub enum TokenV {
    Symbol(Seq<char>),
    Variable(Seq<char>),
    OpenParen,
    CloseParen,
}

impl View for Token {
    type V = TokenV;

    open spec fn view(&self) -> TokenV {
        match self {
            Token::Symbol(s) => TokenV::Symbol(s@),
            Token::Variable(s) => TokenV::Variable(s@),
            Token::OpenParen => TokenV::OpenParen,
            Token::CloseParen => TokenV::CloseParen,
        }
    }
}

pub open spec fn tokens_view(v: Seq<Token>) -> Seq<TokenV> {
    Seq::new(v.len(), |i: int| v[i]@)
}

pub open spec fn is_blank(c: char) -> bool {
    c == ' ' || c == '\n' || c == '\t'
}

/// A word is a variable where it starts with `$`, a symbol otherwise.
pub open spec fn classify(s: Seq<char>) -> TokenV {
    if s.len() > 0 && s[0] == '$' {
        TokenV::Variable(s.drop_first())
    } else {
        TokenV::Symbol(s)
    }
}

/// `acc` with the pending word `cur` closed, if there is one.
pub open spec fn flush(cur: Seq<char>, acc: Seq<TokenV>) -> Seq<TokenV> {
    if cur.len() > 0 {
        acc.push(classify(cur))
    } else {
        acc
    }
}

/// The tokens of `cs[i..]`, after the tokens `acc`, with the word `cur`
/// pending and `quoted` telling whether a quoted string is open.
pub open spec fn lex(cs: Seq<char>, i: int, cur: Seq<char>, quoted: bool, acc: Seq<TokenV>) -> Seq<TokenV>
    decreases cs.len() - i,
{
    if i < 0 || i >= cs.len() {
        flush(cur, acc)
    } else {
        let c = cs[i];
        if c == '"' && !quoted {
            lex(cs, i + 1, seq!['"'], true, flush(cur, acc))
        } else if c == '"' {
            lex(cs, i + 1, Seq::empty(), false, acc.push(TokenV::Symbol(cur.push(c))))
        } else if c == '(' && !quoted {
            lex(cs, i + 1, Seq::empty(), false, flush(cur, acc).push(TokenV::OpenParen))
        } else if c == ')' && !quoted {
            lex(cs, i + 1, Seq::empty(), false, flush(cur, acc).push(TokenV::CloseParen))
        } else if is_blank(c) && !quoted {
            lex(cs, i + 1, Seq::empty(), false, flush(cur, acc))
        } else {
            lex(cs, i + 1, cur.push(c), quoted, acc)
        }
    }
}

/// The tokens of the text `s`.
pub open spec fn tokens_of(s: Seq<char>) -> Seq<TokenV> {
    lex(s, 0, Seq::empty(), false, Seq::empty())
}

/// The expression that starts at token `i`, and the position after it.
pub open spec fn parse_expr(toks: Seq<TokenV>, i: int) -> Option<(Term, int)>
    decreases toks.len() - i, 0int,
{
    if i < 0 || i >= toks.len() {
        None
    } else {
        match toks[i] {
            TokenV::OpenParen => parse_list(toks, i + 1, Seq::empty()),
            TokenV::Symbol(s) => Some((Term::Sym(s), i + 1)),
            TokenV::Variable(v) => Some((Term::Var(v), i + 1)),
            TokenV::CloseParen => None,
        }
    }
}

/// The rest of a parenthesized list whose children so far are `acc`.
pub open spec fn parse_list(toks: Seq<TokenV>, i: int, acc: Seq<Term>) -> Option<(Term, int)>
    decreases toks.len() - i, 1int,
{
    if i < 0 || i >= toks.len() {
        None
    } else if toks[i] is CloseParen {
        Some((Term::Expr(acc), i + 1))
    } else {
        match parse_expr(toks, i) {
            Some((n, j)) => if i < j <= toks.len() {
                parse_list(toks, j, acc.push(n))
            } else {
                None
            },
            None => None,
        }
    }
}

/// The one expression that the tokens make up: unmatched parentheses and
/// tokens after the expression are a failure.
pub open spec fn parse_all(toks: Seq<TokenV>) -> Option<Term> {
    match parse_expr(toks, 0) {
        Some((t, j)) => if j == toks.len() {
            Some(t)
        } else {
            None
        },
        None => None,
    }
}

/// Some child is a variable.
pub open spec fn has_var_child(cs: Seq<Term>) -> bool {
    exists|i: int| 0 <= i < cs.len() && cs[i] is Var
}

/// Some child is an expression with a variable somewhere inside.
pub open spec fn has_inner_var(cs: Seq<Term>) -> bool {
    exists|i: int| 0 <= i < cs.len() && cs[i] is Expr && has_vars(cs[i])
}

/// A variable occurs somewhere in `t`.
pub open spec fn has_vars(t: Term) -> bool {
    exists|x: Seq<char>| vars(t).contains(x)
}

/// The wire tag of an expression with the children `cs`.
pub open spec fn tag(cs: Seq<Term>) -> Seq<char> {
    if has_inner_var(cs) {
        "LINK_TEMPLATE2"@
    } else if has_var_child(cs) {
        "LINK_TEMPLATE"@
    } else {
        "LINK"@
    }
}

/// An expression is tagged `LINK` exactly when no variable occurs anywhere
/// inside it: a parent is never `LINK` above a descendant that holds one.
pub proof fn lemma_tag_monotone(cs: Seq<Term>)
    ensures
        (tag(cs) == "LINK"@) <==> !has_vars(Term::Expr(cs)),
{
    reveal_strlit("LINK");
    reveal_strlit("LINK_TEMPLATE");
    reveal_strlit("LINK_TEMPLATE2");
    lemma_vars_seq(cs);
    if has_vars(Term::Expr(cs)) {
        let x = choose|x: Seq<char>| vars(Term::Expr(cs)).contains(x);
        let i = choose|i: int| 0 <= i < cs.len() && #[trigger] vars(cs[i]).contains(x);
        match cs[i] {
            Term::Var(_) => {
                assert(has_var_child(cs));
            },
            Term::Expr(_) => {
                assert(has_vars(cs[i]));
                assert(has_inner_var(cs));
            },
            _ => {},
        }
        assert("LINK_TEMPLATE"@.len() != "LINK"@.len());
        assert("LINK_TEMPLATE2"@.len() != "LINK"@.len());
    } else {
        if has_var_child(cs) {
            let i = choose|i: int| 0 <= i < cs.len() && cs[i] is Var;
            let x = cs[i]->Var_0;
            assert(vars(cs[i]).contains(x));
            assert(vars_seq(cs).contains(x));
            assert(vars(Term::Expr(cs)).contains(x));
        }
        if has_inner_var(cs) {
            let i = choose|i: int| 0 <= i < cs.len() && cs[i] is Expr && has_vars(cs[i]);
            let x = choose|x: Seq<char>| vars(cs[i]).contains(x);
            assert(vars_seq(cs).contains(x));
            assert(vars(Term::Expr(cs)).contains(x));
        }
    }
}

/// The wire tokens of `t`.
pub open spec fn wire(t: Term) -> Seq<char>
    decreases t,
{
    match t {
        Term::Sym(s) => "NODE Symbol "@ + s,
        Term::Var(v) => "VARIABLE "@ + v,
        Term::Expr(cs) => tag(cs) + " Expression "@ + decimal(cs.len()) + wire_seq(cs),
        Term::Gnd(_) => Seq::empty(),
    }
}

/// The wire tokens of each term of `cs`, each after a space.
pub open spec fn wire_seq(cs: Seq<Term>) -> Seq<char>
    decreases cs,
{
    if cs.len() == 0 {
        Seq::empty()
    } else {
        wire_seq(cs.drop_last()) + " "@ + wire(cs.last())
    }
}

/// The translation of the query text `s`, or `None` where it does not parse.
pub open spec fn translation(s: Seq<char>) -> Option<Seq<char>> {
    match parse_all(tokens_of(s)) {
        Some(t) => Some(wire(t)),
        None => None,
    }
}

/// The characters of `s`.
pub fn chars_of(s: &str) -> (r: Vec<char>)
    ensures
        r@ == s@,
{
    let n = s.unicode_len();
    let mut r: Vec<char> = Vec::new();
    let mut i: usize = 0;
    while i < n
        invariant
            0 <= i <= n,
            n == s@.len(),
            r@ == s@.take(i as int),
        decreases n - i,
    {
        r.push(s.get_char(i));
        i += 1;
        assert(r@ =~= s@.take(i as int));
    }
    assert(s@.take(n as int) =~= s@);
    r
}

pub fn string_of(cs: &Vec<char>) -> (r: String)
    ensures
        r@ == cs@,
{
    let mut r = String::new();
    let mut i: usize = 0;
    while i < cs.len()
        invariant
            0 <= i <= cs.len(),
            r@ == cs@.take(i as int),
        decreases cs.len() - i,
    {
        r.push(cs[i]);
        i += 1;
        assert(r@ =~= cs@.take(i as int));
    }
    assert(cs@.take(cs.len() as int) =~= cs@);
    r
}

/// Classifies a word as a symbol or, where it starts with `$`, a variable.
fn classify_token(s: &Vec<char>) -> (r: Token)
    ensures
        r@ == classify(s@),
{
    if s.len() > 0 && s[0] == '$' {
        let mut rest: Vec<char> = Vec::new();
        let mut i: usize = 1;
        while i < s.len()
            invariant
                1 <= i <= s.len(),
                rest@ == s@.subrange(1, i as int),
            decreases s.len() - i,
        {
            rest.push(s[i]);
            i += 1;
            assert(rest@ =~= s@.subrange(1, i as int));
        }
        assert(s@.drop_first() =~= s@.subrange(1, s.len() as int));
        Token::Variable(string_of(&rest))
    } else {
        Token::Symbol(string_of(s))
    }
}

fn flush_word(cur: &mut Vec<char>, tokens: &mut Vec<Token>)
    ensures
        final(cur)@ == Seq::<char>::empty(),
        tokens_view(final(tokens)@) == flush(old(cur)@, tokens_view(old(tokens)@)),
{
    if cur.len() > 0 {
        let t = classify_token(cur);
        let ghost before = tokens@;
        tokens.push(t);
        assert(tokens_view(tokens@) =~= tokens_view(before).push(t@));
    }
    cur.clear();
}

/// Splits the text `input` into tokens: parentheses, quoted strings, and
/// whitespace-separated words.
pub fn tokenize(input: &str) -> (r: Vec<Token>)
    ensures
        tokens_view(r@) == tokens_of(input@),
{
    let cs = chars_of(input);
    let mut tokens: Vec<Token> = Vec::new();
    let mut cur: Vec<char> = Vec::new();
    let mut quoted = false;
    let mut i: usize = 0;
    assert(tokens_view(tokens@) =~= Seq::<TokenV>::empty());
    while i < cs.len()
        invariant
            0 <= i <= cs.len(),
            cs@ == input@,
            lex(cs@, i as int, cur@, quoted, tokens_view(tokens@)) == tokens_of(input@),
        decreases cs.len() - i,
    {
        let c = cs[i];
        let ghost before = tokens@;
        if c == '"' && !quoted {
            flush_word(&mut cur, &mut tokens);
            quoted = true;
            cur.push(c);
            assert(cur@ =~= seq!['"']);
        } else if c == '"' {
            cur.push(c);
            let t = Token::Symbol(string_of(&cur));
            tokens.push(t);
            assert(tokens_view(tokens@) =~= tokens_view(before).push(t@));
            cur.clear();
            quoted = false;
        } else if (c == '(' || c == ')') && !quoted {
            flush_word(&mut cur, &mut tokens);
            let ghost mid = tokens@;
            let t = if c == '(' {
                Token::OpenParen
            } else {
                Token::CloseParen
            };
            tokens.push(t);
            assert(tokens_view(tokens@) =~= tokens_view(mid).push(t@));
        } else if (c == ' ' || c == '\n' || c == '\t') && !quoted {
            flush_word(&mut cur, &mut tokens);
        } else {
            cur.push(c);
        }
        i += 1;
    }
    flush_word(&mut cur, &mut tokens);
    tokens
}

/// Parses the expression that starts at token `i`; returns it and the
/// position after it.
fn parse_at(toks: &Vec<Token>, i: usize) -> (r: Option<(Atom, usize)>)
    ensures
        match parse_expr(tokens_view(toks@), i as int) {
            Some((t, j)) => r matches Some((a, k)) && a@ == t && k == j && i < k <= toks@.len(),
            None => r is None,
        },
    decreases toks@.len() - i, 0int,
{
    let ghost tv = tokens_view(toks@);
    if i >= toks.len() {
        return None;
    }
    match &toks[i] {
        Token::OpenParen => {
            let mut children: Vec<Atom> = Vec::new();
            let mut k: usize = i + 1;
            proof {
                lemma_atoms_view(children@);
                assert(atoms_view(children@) =~= Seq::<Term>::empty());
            }
            while k < toks.len()
                invariant
                    i < k <= toks@.len(),
                    tv == tokens_view(toks@),
                    parse_list(tv, k as int, atoms_view(children@)) == parse_expr(tv, i as int),
                decreases toks@.len() - k,
            {
                if let Token::CloseParen = &toks[k] {
                    return Some((Atom::Expression(children), k + 1));
                }
                match parse_at(toks, k) {
                    Some((a, next)) => {
                        let ghost before = children@;
                        children.push(a);
                        proof {
                            lemma_atoms_view_push(before, a);
                        }
                        k = next;
                    },
                    None => {
                        return None;
                    },
                }
            }
            None
        },
        Token::Symbol(s) => Some((Atom::Symbol(s.clone()), i + 1)),
        Token::Variable(v) => Some((Atom::Variable(v.clone()), i + 1)),
        Token::CloseParen => None,
    }
}

/// Whether a variable occurs anywhere in `a`.
fn contains_var(a: &Atom) -> (r: bool)
    ensures
        r == has_vars(a@),
    decreases a,
{
    match a {
        Atom::Variable(x) => {
            assert(vars(a@).contains(x@));
            assert(has_vars(a@));
            true
        },
        Atom::Expression(cs) => {
            let r = any_contains_var(cs);
            assert(vars(a@) == vars_seq(atoms_view(cs@)));
            assert(r ==> has_vars(a@));
            r
        },
        _ => {
            assert(vars(a@) =~= Set::<Seq<char>>::empty());
            false
        },
    }
}

/// Whether a variable occurs anywhere in the atoms of `cs`.
fn any_contains_var(cs: &Vec<Atom>) -> (r: bool)
    ensures
        r == exists|x: Seq<char>| vars_seq(atoms_view(cs@)).contains(x),
    decreases cs@,
{
    proof {
        lemma_atoms_view(cs@);
        lemma_vars_seq(atoms_view(cs@));
    }
    let mut i: usize = 0;
    while i < cs.len()
        invariant
            0 <= i <= cs.len(),
            atoms_view(cs@).len() == cs.len(),
            forall|j: int| 0 <= j < i ==> !has_vars(#[trigger] atoms_view(cs@)[j]),
        decreases cs.len() - i,
    {
        assert(decreases_to!(cs@ => cs@[i as int]));
        proof {
            lemma_atoms_view(cs@);
            lemma_vars_seq(atoms_view(cs@));
        }
        if contains_var(&cs[i]) {
            proof {
                let x = choose|x: Seq<char>| vars(cs@[i as int]@).contains(x);
                assert(vars(atoms_view(cs@)[i as int]).contains(x));
                assert(vars_seq(atoms_view(cs@)).contains(x));
            }
            return true;
        }
        i += 1;
    }
    proof {
        lemma_vars_seq(atoms_view(cs@));
        assert forall|x: Seq<char>| !vars_seq(atoms_view(cs@)).contains(x) by {
            if vars_seq(atoms_view(cs@)).contains(x) {
                let j = choose|j: int| 0 <= j < cs.len() && #[trigger] vars(atoms_view(cs@)[j]).contains(x);
                assert(!has_vars(atoms_view(cs@)[j]));
            }
        }
    }
    false
}

/// Whether the children call for `LINK_TEMPLATE`: a child is a variable and
/// no child expression holds one.
fn needs_link_template(nodes: &Vec<Atom>) -> (r: bool)
    ensures
        r == (has_var_child(atoms_view(nodes@)) && !has_inner_var(atoms_view(nodes@))),
{
    has_variable(nodes) && !has_inner_variable(nodes)
}

fn has_variable(nodes: &Vec<Atom>) -> (r: bool)
    ensures
        r == has_var_child(atoms_view(nodes@)),
{
    proof {
        lemma_atoms_view(nodes@);
    }
    let mut i: usize = 0;
    while i < nodes.len()
        invariant
            0 <= i <= nodes.len(),
            atoms_view(nodes@).len() == nodes.len(),
            forall|j: int| 0 <= j < i ==> !(#[trigger] atoms_view(nodes@)[j] is Var),
        decreases nodes.len() - i,
    {
        proof {
            lemma_atoms_view(nodes@);
        }
        if let Atom::Variable(_) = &nodes[i] {
            assert(atoms_view(nodes@)[i as int] is Var);
            return true;
        }
        i += 1;
    }
    false
}

fn has_inner_variable(nodes: &Vec<Atom>) -> (r: bool)
    ensures
        r == has_inner_var(atoms_view(nodes@)),
{
    proof {
        lemma_atoms_view(nodes@);
    }
    let mut i: usize = 0;
    while i < nodes.len()
        invariant
            0 <= i <= nodes.len(),
            atoms_view(nodes@).len() == nodes.len(),
            forall|j: int| 0 <= j < i ==> !(#[trigger] atoms_view(nodes@)[j] is Expr && has_vars(atoms_view(nodes@)[j])),
        decreases nodes.len() - i,
    {
        proof {
            lemma_atoms_view(nodes@);
        }
        if let Atom::Expression(_) = &nodes[i] {
            if contains_var(&nodes[i]) {
                assert(atoms_view(nodes@)[i as int] is Expr);
                return true;
            }
        }
        i += 1;
    }
    false
}

/// The wire tag of an expression with the children `nodes`.
fn link_type(nodes: &Vec<Atom>) -> (r: &'static str)
    ensures
        r@ == tag(atoms_view(nodes@)),
{
    if has_inner_variable(nodes) {
        "LINK_TEMPLATE2"
    } else if needs_link_template(nodes) {
        "LINK_TEMPLATE"
    } else {
        "LINK"
    }
}

/// Appends the wire tokens of `node` to `out`.
fn generate_output_inner(node: &Atom, out: &mut String)
    ensures
        final(out)@ == old(out)@ + wire(node@),
    decreases node,
{
    let ghost start = out@;
    match node {
        Atom::Symbol(s) => {
            out.append("NODE Symbol ");
            out.append(s.as_str());
            assert(out@ =~= start + wire(node@));
        },
        Atom::Variable(v) => {
            out.append("VARIABLE ");
            out.append(v.as_str());
            assert(out@ =~= start + wire(node@));
        },
        Atom::Expression(nodes) => {
            out.append(link_type(nodes));
            out.append(" Expression ");
            push_decimal(out, nodes.len() as u64);
            proof {
                lemma_atoms_view(nodes@);
            }
            generate_children(nodes, out);
            assert(out@ =~= start + wire(node@));
        },
        Atom::Grounded(_) => {
            assert(out@ =~= out@ + wire(node@));
        },
    }
}

/// Appends the wire tokens of each atom of `nodes`, each after a space.
fn generate_children(nodes: &Vec<Atom>, out: &mut String)
    ensures
        final(out)@ == old(out)@ + wire_seq(atoms_view(nodes@)),
    decreases nodes@,
{
    let ghost head = out@;
    let mut i: usize = 0;
    assert(atoms_view(nodes@.take(0)) =~= Seq::<Term>::empty()) by {
        lemma_atoms_view(nodes@.take(0));
    }
    assert(out@ =~= head + wire_seq(atoms_view(nodes@.take(0))));
    while i < nodes.len()
        invariant
            0 <= i <= nodes.len(),
            out@ == head + wire_seq(atoms_view(nodes@.take(i as int))),
        decreases nodes.len() - i,
    {
        assert(decreases_to!(nodes@ => nodes@[i as int]));
        out.append(" ");
        generate_output_inner(&nodes[i], out);
        proof {
            assert(nodes@.take(i + 1) =~= nodes@.take(i as int).push(nodes@[i as int]));
            lemma_atoms_view_push(nodes@.take(i as int), nodes@[i as int]);
            let w = atoms_view(nodes@.take(i + 1));
            assert(w.drop_last() =~= atoms_view(nodes@.take(i as int)));
            assert(out@ =~= head + wire_seq(w));
        }
        i += 1;
    }
    assert(nodes@.take(nodes.len() as int) =~= nodes@);
}

/// The wire tokens of `node`, on one line.
fn generate_output(node: &Atom) -> (r: String)
    ensures
        r@ == wire(node@),
{
    let mut out = String::new();
    generate_output_inner(node, &mut out);
    assert(out@ =~= wire(node@));
    out
}

/// Translates the query text `input` into wire tokens, or `None` where it
/// does not parse.
pub fn try_translate(input: &str) -> (r: Option<String>)
    ensures
        match translation(input@) {
            Some(w) => r matches Some(s) && s@ == w,
            None => r is None,
        },
{
    let mut parser = Parser::new(input);
    match parser.parse() {
        Some(ast) => Some(generate_output(&ast)),
        None => None,
    }
}

/// Translates the query text `input` into wire tokens; where it does not
/// parse, the result is the text `Parse error`.
pub fn translate(input: &str) -> (r: String)
    ensures
        r@ == match translation(input@) {
            Some(w) => w,
            None => "Parse error"@,
        },
{
    match try_translate(input) {
        Some(w) => w,
        None => "Parse error".to_owned(),
    }
}

/// A recursive-descent parser over the tokens of one query.
pub struct Parser {
    tokens: Vec<Token>,
    pos: usize,
}

impl Parser {
    pub closed spec fn spec_tokens(&self) -> Seq<TokenV> {
        tokens_view(self.tokens@)
    }

    pub closed spec fn spec_pos(&self) -> int {
        self.pos as int
    }

    /// A parser at the start of the tokens of `input`.
    pub fn new(input: &str) -> (r: Parser)
        ensures
            r.spec_tokens() == tokens_of(input@),
            r.spec_pos() == 0,
    {
        let tokens = tokenize(input);
        Parser { tokens, pos: 0 }
    }

    /// Parses the expression at the current position and moves past it.
    pub fn parse_expression(&mut self) -> (r: Option<Atom>)
        ensures
            final(self).spec_tokens() == old(self).spec_tokens(),
            match parse_expr(old(self).spec_tokens(), old(self).spec_pos()) {
                Some((t, j)) => r matches Some(a) && a@ == t && final(self).spec_pos() == j,
                None => r is None && final(self).spec_pos() == old(self).spec_pos(),
            },
    {
        match parse_at(&self.tokens, self.pos) {
            Some((a, next)) => {
                self.pos = next;
                Some(a)
            },
            None => None,
        }
    }

    /// Parses the one expression that the tokens make up; tokens left after
    /// it are a failure.
    pub fn parse(&mut self) -> (r: Option<Atom>)
        requires
            old(self).spec_pos() == 0,
        ensures
            match parse_all(old(self).spec_tokens()) {
                Some(t) => r matches Some(a) && a@ == t,
                None => r is None,
            },
    {
        let r = self.parse_expression();
        if self.pos == self.tokens.len() {
            r
        } else {
            None
        }
    }
}

/// The pieces of `cs[i..]` after the pieces `acc`, with the piece `cur`
/// pending: whitespace separates pieces outside quotes, and a quoted string
/// in single or double quotes is a piece of its own.
pub open spec fn split_quoted(
    cs: Seq<char>,
    i: int,
    cur: Seq<char>,
    single: bool,
    double: bool,
    acc: Seq<Seq<char>>,
) -> Seq<Seq<char>>
    decreases cs.len() - i,
{
    if i < 0 || i >= cs.len() {
        if cur.len() > 0 {
            acc.push(cur)
        } else {
            acc
        }
    } else {
        let c = cs[i];
        if c == '\'' && !double && !single {
            split_quoted(cs, i + 1, cur.push(c), true, double, acc)
        } else if c == '\'' && !double {
            split_quoted(cs, i + 1, Seq::empty(), false, double, acc.push(cur.push(c)))
        } else if c == '"' && !single && !double {
            split_quoted(cs, i + 1, cur.push(c), single, true, acc)
        } else if c == '"' && !single {
            split_quoted(cs, i + 1, Seq::empty(), single, false, acc.push(cur.push(c)))
        } else if is_blank(c) && !single && !double {
            split_quoted(
                cs,
                i + 1,
                Seq::empty(),
                single,
                double,
                if cur.len() > 0 {
                    acc.push(cur)
                } else {
                    acc
                },
            )
        } else {
            split_quoted(cs, i + 1, cur.push(c), single, double, acc)
        }
    }
}

pub open spec fn pieces_view(v: Seq<String>) -> Seq<Seq<char>> {
    Seq::new(v.len(), |i: int| v[i]@)
}

/// Splits `s` at whitespace, keeping quoted strings whole.
pub fn split_ignore_quoted(s: &str) -> (r: Vec<String>)
    ensures
        pieces_view(r@) == split_quoted(s@, 0, Seq::empty(), false, false, Seq::empty()),
{
    let cs = chars_of(s);
    let mut result: Vec<String> = Vec::new();
    let mut cur: Vec<char> = Vec::new();
    let mut single = false;
    let mut double = false;
    let mut i: usize = 0;
    assert(pieces_view(result@) =~= Seq::<Seq<char>>::empty());
    while i < cs.len()
        invariant
            0 <= i <= cs.len(),
            cs@ == s@,
            split_quoted(cs@, i as int, cur@, single, double, pieces_view(result@)) == split_quoted(
                s@,
                0,
                Seq::empty(),
                false,
                false,
                Seq::empty(),
            ),
        decreases cs.len() - i,
    {
        let c = cs[i];
        let ghost before = result@;
        if c == '\'' && !double && !single {
            single = true;
            cur.push(c);
        } else if c == '\'' && !double {
            single = false;
            cur.push(c);
            let piece = string_of(&cur);
            result.push(piece);
            assert(pieces_view(result@) =~= pieces_view(before).push(piece@));
            cur.clear();
        } else if c == '"' && !single && !double {
            double = true;
            cur.push(c);
        } else if c == '"' && !single {
            double = false;
            cur.push(c);
            let piece = string_of(&cur);
            result.push(piece);
            assert(pieces_view(result@) =~= pieces_view(before).push(piece@));
            cur.clear();
        } else if (c == ' ' || c == '\t' || c == '\n') && !single && !double {
            if cur.len() > 0 {
                let piece = string_of(&cur);
                result.push(piece);
                assert(pieces_view(result@) =~= pieces_view(before).push(piece@));
            }
            cur.clear();
        } else {
            cur.push(c);
        }
        i += 1;
    }
    if cur.len() > 0 {
        let ghost before = result@;
        let piece = string_of(&cur);
        result.push(piece);
        assert(pieces_view(result@) =~= pieces_view(before).push(piece@));
    }
    result
}

} // verus!
