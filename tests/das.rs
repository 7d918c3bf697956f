use hyperon::atom::Atom;
use hyperon::bindings::Bindings;
use hyperon::das::{
    build_das_query, decode_answer, extract_host_id, split_words, AnswerCollector, ExecError, NewDasOp,
    PollAction, PollEvent,
};

fn sym(name: &str) -> Atom {
    Atom::sym(name)
}

fn var(name: &str) -> Atom {
    Atom::var(name)
}

fn expr(children: Vec<Atom>) -> Atom {
    Atom::expr(children)
}

fn strings(v: &[&str]) -> Vec<String> {
    v.iter().map(|s| s.to_string()).collect()
}

#[test]
fn das_op() {
    assert_eq!(
        NewDasOp {}.execute(&mut vec![sym("A")]),
        Err(ExecError::Runtime(
            "new-das expects 2 arguments (eg !(new-das 0.0.0.0:8080 0.0.0.0:35700)".to_string()
        ))
    );
}

#[test]
fn malformed_endpoint_is_rejected() {
    let r = NewDasOp {}.execute(&[sym("notanendpoint"), sym("0.0.0.0:35700")]);
    assert_eq!(
        r,
        Err(ExecError::Runtime("new-das arguments must be a valid endpoint (eg. 0.0.0.0:8080)".to_string()))
    );
    let r = NewDasOp {}.execute(&[sym("0.0.0.0:8080"), sym("notanendpoint")]);
    assert!(r.is_err());
}

#[test]
fn endpoints_are_checked() {
    assert_eq!(extract_host_id(&sym("0.0.0.0:8080")), Ok("0.0.0.0:8080".to_string()));
    assert_eq!(extract_host_id(&expr(vec![sym("localhost:+35700")])), Ok("localhost:+35700".to_string()));
    assert!(extract_host_id(&sym("host:65536")).is_err());
    assert!(extract_host_id(&sym("host:")).is_err());
    assert!(extract_host_id(&sym("host:12a")).is_err());
    assert_eq!(extract_host_id(&sym("host:65535")), Ok("host:65535".to_string()));
    assert_eq!(
        NewDasOp {}.execute(&[sym("0.0.0.0:8080"), sym("0.0.0.0:35700")]),
        Ok(("0.0.0.0:8080".to_string(), "0.0.0.0:35700".to_string()))
    );
}

#[test]
fn answer_line_is_decoded() {
    let b = decode_answer(&strings(&["x", "y"]), "x alpha y beta");
    let mut expected = Bindings::new();
    expected.insert_new("x".to_string(), sym("alpha"));
    expected.insert_new("y".to_string(), sym("beta"));
    assert_eq!(b, expected);
}

#[test]
fn answer_without_a_variable_leaves_it_unbound() {
    let b = decode_answer(&strings(&["x", "y"]), "x alpha");
    assert_eq!(b.resolve("x"), Some(sym("alpha")));
    assert_eq!(b.resolve("y"), None);
    let b = decode_answer(&strings(&["x"]), "x a x b");
    assert_eq!(b.resolve("x"), Some(sym("b")));
    let b = decode_answer(&strings(&["x"]), "y x");
    assert_eq!(b.resolve("x"), None);
}

#[test]
fn collection_stops_at_the_answer_limit() {
    let mut c = AnswerCollector::new(strings(&["x"]), 1);
    let mut available = vec!["x a".to_string(), "x b".to_string(), "x c".to_string()];
    let mut polls = 0;
    loop {
        polls += 1;
        let event = if available.is_empty() {
            PollEvent::Pending
        } else {
            PollEvent::Answer(available.remove(0))
        };
        if c.step(event) == PollAction::Done {
            break;
        }
    }
    assert_eq!(polls, 1);
    assert!(c.is_done());
    let answers = c.into_answers();
    assert_eq!(answers.len(), 1);
    assert_eq!(answers[0].resolve("x"), Some(sym("a")));
}

#[test]
fn collection_runs_until_finished_without_limit() {
    let mut c = AnswerCollector::new(strings(&["x"]), 0);
    assert_eq!(c.step(PollEvent::Pending), PollAction::Wait);
    assert_eq!(c.step(PollEvent::Answer("x a".to_string())), PollAction::Continue);
    assert_eq!(c.step(PollEvent::Answer("x b".to_string())), PollAction::Continue);
    assert_eq!(c.step(PollEvent::Finished), PollAction::Done);
    assert_eq!(c.step(PollEvent::Answer("x c".to_string())), PollAction::Done);
    assert_eq!(c.answer_count(), 2);
}

#[test]
fn conjunctive_query_request() {
    let q = expr(vec![
        sym(","),
        expr(vec![sym("Similarity"), var("a"), sym("B")]),
        expr(vec![sym("Inheritance"), var("a"), var("c")]),
    ]);
    let dq = build_das_query(&q).unwrap();
    assert_eq!(
        dq.tokens,
        strings(&[
            "AND", "2", "LINK_TEMPLATE", "Expression", "3", "NODE", "Symbol", "Similarity", "VARIABLE", "a",
            "NODE", "Symbol", "B", "LINK_TEMPLATE", "Expression", "3", "NODE", "Symbol", "Inheritance",
            "VARIABLE", "a", "VARIABLE", "c"
        ])
    );
    assert_eq!(dq.variables, strings(&["a", "c"]));
}

#[test]
fn single_pattern_request() {
    let q = expr(vec![sym("Similarity"), var("x"), sym("B")]);
    let dq = build_das_query(&q).unwrap();
    assert_eq!(
        dq.tokens,
        strings(&["LINK_TEMPLATE", "Expression", "3", "NODE", "Symbol", "Similarity", "VARIABLE", "x", "NODE", "Symbol", "B"])
    );
    assert_eq!(dq.variables, strings(&["x"]));
    assert!(build_das_query(&sym("A")).is_none());
    assert!(build_das_query(&expr(vec![var("x"), sym("A")])).is_none());
}

#[test]
fn words_are_split_at_whitespace() {
    assert_eq!(split_words("  a\tb\nc  "), strings(&["a", "b", "c"]));
    assert_eq!(split_words(""), Vec::<String>::new());
    assert_eq!(split_words("a\x0Bb\u{A0}c\u{3000}d\u{2009}e"), strings(&["a", "b", "c", "d", "e"]));
    let b = decode_answer(&strings(&["x"]), "x\u{A0}alpha");
    assert_eq!(b.resolve("x"), Some(sym("alpha")));
}
