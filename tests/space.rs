use hyperon::atom::Atom;
use hyperon::bindings::Bindings;
use hyperon::query::match_atoms;
use hyperon::space::{GroundingSpace, SpaceEvent};

fn sym(name: &str) -> Atom {
    Atom::sym(name)
}

fn var(name: &str) -> Atom {
    Atom::var(name)
}

fn expr(children: Vec<Atom>) -> Atom {
    Atom::expr(children)
}

fn num(n: i64) -> Atom {
    Atom::number(n)
}

fn bind(pairs: Vec<(&str, Atom)>) -> Bindings {
    let mut b = Bindings::new();
    for (name, value) in pairs {
        b.insert_new(name.to_string(), value);
    }
    b
}

fn single() -> Vec<Bindings> {
    vec![Bindings::new()]
}

fn assert_eq_no_order(actual: Vec<Atom>, expected: Vec<Atom>) {
    let mut a: Vec<String> = actual.iter().map(|x| x.to_text()).collect();
    let mut e: Vec<String> = expected.iter().map(|x| x.to_text()).collect();
    a.sort();
    e.sort();
    assert_eq!(a, e);
}

#[test]
fn add_atom() {
    let mut space = GroundingSpace::new();
    let observer = space.register_observer();

    space.add(sym("a"));
    space.add(sym("b"));
    space.add(sym("c"));

    assert_eq_no_order(space.into_vec(), vec![sym("a"), sym("b"), sym("c")]);
    assert_eq!(
        space.observed_events(observer).unwrap(),
        vec![SpaceEvent::Add(sym("a")), SpaceEvent::Add(sym("b")), SpaceEvent::Add(sym("c"))]
    );
}

#[test]
fn remove_atom() {
    let mut space = GroundingSpace::new();
    let observer = space.register_observer();

    space.add(sym("a"));
    space.add(sym("b"));
    space.add(sym("c"));
    assert_eq!(space.remove(&sym("b")), true);

    assert_eq_no_order(space.into_vec(), vec![sym("a"), sym("c")]);
    assert_eq!(
        space.observed_events(observer).unwrap(),
        vec![
            SpaceEvent::Add(sym("a")),
            SpaceEvent::Add(sym("b")),
            SpaceEvent::Add(sym("c")),
            SpaceEvent::Remove(sym("b"))
        ]
    );
}

#[test]
fn remove_duplicated_atom() {
    let mut space = GroundingSpace::new();
    let observer = space.register_observer();

    space.add(sym("a"));
    space.add(sym("a"));
    space.add(sym("a"));
    assert_eq!(space.remove(&sym("a")), true);

    assert_eq_no_order(space.into_vec(), vec![sym("a"), sym("a")]);
    assert_eq!(
        space.observed_events(observer).unwrap(),
        vec![
            SpaceEvent::Add(sym("a")),
            SpaceEvent::Add(sym("a")),
            SpaceEvent::Add(sym("a")),
            SpaceEvent::Remove(sym("a"))
        ]
    );
}

#[test]
fn remove_atom_not_found() {
    let mut space = GroundingSpace::new();
    let observer = space.register_observer();

    space.add(sym("a"));
    assert_eq!(space.remove(&sym("b")), false);

    assert_eq_no_order(space.into_vec(), vec![sym("a")]);
    assert_eq!(space.observed_events(observer).unwrap(), vec![SpaceEvent::Add(sym("a"))]);
}

#[test]
fn replace_atom() {
    let mut space = GroundingSpace::new();
    let observer = space.register_observer();

    space.add(sym("a"));
    space.add(sym("b"));
    space.add(sym("c"));
    assert_eq!(space.replace(&sym("b"), sym("d")), true);

    assert_eq_no_order(space.into_vec(), vec![sym("a"), sym("d"), sym("c")]);
    assert_eq!(
        space.observed_events(observer).unwrap(),
        vec![
            SpaceEvent::Add(sym("a")),
            SpaceEvent::Add(sym("b")),
            SpaceEvent::Add(sym("c")),
            SpaceEvent::Replace(sym("b"), sym("d"))
        ]
    );
}

#[test]
fn replace_atom_not_found() {
    let mut space = GroundingSpace::new();
    let observer = space.register_observer();

    space.add(sym("a"));
    assert_eq!(space.replace(&sym("b"), sym("d")), false);

    assert_eq_no_order(space.into_vec(), vec![sym("a")]);
    assert_eq!(space.observed_events(observer).unwrap(), vec![SpaceEvent::Add(sym("a"))]);
}

#[test]
fn remove_replaced_atom() {
    let mut space = GroundingSpace::new();
    let observer = space.register_observer();

    space.add(sym("a"));
    space.replace(&sym("a"), sym("b"));
    assert_eq!(space.remove(&sym("b")), true);

    assert_eq_no_order(space.into_vec(), Vec::<Atom>::new());
    assert_eq!(
        space.observed_events(observer).unwrap(),
        vec![
            SpaceEvent::Add(sym("a")),
            SpaceEvent::Replace(sym("a"), sym("b")),
            SpaceEvent::Remove(sym("b"))
        ]
    );
}

#[test]
fn get_atom_after_removed() {
    let mut space = GroundingSpace::new();

    space.add(Atom::sym("A"));
    space.add(Atom::sym("B"));
    space.remove(&Atom::sym("A"));

    assert_eq!(space.query(&Atom::sym("B")), single());
}

#[test]
fn iter_empty() {
    let space = GroundingSpace::from_vec(vec![]);

    assert_eq!(space.atom_count(), 0);
}

#[test]
fn iter_after_remove() {
    let mut space = GroundingSpace::from_vec(vec![sym("a"), sym("b"), sym("c")]);
    space.remove(&sym("b"));

    let atoms = space.into_vec();
    assert_eq_no_order(atoms, vec![sym("a"), sym("c")]);
}

#[test]
fn mut_cloned_atomspace() {
    let mut first = GroundingSpace::new();
    let mut second = first.clone();

    first.add(sym("b"));
    second.add(sym("d"));

    assert_eq_no_order(first.into_vec(), vec![sym("b")]);
    assert_eq_no_order(second.into_vec(), vec![sym("d")]);
}

#[test]
fn test_match_symbol() {
    let mut space = GroundingSpace::new();
    space.add(sym("foo"));
    assert_eq!(space.query(&sym("foo")), single());
}

#[test]
fn test_match_variable() {
    let mut space = GroundingSpace::new();
    space.add(sym("foo"));
    assert_eq!(space.query(&var("x")), vec![bind(vec![("x", sym("foo"))])]);
}

#[test]
fn test_match_expression() {
    let mut space = GroundingSpace::new();
    space.add(expr(vec![sym("+"), sym("a"), expr(vec![sym("*"), sym("b"), sym("c")])]));
    assert_eq!(
        space.query(&expr(vec![sym("+"), sym("a"), expr(vec![sym("*"), sym("b"), sym("c")])])),
        single()
    );
}

#[test]
fn test_match_expression_with_variables() {
    let mut space = GroundingSpace::new();
    space.add(expr(vec![sym("+"), sym("A"), expr(vec![sym("*"), sym("B"), sym("C")])]));
    assert_eq!(
        space.query(&expr(vec![sym("+"), var("a"), expr(vec![sym("*"), var("b"), var("c")])])),
        vec![bind(vec![("a", sym("A")), ("b", sym("B")), ("c", sym("C"))])]
    );
}

#[test]
fn test_match_different_value_for_variable() {
    let mut space = GroundingSpace::new();
    space.add(expr(vec![sym("+"), sym("A"), expr(vec![sym("*"), sym("B"), sym("C")])]));
    assert_eq!(
        space.query(&expr(vec![sym("+"), var("a"), expr(vec![sym("*"), var("a"), var("c")])])),
        Vec::<Bindings>::new()
    );
}

#[test]
fn test_match_query_variable_has_priority() {
    let mut space = GroundingSpace::new();
    space.add(expr(vec![sym("equals"), var("x"), var("x")]));

    let result = space.query(&expr(vec![sym("equals"), var("y"), var("z")]));
    assert_eq!(result, vec![bind(vec![("y", var("z"))])]);
}

#[test]
fn test_match_query_variable_via_data_variable() {
    let mut space = GroundingSpace::new();
    space.add(expr(vec![var("x"), var("x")]));
    assert_eq!(
        space.query(&expr(vec![var("y"), expr(vec![var("z")])])),
        vec![bind(vec![("y", expr(vec![var("z")]))])]
    );
}

#[test]
fn test_match_if_then_with_x() {
    let mut space = GroundingSpace::new();
    space.add(expr(vec![
        sym("="),
        expr(vec![sym("if"), sym("True"), var("then")]),
        var("then"),
    ]));
    assert_eq!(
        space.query(&expr(vec![sym("="), expr(vec![sym("if"), sym("True"), sym("42")]), var("X")])),
        vec![bind(vec![("X", sym("42"))])]
    );
}

#[test]
fn test_match_combined_query() {
    let mut space = GroundingSpace::new();
    space.add(expr(vec![sym("posesses"), sym("Sam"), sym("baloon")]));
    space.add(expr(vec![sym("likes"), sym("Sam"), expr(vec![sym("blue"), sym("stuff")])]));
    space.add(expr(vec![sym("has-color"), sym("baloon"), sym("blue")]));

    let result = space.query(&expr(vec![
        sym(","),
        expr(vec![sym("posesses"), sym("Sam"), var("object")]),
        expr(vec![sym("likes"), sym("Sam"), expr(vec![var("color"), sym("stuff")])]),
        expr(vec![sym("has-color"), var("object"), var("color")]),
    ]));
    assert_eq!(result, vec![bind(vec![("object", sym("baloon")), ("color", sym("blue"))])]);
}

#[test]
fn test_unify_variables_inside_conjunction_query() {
    let mut space = GroundingSpace::new();
    space.add(expr(vec![
        sym("lst1"),
        expr(vec![sym("Cons"), sym("a1"), expr(vec![sym("Cons"), sym("b2"), sym("b3")])]),
    ]));
    space.add(expr(vec![
        sym("lst2"),
        expr(vec![sym("Cons"), sym("a2"), expr(vec![sym("Cons"), sym("b3"), sym("b4")])]),
    ]));
    space.add(expr(vec![sym("Concat"), var("x1"), var("x2"), var("x3")]));

    let result = space.subst(
        &expr(vec![
            sym(","),
            expr(vec![sym("lst1"), var("l1")]),
            expr(vec![sym("lst2"), var("l2")]),
            expr(vec![sym("Concat"), var("l1"), sym("a2"), sym("a3")]),
        ]),
        &var("l1"),
    );
    assert_eq!(
        result,
        vec![expr(vec![sym("Cons"), sym("a1"), expr(vec![sym("Cons"), sym("b2"), sym("b3")])])]
    );
}

#[test]
fn test_type_check_in_query() {
    let mut space = GroundingSpace::new();
    space.add(expr(vec![sym(":"), sym("Human"), sym("Type")]));
    space.add(expr(vec![sym(":"), sym("Socrates"), sym("Human")]));
    space.add(expr(vec![sym("Cons"), sym("Socrates"), sym("Nil")]));

    let result = space.query(&expr(vec![
        sym(","),
        expr(vec![sym(":"), var("h"), sym("Human")]),
        expr(vec![sym("Cons"), var("h"), var("t")]),
    ]));
    assert_eq!(result, vec![bind(vec![("h", sym("Socrates")), ("t", sym("Nil"))])]);
}

#[test]
fn cleanup_observer() {
    let mut space = GroundingSpace::new();
    {
        let observer = space.register_observer();
        assert_eq!(space.observer_count(), 1);
        space.unregister_observer(observer);
    }

    space.add(sym("a"));

    assert_eq_no_order(space.into_vec(), vec![sym("a")]);
    assert_eq!(space.observer_count(), 0);
}

#[test]
fn complex_query_applying_bindings_to_next_pattern() {
    let mut space = GroundingSpace::new();
    space.add(expr(vec![
        sym(":="),
        expr(vec![sym("sum"), var("a"), var("b")]),
        expr(vec![sym("+"), var("a"), var("b")]),
    ]));
    space.add(expr(vec![sym(":="), sym("a"), num(4)]));

    let result = space.query(&expr(vec![
        sym(","),
        expr(vec![sym(":="), sym("a"), var("b")]),
        expr(vec![sym(":="), expr(vec![sym("sum"), num(3), var("b")]), var("W")]),
    ]));

    assert_eq!(result.len(), 1);
    let result = &result[0];
    assert_eq!(result.resolve("W"), Some(expr(vec![sym("+"), num(3), num(4)])));
    assert_eq!(result.resolve("b"), Some(num(4)));
}

#[test]
fn complex_query_chain_of_bindings() {
    let mut space = GroundingSpace::new();
    space.add(expr(vec![
        sym("implies"),
        expr(vec![sym("B"), var("x")]),
        expr(vec![sym("C"), var("x")]),
    ]));
    space.add(expr(vec![
        sym("implies"),
        expr(vec![sym("A"), var("x")]),
        expr(vec![sym("B"), var("x")]),
    ]));
    space.add(expr(vec![sym("A"), sym("Sam")]));

    let result = space.query(&expr(vec![
        sym(","),
        expr(vec![sym("implies"), expr(vec![sym("B"), var("x")]), var("z")]),
        expr(vec![sym("implies"), expr(vec![sym("A"), var("x")]), var("y")]),
        expr(vec![sym("A"), var("x")]),
    ]));
    assert_eq!(result.len(), 1);
    let result = result.into_iter().next().unwrap();
    assert_eq!(result.resolve("x"), Some(sym("Sam")));
    assert_eq!(result.resolve("y"), Some(expr(vec![sym("B"), sym("Sam")])));
    assert_eq!(result.resolve("z"), Some(expr(vec![sym("C"), sym("Sam")])));
}

#[test]
fn test_custom_match_with_space() {
    let space = GroundingSpace::from_vec(vec![
        expr(vec![sym("A"), num(1), var("x"), sym("a")]),
        expr(vec![sym("B"), num(1), var("x"), sym("b")]),
        expr(vec![sym("A"), num(2), var("x"), sym("c")]),
    ]);
    let result = match_atoms(
        &Atom::gnd_space(space.into_vec()),
        &expr(vec![sym("A"), num(1), var("x"), var("x")]),
    );
    assert_eq!(result, vec![bind(vec![("x", sym("a"))])]);
}

#[test]
fn query_of_ground_atoms_gives_one_answer_per_stored_copy() {
    let space = GroundingSpace::from_vec(vec![
        expr(vec![sym("P"), sym("a")]),
        expr(vec![sym("P"), sym("b")]),
        expr(vec![sym("P"), sym("a")]),
        expr(vec![sym("Q"), sym("a")]),
    ]);
    let result = space.query(&expr(vec![sym("P"), var("v")]));
    assert_eq!(
        result,
        vec![
            bind(vec![("v", sym("a"))]),
            bind(vec![("v", sym("b"))]),
            bind(vec![("v", sym("a"))])
        ]
    );
    assert_eq!(space.query(&expr(vec![sym("R"), var("v")])), Vec::<Bindings>::new());
}

#[test]
fn swapping_conjuncts_keeps_the_answers() {
    let space = GroundingSpace::from_vec(vec![
        expr(vec![sym("A"), sym("B")]),
        expr(vec![sym("B"), sym("C")]),
        expr(vec![sym("A"), sym("D")]),
        expr(vec![sym("D"), sym("C")]),
    ]);
    let first = space.query(&expr(vec![
        sym(","),
        expr(vec![sym("A"), var("x")]),
        expr(vec![var("x"), sym("C")]),
    ]));
    let second = space.query(&expr(vec![
        sym(","),
        expr(vec![var("x"), sym("C")]),
        expr(vec![sym("A"), var("x")]),
    ]));
    assert_eq!(first.len(), 2);
    assert_eq!(second.len(), 2);
    for b in first.iter() {
        assert!(second.contains(b));
    }
    assert!(first.contains(&bind(vec![("x", sym("B"))])));
    assert!(first.contains(&bind(vec![("x", sym("D"))])));
}

#[test]
fn remove_absent_and_repeated_atoms() {
    let mut space = GroundingSpace::from_vec(vec![sym("k"), sym("k"), sym("k"), sym("m")]);
    assert_eq!(space.remove(&sym("z")), false);
    assert_eq!(space.atom_count(), 4);
    assert_eq!(space.remove(&sym("k")), true);
    assert_eq!(space.into_vec(), vec![sym("k"), sym("k"), sym("m")]);
}

#[test]
fn no_duplication_strategy_keeps_one_copy() {
    let mut space = GroundingSpace::with_strategy(hyperon::space::NO_DUPLICATION);
    let observer = space.register_observer();
    space.add(sym("a"));
    space.add(sym("a"));
    assert_eq!(space.into_vec(), vec![sym("a")]);
    assert_eq!(space.observed_events(observer).unwrap().len(), 2);
}

#[test]
fn space_name() {
    let mut space = GroundingSpace::new();
    assert_eq!(space.name(), None);
    space.set_name("kb".to_string());
    assert_eq!(space.name(), Some("kb"));
}

#[test]
fn empty_conjunction_succeeds_once() {
    let space = GroundingSpace::from_vec(vec![sym("a")]);
    assert_eq!(space.query(&expr(vec![sym(",")])), single());
    let none = space.query(&expr(vec![sym(","), sym("b"), sym("a")]));
    assert_eq!(none, Vec::<Bindings>::new());
}

#[test]
fn cyclic_binding_fails() {
    let space = GroundingSpace::from_vec(vec![expr(vec![var("q"), expr(vec![sym("f"), var("q")])])]);
    let result = space.query(&expr(vec![var("y"), var("y")]));
    assert_eq!(result, Vec::<Bindings>::new());
}

#[test]
fn query_variables_stay_free_of_stored_variables() {
    let space = GroundingSpace::from_vec(vec![expr(vec![
        sym("P"),
        var("a"),
        expr(vec![sym("g"), var("y")]),
        expr(vec![sym("g"), var("a")]),
    ])]);
    let result = space.query(&expr(vec![sym("P"), var("q"), var("x"), var("x")]));
    assert_eq!(result, vec![bind(vec![("x", expr(vec![sym("g"), var("q")]))])]);
}
