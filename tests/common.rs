use hyperon::atom::Atom;
use hyperon::common::{CachingMapper, Operation};

#[test]
fn test_operation_display() {
    let op = Operation::new("test_op", "(-> ())");
    assert_eq!(Atom::gnd_op(op).to_text(), "test_op");
}

#[test]
fn test_operation_eq() {
    let a = Atom::gnd_op(Operation::new("a", "(-> ())"));
    let aa = Atom::gnd_op(Operation::new("a", "(-> ())"));
    let b = Atom::gnd_op(Operation::new("b", "(-> ())"));
    assert!(a == aa);
    assert!(a != b);
}

#[test]
fn test_operation_clone() {
    let opa = Atom::gnd_op(Operation::new("a", "(-> ())"));
    let opc = opa.clone();
    if let (Atom::Grounded(hyperon::atom::Grounded::Op(refa)), Atom::Grounded(hyperon::atom::Grounded::Op(refc))) =
        (&opa, &opc)
    {
        assert_eq!(refa.name, refc.name);
        assert_eq!(refa.typ, refc.typ);
    } else {
        assert!(false);
    }
}

#[test]
fn atom_text() {
    let a = Atom::expr(vec![
        Atom::sym("f"),
        Atom::var("x"),
        Atom::number(-12),
        Atom::expr(vec![]),
        Atom::expr(vec![Atom::number(0)]),
    ]);
    assert_eq!(a.to_text(), "(f $x -12 () (0))");
    assert_eq!(Atom::number(i64::MIN).to_text(), "-9223372036854775808");
}

#[test]
fn caching_mapper_maps_each_key_once() {
    let mut m = CachingMapper::new(|k: u32| format!("v{}", k * 2));
    assert_eq!(m.replace(3), "v6");
    assert_eq!(m.replace(4), "v8");
    assert_eq!(m.replace(3), "v6");
    assert_eq!(m.mapping().len(), 2);
    assert_eq!(m.mapping().get(&4), Some(&"v8".to_string()));
}
