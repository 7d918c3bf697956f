use hyperon::translator::{split_ignore_quoted, translate, try_translate};

#[test]
fn translate_variables_at_top_level() {
    assert_eq!(
        translate("(Similarity $1 $2)"),
        "LINK_TEMPLATE Expression 3 NODE Symbol Similarity VARIABLE 1 VARIABLE 2"
    );
}

#[test]
fn translate_nested_variable() {
    assert_eq!(
        translate("(Foo (Bar $x))"),
        "LINK_TEMPLATE2 Expression 2 NODE Symbol Foo LINK_TEMPLATE Expression 2 NODE Symbol Bar VARIABLE x"
    );
}

#[test]
fn translate_without_variables() {
    assert_eq!(
        translate("(A (B C))"),
        "LINK Expression 2 NODE Symbol A LINK Expression 2 NODE Symbol B NODE Symbol C"
    );
}

#[test]
fn translate_deeply_nested_variable() {
    assert_eq!(
        translate("(A (B (C $v)) D)"),
        "LINK_TEMPLATE2 Expression 3 NODE Symbol A LINK_TEMPLATE2 Expression 2 NODE Symbol B LINK_TEMPLATE Expression 2 NODE Symbol C VARIABLE v NODE Symbol D"
    );
}

#[test]
fn translate_many_children() {
    assert_eq!(
        translate("(a b c d e f g h i j k)"),
        "LINK Expression 11 NODE Symbol a NODE Symbol b NODE Symbol c NODE Symbol d NODE Symbol e NODE Symbol f NODE Symbol g NODE Symbol h NODE Symbol i NODE Symbol j NODE Symbol k"
    );
}

#[test]
fn translate_quoted_symbol() {
    assert_eq!(
        translate("(Name \"John Smith\" $p)"),
        "LINK_TEMPLATE Expression 3 NODE Symbol Name NODE Symbol \"John Smith\" VARIABLE p"
    );
}

#[test]
fn translate_single_atoms() {
    assert_eq!(translate("x"), "NODE Symbol x");
    assert_eq!(translate("$x"), "VARIABLE x");
    assert_eq!(translate("()"), "LINK Expression 0");
}

#[test]
fn translate_parse_errors() {
    assert_eq!(translate("(A (B C)"), "Parse error");
    assert_eq!(translate(")"), "Parse error");
    assert_eq!(translate(""), "Parse error");
    assert_eq!(translate("(A B) C"), "Parse error");
    assert_eq!(try_translate("(A B"), None);
    assert_eq!(try_translate("(A B)"), Some("LINK Expression 2 NODE Symbol A NODE Symbol B".to_string()));
}

#[test]
fn split_keeps_quoted_strings() {
    assert_eq!(
        split_ignore_quoted("a 'b c' \"d e\"  f"),
        vec!["a".to_string(), "'b c'".to_string(), "\"d e\"".to_string(), "f".to_string()]
    );
    assert_eq!(split_ignore_quoted("   "), Vec::<String>::new());
    assert_eq!(split_ignore_quoted("x\ty\nz"), vec!["x".to_string(), "y".to_string(), "z".to_string()]);
    assert_eq!(split_ignore_quoted("\"it's\" 'say \"hi\"'"), vec!["\"it's\"".to_string(), "'say \"hi\"'".to_string()]);
}
