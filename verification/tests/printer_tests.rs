use mal::printer::print_str;
use mal::types::{Atom, Builtin};

fn s(t: &str) -> String {
    t.to_string()
}

#[test]
fn prints_scalars() {
    assert_eq!(print_str(&Atom::Nil, true), "nil");
    assert_eq!(print_str(&Atom::Bool(true), true), "true");
    assert_eq!(print_str(&Atom::Bool(false), false), "false");
    assert_eq!(print_str(&Atom::Int(-17), true), "-17");
    assert_eq!(print_str(&Atom::Int(0), true), "0");
    assert_eq!(print_str(&Atom::Int(i32::MIN), true), "-2147483648");
    assert_eq!(print_str(&Atom::Int(i32::MAX), true), "2147483647");
    assert_eq!(print_str(&Atom::Keyword(s("kw")), true), ":kw");
    assert_eq!(print_str(&Atom::Symbol(s("abc")), true), "abc");
}

#[test]
fn prints_strings_readably_or_raw() {
    let a = Atom::Str(s("a\"b\\c\nd"));
    assert_eq!(print_str(&a, true), "\"a\\\"b\\\\c\\nd\"");
    assert_eq!(print_str(&a, false), "a\"b\\c\nd");
}

#[test]
fn prints_collections() {
    let list = Atom::List(vec![Atom::Int(1), Atom::Str(s("x")), Atom::List(vec![])]);
    assert_eq!(print_str(&list, true), "(1 \"x\" ())");
    assert_eq!(print_str(&list, false), "(1 x ())");
    let vector = Atom::Vector(vec![Atom::Int(1), Atom::Vector(vec![Atom::Nil])]);
    assert_eq!(print_str(&vector, true), "[1 [nil]]");
    let dict = Atom::Dict(vec![(Atom::Keyword(s("a")), Atom::Int(1)), (Atom::Str(s("b")), Atom::Int(2))]);
    assert_eq!(print_str(&dict, true), "{:a 1 \"b\" 2}");
    assert_eq!(print_str(&Atom::Dict(vec![]), true), "{}");
}

#[test]
fn prints_functions() {
    assert_eq!(print_str(&Atom::Function(Builtin::Add), true), "#<function>");
    let lambda = Atom::Lambda { params: vec![s("a")], body: Box::new(Atom::Symbol(s("a"))), env: 0 };
    assert_eq!(print_str(&lambda, true), "#<function>");
}
