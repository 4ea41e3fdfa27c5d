use mal::core_lib::{apply_pure, builtin_name_string, standard_library};
use mal::printer::print_str;
use mal::types::{Atom, Builtin};

fn call(b: Builtin, args: Vec<Atom>) -> Result<String, String> {
    apply_pure(b, &args).map(|a| print_str(&a, true))
}

fn ok(t: &str) -> Result<String, String> {
    Ok(t.to_string())
}

fn err(t: &str) -> Result<String, String> {
    Err(t.to_string())
}

#[test]
fn arithmetic() {
    assert_eq!(call(Builtin::Add, vec![Atom::Int(1), Atom::Int(2)]), ok("3"));
    assert_eq!(call(Builtin::Sub, vec![Atom::Int(1), Atom::Int(2)]), ok("-1"));
    assert_eq!(call(Builtin::Mul, vec![Atom::Int(-4), Atom::Int(5)]), ok("-20"));
    assert_eq!(call(Builtin::Div, vec![Atom::Int(7), Atom::Int(2)]), ok("3"));
    assert_eq!(call(Builtin::Div, vec![Atom::Int(-7), Atom::Int(2)]), ok("-3"));
    assert_eq!(call(Builtin::Div, vec![Atom::Int(7), Atom::Int(-2)]), ok("-3"));
    assert_eq!(call(Builtin::Div, vec![Atom::Int(-7), Atom::Int(-2)]), ok("3"));
}

#[test]
fn arithmetic_errors() {
    assert_eq!(call(Builtin::Add, vec![Atom::Int(i32::MAX), Atom::Int(1)]), err("integer overflow"));
    assert_eq!(call(Builtin::Sub, vec![Atom::Int(i32::MIN), Atom::Int(1)]), err("integer overflow"));
    assert_eq!(call(Builtin::Mul, vec![Atom::Int(65536), Atom::Int(65536)]), err("integer overflow"));
    assert_eq!(call(Builtin::Div, vec![Atom::Int(i32::MIN), Atom::Int(-1)]), err("integer overflow"));
    assert_eq!(call(Builtin::Div, vec![Atom::Int(1), Atom::Int(0)]), err("division by zero"));
    assert_eq!(call(Builtin::Add, vec![Atom::Int(1)]), err("improper arguments for '+'"));
    assert_eq!(call(Builtin::Add, vec![Atom::Int(1), Atom::Nil]), err("improper arguments for '+'"));
    assert_eq!(call(Builtin::Less, vec![]), err("improper arguments for '<'"));
}

#[test]
fn comparisons() {
    assert_eq!(call(Builtin::Less, vec![Atom::Int(1), Atom::Int(2)]), ok("true"));
    assert_eq!(call(Builtin::LessEqual, vec![Atom::Int(2), Atom::Int(2)]), ok("true"));
    assert_eq!(call(Builtin::Greater, vec![Atom::Int(1), Atom::Int(2)]), ok("false"));
    assert_eq!(call(Builtin::GreaterEqual, vec![Atom::Int(1), Atom::Int(2)]), ok("false"));
}

#[test]
fn lists() {
    assert_eq!(call(Builtin::List, vec![Atom::Int(1), Atom::Nil]), ok("(1 nil)"));
    assert_eq!(call(Builtin::List, vec![]), ok("()"));
    assert_eq!(call(Builtin::IsList, vec![Atom::List(vec![])]), ok("true"));
    assert_eq!(call(Builtin::IsList, vec![Atom::Vector(vec![])]), ok("false"));
    assert_eq!(call(Builtin::IsList, vec![]), err("list? needs an argument"));
    assert_eq!(call(Builtin::IsEmpty, vec![Atom::List(vec![])]), ok("true"));
    assert_eq!(call(Builtin::IsEmpty, vec![Atom::Vector(vec![Atom::Nil])]), ok("false"));
    assert_eq!(call(Builtin::IsEmpty, vec![Atom::Nil]), err("empty? needs a list"));
    assert_eq!(call(Builtin::IsEmpty, vec![]), err("empty? needs a list"));
    assert_eq!(call(Builtin::Count, vec![Atom::Vector(vec![Atom::Nil, Atom::Nil])]), ok("2"));
    assert_eq!(call(Builtin::Count, vec![Atom::Nil]), ok("0"));
    assert_eq!(call(Builtin::Count, vec![]), err("count needs an argument"));
}

#[test]
fn equality() {
    let l = || Atom::List(vec![Atom::Int(1), Atom::Str("a".to_string())]);
    assert_eq!(call(Builtin::Equal, vec![l(), l()]), ok("true"));
    assert_eq!(call(Builtin::Equal, vec![l(), Atom::List(vec![])]), ok("false"));
    assert_eq!(call(Builtin::Equal, vec![Atom::Int(1)]), err("= needs two atoms"));
}

#[test]
fn printing_builtins() {
    let args = || vec![Atom::Str("a\"b".to_string()), Atom::Int(1)];
    assert_eq!(call(Builtin::PrStr, args()), ok("\"\\\"a\\\\\\\"b\\\" 1\""));
    assert_eq!(call(Builtin::Str, args()), ok("\"a\\\"b1\""));
    assert_eq!(call(Builtin::Str, vec![]), ok("\"\""));
}

#[test]
fn read_string() {
    assert_eq!(call(Builtin::ReadString, vec![Atom::Str("(+ 1 2)".to_string())]), ok("(+ 1 2)"));
    assert_eq!(call(Builtin::ReadString, vec![Atom::Str("(1".to_string())]), ok("\"EOF\""));
    assert_eq!(call(Builtin::ReadString, vec![Atom::Int(1)]), err("read-string needs a string"));
}

#[test]
fn library_names() {
    let lib = standard_library();
    assert_eq!(lib.len(), 19);
    let names: Vec<&str> = lib.iter().map(|(n, _)| n.as_str()).collect();
    assert_eq!(
        names,
        vec![
            "+", "-", "*", "/", "list", "list?", "empty?", "count", "=", "<", "<=", ">", ">=",
            "pr-str", "str", "prn", "println", "read-string", "slurp"
        ]
    );
    assert_eq!(builtin_name_string(Builtin::Eval), "eval");
}
