use mal::core_lib::{arithmetic_env, builtin_name_string, construct_repl_env};
use mal::env::{Env, EnvStore};
use mal::eval::{Files, Interpreter};
use mal::order::insert_entry;
use mal::printer::print_str;
use mal::repl::RepError;
use mal::semantics::Stage;
use mal::types::{Atom, Builtin};

struct NoFiles;

impl Files for NoFiles {
    fn read_to_string(&mut self, path: &str) -> Result<String, String> {
        Err(format!("cannot read {path}"))
    }
}

fn answer(r: Result<String, RepError>) -> String {
    match r {
        Ok(t) => t,
        Err(RepError::Read(e)) => format!("{e:?}"),
        Err(RepError::Eval(m)) => format!("error: {m}"),
    }
}

fn get(store: &EnvStore, env: usize, key: &str) -> Option<String> {
    Env::get(store, env, key).map(|a| print_str(&a, true))
}

#[test]
fn setting_a_name_keeps_the_others() {
    let mut store = EnvStore::new();
    let root = Env::new(&mut store, None);
    store.set(root, "a", Atom::Int(1));
    store.set(root, "b", Atom::Int(2));
    let inner = Env::new(&mut store, Some(root));
    store.set(inner, "c", Atom::Int(3));
    store.set(inner, "a", Atom::Int(4));
    assert_eq!(get(&store, inner, "a"), Some("4".to_string()));
    assert_eq!(get(&store, inner, "b"), Some("2".to_string()));
    assert_eq!(get(&store, inner, "c"), Some("3".to_string()));
    assert_eq!(get(&store, root, "a"), Some("1".to_string()));
    assert_eq!(get(&store, root, "c"), None);
}

#[test]
fn new_frame_sees_its_enclosing_frame() {
    let mut store = EnvStore::new();
    let root = Env::new(&mut store, None);
    store.set(root, "k", Atom::Keyword("v".to_string()));
    let inner = Env::new(&mut store, Some(root));
    assert_eq!(get(&store, inner, "k"), Some(":v".to_string()));
    assert_eq!(get(&store, root, "k"), Some(":v".to_string()));
}

#[test]
fn standard_environment_binds_each_builtin_by_name() {
    let store = construct_repl_env();
    let lib = [
        Builtin::Add, Builtin::Sub, Builtin::Mul, Builtin::Div, Builtin::List, Builtin::IsList,
        Builtin::IsEmpty, Builtin::Count, Builtin::Equal, Builtin::Less, Builtin::LessEqual,
        Builtin::Greater, Builtin::GreaterEqual, Builtin::PrStr, Builtin::Str, Builtin::Prn,
        Builtin::Println, Builtin::ReadString, Builtin::Slurp,
    ];
    for b in lib {
        match Env::get(&store, 0, &builtin_name_string(b)) {
            Some(Atom::Function(f)) => assert_eq!(f, b),
            _ => panic!("builtin not bound"),
        }
    }
    assert!(Env::get(&store, 0, "eval").is_none());
}

#[test]
fn arithmetic_environment_binds_four_operations() {
    let store = arithmetic_env();
    for b in [Builtin::Add, Builtin::Sub, Builtin::Mul, Builtin::Div] {
        match Env::get(&store, 0, &builtin_name_string(b)) {
            Some(Atom::Function(f)) => assert_eq!(f, b),
            _ => panic!("builtin not bound"),
        }
    }
    assert!(Env::get(&store, 0, "list").is_none());
}

#[test]
fn builtin_names_are_distinct() {
    let all = [
        Builtin::Add, Builtin::Sub, Builtin::Mul, Builtin::Div, Builtin::List, Builtin::IsList,
        Builtin::IsEmpty, Builtin::Count, Builtin::Equal, Builtin::Less, Builtin::LessEqual,
        Builtin::Greater, Builtin::GreaterEqual, Builtin::PrStr, Builtin::Str, Builtin::Prn,
        Builtin::Println, Builtin::ReadString, Builtin::Slurp, Builtin::Eval,
    ];
    for (i, a) in all.iter().enumerate() {
        for b in &all[i + 1..] {
            assert_ne!(builtin_name_string(*a), builtin_name_string(*b));
        }
    }
}

#[test]
fn values_evaluate_to_themselves() {
    let mut interp = Interpreter::new(construct_repl_env());
    for v in ["5", "-3", "\"s\"", ":k", "nil", "true", "false"] {
        assert_eq!(answer(interp.rep(&mut NoFiles, Stage::Tco, 10, v)), v);
    }
}

#[test]
fn lookup_after_def() {
    let mut interp = Interpreter::new(construct_repl_env());
    assert_eq!(answer(interp.rep(&mut NoFiles, Stage::Env, 100, "(def! k (+ 1 2))")), "3");
    assert_eq!(answer(interp.rep(&mut NoFiles, Stage::Env, 100, "k")), "3");
    assert_eq!(answer(interp.rep(&mut NoFiles, Stage::Env, 100, "(def! k \"x\")")), "\"x\"");
    assert_eq!(answer(interp.rep(&mut NoFiles, Stage::Env, 100, "k")), "\"x\"");
}

#[test]
fn call_binds_parameters() {
    let mut interp = Interpreter::new(construct_repl_env());
    assert_eq!(answer(interp.rep(&mut NoFiles, Stage::Tco, 100, "((fn* (a b c) b) 1 2 3)")), "2");
    assert_eq!(answer(interp.rep(&mut NoFiles, Stage::Tco, 100, "((fn* (a b & c) c) 1 2 3 4)")), "(3 4)");
}

#[test]
fn map_lookup_after_insert() {
    let mut es: Vec<(Atom, Atom)> = Vec::new();
    insert_entry(&mut es, Atom::Str("b".to_string()), Atom::Int(1));
    insert_entry(&mut es, Atom::Str("a".to_string()), Atom::Int(2));
    insert_entry(&mut es, Atom::Str("b".to_string()), Atom::Int(3));
    insert_entry(&mut es, Atom::Int(7), Atom::Nil);
    assert_eq!(print_str(&Atom::Dict(es), true), "{7 nil \"a\" 2 \"b\" 3}");
}

#[test]
fn printed_strings_read_back() {
    for text in ["", "plain", "a\"b", "back\\slash", "new\nline", "\\n", "\"\"", "tab\there"] {
        let printed = print_str(&Atom::Str(text.to_string()), true);
        match mal::reader::read_str(&printed) {
            Ok(Atom::Str(back)) => assert_eq!(back, text),
            _ => panic!("printed string did not read back"),
        }
    }
}

#[test]
fn printed_integers_read_back() {
    for n in [0, 7, -7, 10, 100, -100, 123456789, i32::MAX, i32::MIN] {
        let printed = print_str(&Atom::Int(n), true);
        match mal::reader::read_str(&printed) {
            Ok(Atom::Int(back)) => assert_eq!(back, n),
            _ => panic!("printed integer did not read back"),
        }
    }
}

#[test]
fn map_insertion_order_does_not_matter() {
    let build = |order: &[(i32, &str)]| {
        let mut es: Vec<(Atom, Atom)> = Vec::new();
        for (k, v) in order {
            insert_entry(&mut es, Atom::Int(*k), Atom::Str(v.to_string()));
        }
        print_str(&Atom::Dict(es), true)
    };
    let a = build(&[(3, "c"), (1, "a"), (2, "b")]);
    let b = build(&[(2, "b"), (3, "c"), (1, "a")]);
    assert_eq!(a, b);
    assert_eq!(a, "{1 \"a\" 2 \"b\" 3 \"c\"}");
    let mut interp = Interpreter::new(construct_repl_env());
    assert_eq!(answer(interp.rep(&mut NoFiles, Stage::Tco, 100, "(= {:a 1 :b 2} {:b 2 :a 1})")), "true");
}

#[test]
fn printed_keywords_and_constants_read_back() {
    for name in ["k", "a-b", "x1", "", "+"] {
        let printed = print_str(&Atom::Keyword(name.to_string()), true);
        match mal::reader::read_str(&printed) {
            Ok(Atom::Keyword(back)) => assert_eq!(back, name),
            _ => panic!("printed keyword did not read back"),
        }
    }
    assert!(matches!(mal::reader::read_str(&print_str(&Atom::Nil, true)), Ok(Atom::Nil)));
    assert!(matches!(mal::reader::read_str(&print_str(&Atom::Bool(true), true)), Ok(Atom::Bool(true))));
    assert!(matches!(mal::reader::read_str(&print_str(&Atom::Bool(false), true)), Ok(Atom::Bool(false))));
}

#[test]
fn reading_takes_the_first_form_only() {
    assert_eq!(print_str(&mal::reader::read_str("(a) b)").unwrap(), true), "(a)");
    assert_eq!(print_str(&mal::reader::read_str("1 2").unwrap(), true), "1");
    assert_eq!(print_str(&mal::reader::read_str("[1] ((((").unwrap(), true), "[1]");
}

#[test]
fn maps_read_or_evaluated_have_increasing_keys() {
    let read = mal::reader::read_str("[{:z 1 :a {3 x 1 y 2 z}} (\"q\" {\"b\" 1 \"a\" 2})]").unwrap();
    assert_eq!(print_str(&read, true), "[{:a {1 y 2 z 3 x} :z 1} (\"q\" {\"a\" 2 \"b\" 1})]");
    let mut interp = Interpreter::new(construct_repl_env());
    assert_eq!(answer(interp.rep(&mut NoFiles, Stage::Tco, 100, "{3 (+ 1 1) 1 2 2 3}")), "{1 2 2 3 3 2}");
}

#[test]
fn printed_lists_and_vectors_read_back() {
    let a = Atom::List(vec![
        Atom::Int(-12),
        Atom::Str("x \"y\"\n".to_string()),
        Atom::Vector(vec![Atom::Symbol("abc".to_string()), Atom::Keyword("k".to_string()), Atom::List(vec![])]),
        Atom::Nil,
        Atom::Bool(false),
    ]);
    let printed = print_str(&a, true);
    let back = mal::reader::read_str(&printed).unwrap();
    assert!(mal::order::atoms_equal(&a, &back));
    assert_eq!(print_str(&back, true), printed);
}

#[test]
fn joined_text_reads_as_its_first_part() {
    for (s1, s2) in [("(1 2)", "3 ("), ("[a]", ")"), ("\"x\"", "\"y\" z"), ("7 ; note\n", "(")] {
        let joined = format!("{s1} {s2}");
        let a = print_str(&mal::reader::read_str(s1).unwrap(), true);
        let b = print_str(&mal::reader::read_str(&joined).unwrap(), true);
        assert_eq!(a, b);
    }
}

#[test]
fn symbol_lookup_finds_the_nearest_binding() {
    let mut store = EnvStore::new();
    let root = Env::new(&mut store, None);
    let mid = Env::new(&mut store, Some(root));
    let leaf = Env::new(&mut store, Some(mid));
    store.set(root, "x", Atom::Int(1));
    store.set(mid, "x", Atom::Int(2));
    store.set(root, "y", Atom::Int(3));
    assert_eq!(get(&store, leaf, "x"), Some("2".to_string()));
    assert_eq!(get(&store, leaf, "y"), Some("3".to_string()));
    assert_eq!(get(&store, leaf, "z"), None);
}

#[test]
fn stages_with_and_without_tail_calls_agree() {
    let lines = [
        "(def! f (fn* (n) (if (= n 0) 0 (f (- n 1)))))",
        "(f 5)",
        "(if false 1)",
        "(let* (a 2) (do (def! b a) (+ a b)))",
        "[(if nil 1) {:k (list 1 2)}]",
    ];
    let run = |st: Stage| {
        let mut interp = Interpreter::new(construct_repl_env());
        lines.iter().map(|l| answer(interp.rep(&mut NoFiles, st, 10000, l))).collect::<Vec<_>>()
    };
    assert_eq!(run(Stage::IfFnDo), run(Stage::Tco));
}
