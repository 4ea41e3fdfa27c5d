use mal::core_lib::{arithmetic_env, construct_repl_env};
use mal::eval::{Files, Interpreter, Step};
use mal::repl::RepError;
use mal::semantics::Stage;
use mal::types::{Atom, Builtin};

struct Disk {
    files: Vec<(String, String)>,
    asked: Vec<String>,
}

impl Files for Disk {
    fn read_to_string(&mut self, path: &str) -> Result<String, String> {
        self.asked.push(path.to_string());
        for (p, c) in &self.files {
            if p == path {
                return Ok(c.clone());
            }
        }
        Err(format!("no such file: {path}"))
    }
}

fn disk() -> Disk {
    Disk { files: vec![], asked: vec![] }
}

fn answer(r: Result<String, RepError>) -> String {
    match r {
        Ok(t) => t,
        Err(RepError::Read(e)) => format!("{e:?}"),
        Err(RepError::Eval(m)) => format!("error: {m}"),
    }
}

fn session(st: Stage, lines: &[&str]) -> Vec<String> {
    let envs = if st == Stage::Eval { arithmetic_env() } else { construct_repl_env() };
    let mut interp = Interpreter::new(envs);
    let mut files = disk();
    lines.iter().map(|l| answer(interp.rep(&mut files, st, u64::MAX, l))).collect()
}

fn last(st: Stage, lines: &[&str]) -> String {
    session(st, lines).pop().unwrap()
}

#[test]
fn evaluates_arithmetic() {
    assert_eq!(last(Stage::Eval, &["(+ 1 2)"]), "3");
    assert_eq!(last(Stage::Eval, &["(+ 5 (* 2 3))"]), "11");
    assert_eq!(last(Stage::Eval, &["(- (+ 5 (* 2 3)) 3)"]), "8");
    assert_eq!(last(Stage::Eval, &["(/ (- (+ 515 (* 87 311)) 302) 27)"]), "1010");
    assert_eq!(last(Stage::Eval, &["[1 2 (+ 1 2)]"]), "[1 2 3]");
    assert_eq!(last(Stage::Eval, &["{\"a\" (+ 7 8)}"]), "{\"a\" 15}");
    assert_eq!(last(Stage::Eval, &["()"]), "()");
    assert_eq!(last(Stage::Eval, &["[]"]), "[]");
}

#[test]
fn evaluation_errors() {
    assert_eq!(last(Stage::Eval, &["(abc 1 2 3)"]), "error: 'abc' not found in environment");
    assert_eq!(last(Stage::Eval, &["(1 2)"]), "error: first element in a list must be a function");
    assert_eq!(last(Stage::Eval, &["(def! a 1)"]), "error: 'def!' not found in environment");
    assert_eq!(last(Stage::Eval, &["(list 1)"]), "error: 'list' not found in environment");
    assert_eq!(last(Stage::Eval, &["(1"]), "UnexpectedEof");
    assert_eq!(last(Stage::Eval, &["\"\\q\""]), "InvalidEscape(\"\\\\q\")");
}

#[test]
fn def_and_let() {
    assert_eq!(session(Stage::Env, &["(def! a 6)", "a", "(def! b (+ a 2))", "(+ a b)"]), vec!["6", "6", "8", "14"]);
    assert_eq!(last(Stage::Env, &["(let* (c 2) c)"]), "2");
    assert_eq!(last(Stage::Env, &["(let* (p (+ 2 3) q (+ 2 p)) (+ p q))"]), "12");
    assert_eq!(last(Stage::Env, &["(let* [z 9] z)"]), "9");
    assert_eq!(session(Stage::Env, &["(def! x 4)", "(let* (x 2) x)", "x"]), vec!["4", "2", "4"]);
    assert_eq!(last(Stage::Env, &["(let* (q 9) q)", "q"]), "error: 'q' not found in environment");
    assert_eq!(last(Stage::Env, &["(do 1)"]), "error: 'do' not found in environment");
}

#[test]
fn def_and_let_errors() {
    assert_eq!(last(Stage::Env, &["(def!)"]), "error: def! requires a symbol as first argument");
    assert_eq!(last(Stage::Env, &["(def! 1 2)"]), "error: def! requires a symbol as first argument");
    assert_eq!(last(Stage::Env, &["(def! a)"]), "error: def! requires a value as second argument");
    assert_eq!(last(Stage::Env, &["(def! a (b))", "a"]), "error: 'a' not found in environment");
    assert_eq!(last(Stage::Env, &["(let* 1 2)"]), "error: let* needs a list of bindings");
    assert_eq!(last(Stage::Env, &["(let* ())"]), "error: let* needs a function to execute");
    assert_eq!(last(Stage::Env, &["(let* (a) 1)"]), "error: let* binding list must have symbol/value pairings");
    assert_eq!(last(Stage::Env, &["(let* (1 2) 1)"]), "error: let* binding list must have symbol/value pairings");
}

#[test]
fn if_fn_do() {
    assert_eq!(last(Stage::IfFnDo, &["(if true 1 2)"]), "1");
    assert_eq!(last(Stage::IfFnDo, &["(if nil 1 2)"]), "2");
    assert_eq!(last(Stage::IfFnDo, &["(if 0 1 2)"]), "1");
    assert_eq!(last(Stage::IfFnDo, &["(if false 1)"]), "nil");
    assert_eq!(last(Stage::IfFnDo, &["(do 1 2 3)"]), "3");
    assert_eq!(last(Stage::IfFnDo, &["(do (def! a 1) (+ a 1))"]), "2");
    assert_eq!(last(Stage::IfFnDo, &["((fn* (a b) (+ a b)) 1 2)"]), "3");
    assert_eq!(last(Stage::IfFnDo, &["((fn* [a & r] r) 1 2 3)"]), "(2 3)");
    assert_eq!(last(Stage::IfFnDo, &["((fn* (& r) r))"]), "()");
    assert_eq!(last(Stage::IfFnDo, &["(fn* (a) a)"]), "#<function>");
    assert_eq!(last(Stage::IfFnDo, &["(((fn* (a) (fn* (b) (+ a b))) 5) 7)"]), "12");
    assert_eq!(last(Stage::IfFnDo, &["(def! not (fn* (a) (if a false true)))", "(not nil)"]), "true");
}

#[test]
fn if_fn_do_errors() {
    assert_eq!(last(Stage::IfFnDo, &["(do)"]), "error: do needs at least one element");
    assert_eq!(last(Stage::Tco, &["(do)"]), "error: do needs at least one expression");
    assert_eq!(last(Stage::IfFnDo, &["(if)"]), "error: if needs a condition as first argument");
    assert_eq!(last(Stage::IfFnDo, &["(if true)"]), "error: if needs a true branch");
    assert_eq!(last(Stage::IfFnDo, &["(fn*)"]), "error: fn* requires a parameter list");
    assert_eq!(last(Stage::IfFnDo, &["(fn* 1 1)"]), "error: fn* requires a parameter list");
    assert_eq!(last(Stage::IfFnDo, &["(fn* (1) 1)"]), "error: fn* parameters must be symbols");
    assert_eq!(last(Stage::IfFnDo, &["(fn* (a))"]), "error: fn* requires a body");
    assert_eq!(last(Stage::IfFnDo, &["((fn* (a b) a) 1)"]), "error: wrong number of arguments");
    assert_eq!(last(Stage::IfFnDo, &["((fn* (a &) a) 1)"]), "error: wrong number of arguments");
    assert_eq!(last(Stage::IfFnDo, &["(+ 2147483647 1)"]), "error: integer overflow");
}

#[test]
fn builtins_from_the_standard_environment() {
    assert_eq!(last(Stage::IfFnDo, &["(list? (list 1 2))"]), "true");
    assert_eq!(last(Stage::IfFnDo, &["(count [1 2 3])"]), "3");
    assert_eq!(last(Stage::IfFnDo, &["(= (list 1 2) (list 1 2))"]), "true");
    assert_eq!(last(Stage::IfFnDo, &["(= [1] (list 1))"]), "false");
    assert_eq!(last(Stage::IfFnDo, &["(pr-str \"a\" 1)"]), "\"\\\"a\\\" 1\"");
    assert_eq!(last(Stage::IfFnDo, &["(str \"a\" 1 :k)"]), "\"a1:k\"");
    assert_eq!(last(Stage::IfFnDo, &["(read-string \"(+ 1 2)\")"]), "(+ 1 2)");
}

#[test]
fn printing_builtins_write_lines() {
    let mut interp = Interpreter::new(construct_repl_env());
    let mut files = disk();
    assert_eq!(answer(interp.rep(&mut files, Stage::IfFnDo, 1000, "(prn \"a\" 1)")), "nil");
    assert_eq!(answer(interp.rep(&mut files, Stage::IfFnDo, 1000, "(println \"a\" 1)")), "nil");
    assert_eq!(*interp.output(), vec!["\"a\" 1".to_string(), "a 1".to_string()]);
}

#[test]
fn tail_calls_run_in_a_loop() {
    let lines = [
        "(def! sum (fn* (n acc) (if (= n 0) acc (sum (- n 1) (+ n acc)))))",
        "(sum 1000 0)",
    ];
    assert_eq!(last(Stage::Tco, &lines), "500500");
}

#[test]
fn debug_eval_announces_each_form() {
    let mut interp = Interpreter::new(construct_repl_env());
    let mut files = disk();
    answer(interp.rep(&mut files, Stage::Tco, 1000, "(def! DEBUG-EVAL true)"));
    assert!(interp.output().is_empty());
    assert_eq!(answer(interp.rep(&mut files, Stage::Tco, 1000, "(+ 1 2)")), "3");
    assert_eq!(*interp.output(), vec!["EVAL: (+ 1 2)", "EVAL: +", "EVAL: 1", "EVAL: 2"]);
    let mut quiet = Interpreter::new(construct_repl_env());
    answer(quiet.rep(&mut files, Stage::Tco, 1000, "(def! DEBUG-EVAL false)"));
    answer(quiet.rep(&mut files, Stage::Tco, 1000, "(+ 1 2)"));
    assert!(quiet.output().is_empty());
}

#[test]
fn step_limit() {
    let mut interp = Interpreter::new(construct_repl_env());
    let mut files = disk();
    assert_eq!(answer(interp.rep(&mut files, Stage::Tco, 0, "1")), "error: evaluation step limit reached");
    assert_eq!(answer(interp.rep(&mut files, Stage::Tco, 1, "1")), "1");
    let lines = ["(def! f (fn* () (f)))", "(f)"];
    for l in lines {
        let _ = interp.rep(&mut files, Stage::Tco, 100, l);
    }
    assert_eq!(answer(interp.rep(&mut files, Stage::Tco, 100, "(f)")), "error: evaluation step limit reached");
}

#[test]
fn slurp_and_load_file() {
    let mut interp = Interpreter::new(construct_repl_env());
    let mut files = Disk {
        files: vec![("lib.mal".to_string(), "(def! x 5)\n(def! y (+ x 1))".to_string())],
        asked: vec![],
    };
    assert_eq!(answer(interp.rep(&mut files, Stage::Tco, u64::MAX, "(slurp \"lib.mal\")")), "\"(def! x 5)\\n(def! y (+ x 1))\"");
    assert_eq!(answer(interp.rep(&mut files, Stage::Tco, u64::MAX, "(slurp \"none\")")), "error: no such file: none");
    assert_eq!(answer(interp.rep(&mut files, Stage::Tco, u64::MAX, "(slurp 1)")), "error: slurp needs a string");
    let load = "(def! load-file (fn* (f) (eval (read-string (str \"(do \" (slurp f) \"\\nnil)\")))))";
    let _ = interp.rep(&mut files, Stage::Tco, u64::MAX, load);
    assert!(interp.frame_count() > 0);
    assert!(interp.define("eval", Atom::Function(Builtin::Eval)));
    assert_eq!(answer(interp.rep(&mut files, Stage::Tco, u64::MAX, "(load-file \"lib.mal\")")), "nil");
    assert_eq!(answer(interp.rep(&mut files, Stage::Tco, u64::MAX, "y")), "6");
    assert_eq!(answer(interp.rep(&mut files, Stage::Tco, u64::MAX, "(eval (list + 1 2))")), "3");
    assert_eq!(answer(interp.rep(&mut files, Stage::Tco, u64::MAX, "(eval)")), "error: eval needs something to eval");
    assert_eq!(files.asked, vec!["lib.mal", "none", "lib.mal"]);
}

#[test]
fn taking_output_empties_it() {
    let mut interp = Interpreter::new(construct_repl_env());
    let mut files = disk();
    answer(interp.rep(&mut files, Stage::Tco, 100, "(prn 1)"));
    assert_eq!(interp.take_output(), vec!["1".to_string()]);
    assert!(interp.output().is_empty());
    let mut none = Interpreter::new(mal::env::EnvStore::new());
    assert!(!none.define("x", Atom::Nil));
    assert_eq!(none.frame_count(), 0);
}

#[test]
fn trampoline_finishes_steps() {
    let mut interp = Interpreter::new(construct_repl_env());
    let mut files = disk();
    let done = interp.trampoline(&mut files, Stage::Tco, 10, Ok(Step::Done(Atom::Int(1))));
    assert!(matches!(done, Ok(Atom::Int(1))));
    let failed = interp.trampoline(&mut files, Stage::Tco, 10, Err("no".to_string()));
    assert!(matches!(failed, Err(m) if m == "no"));
    let form = mal::reader::read_str("(+ 1 2)").unwrap();
    let step = interp.eval_step(&mut files, Stage::Tco, 10, form, 0);
    let r = interp.trampoline(&mut files, Stage::Tco, 10, step);
    assert!(matches!(r, Ok(Atom::Int(3))));
    let thunk = interp.trampoline(&mut files, Stage::Tco, 10, Ok(Step::Thunk(Atom::Symbol("+".to_string()), 0)));
    assert!(matches!(thunk, Ok(Atom::Function(Builtin::Add))));
}
