//! The meaning of evaluation: a big-step semantics over the models of values,
//! environments and the interpreter's state, with a bound on the number of
//! evaluation steps.

use vstd::prelude::*;
use crate::types::{AtomV, Builtin, EnvRef};
use crate::env::{EnvV, FrameV, env_get, store_set, bind_all, binds_fit};
use crate::printer::{print_spec, print_joined};
use crate::order::dict_insert;
use crate::core_lib::pure_builtin_spec;

verus! {

/// Which special forms the evaluator knows: each stage adds to the one before.
#[derive(Clone, Copy, Debug, PartialEq, Eq, Structural)]
pub enum Stage {
    /// Symbols, lists, vectors and maps are evaluated; no special forms.
    Eval,
    /// Adds `def!` and `let*`.
    Env,
    /// Adds `do`, `if` and `fn*`.
    IfFnDo,
    /// As `IfFnDo`, with forms in tail position evaluated in a loop.
    Tco,
}

/// A file read: the path asked for, and the contents or why they could not be read.
pub type FileRead = (Seq<char>, Result<Seq<char>, Seq<char>>);

/// The model of the interpreter's state.
pub struct StateV {
    /// The frames of all environments.
    pub envs: Seq<EnvV>,
    /// The lines printed so far.
    pub output: Seq<Seq<char>>,
    /// The files read so far, in order.
    pub reads: Seq<FileRead>,
}

/// One step of evaluation: a value, or a form still to evaluate in an environment.
pub enum StepV {
    Done(AtomV),
    Thunk(AtomV, EnvRef),
}

/// `a` is a prefix of `b`.
pub open spec fn prefix(a: Seq<FileRead>, b: Seq<FileRead>) -> bool {
    a.len() <= b.len() && forall|i: int| 0 <= i < a.len() ==> a[i] == b[i]
}

/// The state after printing the line `line`.
pub open spec fn with_output(s: StateV, line: Seq<char>) -> StateV {
    StateV { envs: s.envs, output: s.output.push(line), reads: s.reads }
}

/// The state with the frames `envs`.
pub open spec fn with_envs(s: StateV, envs: Seq<EnvV>) -> StateV {
    StateV { envs, output: s.output, reads: s.reads }
}

/// The state after binding `k` to `v` in frame `e`.
pub open spec fn state_set(s: StateV, e: EnvRef, k: Seq<char>, v: AtomV) -> StateV {
    with_envs(s, store_set(s.envs, e as int, k, v))
}

pub open spec fn fuel_msg() -> Seq<char> {
    "evaluation step limit reached"@
}

pub open spec fn env_missing_msg() -> Seq<char> {
    "environment not found"@
}

pub open spec fn not_found_msg(k: Seq<char>) -> Seq<char> {
    "'"@ + k + "' not found in environment"@
}

pub open spec fn not_function_msg() -> Seq<char> {
    "first element in a list must be a function"@
}

pub open spec fn arity_msg() -> Seq<char> {
    "wrong number of arguments"@
}

pub open spec fn do_msg(st: Stage) -> Seq<char> {
    if st == Stage::Tco {
        "do needs at least one expression"@
    } else {
        "do needs at least one element"@
    }
}

pub open spec fn debug_name() -> Seq<char> {
    "DEBUG-EVAL"@
}

/// The state after evaluation announces `e`: when `DEBUG-EVAL` is bound to a
/// value other than `nil` and `false`, the line `EVAL: <e printed readably>`.
pub open spec fn debug_spec(e: AtomV, env: EnvRef, s: StateV) -> StateV {
    match env_get(s.envs, env as int, debug_name()) {
        Some(AtomV::Nil) => s,
        Some(AtomV::Bool(false)) => s,
        None => s,
        Some(_) => with_output(s, "EVAL: "@ + print_spec(e, true)),
    }
}

/// The special forms.
pub enum Special {
    Def,
    Let,
    Do,
    If,
    Fn,
}

/// The special form that a list headed by `head` is, at stage `st`.
pub open spec fn special_of(st: Stage, head: AtomV) -> Option<Special> {
    match head {
        AtomV::Symbol(k) => if st != Stage::Eval && k == "def!"@ {
            Some(Special::Def)
        } else if st != Stage::Eval && k == "let*"@ {
            Some(Special::Let)
        } else if (st == Stage::IfFnDo || st == Stage::Tco) && k == "do"@ {
            Some(Special::Do)
        } else if (st == Stage::IfFnDo || st == Stage::Tco) && k == "if"@ {
            Some(Special::If)
        } else if (st == Stage::IfFnDo || st == Stage::Tco) && k == "fn*"@ {
            Some(Special::Fn)
        } else {
            None
        },
        _ => None,
    }
}

/// `nil` and `false` are false; every other value is true.
pub open spec fn is_falsy(a: AtomV) -> bool {
    a == AtomV::Nil || a == AtomV::Bool(false)
}

/// Evaluates `e` in frame `env`: at most `fuel` steps, the last of which
/// gives a value. `o` answers file reads, by position in the log of reads.
pub open spec fn eval_spec(
    st: Stage,
    fuel: nat,
    e: AtomV,
    env: EnvRef,
    s: StateV,
    o: Seq<FileRead>,
) -> (Result<AtomV, Seq<char>>, StateV)
    decreases fuel, 0nat, 0int,
{
    if fuel == 0 {
        (Err(fuel_msg()), s)
    } else {
        let (r, s1) = step_spec(st, (fuel - 1) as nat, e, env, s, o);
        match r {
            Err(m) => (Err(m), s1),
            Ok(StepV::Done(v)) => (Ok(v), s1),
            Ok(StepV::Thunk(e2, env2)) => eval_spec(st, (fuel - 1) as nat, e2, env2, s1, o),
        }
    }
}

/// Finishes a step: a failed step fails, a step that gives a value ends with
/// it, and a form left to evaluate is evaluated with the `fuel` steps that
/// remain.
pub open spec fn trampoline_spec(
    st: Stage,
    fuel: nat,
    r: Result<StepV, Seq<char>>,
    s: StateV,
    o: Seq<FileRead>,
) -> (Result<AtomV, Seq<char>>, StateV) {
    match r {
        Err(m) => (Err(m), s),
        Ok(StepV::Done(v)) => (Ok(v), s),
        Ok(StepV::Thunk(e, env)) => eval_spec(st, fuel, e, env, s, o),
    }
}

/// One step of evaluation.
pub open spec fn step_spec(
    st: Stage,
    fuel: nat,
    e: AtomV,
    env: EnvRef,
    s0: StateV,
    o: Seq<FileRead>,
) -> (Result<StepV, Seq<char>>, StateV)
    decreases fuel, 3nat, 0int,
{
    let s = debug_spec(e, env, s0);
    match e {
        AtomV::Symbol(k) => match env_get(s.envs, env as int, k) {
            Some(v) => (Ok(StepV::Done(v)), s),
            None => (Err(not_found_msg(k)), s),
        },
        AtomV::List(xs) => if xs.len() == 0 {
            (Ok(StepV::Done(e)), s)
        } else {
            let args = xs.skip(1);
            match special_of(st, xs[0]) {
                Some(Special::Def) => def_spec(st, fuel, args, env, s, o),
                Some(Special::Let) => let_spec(st, fuel, args, env, s, o),
                Some(Special::Do) => do_spec(st, fuel, args, env, s, o),
                Some(Special::If) => if_spec(st, fuel, args, env, s, o),
                Some(Special::Fn) => (fn_spec(args, env), s),
                None => {
                    let (hr, s1) = eval_spec(st, fuel, xs[0], env, s, o);
                    match hr {
                        Err(m) => (Err(m), s1),
                        Ok(h) => {
                            let (ar, s2) = eval_seq_spec(st, fuel, args, 0, env, Seq::empty(), s1, o);
                            match ar {
                                Err(m) => (Err(m), s2),
                                Ok(vs) => apply_spec(st, fuel, h, vs, s2, o),
                            }
                        },
                    }
                },
            }
        },
        AtomV::Vector(xs) => {
            let (r, s1) = eval_seq_spec(st, fuel, xs, 0, env, Seq::empty(), s, o);
            match r {
                Err(m) => (Err(m), s1),
                Ok(vs) => (Ok(StepV::Done(AtomV::Vector(vs))), s1),
            }
        },
        AtomV::Dict(es) => {
            let (r, s1) = eval_entries_spec(st, fuel, es, 0, env, Seq::empty(), s, o);
            match r {
                Err(m) => (Err(m), s1),
                Ok(vs) => (Ok(StepV::Done(AtomV::Dict(vs))), s1),
            }
        },
        _ => (Ok(StepV::Done(e)), s),
    }
}

/// Evaluates `xs[i..]` in order after the values `acc`, stopping at the first error.
pub open spec fn eval_seq_spec(
    st: Stage,
    fuel: nat,
    xs: Seq<AtomV>,
    i: int,
    env: EnvRef,
    acc: Seq<AtomV>,
    s: StateV,
    o: Seq<FileRead>,
) -> (Result<Seq<AtomV>, Seq<char>>, StateV)
    decreases fuel, 1nat, xs.len() - i,
{
    if i < 0 || i >= xs.len() {
        (Ok(acc), s)
    } else {
        let (r, s1) = eval_spec(st, fuel, xs[i], env, s, o);
        match r {
            Err(m) => (Err(m), s1),
            Ok(v) => eval_seq_spec(st, fuel, xs, i + 1, env, acc.push(v), s1, o),
        }
    }
}

/// Evaluates the values of the map entries `es[i..]` in order, binding each
/// key to its value in the map `acc`.
pub open spec fn eval_entries_spec(
    st: Stage,
    fuel: nat,
    es: Seq<(AtomV, AtomV)>,
    i: int,
    env: EnvRef,
    acc: Seq<(AtomV, AtomV)>,
    s: StateV,
    o: Seq<FileRead>,
) -> (Result<Seq<(AtomV, AtomV)>, Seq<char>>, StateV)
    decreases fuel, 1nat, es.len() - i,
{
    if i < 0 || i >= es.len() {
        (Ok(acc), s)
    } else {
        let (r, s1) = eval_spec(st, fuel, es[i].1, env, s, o);
        match r {
            Err(m) => (Err(m), s1),
            Ok(v) => eval_entries_spec(st, fuel, es, i + 1, env, dict_insert(acc, es[i].0, v), s1, o),
        }
    }
}

/// Applies the value `f` to the evaluated arguments `args`.
pub open spec fn apply_spec(
    st: Stage,
    fuel: nat,
    f: AtomV,
    args: Seq<AtomV>,
    s: StateV,
    o: Seq<FileRead>,
) -> (Result<StepV, Seq<char>>, StateV)
    decreases fuel, 2nat, 0int,
{
    match f {
        AtomV::Function(b) => {
            let (r, s1) = builtin_spec(st, fuel, b, args, s, o);
            match r {
                Ok(v) => (Ok(StepV::Done(v)), s1),
                Err(m) => (Err(m), s1),
            }
        },
        AtomV::Lambda(params, body, closed) => if closed >= s.envs.len() {
            (Err(env_missing_msg()), s)
        } else if !binds_fit(params, args.len() as int, 0) {
            (Err(arity_msg()), s)
        } else {
            (
                Ok(StepV::Thunk(*body, s.envs.len() as EnvRef)),
                with_envs(
                    s,
                    s.envs.push(
                        EnvV { outer: Some(closed), data: bind_all(FrameV::empty(), params, args, 0) },
                    ),
                ),
            )
        },
        _ => (Err(not_function_msg()), s),
    }
}

/// Applies a builtin to the evaluated arguments `args`.
pub open spec fn builtin_spec(
    st: Stage,
    fuel: nat,
    b: Builtin,
    args: Seq<AtomV>,
    s: StateV,
    o: Seq<FileRead>,
) -> (Result<AtomV, Seq<char>>, StateV)
    decreases fuel, 1nat, 0int,
{
    match b {
        Builtin::Prn => (Ok(AtomV::Nil), with_output(s, print_joined(args, true))),
        Builtin::Println => (Ok(AtomV::Nil), with_output(s, print_joined(args, false))),
        Builtin::Slurp => if args.len() > 0 && args[0] is Str {
            let k = s.reads.len();
            let answer = if k < o.len() {
                o[k as int].1
            } else {
                Err(Seq::empty())
            };
            let s1 = StateV {
                envs: s.envs,
                output: s.output,
                reads: s.reads.push((args[0]->Str_0, answer)),
            };
            match answer {
                Ok(c) => (Ok(AtomV::Str(c)), s1),
                Err(m) => (Err(m), s1),
            }
        } else {
            (Err("slurp needs a string"@), s)
        },
        Builtin::Eval => if args.len() == 0 {
            (Err("eval needs something to eval"@), s)
        } else {
            eval_spec(st, fuel, args[0], 0, s, o)
        },
        _ => (pure_builtin_spec(b, args), s),
    }
}

/// `def!`: evaluates `args[1]` and binds `args[0]` to it in the current frame.
pub open spec fn def_spec(
    st: Stage,
    fuel: nat,
    args: Seq<AtomV>,
    env: EnvRef,
    s: StateV,
    o: Seq<FileRead>,
) -> (Result<StepV, Seq<char>>, StateV)
    decreases fuel, 1nat, 0int,
{
    if args.len() == 0 || !(args[0] is Symbol) {
        (Err("def! requires a symbol as first argument"@), s)
    } else if args.len() < 2 {
        (Err("def! requires a value as second argument"@), s)
    } else {
        let (r, s1) = eval_spec(st, fuel, args[1], env, s, o);
        match r {
            Err(m) => (Err(m), s1),
            Ok(v) => if env < s1.envs.len() {
                (Ok(StepV::Done(v)), state_set(s1, env, args[0]->Symbol_0, v))
            } else {
                (Err(env_missing_msg()), s1)
            },
        }
    }
}

/// `let*`: binds names to values in a new frame, in order, then evaluates
/// the body there.
pub open spec fn let_spec(
    st: Stage,
    fuel: nat,
    args: Seq<AtomV>,
    env: EnvRef,
    s: StateV,
    o: Seq<FileRead>,
) -> (Result<StepV, Seq<char>>, StateV)
    decreases fuel, 2nat, 0int,
{
    if args.len() == 0 || !(args[0] is List || args[0] is Vector) {
        (Err("let* needs a list of bindings"@), s)
    } else if args.len() < 2 {
        (Err("let* needs a function to execute"@), s)
    } else if env >= s.envs.len() {
        (Err(env_missing_msg()), s)
    } else {
        let bs = match args[0] {
            AtomV::List(b) => b,
            AtomV::Vector(b) => b,
            _ => Seq::empty(),
        };
        let le = s.envs.len() as EnvRef;
        let s1 = with_envs(s, s.envs.push(EnvV { outer: Some(env), data: FrameV::empty() }));
        let (r, s2) = let_bind_spec(st, fuel, bs, 0, le, s1, o);
        match r {
            Err(m) => (Err(m), s2),
            Ok(_) => (Ok(StepV::Thunk(args[1], le)), s2),
        }
    }
}

/// Binds the pairs `bs[i..]` (symbol, then form) in frame `le`, each form
/// evaluated in `le`.
pub open spec fn let_bind_spec(
    st: Stage,
    fuel: nat,
    bs: Seq<AtomV>,
    i: int,
    le: EnvRef,
    s: StateV,
    o: Seq<FileRead>,
) -> (Result<(), Seq<char>>, StateV)
    decreases fuel, 1nat, bs.len() - i,
{
    if i < 0 || i >= bs.len() {
        (Ok(()), s)
    } else if bs[i] is Symbol && i + 1 < bs.len() {
        let (r, s1) = eval_spec(st, fuel, bs[i + 1], le, s, o);
        match r {
            Err(m) => (Err(m), s1),
            Ok(v) => if le < s1.envs.len() {
                let_bind_spec(st, fuel, bs, i + 2, le, state_set(s1, le, bs[i]->Symbol_0, v), o)
            } else {
                (Err(env_missing_msg()), s1)
            },
        }
    } else {
        (Err("let* binding list must have symbol/value pairings"@), s)
    }
}

/// `do`: evaluates all forms but the last, then continues with the last.
pub open spec fn do_spec(
    st: Stage,
    fuel: nat,
    args: Seq<AtomV>,
    env: EnvRef,
    s: StateV,
    o: Seq<FileRead>,
) -> (Result<StepV, Seq<char>>, StateV)
    decreases fuel, 2nat, 0int,
{
    if args.len() == 0 {
        (Err(do_msg(st)), s)
    } else {
        let (r, s1) = do_prefix_spec(st, fuel, args, 0, env, s, o);
        match r {
            Err(m) => (Err(m), s1),
            Ok(_) => (Ok(StepV::Thunk(args[args.len() - 1], env)), s1),
        }
    }
}

/// Evaluates `args[i]` up to the last form but one, discarding the values.
pub open spec fn do_prefix_spec(
    st: Stage,
    fuel: nat,
    args: Seq<AtomV>,
    i: int,
    env: EnvRef,
    s: StateV,
    o: Seq<FileRead>,
) -> (Result<(), Seq<char>>, StateV)
    decreases fuel, 1nat, args.len() - i,
{
    if i < 0 || i + 1 >= args.len() {
        (Ok(()), s)
    } else {
        let (r, s1) = eval_spec(st, fuel, args[i], env, s, o);
        match r {
            Err(m) => (Err(m), s1),
            Ok(_) => do_prefix_spec(st, fuel, args, i + 1, env, s1, o),
        }
    }
}

/// `if`: evaluates the condition, then continues with the branch it selects.
pub open spec fn if_spec(
    st: Stage,
    fuel: nat,
    args: Seq<AtomV>,
    env: EnvRef,
    s: StateV,
    o: Seq<FileRead>,
) -> (Result<StepV, Seq<char>>, StateV)
    decreases fuel, 1nat, 0int,
{
    if args.len() == 0 {
        (Err("if needs a condition as first argument"@), s)
    } else {
        let (r, s1) = eval_spec(st, fuel, args[0], env, s, o);
        match r {
            Err(m) => (Err(m), s1),
            Ok(c) => if is_falsy(c) {
                if args.len() > 2 {
                    (Ok(StepV::Thunk(args[2], env)), s1)
                } else if st == Stage::Tco {
                    (Ok(StepV::Thunk(AtomV::Nil, env)), s1)
                } else {
                    (Ok(StepV::Done(AtomV::Nil)), s1)
                }
            } else if args.len() > 1 {
                (Ok(StepV::Thunk(args[1], env)), s1)
            } else {
                (Err("if needs a true branch"@), s1)
            },
        }
    }
}

/// Every value is a symbol.
pub open spec fn all_symbols(ps: Seq<AtomV>) -> bool {
    forall|i: int| 0 <= i < ps.len() ==> (#[trigger] ps[i]) is Symbol
}

/// The names of symbols.
pub open spec fn symbol_names(ps: Seq<AtomV>) -> Seq<Seq<char>> {
    ps.map_values(|p: AtomV| p->Symbol_0)
}

/// `fn*`: a function of the given parameters and body, closed over `env`.
pub open spec fn fn_spec(args: Seq<AtomV>, env: EnvRef) -> Result<StepV, Seq<char>> {
    if args.len() == 0 || !(args[0] is List || args[0] is Vector) {
        Err("fn* requires a parameter list"@)
    } else {
        let ps = match args[0] {
            AtomV::List(p) => p,
            AtomV::Vector(p) => p,
            _ => Seq::empty(),
        };
        if !all_symbols(ps) {
            Err("fn* parameters must be symbols"@)
        } else if args.len() < 2 {
            Err("fn* requires a body"@)
        } else {
            Ok(StepV::Done(AtomV::Lambda(symbol_names(ps), Box::new(args[1]), env)))
        }
    }
}

} // verus!
