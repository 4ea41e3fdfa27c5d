//! The functions that the language provides natively, and the environment
//! that binds their names.

use vstd::prelude::*;
use crate::types::{Atom, AtomV, Builtin, atoms_view, lemma_atoms_view};
use crate::env::{Env, EnvStore, EnvV, FrameV, frame_set};
use crate::printer::{print_spec, print_joined, print_into, print_all_into};
use crate::reader::{read_str, read_str_spec, error_message};

verus! {

/// The name under which a builtin is bound.
pub open spec fn builtin_name(b: Builtin) -> Seq<char> {
    match b {
        Builtin::Add => "+"@,
        Builtin::Sub => "-"@,
        Builtin::Mul => "*"@,
        Builtin::Div => "/"@,
        Builtin::List => "list"@,
        Builtin::IsList => "list?"@,
        Builtin::IsEmpty => "empty?"@,
        Builtin::Count => "count"@,
        Builtin::Equal => "="@,
        Builtin::Less => "<"@,
        Builtin::LessEqual => "<="@,
        Builtin::Greater => ">"@,
        Builtin::GreaterEqual => ">="@,
        Builtin::PrStr => "pr-str"@,
        Builtin::Str => "str"@,
        Builtin::Prn => "prn"@,
        Builtin::Println => "println"@,
        Builtin::ReadString => "read-string"@,
        Builtin::Slurp => "slurp"@,
        Builtin::Eval => "eval"@,
    }
}

/// The name under which a builtin is bound.
pub fn builtin_name_string(b: Builtin) -> (r: String)
    ensures
        r@ == builtin_name(b),
{
    match b {
        Builtin::Add => "+".to_owned(),
        Builtin::Sub => "-".to_owned(),
        Builtin::Mul => "*".to_owned(),
        Builtin::Div => "/".to_owned(),
        Builtin::List => "list".to_owned(),
        Builtin::IsList => "list?".to_owned(),
        Builtin::IsEmpty => "empty?".to_owned(),
        Builtin::Count => "count".to_owned(),
        Builtin::Equal => "=".to_owned(),
        Builtin::Less => "<".to_owned(),
        Builtin::LessEqual => "<=".to_owned(),
        Builtin::Greater => ">".to_owned(),
        Builtin::GreaterEqual => ">=".to_owned(),
        Builtin::PrStr => "pr-str".to_owned(),
        Builtin::Str => "str".to_owned(),
        Builtin::Prn => "prn".to_owned(),
        Builtin::Println => "println".to_owned(),
        Builtin::ReadString => "read-string".to_owned(),
        Builtin::Slurp => "slurp".to_owned(),
        Builtin::Eval => "eval".to_owned(),
    }
}

/// The builtins whose names the standard environment binds, in order.
pub open spec fn library() -> Seq<Builtin> {
    seq![
        Builtin::Add,
        Builtin::Sub,
        Builtin::Mul,
        Builtin::Div,
        Builtin::List,
        Builtin::IsList,
        Builtin::IsEmpty,
        Builtin::Count,
        Builtin::Equal,
        Builtin::Less,
        Builtin::LessEqual,
        Builtin::Greater,
        Builtin::GreaterEqual,
        Builtin::PrStr,
        Builtin::Str,
        Builtin::Prn,
        Builtin::Println,
        Builtin::ReadString,
        Builtin::Slurp,
    ]
}

/// The frame that binds each builtin in `bs` to its name, bound in order.
pub open spec fn library_frame(bs: Seq<Builtin>) -> FrameV
    decreases bs.len(),
{
    if bs.len() == 0 {
        FrameV::empty()
    } else {
        frame_set(
            library_frame(bs.subrange(0, bs.len() - 1)),
            builtin_name(bs[bs.len() - 1]),
            AtomV::Function(bs[bs.len() - 1]),
        )
    }
}

/// The name and value of each builtin of the standard environment, in order.
pub fn standard_library() -> (r: Vec<(String, Atom)>)
    ensures
        r@.len() == library().len(),
        forall|i: int|
            0 <= i < library().len() ==> (#[trigger] r@[i]).0@ == builtin_name(library()[i])
                && r@[i].1@ == AtomV::Function(library()[i]),
{
    let bs = vec![
        Builtin::Add,
        Builtin::Sub,
        Builtin::Mul,
        Builtin::Div,
        Builtin::List,
        Builtin::IsList,
        Builtin::IsEmpty,
        Builtin::Count,
        Builtin::Equal,
        Builtin::Less,
        Builtin::LessEqual,
        Builtin::Greater,
        Builtin::GreaterEqual,
        Builtin::PrStr,
        Builtin::Str,
        Builtin::Prn,
        Builtin::Println,
        Builtin::ReadString,
        Builtin::Slurp,
    ];
    proof {
        assert(bs@ =~= library());
    }
    let mut lib: Vec<(String, Atom)> = Vec::new();
    let mut i: usize = 0;
    while i < bs.len()
        invariant
            bs@ == library(),
            i <= bs@.len(),
            lib@.len() == i,
            forall|j: int|
                0 <= j < i ==> (#[trigger] lib@[j]).0@ == builtin_name(library()[j]) && lib@[j].1@
                    == AtomV::Function(library()[j]),
        decreases bs.len() - i,
    {
        let b = bs[i];
        lib.push((builtin_name_string(b), Atom::Function(b)));
        i += 1;
    }
    lib
}

/// The frames of the standard environment: one frame, with no enclosing
/// frame, that binds the library.
pub open spec fn standard_frames() -> Seq<EnvV> {
    seq![EnvV { outer: None, data: library_frame(library()) }]
}

/// A store whose one frame (frame 0, with no enclosing frame) binds the
/// standard library.
pub fn construct_repl_env() -> (r: EnvStore)
    ensures
        r@ == standard_frames(),
{
    let mut store = EnvStore::new();
    let root = Env::new(&mut store, None);
    let lib = standard_library();
    let mut i: usize = 0;
    proof {
        assert(library().subrange(0, 0) =~= Seq::<Builtin>::empty());
    }
    while i < lib.len()
        invariant
            root == 0,
            i <= lib@.len(),
            lib@.len() == library().len(),
            forall|j: int|
                0 <= j < library().len() ==> (#[trigger] lib@[j]).0@ == builtin_name(library()[j])
                    && lib@[j].1@ == AtomV::Function(library()[j]),
            store@ == seq![
                EnvV { outer: None, data: library_frame(library().subrange(0, i as int)) },
            ],
        decreases lib.len() - i,
    {
        let name = &lib[i].0;
        let value = lib[i].1.duplicate();
        store.set(root, name.as_str(), value);
        proof {
            let bs = library().subrange(0, i + 1);
            assert(bs.subrange(0, i as int) =~= library().subrange(0, i as int));
            assert(store@ =~= seq![EnvV { outer: None, data: library_frame(bs) }]);
        }
        i += 1;
    }
    proof {
        assert(library().subrange(0, library().len() as int) =~= library());
    }
    store
}


/// The builtins bound by the stages that evaluate before `def!` exists: the
/// four arithmetic operations.
pub open spec fn arithmetic() -> Seq<Builtin> {
    seq![Builtin::Add, Builtin::Sub, Builtin::Mul, Builtin::Div]
}

/// The frames of the arithmetic environment: one frame, with no enclosing
/// frame, that binds the four arithmetic operations.
pub open spec fn arithmetic_frames() -> Seq<EnvV> {
    seq![EnvV { outer: None, data: library_frame(arithmetic()) }]
}

/// A store whose one frame (frame 0, with no enclosing frame) binds `+`,
/// `-`, `*` and `/`.
pub fn arithmetic_env() -> (r: EnvStore)
    ensures
        r@ == arithmetic_frames(),
{
    let bs = vec![Builtin::Add, Builtin::Sub, Builtin::Mul, Builtin::Div];
    let mut store = EnvStore::new();
    let root = Env::new(&mut store, None);
    let mut i: usize = 0;
    proof {
        assert(bs@ =~= arithmetic());
        assert(arithmetic().subrange(0, 0) =~= Seq::<Builtin>::empty());
    }
    while i < bs.len()
        invariant
            root == 0,
            bs@ == arithmetic(),
            i <= bs@.len(),
            store@ == seq![
                EnvV { outer: None, data: library_frame(arithmetic().subrange(0, i as int)) },
            ],
        decreases bs.len() - i,
    {
        let b = bs[i];
        let name = builtin_name_string(b);
        store.set(root, name.as_str(), Atom::Function(b));
        proof {
            let cs = arithmetic().subrange(0, i + 1);
            assert(cs.subrange(0, i as int) =~= arithmetic().subrange(0, i as int));
            assert(store@ =~= seq![EnvV { outer: None, data: library_frame(cs) }]);
        }
        i += 1;
    }
    proof {
        assert(arithmetic().subrange(0, arithmetic().len() as int) =~= arithmetic());
    }
    store
}

pub open spec fn improper_msg(b: Builtin) -> Seq<char> {
    "improper arguments for '"@ + builtin_name(b) + "'"@
}

pub open spec fn overflow_msg() -> Seq<char> {
    "integer overflow"@
}

pub open spec fn division_by_zero_msg() -> Seq<char> {
    "division by zero"@
}

/// Integer division that rounds toward zero.
pub open spec fn trunc_div(x: int, y: int) -> int {
    if x >= 0 {
        if y > 0 {
            x / y
        } else {
            -(x / (-y))
        }
    } else {
        if y > 0 {
            -((-x) / y)
        } else {
            (-x) / (-y)
        }
    }
}

pub open spec fn in_i32(v: int) -> bool {
    i32::MIN <= v <= i32::MAX
}

/// An integer result, or an overflow error when it does not fit in an `i32`.
pub open spec fn checked_int(v: int) -> Result<AtomV, Seq<char>> {
    if in_i32(v) {
        Ok(AtomV::Int(v as i32))
    } else {
        Err(overflow_msg())
    }
}

/// The builtins that take two integers.
pub open spec fn is_int_op(b: Builtin) -> bool {
    ||| b == Builtin::Add
    ||| b == Builtin::Sub
    ||| b == Builtin::Mul
    ||| b == Builtin::Div
    ||| b == Builtin::Less
    ||| b == Builtin::LessEqual
    ||| b == Builtin::Greater
    ||| b == Builtin::GreaterEqual
}

/// What an integer builtin gives on `x` and `y`.
pub open spec fn arith_spec(b: Builtin, x: int, y: int) -> Result<AtomV, Seq<char>> {
    match b {
        Builtin::Add => checked_int(x + y),
        Builtin::Sub => checked_int(x - y),
        Builtin::Mul => checked_int(x * y),
        Builtin::Div => if y == 0 {
            Err(division_by_zero_msg())
        } else {
            checked_int(trunc_div(x, y))
        },
        Builtin::Less => Ok(AtomV::Bool(x < y)),
        Builtin::LessEqual => Ok(AtomV::Bool(x <= y)),
        Builtin::Greater => Ok(AtomV::Bool(x > y)),
        _ => Ok(AtomV::Bool(x >= y)),
    }
}

/// The printed forms of values (not readably), one after another.
pub open spec fn print_concat(xs: Seq<AtomV>) -> Seq<char>
    decreases xs.len(),
{
    if xs.len() == 0 {
        Seq::empty()
    } else {
        print_concat(xs.subrange(0, xs.len() - 1)) + print_spec(xs[xs.len() - 1], false)
    }
}

/// The builtins that neither print, read files nor evaluate.
pub open spec fn is_pure(b: Builtin) -> bool {
    b != Builtin::Prn && b != Builtin::Println && b != Builtin::Slurp && b != Builtin::Eval
}

/// What a pure builtin gives on the arguments `args`.
pub open spec fn pure_builtin_spec(b: Builtin, args: Seq<AtomV>) -> Result<AtomV, Seq<char>> {
    if is_int_op(b) {
        if args.len() == 2 && args[0] is Int && args[1] is Int {
            arith_spec(b, args[0]->Int_0 as int, args[1]->Int_0 as int)
        } else {
            Err(improper_msg(b))
        }
    } else {
        match b {
            Builtin::List => Ok(AtomV::List(args)),
            Builtin::IsList => if args.len() == 0 {
                Err("list? needs an argument"@)
            } else {
                Ok(AtomV::Bool(args[0] is List))
            },
            Builtin::IsEmpty => if args.len() == 0 {
                Err("empty? needs a list"@)
            } else {
                match args[0] {
                    AtomV::List(xs) => Ok(AtomV::Bool(xs.len() == 0)),
                    AtomV::Vector(xs) => Ok(AtomV::Bool(xs.len() == 0)),
                    _ => Err("empty? needs a list"@),
                }
            },
            Builtin::Count => if args.len() == 0 {
                Err("count needs an argument"@)
            } else {
                match args[0] {
                    AtomV::List(xs) => checked_count(xs.len()),
                    AtomV::Vector(xs) => checked_count(xs.len()),
                    _ => Ok(AtomV::Int(0)),
                }
            },
            Builtin::Equal => if args.len() < 2 {
                Err("= needs two atoms"@)
            } else {
                Ok(AtomV::Bool(args[0] == args[1]))
            },
            Builtin::PrStr => Ok(AtomV::Str(print_joined(args, true))),
            Builtin::Str => Ok(AtomV::Str(print_concat(args))),
            _ => if args.len() > 0 && args[0] is Str {
                match read_str_spec(args[0]->Str_0) {
                    Ok(a) => Ok(a),
                    Err(e) => Ok(AtomV::Str(error_message(e))),
                }
            } else {
                Err("read-string needs a string"@)
            },
        }
    }
}

/// The length of a list as an integer value.
pub open spec fn checked_count(n: nat) -> Result<AtomV, Seq<char>> {
    if n <= i32::MAX {
        Ok(AtomV::Int(n as i32))
    } else {
        Err("list too long to count"@)
    }
}

/// The model of a result whose error is a text.
pub open spec fn text_result_view(r: Result<Atom, String>) -> Result<AtomV, Seq<char>> {
    match r {
        Ok(a) => Ok(a@),
        Err(m) => Err(m@),
    }
}

fn improper(b: Builtin) -> (r: String)
    ensures
        r@ == improper_msg(b),
{
    let mut s = "improper arguments for '".to_owned();
    let name = builtin_name_string(b);
    crate::text::push_text(&mut s, &name);
    let tail = "'".to_owned();
    crate::text::push_text(&mut s, &tail);
    s
}

fn checked_result(v: Option<i32>, Ghost(exact): Ghost<int>) -> (r: Result<Atom, String>)
    requires
        v == (if in_i32(exact) {
            Some(exact as i32)
        } else {
            None::<i32>
        }),
    ensures
        text_result_view(r) == checked_int(exact),
{
    match v {
        Some(n) => Ok(Atom::Int(n)),
        None => Err("integer overflow".to_owned()),
    }
}

/// Applies an integer builtin to `x` and `y`.
fn arith(b: Builtin, x: i32, y: i32) -> (r: Result<Atom, String>)
    requires
        is_int_op(b),
    ensures
        text_result_view(r) == arith_spec(b, x as int, y as int),
{
    match b {
        Builtin::Add => checked_result(x.checked_add(y), Ghost(x + y)),
        Builtin::Sub => checked_result(x.checked_sub(y), Ghost(x - y)),
        Builtin::Mul => checked_result(x.checked_mul(y), Ghost(x * y)),
        Builtin::Div => {
            if y == 0 {
                Err("division by zero".to_owned())
            } else {
                let q = x.checked_div(y);
                proof {
                    let a = x as int;
                    let d = y as int;
                    if a < 0 && d > 0 {
                        assert(((a * -1) / d) * -1 == -((-a) / d));
                    } else if a > 0 && d < 0 {
                        assert((a / (d * -1)) * -1 == -(a / (-d)));
                    } else if a < 0 && d < 0 {
                        assert((a * -1) / (d * -1) == (-a) / (-d));
                    }
                }
                checked_result(q, Ghost(trunc_div(x as int, y as int)))
            }
        },
        Builtin::Less => Ok(Atom::Bool(x < y)),
        Builtin::LessEqual => Ok(Atom::Bool(x <= y)),
        Builtin::Greater => Ok(Atom::Bool(x > y)),
        _ => Ok(Atom::Bool(x >= y)),
    }
}

fn print_concat_into(out: &mut String, xs: &Vec<Atom>)
    ensures
        final(out)@ == old(out)@ + print_concat(atoms_view(xs@)),
{
    let ghost v = atoms_view(xs@);
    proof {
        lemma_atoms_view(xs@);
    }
    let mut i: usize = 0;
    while i < xs.len()
        invariant
            v == atoms_view(xs@),
            v.len() == xs@.len(),
            forall|j: int| 0 <= j < xs@.len() ==> #[trigger] v[j] == xs@[j]@,
            i <= xs.len(),
            out@ == old(out)@ + print_concat(v.subrange(0, i as int)),
        decreases xs.len() - i,
    {
        print_into(out, &xs[i], false);
        proof {
            let t = v.subrange(0, i + 1);
            assert(t.subrange(0, i as int) =~= v.subrange(0, i as int));
            assert(out@ =~= old(out)@ + print_concat(t));
        }
        i += 1;
    }
    proof {
        assert(v.subrange(0, v.len() as int) =~= v);
    }
}

/// Applies a builtin that neither prints, reads files nor evaluates.
pub fn apply_pure(b: Builtin, args: &Vec<Atom>) -> (r: Result<Atom, String>)
    requires
        is_pure(b),
    ensures
        text_result_view(r) == pure_builtin_spec(b, atoms_view(args@)),
{
    let ghost xs = atoms_view(args@);
    proof {
        lemma_atoms_view(args@);
    }
    let n = args.len();
    match b {
        Builtin::Add | Builtin::Sub | Builtin::Mul | Builtin::Div | Builtin::Less
        | Builtin::LessEqual | Builtin::Greater | Builtin::GreaterEqual => {
            if n == 2 {
                match (&args[0], &args[1]) {
                    (Atom::Int(x), Atom::Int(y)) => {
                        return arith(b, *x, *y);
                    },
                    _ => {},
                }
            }
            Err(improper(b))
        },
        Builtin::List => Ok(Atom::List(crate::types::duplicate_atoms(args))),
        Builtin::IsList => {
            if n == 0 {
                Err("list? needs an argument".to_owned())
            } else {
                match &args[0] {
                    Atom::List(_) => Ok(Atom::Bool(true)),
                    _ => Ok(Atom::Bool(false)),
                }
            }
        },
        Builtin::IsEmpty => {
            if n == 0 {
                Err("empty? needs a list".to_owned())
            } else {
                match &args[0] {
                    Atom::List(v) => {
                        proof {
                            lemma_atoms_view(v@);
                        }
                        Ok(Atom::Bool(v.len() == 0))
                    },
                    Atom::Vector(v) => {
                        proof {
                            lemma_atoms_view(v@);
                        }
                        Ok(Atom::Bool(v.len() == 0))
                    },
                    _ => Err("empty? needs a list".to_owned()),
                }
            }
        },
        Builtin::Count => {
            if n == 0 {
                Err("count needs an argument".to_owned())
            } else {
                let len: Option<usize> = match &args[0] {
                    Atom::List(v) => {
                        proof {
                            lemma_atoms_view(v@);
                        }
                        Some(v.len())
                    },
                    Atom::Vector(v) => {
                        proof {
                            lemma_atoms_view(v@);
                        }
                        Some(v.len())
                    },
                    _ => None,
                };
                match len {
                    None => Ok(Atom::Int(0)),
                    Some(k) => {
                        if k <= 2147483647 {
                            Ok(Atom::Int(k as i32))
                        } else {
                            Err("list too long to count".to_owned())
                        }
                    },
                }
            }
        },
        Builtin::Equal => {
            if n < 2 {
                Err("= needs two atoms".to_owned())
            } else {
                Ok(Atom::Bool(crate::order::atoms_equal(&args[0], &args[1])))
            }
        },
        Builtin::PrStr => {
            let mut out = String::new();
            print_all_into(&mut out, args, true);
            proof {
                assert(out@ =~= print_joined(xs, true));
            }
            Ok(Atom::Str(out))
        },
        Builtin::Str => {
            let mut out = String::new();
            print_concat_into(&mut out, args);
            proof {
                assert(out@ =~= print_concat(xs));
            }
            Ok(Atom::Str(out))
        },
        _ => {
            if n > 0 {
                match &args[0] {
                    Atom::Str(t) => {
                        return match read_str(t.as_str()) {
                            Ok(a) => Ok(a),
                            Err(e) => Ok(Atom::Str(e.message())),
                        };
                    },
                    _ => {},
                }
            }
            Err("read-string needs a string".to_owned())
        },
    }
}

} // verus!
