//! Laws of the library: properties that relate several operations, proved
//! over the models that the operations' contracts are stated in.

use vstd::prelude::*;
use crate::types::{AtomV, Builtin, EnvRef};
use crate::env::{EnvV, FrameV, frame_lookup, frame_set, env_get, store_set, bind_all, binds_fit, ampersand};
use crate::core_lib::{builtin_name, library, library_frame, arithmetic, standard_frames, arithmetic_frames};
use crate::order::{atom_order, dict_insert, lemma_atom_order_zero, lemma_atom_order_flip, lemma_atom_order_trans};
use crate::semantics::{Stage, StateV, StepV, FileRead, not_found_msg, eval_spec, trampoline_spec, step_spec, eval_entries_spec, def_spec, debug_spec, state_set, special_of, Special};
use crate::reader::{ReadErrorV, read_str_spec, tokenize_spec, tokens_from, literal_from, read_form_spec, read_seq_spec, read_dict_spec, quoted, token_atom, prepend_tokens, is_special, is_plain, plain_end, line_end, is_digit, all_digits, digits_value, integer_value, parse_i32_spec};
use crate::printer::{print_spec, print_joined, escape_text, escape_char};
use crate::text::{is_white, int_text, nat_digits, digit_char};

verus! {

/// Looking a name up in a frame after binding `k` to `v` there gives `v` for
/// `k`, and for every other name what it gave before.
pub proof fn law_frame_lookup_after_set(d: FrameV, k: Seq<char>, v: AtomV, k2: Seq<char>)
    ensures
        frame_lookup(frame_set(d, k, v), k2) == (if k2 == k {
            Some(v)
        } else {
            frame_lookup(d, k2)
        }),
    decreases d.len(),
{
    let fs = frame_set(d, k, v);
    if d.len() == 0 {
        assert(fs.skip(1) =~= FrameV::empty());
        assert(frame_lookup(fs.skip(1), k2) == None::<AtomV>);
    } else if d[0].0 == k {
        assert(fs.skip(1) =~= d.skip(1));
        assert(fs[0] == (k, v));
    } else {
        law_frame_lookup_after_set(d.skip(1), k, v, k2);
        assert(fs.skip(1) =~= frame_set(d.skip(1), k, v));
        assert(fs[0] == d[0]);
    }
}

/// Two stores that agree on the frames up to `e` give the same lookups from `e`.
proof fn lemma_env_get_same_below(fs: Seq<EnvV>, gs: Seq<EnvV>, e: int, k: Seq<char>)
    requires
        0 <= e < fs.len(),
        e < gs.len(),
        forall|i: int| 0 <= i <= e ==> fs[i] == gs[i],
    ensures
        env_get(fs, e, k) == env_get(gs, e, k),
    decreases e,
{
    match fs[e].outer {
        Some(o) => if o < e {
            lemma_env_get_same_below(fs, gs, o as int, k);
        },
        None => {},
    }
}

/// After binding `k` to `v` in frame `e`, looking `k` up from `e` gives `v`,
/// and every other name seen from `e` keeps its value.
pub proof fn law_get_after_set(fs: Seq<EnvV>, e: int, k: Seq<char>, v: AtomV, k2: Seq<char>)
    requires
        0 <= e < fs.len(),
    ensures
        env_get(store_set(fs, e, k, v), e, k2) == (if k2 == k {
            Some(v)
        } else {
            env_get(fs, e, k2)
        }),
{
    let gs = store_set(fs, e, k, v);
    law_frame_lookup_after_set(fs[e].data, k, v, k2);
    if k2 != k {
        match fs[e].outer {
            Some(o) => if o < e {
                lemma_env_get_same_below(fs, gs, o as int, k2);
            },
            None => {},
        }
    }
}

/// Binding a name in frame `e` changes no lookup from a frame made before `e`.
pub proof fn law_set_keeps_older_frames(
    fs: Seq<EnvV>,
    e: int,
    k: Seq<char>,
    v: AtomV,
    i: int,
    k2: Seq<char>,
)
    requires
        0 <= i < e < fs.len(),
    ensures
        env_get(store_set(fs, e, k, v), i, k2) == env_get(fs, i, k2),
{
    lemma_env_get_same_below(fs, store_set(fs, e, k, v), i, k2);
}

/// A new empty frame enclosed by `o` sees what `o` sees, and adding it
/// changes no lookup from the frames already there.
pub proof fn law_new_frame(fs: Seq<EnvV>, o: EnvRef, k: Seq<char>, i: int)
    requires
        o < fs.len(),
        0 <= i < fs.len(),
    ensures
        env_get(fs.push(EnvV { outer: Some(o), data: FrameV::empty() }), fs.len() as int, k)
            == env_get(fs, o as int, k),
        env_get(fs.push(EnvV { outer: Some(o), data: FrameV::empty() }), i, k) == env_get(fs, i, k),
{
    let gs = fs.push(EnvV { outer: Some(o), data: FrameV::empty() });
    lemma_env_get_same_below(fs, gs, o as int, k);
    lemma_env_get_same_below(fs, gs, i, k);
}

/// No two names of `ps` are the same.
pub open spec fn distinct_names(ps: Seq<Seq<char>>) -> bool {
    forall|a: int, b: int| 0 <= a < b < ps.len() ==> ps[a] != ps[b]
}

/// Binding from position `i` on leaves alone a name that occurs at no
/// position from `i` on.
proof fn lemma_bind_all_keeps(d: FrameV, ps: Seq<Seq<char>>, xs: Seq<AtomV>, i: int, key: Seq<char>)
    requires
        0 <= i,
        forall|j: int| i <= j < ps.len() ==> ps[j] != key,
    ensures
        frame_lookup(bind_all(d, ps, xs, i), key) == frame_lookup(d, key),
    decreases ps.len() - i,
{
    if i < ps.len() {
        if ps[i] == ampersand() {
            if i + 1 < ps.len() && i <= xs.len() {
                law_frame_lookup_after_set(d, ps[i + 1], AtomV::List(xs.skip(i)), key);
            }
        } else if i < xs.len() {
            law_frame_lookup_after_set(d, ps[i], xs[i], key);
            lemma_bind_all_keeps(frame_set(d, ps[i], xs[i]), ps, xs, i + 1, key);
        }
    }
}

proof fn lemma_bind_all_fixed(d: FrameV, ps: Seq<Seq<char>>, xs: Seq<AtomV>, i: int, j: int)
    requires
        0 <= i <= j < ps.len(),
        distinct_names(ps),
        forall|l: int| i <= l <= j ==> ps[l] != ampersand(),
        binds_fit(ps, xs.len() as int, i),
    ensures
        j < xs.len(),
        frame_lookup(bind_all(d, ps, xs, i), ps[j]) == Some(xs[j]),
    decreases ps.len() - i,
{
    if i == j {
        law_frame_lookup_after_set(d, ps[i], xs[i], ps[j]);
        lemma_bind_all_keeps(frame_set(d, ps[i], xs[i]), ps, xs, i + 1, ps[j]);
    } else {
        lemma_bind_all_fixed(frame_set(d, ps[i], xs[i]), ps, xs, i + 1, j);
    }
}

proof fn lemma_bind_all_rest(d: FrameV, ps: Seq<Seq<char>>, xs: Seq<AtomV>, i: int, m: int)
    requires
        0 <= i <= m,
        m + 1 < ps.len(),
        ps[m] == ampersand(),
        distinct_names(ps),
        forall|l: int| i <= l < m ==> ps[l] != ampersand(),
        binds_fit(ps, xs.len() as int, i),
    ensures
        m <= xs.len(),
        frame_lookup(bind_all(d, ps, xs, i), ps[m + 1]) == Some(AtomV::List(xs.skip(m))),
    decreases m - i,
{
    if i == m {
        law_frame_lookup_after_set(d, ps[m + 1], AtomV::List(xs.skip(m)), ps[m + 1]);
    } else {
        lemma_bind_all_rest(frame_set(d, ps[i], xs[i]), ps, xs, i + 1, m);
    }
}

/// A call whose arguments fit its distinct parameters binds each parameter
/// before `&` to the argument at its position.
pub proof fn law_call_binds_parameter(ps: Seq<Seq<char>>, xs: Seq<AtomV>, j: int)
    requires
        binds_fit(ps, xs.len() as int, 0),
        distinct_names(ps),
        0 <= j < ps.len(),
        forall|l: int| 0 <= l <= j ==> ps[l] != ampersand(),
    ensures
        j < xs.len(),
        frame_lookup(bind_all(FrameV::empty(), ps, xs, 0), ps[j]) == Some(xs[j]),
{
    lemma_bind_all_fixed(FrameV::empty(), ps, xs, 0, j);
}

/// A call whose arguments fit its distinct parameters binds the name after
/// `&` to the list of the arguments from the position of `&` on.
pub proof fn law_call_binds_rest(ps: Seq<Seq<char>>, xs: Seq<AtomV>, m: int)
    requires
        binds_fit(ps, xs.len() as int, 0),
        distinct_names(ps),
        0 <= m,
        m + 1 < ps.len(),
        ps[m] == ampersand(),
        forall|l: int| 0 <= l < m ==> ps[l] != ampersand(),
    ensures
        m <= xs.len(),
        frame_lookup(bind_all(FrameV::empty(), ps, xs, 0), ps[m + 1]) == Some(
            AtomV::List(xs.skip(m)),
        ),
{
    lemma_bind_all_rest(FrameV::empty(), ps, xs, 0, m);
}

/// The builtin whose name is `s`, if any.
spec fn builtin_named(s: Seq<char>) -> Option<Builtin> {
    if s == "+"@ {
        Some(Builtin::Add)
    } else if s == "-"@ {
        Some(Builtin::Sub)
    } else if s == "*"@ {
        Some(Builtin::Mul)
    } else if s == "/"@ {
        Some(Builtin::Div)
    } else if s == "list"@ {
        Some(Builtin::List)
    } else if s == "list?"@ {
        Some(Builtin::IsList)
    } else if s == "empty?"@ {
        Some(Builtin::IsEmpty)
    } else if s == "count"@ {
        Some(Builtin::Count)
    } else if s == "="@ {
        Some(Builtin::Equal)
    } else if s == "<"@ {
        Some(Builtin::Less)
    } else if s == "<="@ {
        Some(Builtin::LessEqual)
    } else if s == ">"@ {
        Some(Builtin::Greater)
    } else if s == ">="@ {
        Some(Builtin::GreaterEqual)
    } else if s == "pr-str"@ {
        Some(Builtin::PrStr)
    } else if s == "str"@ {
        Some(Builtin::Str)
    } else if s == "prn"@ {
        Some(Builtin::Prn)
    } else if s == "println"@ {
        Some(Builtin::Println)
    } else if s == "read-string"@ {
        Some(Builtin::ReadString)
    } else if s == "slurp"@ {
        Some(Builtin::Slurp)
    } else if s == "eval"@ {
        Some(Builtin::Eval)
    } else {
        None
    }
}

proof fn lemma_builtin_named(b: Builtin)
    ensures
        builtin_named(builtin_name(b)) == Some(b),
{
    reveal_strlit("+");
    reveal_strlit("-");
    reveal_strlit("*");
    reveal_strlit("/");
    reveal_strlit("list");
    reveal_strlit("list?");
    reveal_strlit("empty?");
    reveal_strlit("count");
    reveal_strlit("=");
    reveal_strlit("<");
    reveal_strlit("<=");
    reveal_strlit(">");
    reveal_strlit(">=");
    reveal_strlit("pr-str");
    reveal_strlit("str");
    reveal_strlit("prn");
    reveal_strlit("println");
    reveal_strlit("read-string");
    reveal_strlit("slurp");
    reveal_strlit("eval");
    assert("+"@.len() == 1);
    assert("-"@.len() == 1);
    assert("*"@.len() == 1);
    assert("/"@.len() == 1);
    assert("list"@.len() == 4);
    assert("list?"@.len() == 5);
    assert("empty?"@.len() == 6);
    assert("count"@.len() == 5);
    assert("="@.len() == 1);
    assert("<"@.len() == 1);
    assert("<="@.len() == 2);
    assert(">"@.len() == 1);
    assert(">="@.len() == 2);
    assert("pr-str"@.len() == 6);
    assert("str"@.len() == 3);
    assert("prn"@.len() == 3);
    assert("println"@.len() == 7);
    assert("read-string"@.len() == 11);
    assert("slurp"@.len() == 5);
    assert("eval"@.len() == 4);
    assert("+"@[0] == '+');
    assert("-"@[0] == '-');
    assert("*"@[0] == '*');
    assert("/"@[0] == '/');
    assert("="@[0] == '=');
    assert("<"@[0] == '<');
    assert(">"@[0] == '>');
    assert("<="@[0] == '<');
    assert(">="@[0] == '>');
    assert("str"@[0] == 's');
    assert("prn"@[0] == 'p');
    assert("list"@[0] == 'l');
    assert("eval"@[0] == 'e');
    assert("list?"@[0] == 'l');
    assert("count"@[0] == 'c');
    assert("slurp"@[0] == 's');
    assert("empty?"@[0] == 'e');
    assert("pr-str"@[0] == 'p');
    match b {
        Builtin::Add => {},
        Builtin::Sub => {},
        Builtin::Mul => {},
        Builtin::Div => {},
        Builtin::List => {},
        Builtin::IsList => {},
        Builtin::IsEmpty => {},
        Builtin::Count => {},
        Builtin::Equal => {},
        Builtin::Less => {},
        Builtin::LessEqual => {},
        Builtin::Greater => {},
        Builtin::GreaterEqual => {},
        Builtin::PrStr => {},
        Builtin::Str => {},
        Builtin::Prn => {},
        Builtin::Println => {},
        Builtin::ReadString => {},
        Builtin::Slurp => {},
        Builtin::Eval => {},
    }
}

/// Different builtins have different names.
pub proof fn law_builtin_names_differ(a: Builtin, b: Builtin)
    requires
        a != b,
    ensures
        builtin_name(a) != builtin_name(b),
{
    lemma_builtin_named(a);
    lemma_builtin_named(b);
}

proof fn lemma_library_frame_lookup(bs: Seq<Builtin>, b: Builtin)
    ensures
        frame_lookup(library_frame(bs), builtin_name(b)) == (if bs.contains(b) {
            Some(AtomV::Function(b))
        } else {
            None::<AtomV>
        }),
    decreases bs.len(),
{
    if bs.len() > 0 {
        let init = bs.subrange(0, bs.len() - 1);
        let last = bs[bs.len() - 1];
        lemma_library_frame_lookup(init, b);
        law_frame_lookup_after_set(library_frame(init), builtin_name(last), AtomV::Function(last), builtin_name(b));
        if last != b {
            law_builtin_names_differ(last, b);
            if bs.contains(b) {
                let i = choose|i: int| 0 <= i < bs.len() && bs[i] == b;
                assert(init[i] == b);
            }
        } else {
            assert(bs[bs.len() - 1] == b);
        }
        if init.contains(b) {
            let i = choose|i: int| 0 <= i < init.len() && init[i] == b;
            assert(bs[i] == b);
        }
    }
}

/// The standard environment binds the name of each builtin of the library
/// to that builtin, and no other builtin's name.
pub proof fn law_standard_env_binds_library(b: Builtin)
    ensures
        env_get(standard_frames(), 0, builtin_name(b)) == (if library().contains(b) {
            Some(AtomV::Function(b))
        } else {
            None::<AtomV>
        }),
{
    lemma_library_frame_lookup(library(), b);
}

/// The arithmetic environment binds `+`, `-`, `*` and `/` to their
/// builtins, and no other builtin's name.
pub proof fn law_arithmetic_env_binds(b: Builtin)
    ensures
        env_get(arithmetic_frames(), 0, builtin_name(b)) == (if arithmetic().contains(b) {
            Some(AtomV::Function(b))
        } else {
            None::<AtomV>
        }),
{
    lemma_library_frame_lookup(arithmetic(), b);
}

/// A value other than a symbol, a list, a vector or a map evaluates to
/// itself in one step.
pub proof fn law_self_evaluating(
    st: Stage,
    fuel: nat,
    a: AtomV,
    env: EnvRef,
    s: StateV,
    o: Seq<FileRead>,
)
    requires
        fuel > 0,
        !(a is Symbol || a is List || a is Vector || a is Dict),
    ensures
        eval_spec(st, fuel, a, env, s, o) == (Ok::<AtomV, Seq<char>>(a), debug_spec(a, env, s)),
{
    assert(step_spec(st, (fuel - 1) as nat, a, env, s, o) == (
        Ok::<crate::semantics::StepV, Seq<char>>(crate::semantics::StepV::Done(a)),
        debug_spec(a, env, s),
    ));
}

/// The form `(def! k x)`.
pub open spec fn def_form(k: Seq<char>, x: AtomV) -> AtomV {
    AtomV::List(seq![AtomV::Symbol("def!"@), AtomV::Symbol(k), x])
}

/// Once `(def! k x)` has evaluated to a value in frame `env`, the symbol `k`
/// evaluates to that value in that frame.
pub proof fn law_lookup_after_def(
    st: Stage,
    fuel: nat,
    fuel2: nat,
    k: Seq<char>,
    x: AtomV,
    env: EnvRef,
    s: StateV,
    o: Seq<FileRead>,
)
    requires
        st != Stage::Eval,
        fuel2 > 0,
        eval_spec(st, fuel, def_form(k, x), env, s, o).0 is Ok,
    ensures
        eval_spec(st, fuel2, AtomV::Symbol(k), env, eval_spec(st, fuel, def_form(k, x), env, s, o).1, o).0
            == eval_spec(st, fuel, def_form(k, x), env, s, o).0,
{
    let f = def_form(k, x);
    let xs = seq![AtomV::Symbol("def!"@), AtomV::Symbol(k), x];
    let args = seq![AtomV::Symbol(k), x];
    assert(xs.skip(1) =~= args);
    assert(special_of(st, xs[0]) == Some(Special::Def));
    let s0 = debug_spec(f, env, s);
    assert(step_spec(st, (fuel - 1) as nat, f, env, s, o) == def_spec(st, (fuel - 1) as nat, args, env, s0, o));
    let (r1, s1) = eval_spec(st, (fuel - 1) as nat, x, env, s0, o);
    let v = r1->Ok_0;
    assert(r1 is Ok);
    assert(env < s1.envs.len());
    let s2 = state_set(s1, env, k, v);
    assert(eval_spec(st, fuel, f, env, s, o) == (Ok::<AtomV, Seq<char>>(v), s2));
    law_get_after_set(s1.envs, env as int, k, v, k);
    let s3 = debug_spec(AtomV::Symbol(k), env, s2);
    assert(s3.envs == s2.envs);
    assert(step_spec(st, (fuel2 - 1) as nat, AtomV::Symbol(k), env, s2, o).0 == Ok::<
        crate::semantics::StepV,
        Seq<char>,
    >(crate::semantics::StepV::Done(v)));
}

/// The value bound to `k` in the entries of a map: that of the first entry
/// whose key is `k`.
pub open spec fn dict_lookup(es: Seq<(AtomV, AtomV)>, k: AtomV) -> Option<AtomV>
    decreases es.len(),
{
    if es.len() == 0 {
        None
    } else if es[0].0 == k {
        Some(es[0].1)
    } else {
        dict_lookup(es.skip(1), k)
    }
}

/// After binding `k` to `v` in a map, the map gives `v` for `k` and for
/// every other key what it gave before.
pub proof fn law_dict_lookup_after_insert(es: Seq<(AtomV, AtomV)>, k: AtomV, v: AtomV, k2: AtomV)
    ensures
        dict_lookup(dict_insert(es, k, v), k2) == (if k2 == k {
            Some(v)
        } else {
            dict_lookup(es, k2)
        }),
    decreases es.len(),
{
    let ins = dict_insert(es, k, v);
    if es.len() == 0 {
        assert(ins.skip(1) =~= Seq::<(AtomV, AtomV)>::empty());
        assert(dict_lookup(ins.skip(1), k2) == None::<AtomV>);
    } else {
        lemma_atom_order_zero(k, es[0].0);
        if atom_order(k, es[0].0) < 0 {
            assert(ins.skip(1) =~= es);
            assert(ins[0] == (k, v));
        } else if atom_order(k, es[0].0) == 0 {
            assert(ins.skip(1) =~= es.skip(1));
            assert(ins[0] == (k, v));
        } else {
            law_dict_lookup_after_insert(es.skip(1), k, v, k2);
            assert(ins.skip(1) =~= dict_insert(es.skip(1), k, v));
            assert(ins[0] == es[0]);
        }
    }
}


proof fn lemma_escape_front(s: Seq<char>)
    requires
        s.len() > 0,
    ensures
        escape_text(s) == escape_char(s[0]) + escape_text(s.skip(1)),
    decreases s.len(),
{
    let init = s.subrange(0, s.len() - 1);
    if s.len() == 1 {
        assert(init =~= Seq::<char>::empty());
        assert(s.skip(1) =~= Seq::<char>::empty());
        assert(escape_text(s) =~= escape_char(s[0]) + escape_text(s.skip(1)));
    } else {
        lemma_escape_front(init);
        let t = s.skip(1);
        assert(t.subrange(0, t.len() - 1) =~= init.skip(1));
        assert(t[t.len() - 1] == s[s.len() - 1]);
        assert(escape_text(t) == escape_text(init.skip(1)) + escape_char(s[s.len() - 1]));
        assert(escape_text(s) =~= escape_char(s[0]) + escape_text(s.skip(1)));
    }
}

/// The body of a string literal written by the printer decodes to the text
/// that was printed.
proof fn lemma_literal_of_escaped(cs: Seq<char>, i: int, buf: Seq<char>, s: Seq<char>)
    requires
        0 <= i,
        i + escape_text(s).len() < cs.len(),
        cs.subrange(i, i + escape_text(s).len()) == escape_text(s),
        cs[i + escape_text(s).len()] == '"',
    ensures
        literal_from(cs, i, buf) == Ok::<(Seq<char>, int), ReadErrorV>(
            (buf + s, i + escape_text(s).len() + 1),
        ),
    decreases s.len(),
{
    if s.len() == 0 {
        assert(buf + s =~= buf);
    } else {
        lemma_escape_front(s);
        let e0 = escape_char(s[0]);
        let rest = s.skip(1);
        let er = escape_text(rest);
        let n = e0.len() as int;
        let l = escape_text(s).len() as int;
        assert(l == n + er.len());
        assert forall|j: int| 0 <= j < l implies cs[i + j] == (e0 + er)[j] by {
            assert(cs.subrange(i, i + l)[j] == cs[i + j]);
        }
        assert(cs.subrange(i + n, i + n + er.len()) =~= er) by {
            assert forall|j: int| 0 <= j < er.len() implies cs.subrange(i + n, i + n + er.len())[j]
                == er[j] by {
                assert(cs[i + n + j] == (e0 + er)[n + j]);
            }
        }
        lemma_literal_of_escaped(cs, i + n, buf.push(s[0]), rest);
        assert(buf.push(s[0]) + rest =~= buf + s);
        assert(cs[i] == (e0 + er)[0]);
        if n == 2 {
            assert(cs[i + 1] == (e0 + er)[1]);
        }
    }
}

proof fn lemma_digit_char(d: int)
    requires
        0 <= d < 10,
    ensures
        digit_char(d) as u32 == 48 + d,
        is_digit(digit_char(d)),
        is_plain(digit_char(d)),
{
}

proof fn lemma_nat_digits(m: nat)
    ensures
        nat_digits(m).len() > 0,
        all_digits(nat_digits(m)),
        digits_value(nat_digits(m)) == m,
        forall|j: int| 0 <= j < nat_digits(m).len() ==> is_plain(#[trigger] nat_digits(m)[j]),
    decreases m,
{
    if m < 10 {
        lemma_digit_char(m as int);
        let t = nat_digits(m);
        assert(t.subrange(0, 0) =~= Seq::<char>::empty());
        assert(digits_value(t.subrange(0, 0)) == 0);
        assert(t[0] == digit_char(m as int));
        assert(digits_value(t) == (t[0] as u32) as int - 48);
    } else {
        lemma_nat_digits(m / 10);
        lemma_digit_char((m % 10) as int);
        let x = nat_digits(m / 10);
        let t = nat_digits(m);
        assert(t == x.push(digit_char((m % 10) as int)));
        assert(t.subrange(0, t.len() - 1) =~= x);
        assert(t[t.len() - 1] == digit_char((m % 10) as int));
        assert(digits_value(t) == digits_value(x) * 10 + (m % 10));
        assert((m / 10) * 10 + m % 10 == m);
    }
}

/// The keys of map entries strictly increase.
pub open spec fn keys_increasing(es: Seq<(AtomV, AtomV)>) -> bool {
    forall|i: int, j: int|
        #![trigger es[i], es[j]]
        0 <= i < j < es.len() ==> atom_order(es[i].0, es[j].0) < 0
}

/// A value below `k` and below every key of `es` is below every key after
/// binding `k`.
proof fn lemma_dict_insert_lower_bound(es: Seq<(AtomV, AtomV)>, k: AtomV, v: AtomV, x: AtomV)
    requires
        atom_order(x, k) < 0,
        forall|j: int| 0 <= j < es.len() ==> atom_order(x, #[trigger] es[j].0) < 0,
    ensures
        forall|i: int|
            0 <= i < dict_insert(es, k, v).len() ==> atom_order(x, #[trigger] dict_insert(es, k, v)[i].0)
                < 0,
    decreases es.len(),
{
    let ins = dict_insert(es, k, v);
    if es.len() > 0 {
        if atom_order(k, es[0].0) < 0 {
            assert forall|i: int| 0 <= i < ins.len() implies atom_order(x, #[trigger] ins[i].0) < 0 by {
                if i > 0 {
                    assert(ins[i] == es[i - 1]);
                }
            }
        } else if atom_order(k, es[0].0) == 0 {
            assert forall|i: int| 0 <= i < ins.len() implies atom_order(x, #[trigger] ins[i].0) < 0 by {
                if i > 0 {
                    assert(ins[i] == es.skip(1)[i - 1]);
                }
            }
        } else {
            let rest = es.skip(1);
            lemma_dict_insert_lower_bound(rest, k, v, x);
            assert forall|i: int| 0 <= i < ins.len() implies atom_order(x, #[trigger] ins[i].0) < 0 by {
                if i > 0 {
                    assert(ins[i] == dict_insert(rest, k, v)[i - 1]);
                }
            }
        }
    }
}

/// Binding a key in a map whose keys strictly increase leaves its keys
/// strictly increasing.
pub proof fn law_dict_insert_keeps_keys_increasing(es: Seq<(AtomV, AtomV)>, k: AtomV, v: AtomV)
    requires
        keys_increasing(es),
    ensures
        keys_increasing(dict_insert(es, k, v)),
    decreases es.len(),
{
    let ins = dict_insert(es, k, v);
    if es.len() > 0 {
        if atom_order(k, es[0].0) < 0 {
            assert forall|i: int, j: int| 0 <= i < j < ins.len() implies atom_order(
                #[trigger] ins[i].0,
                #[trigger] ins[j].0,
            ) < 0 by {
                assert(ins[j] == es[j - 1]);
                if i == 0 {
                    if j - 1 > 0 {
                        assert(atom_order(es[0].0, es[j - 1].0) < 0);
                        lemma_atom_order_trans(k, es[0].0, es[j - 1].0);
                    }
                } else {
                    assert(ins[i] == es[i - 1]);
                }
            }
        } else if atom_order(k, es[0].0) == 0 {
            assert forall|i: int, j: int| 0 <= i < j < ins.len() implies atom_order(
                #[trigger] ins[i].0,
                #[trigger] ins[j].0,
            ) < 0 by {
                assert(ins[i].0 == es[i].0);
                assert(ins[j].0 == es[j].0);
            }
        } else {
            let rest = es.skip(1);
            assert forall|i: int, j: int| 0 <= i < j < rest.len() implies atom_order(
                #[trigger] rest[i].0,
                #[trigger] rest[j].0,
            ) < 0 by {
                assert(rest[i] == es[i + 1]);
                assert(rest[j] == es[j + 1]);
            }
            law_dict_insert_keeps_keys_increasing(rest, k, v);
            lemma_atom_order_flip(k, es[0].0);
            assert forall|j: int| 0 <= j < rest.len() implies atom_order(es[0].0, #[trigger] rest[j].0)
                < 0 by {
                assert(rest[j] == es[j + 1]);
            }
            lemma_dict_insert_lower_bound(rest, k, v, es[0].0);
            let tail = dict_insert(rest, k, v);
            assert forall|i: int, j: int| 0 <= i < j < ins.len() implies atom_order(
                #[trigger] ins[i].0,
                #[trigger] ins[j].0,
            ) < 0 by {
                assert(ins[j] == tail[j - 1]);
                if i > 0 {
                    assert(ins[i] == tail[i - 1]);
                }
            }
        }
    }
}

proof fn lemma_dict_insert_cons(e: (AtomV, AtomV), rest: Seq<(AtomV, AtomV)>, k: AtomV, v: AtomV)
    ensures
        dict_insert(seq![e] + rest, k, v) == (if atom_order(k, e.0) < 0 {
            seq![(k, v)] + (seq![e] + rest)
        } else if atom_order(k, e.0) == 0 {
            seq![(e.0, v)] + rest
        } else {
            seq![e] + dict_insert(rest, k, v)
        }),
{
    let es = seq![e] + rest;
    assert(es[0] == e);
    assert(es.skip(1) =~= rest);
}

/// Binding two different keys gives the same map in either order.
pub proof fn law_dict_insert_commutes(
    es: Seq<(AtomV, AtomV)>,
    k1: AtomV,
    v1: AtomV,
    k2: AtomV,
    v2: AtomV,
)
    requires
        k1 != k2,
    ensures
        dict_insert(dict_insert(es, k1, v1), k2, v2) == dict_insert(dict_insert(es, k2, v2), k1, v1),
    decreases es.len(),
{
    lemma_atom_order_zero(k1, k2);
    lemma_atom_order_flip(k1, k2);
    let p1 = (k1, v1);
    let p2 = (k2, v2);
    let empty = Seq::<(AtomV, AtomV)>::empty();
    if es.len() == 0 {
        assert(dict_insert(es, k1, v1) =~= seq![p1] + empty);
        assert(dict_insert(es, k2, v2) =~= seq![p2] + empty);
        lemma_dict_insert_cons(p1, empty, k2, v2);
        lemma_dict_insert_cons(p2, empty, k1, v1);
        assert(dict_insert(empty, k1, v1) =~= seq![p1]);
        assert(dict_insert(empty, k2, v2) =~= seq![p2]);
        assert(seq![p2] + (seq![p1] + empty) =~= seq![p2] + seq![p1]);
        assert(seq![p1] + (seq![p2] + empty) =~= seq![p1] + seq![p2]);
    } else {
        let e = es[0];
        let rest = es.skip(1);
        assert(es =~= seq![e] + rest);
        lemma_atom_order_zero(k1, e.0);
        lemma_atom_order_zero(k2, e.0);
        lemma_atom_order_flip(k1, e.0);
        lemma_atom_order_flip(k2, e.0);
        let c1 = atom_order(k1, e.0);
        let c2 = atom_order(k2, e.0);
        lemma_dict_insert_cons(e, rest, k1, v1);
        lemma_dict_insert_cons(e, rest, k2, v2);
        if c1 < 0 && c2 < 0 {
            lemma_dict_insert_cons(p1, es, k2, v2);
            lemma_dict_insert_cons(p2, es, k1, v1);
            if atom_order(k2, k1) > 0 {
                lemma_dict_insert_cons(e, rest, k2, v2);
            } else {
                lemma_dict_insert_cons(e, rest, k1, v1);
            }
        } else if c1 < 0 && c2 == 0 {
            lemma_dict_insert_cons(p1, es, k2, v2);
            lemma_dict_insert_cons((e.0, v2), rest, k1, v1);
        } else if c1 == 0 && c2 < 0 {
            lemma_dict_insert_cons(p2, es, k1, v1);
            lemma_dict_insert_cons((e.0, v1), rest, k2, v2);
        } else if c1 < 0 && c2 > 0 {
            lemma_atom_order_trans(k1, e.0, k2);
            lemma_dict_insert_cons(p1, es, k2, v2);
            lemma_dict_insert_cons(e, dict_insert(rest, k2, v2), k1, v1);
        } else if c1 > 0 && c2 < 0 {
            lemma_atom_order_trans(k2, e.0, k1);
            lemma_dict_insert_cons(p2, es, k1, v1);
            lemma_dict_insert_cons(e, dict_insert(rest, k1, v1), k2, v2);
        } else if c1 == 0 && c2 > 0 {
            lemma_dict_insert_cons((e.0, v1), rest, k2, v2);
            lemma_dict_insert_cons(e, dict_insert(rest, k2, v2), k1, v1);
        } else if c1 > 0 && c2 == 0 {
            lemma_dict_insert_cons((e.0, v2), rest, k1, v1);
            lemma_dict_insert_cons(e, dict_insert(rest, k1, v1), k2, v2);
        } else {
            law_dict_insert_commutes(rest, k1, v1, k2, v2);
            lemma_dict_insert_cons(e, dict_insert(rest, k1, v1), k2, v2);
            lemma_dict_insert_cons(e, dict_insert(rest, k2, v2), k1, v1);
        }
    }
}


/// No name is bound twice in the frame `d`.
pub open spec fn frame_names_distinct(d: FrameV) -> bool {
    forall|i: int, j: int| #![trigger d[i], d[j]] 0 <= i < j < d.len() ==> d[i].0 != d[j].0
}

/// A name other than `k` that a frame does not bind is not bound after
/// binding `k`.
proof fn lemma_frame_set_unbound(d: FrameV, k: Seq<char>, v: AtomV, x: Seq<char>)
    requires
        x != k,
        forall|j: int| 0 <= j < d.len() ==> (#[trigger] d[j]).0 != x,
    ensures
        forall|i: int| 0 <= i < frame_set(d, k, v).len() ==> (#[trigger] frame_set(d, k, v)[i]).0 != x,
    decreases d.len(),
{
    let fs = frame_set(d, k, v);
    if d.len() > 0 {
        if d[0].0 == k {
            assert forall|i: int| 0 <= i < fs.len() implies (#[trigger] fs[i]).0 != x by {
                if i > 0 {
                    assert(fs[i] == d[i]);
                }
            }
        } else {
            lemma_frame_set_unbound(d.skip(1), k, v, x);
            assert forall|i: int| 0 <= i < fs.len() implies (#[trigger] fs[i]).0 != x by {
                if i > 0 {
                    assert(fs[i] == frame_set(d.skip(1), k, v)[i - 1]);
                }
            }
        }
    }
}

/// Binding a name in a frame that binds no name twice leaves it binding no
/// name twice.
pub proof fn law_frame_set_keeps_names_distinct(d: FrameV, k: Seq<char>, v: AtomV)
    requires
        frame_names_distinct(d),
    ensures
        frame_names_distinct(frame_set(d, k, v)),
    decreases d.len(),
{
    let fs = frame_set(d, k, v);
    if d.len() > 0 {
        if d[0].0 == k {
            assert forall|i: int, j: int| 0 <= i < j < fs.len() implies (#[trigger] fs[i]).0 != (
            #[trigger] fs[j]).0 by {
                assert(fs[j] == d[j]);
                if i > 0 {
                    assert(fs[i] == d[i]);
                } else {
                    assert(d[0].0 != d[j].0);
                }
            }
        } else {
            let rest = d.skip(1);
            assert forall|i: int, j: int| 0 <= i < j < rest.len() implies (#[trigger] rest[i]).0 != (
            #[trigger] rest[j]).0 by {
                assert(rest[i] == d[i + 1]);
                assert(rest[j] == d[j + 1]);
            }
            law_frame_set_keeps_names_distinct(rest, k, v);
            assert forall|j: int| 0 <= j < rest.len() implies (#[trigger] rest[j]).0 != d[0].0 by {
                assert(rest[j] == d[j + 1]);
            }
            lemma_frame_set_unbound(rest, k, v, d[0].0);
            let tail = frame_set(rest, k, v);
            assert forall|i: int, j: int| 0 <= i < j < fs.len() implies (#[trigger] fs[i]).0 != (
            #[trigger] fs[j]).0 by {
                assert(fs[j] == tail[j - 1]);
                if i > 0 {
                    assert(fs[i] == tail[i - 1]);
                }
            }
        }
    }
}


/// Every map inside `a`, at any depth, has strictly increasing keys.
pub open spec fn maps_sorted(a: AtomV) -> bool
    decreases a,
{
    match a {
        AtomV::List(xs) => forall|i: int| 0 <= i < xs.len() ==> maps_sorted(#[trigger] xs[i]),
        AtomV::Vector(xs) => forall|i: int| 0 <= i < xs.len() ==> maps_sorted(#[trigger] xs[i]),
        AtomV::Dict(es) => keys_increasing(es) && forall|i: int|
            0 <= i < es.len() ==> maps_sorted(#[trigger] es[i].0) && maps_sorted(es[i].1),
        AtomV::Lambda(_, body, _) => maps_sorted(*body),
        _ => true,
    }
}

/// The keys and values of the entries `es` are values whose maps are sorted.
pub open spec fn entries_sorted(es: Seq<(AtomV, AtomV)>) -> bool {
    forall|i: int| 0 <= i < es.len() ==> maps_sorted(#[trigger] es[i].0) && maps_sorted(es[i].1)
}

proof fn lemma_dict_insert_entries_sorted(es: Seq<(AtomV, AtomV)>, k: AtomV, v: AtomV)
    requires
        entries_sorted(es),
        maps_sorted(k),
        maps_sorted(v),
    ensures
        entries_sorted(dict_insert(es, k, v)),
    decreases es.len(),
{
    let ins = dict_insert(es, k, v);
    if es.len() > 0 {
        if atom_order(k, es[0].0) < 0 {
            assert forall|i: int| 0 <= i < ins.len() implies maps_sorted(#[trigger] ins[i].0)
                && maps_sorted(ins[i].1) by {
                if i > 0 {
                    assert(ins[i] == es[i - 1]);
                }
            }
        } else if atom_order(k, es[0].0) == 0 {
            assert forall|i: int| 0 <= i < ins.len() implies maps_sorted(#[trigger] ins[i].0)
                && maps_sorted(ins[i].1) by {
                if i > 0 {
                    assert(ins[i] == es[i]);
                }
            }
        } else {
            let rest = es.skip(1);
            assert forall|i: int| 0 <= i < rest.len() implies maps_sorted(#[trigger] rest[i].0)
                && maps_sorted(rest[i].1) by {
                assert(rest[i] == es[i + 1]);
            }
            lemma_dict_insert_entries_sorted(rest, k, v);
            let tail = dict_insert(rest, k, v);
            assert forall|i: int| 0 <= i < ins.len() implies maps_sorted(#[trigger] ins[i].0)
                && maps_sorted(ins[i].1) by {
                if i > 0 {
                    assert(ins[i] == tail[i - 1]);
                }
            }
        }
    }
}

proof fn lemma_quoted_sorted(name: Seq<char>, r: Result<(AtomV, int), ReadErrorV>)
    requires
        r matches Ok((x, _)) ==> maps_sorted(x),
    ensures
        quoted(name, r) matches Ok((a, _)) ==> maps_sorted(a),
{
    if let Ok((inner, q)) = r {
        let xs = seq![AtomV::Symbol(name), inner];
        assert forall|i: int| 0 <= i < xs.len() implies maps_sorted(#[trigger] xs[i]) by {
            if i == 0 {
                assert(maps_sorted(xs[0]));
            }
        }
    }
}

proof fn lemma_read_form_sorted(ts: Seq<Seq<char>>, p: int)
    ensures
        read_form_spec(ts, p) matches Ok((a, _)) ==> maps_sorted(a),
    decreases ts.len() - p, 0int,
{
    if 0 <= p < ts.len() {
        let t = ts[p];
        if t == seq!['^'] {
            lemma_read_form_sorted(ts, p + 1);
            if let Ok((meta, p1)) = read_form_spec(ts, p + 1) {
                if p < p1 <= ts.len() {
                    lemma_read_form_sorted(ts, p1);
                    if let Ok((value, p2)) = read_form_spec(ts, p1) {
                        let xs = seq![AtomV::Symbol(crate::reader::with_meta_text()), value, meta];
                        assert forall|i: int| 0 <= i < xs.len() implies maps_sorted(#[trigger] xs[i]) by {
                            if i == 0 {
                                assert(maps_sorted(xs[0]));
                            }
                        }
                    }
                }
            }
        } else if t == seq!['\''] || t == seq!['`'] || t == seq!['~'] || t == seq!['@'] || t
            == seq!['~', '@'] {
            lemma_read_form_sorted(ts, p + 1);
            lemma_quoted_sorted(crate::reader::quote_text(), read_form_spec(ts, p + 1));
            lemma_quoted_sorted(crate::reader::quasiquote_text(), read_form_spec(ts, p + 1));
            lemma_quoted_sorted(crate::reader::unquote_text(), read_form_spec(ts, p + 1));
            lemma_quoted_sorted(crate::reader::deref_text(), read_form_spec(ts, p + 1));
            lemma_quoted_sorted(crate::reader::splice_unquote_text(), read_form_spec(ts, p + 1));
        } else if t == seq!['('] {
            lemma_read_seq_sorted(ts, p + 1, ')', Seq::empty());
        } else if t == seq!['['] {
            lemma_read_seq_sorted(ts, p + 1, ']', Seq::empty());
        } else if t == seq!['{'] {
            lemma_read_dict_sorted(ts, p + 1, Seq::empty());
        } else {
            let a = token_atom(t);
            assert(maps_sorted(a));
        }
    }
}

proof fn lemma_read_seq_sorted(ts: Seq<Seq<char>>, p: int, close: char, acc: Seq<AtomV>)
    requires
        forall|i: int| 0 <= i < acc.len() ==> maps_sorted(#[trigger] acc[i]),
    ensures
        read_seq_spec(ts, p, close, acc) matches Ok((xs, _)) ==> forall|i: int|
            0 <= i < xs.len() ==> maps_sorted(#[trigger] xs[i]),
    decreases ts.len() - p, 1int,
{
    if 0 <= p < ts.len() && ts[p] != seq![close] {
        lemma_read_form_sorted(ts, p);
        if let Ok((a, p1)) = read_form_spec(ts, p) {
            if p < p1 <= ts.len() {
                let acc2 = acc.push(a);
                assert forall|i: int| 0 <= i < acc2.len() implies maps_sorted(#[trigger] acc2[i]) by {
                    if i < acc.len() {
                        assert(acc2[i] == acc[i]);
                    }
                }
                lemma_read_seq_sorted(ts, p1, close, acc2);
            }
        }
    }
}

proof fn lemma_read_dict_sorted(ts: Seq<Seq<char>>, p: int, acc: Seq<(AtomV, AtomV)>)
    requires
        keys_increasing(acc),
        entries_sorted(acc),
    ensures
        read_dict_spec(ts, p, acc) matches Ok((es, _)) ==> keys_increasing(es) && entries_sorted(es),
    decreases ts.len() - p, 1int,
{
    if 0 <= p < ts.len() && ts[p] != seq!['}'] {
        lemma_read_form_sorted(ts, p);
        if let Ok((k, p1)) = read_form_spec(ts, p) {
            if p < p1 <= ts.len() {
                lemma_read_form_sorted(ts, p1);
                if let Ok((v, p2)) = read_form_spec(ts, p1) {
                    if p1 < p2 <= ts.len() {
                        law_dict_insert_keeps_keys_increasing(acc, k, v);
                        lemma_dict_insert_entries_sorted(acc, k, v);
                        lemma_read_dict_sorted(ts, p2, dict_insert(acc, k, v));
                    }
                }
            }
        }
    }
}

/// Every map in a value read from text, at any depth, has strictly
/// increasing keys.
pub proof fn law_read_maps_sorted(code: Seq<char>)
    ensures
        read_str_spec(code) matches Ok(a) ==> maps_sorted(a),
{
    if let Ok(ts) = tokenize_spec(code) {
        lemma_read_form_sorted(ts, 0);
    }
}

proof fn lemma_eval_entries_keys_increasing(
    st: Stage,
    fuel: nat,
    es: Seq<(AtomV, AtomV)>,
    i: int,
    env: EnvRef,
    acc: Seq<(AtomV, AtomV)>,
    s: StateV,
    o: Seq<FileRead>,
)
    requires
        keys_increasing(acc),
    ensures
        eval_entries_spec(st, fuel, es, i, env, acc, s, o).0 matches Ok(r) ==> keys_increasing(r),
    decreases es.len() - i,
{
    if 0 <= i < es.len() {
        let (r, s1) = eval_spec(st, fuel, es[i].1, env, s, o);
        if let Ok(v) = r {
            law_dict_insert_keeps_keys_increasing(acc, es[i].0, v);
            lemma_eval_entries_keys_increasing(st, fuel, es, i + 1, env, dict_insert(acc, es[i].0, v), s1, o);
        }
    }
}

/// Evaluating a map gives a map whose keys strictly increase, whatever
/// order the keys were written in.
pub proof fn law_eval_map_keys_increasing(
    st: Stage,
    fuel: nat,
    es: Seq<(AtomV, AtomV)>,
    env: EnvRef,
    s: StateV,
    o: Seq<FileRead>,
)
    ensures
        eval_spec(st, fuel, AtomV::Dict(es), env, s, o).0 matches Ok(r) ==> (r matches AtomV::Dict(
            rs,
        ) && keys_increasing(rs)),
{
    if fuel > 0 {
        let s0 = debug_spec(AtomV::Dict(es), env, s);
        let f = (fuel - 1) as nat;
        assert(keys_increasing(Seq::<(AtomV, AtomV)>::empty()));
        lemma_eval_entries_keys_increasing(st, f, es, 0, env, Seq::empty(), s0, o);
        let (r, s1) = eval_entries_spec(st, f, es, 0, env, Seq::empty(), s0, o);
        assert(step_spec(st, f, AtomV::Dict(es), env, s, o) == (match r {
            Err(m) => (Err::<StepV, Seq<char>>(m), s1),
            Ok(vs) => (Ok::<StepV, Seq<char>>(StepV::Done(AtomV::Dict(vs))), s1),
        }));
    }
}

/// Evaluation takes one step and then finishes it as the trampoline does:
/// a failed step fails, a step that gives a value ends with it, and a form
/// left to evaluate is evaluated with the steps that remain.
pub proof fn law_eval_steps(
    st: Stage,
    fuel: nat,
    e: AtomV,
    env: EnvRef,
    s: StateV,
    o: Seq<FileRead>,
)
    ensures
        eval_spec(st, fuel + 1, e, env, s, o) == trampoline_spec(
            st,
            fuel,
            step_spec(st, fuel, e, env, s, o).0,
            step_spec(st, fuel, e, env, s, o).1,
            o,
        ),
{
}

proof fn lemma_read_form_prefix(ts: Seq<Seq<char>>, us: Seq<Seq<char>>, p: int)
    ensures
        read_form_spec(ts, p) is Ok ==> read_form_spec(ts + us, p) == read_form_spec(ts, p),
    decreases ts.len() - p, 0int,
{
    let vs = ts + us;
    if 0 <= p < ts.len() {
        assert(vs[p] == ts[p]);
        let t = ts[p];
        lemma_read_form_prefix(ts, us, p + 1);
        if t == seq!['^'] {
            if let Ok((meta, p1)) = read_form_spec(ts, p + 1) {
                if p < p1 <= ts.len() {
                    lemma_read_form_prefix(ts, us, p1);
                }
            }
        } else if t == seq!['('] {
            lemma_read_seq_prefix(ts, us, p + 1, ')', Seq::empty());
        } else if t == seq!['['] {
            lemma_read_seq_prefix(ts, us, p + 1, ']', Seq::empty());
        } else if t == seq!['{'] {
            lemma_read_dict_prefix(ts, us, p + 1, Seq::empty());
        }
    }
}

proof fn lemma_read_seq_prefix(
    ts: Seq<Seq<char>>,
    us: Seq<Seq<char>>,
    p: int,
    close: char,
    acc: Seq<AtomV>,
)
    ensures
        read_seq_spec(ts, p, close, acc) is Ok ==> read_seq_spec(ts + us, p, close, acc)
            == read_seq_spec(ts, p, close, acc),
    decreases ts.len() - p, 1int,
{
    let vs = ts + us;
    if 0 <= p < ts.len() {
        assert(vs[p] == ts[p]);
        if ts[p] != seq![close] {
            lemma_read_form_prefix(ts, us, p);
            if let Ok((a, p1)) = read_form_spec(ts, p) {
                if p < p1 <= ts.len() {
                    lemma_read_seq_prefix(ts, us, p1, close, acc.push(a));
                }
            }
        }
    }
}

proof fn lemma_read_dict_prefix(
    ts: Seq<Seq<char>>,
    us: Seq<Seq<char>>,
    p: int,
    acc: Seq<(AtomV, AtomV)>,
)
    ensures
        read_dict_spec(ts, p, acc) is Ok ==> read_dict_spec(ts + us, p, acc) == read_dict_spec(ts, p, acc),
    decreases ts.len() - p, 1int,
{
    let vs = ts + us;
    if 0 <= p < ts.len() {
        assert(vs[p] == ts[p]);
        if ts[p] != seq!['}'] {
            lemma_read_form_prefix(ts, us, p);
            if let Ok((k, p1)) = read_form_spec(ts, p) {
                if p < p1 <= ts.len() {
                    lemma_read_form_prefix(ts, us, p1);
                    if let Ok((v, p2)) = read_form_spec(ts, p1) {
                        if p1 < p2 <= ts.len() {
                            lemma_read_dict_prefix(ts, us, p2, dict_insert(acc, k, v));
                        }
                    }
                }
            }
        }
    }
}

/// Reading takes the first form only: tokens after those of a form that
/// reads change nothing, however unbalanced they are.
pub proof fn law_read_first_form_only(ts: Seq<Seq<char>>, us: Seq<Seq<char>>)
    ensures
        read_form_spec(ts, 0) is Ok ==> read_form_spec(ts + us, 0) == read_form_spec(ts, 0),
{
    lemma_read_form_prefix(ts, us, 0);
}


/// Every character of `s` may continue a plain token.
pub open spec fn all_plain(s: Seq<char>) -> bool {
    forall|j: int| 0 <= j < s.len() ==> is_plain(#[trigger] s[j])
}

/// Values that printing and reading carry over unchanged: no maps and no
/// functions; keywords and symbols whose names are plain tokens, and symbols
/// that would not read as something else.
pub open spec fn readable(a: AtomV) -> bool
    decreases a,
{
    match a {
        AtomV::Nil => true,
        AtomV::Bool(_) => true,
        AtomV::Int(_) => true,
        AtomV::Str(_) => true,
        AtomV::Keyword(k) => all_plain(k),
        AtomV::Symbol(s) => s.len() > 0 && all_plain(s) && token_atom(s) == AtomV::Symbol(s),
        AtomV::List(xs) => forall|i: int| 0 <= i < xs.len() ==> readable(#[trigger] xs[i]),
        AtomV::Vector(xs) => forall|i: int| 0 <= i < xs.len() ==> readable(#[trigger] xs[i]),
        _ => false,
    }
}

/// The tokens of the readable printed form of `a`.
pub open spec fn atom_tokens(a: AtomV) -> Seq<Seq<char>>
    decreases a,
{
    match a {
        AtomV::Str(s) => seq![seq!['"'] + s + seq!['"']],
        AtomV::List(xs) => seq![seq!['(']] + joined_tokens(xs) + seq![seq![')']],
        AtomV::Vector(xs) => seq![seq!['[']] + joined_tokens(xs) + seq![seq![']']],
        _ => seq![print_spec(a, true)],
    }
}

/// The tokens of values printed one after another.
pub open spec fn joined_tokens(xs: Seq<AtomV>) -> Seq<Seq<char>>
    decreases xs,
{
    if xs.len() == 0 {
        Seq::empty()
    } else {
        joined_tokens(xs.subrange(0, xs.len() - 1)) + atom_tokens(xs[xs.len() - 1])
    }
}

proof fn lemma_prepend_twice(a: Seq<Seq<char>>, b: Seq<Seq<char>>, r: Result<Seq<Seq<char>>, ReadErrorV>)
    ensures
        prepend_tokens(a, prepend_tokens(b, r)) == prepend_tokens(a + b, r),
{
    if let Ok(x) = r {
        assert(a + (b + x) =~= (a + b) + x);
    }
}

proof fn lemma_prepend_empty(r: Result<Seq<Seq<char>>, ReadErrorV>)
    ensures
        prepend_tokens(Seq::empty(), r) == r,
{
    if let Ok(x) = r {
        assert(Seq::<Seq<char>>::empty() + x =~= x);
    }
}

/// The plain token that starts at `i` runs over `n` plain characters up to
/// a character that is not plain, or the end.
proof fn lemma_plain_run(cs: Seq<char>, i: int, n: int)
    requires
        0 <= i,
        0 <= n,
        i + n <= cs.len(),
        forall|j: int| i <= j < i + n ==> is_plain(#[trigger] cs[j]),
        i + n == cs.len() || !is_plain(cs[i + n]),
    ensures
        plain_end(cs, i) == i + n,
    decreases n,
{
    if n > 0 {
        lemma_plain_run(cs, i + 1, n - 1);
    }
}

/// The printed form of a readable value other than a string, a list or a
/// vector is one plain token that reads as the value.
proof fn lemma_scalar_text(a: AtomV)
    requires
        readable(a),
        a is Nil || a is Bool || a is Int || a is Keyword || a is Symbol,
    ensures
        print_spec(a, true).len() > 0,
        all_plain(print_spec(a, true)),
        token_atom(print_spec(a, true)) == a,
{
    let cs = print_spec(a, true);
    match a {
        AtomV::Int(n) => {
            let m: nat = if n < 0 {
                (-n) as nat
            } else {
                n as nat
            };
            lemma_nat_digits(m);
            let ds = nat_digits(m);
            if n < 0 {
                assert(cs == seq!['-'] + ds);
                assert(cs.skip(1) =~= ds);
                assert forall|j: int| 0 <= j < cs.len() implies is_plain(#[trigger] cs[j]) by {
                    if j > 0 {
                        assert(cs[j] == ds[j - 1]);
                    }
                }
                assert(integer_value(cs) == Some(n as int));
            } else {
                assert(cs == ds);
                assert(is_digit(cs[0]));
                assert(integer_value(cs) == Some(n as int));
            }
            assert(parse_i32_spec(cs) == Some(n));
            assert(cs != crate::printer::nil_text());
            assert(cs != crate::printer::true_text());
            assert(cs != crate::printer::false_text());
        },
        AtomV::Keyword(k) => {
            assert(cs == seq![':'] + k);
            assert forall|j: int| 0 <= j < cs.len() implies is_plain(#[trigger] cs[j]) by {
                if j > 0 {
                    assert(cs[j] == k[j - 1]);
                }
            }
            assert(cs != crate::printer::nil_text());
            assert(cs != crate::printer::true_text());
            assert(cs != crate::printer::false_text());
            assert(cs.skip(1) =~= k);
        },
        AtomV::Symbol(_) => {},
        _ => {
            assert forall|j: int| 0 <= j < cs.len() implies is_plain(#[trigger] cs[j]) by {}
        },
    }
}

/// A readable value's first token is neither `)` nor `]`, and it has one.
proof fn lemma_first_token(a: AtomV)
    requires
        readable(a),
    ensures
        atom_tokens(a).len() > 0,
        atom_tokens(a)[0] != seq![')'],
        atom_tokens(a)[0] != seq![']'],
{
    match a {
        AtomV::List(xs) => {
            assert(atom_tokens(a)[0] == seq!['(']);
            assert(atom_tokens(a)[0][0] == '(');
        },
        AtomV::Vector(xs) => {
            assert(atom_tokens(a)[0] == seq!['[']);
            assert(atom_tokens(a)[0][0] == '[');
        },
        AtomV::Str(s) => {
            assert(atom_tokens(a)[0][0] == '"');
        },
        _ => {
            lemma_scalar_text(a);
            let t = print_spec(a, true);
            assert(atom_tokens(a)[0] == t);
            assert(is_plain(t[0]));
        },
    }
}

proof fn lemma_joined_tokens_front(xs: Seq<AtomV>)
    requires
        xs.len() > 0,
    ensures
        joined_tokens(xs) == atom_tokens(xs[0]) + joined_tokens(xs.skip(1)),
    decreases xs.len(),
{
    let init = xs.subrange(0, xs.len() - 1);
    if xs.len() == 1 {
        assert(init =~= Seq::<AtomV>::empty());
        assert(xs.skip(1) =~= Seq::<AtomV>::empty());
        assert(joined_tokens(xs) =~= atom_tokens(xs[0]) + joined_tokens(xs.skip(1)));
    } else {
        lemma_joined_tokens_front(init);
        let t = xs.skip(1);
        assert(t.subrange(0, t.len() - 1) =~= init.skip(1));
        assert(t[t.len() - 1] == xs[xs.len() - 1]);
        assert(joined_tokens(t) == joined_tokens(init.skip(1)) + atom_tokens(xs[xs.len() - 1]));
        assert(init[0] == xs[0]);
        assert(joined_tokens(xs) =~= atom_tokens(xs[0]) + joined_tokens(xs.skip(1)));
    }
}

/// Tokenizing text that holds, from `i`, the readable printed form of `a`,
/// followed by a character that ends a plain token (or by nothing), gives
/// the tokens of `a` and then those of the rest.
proof fn lemma_tokens_of_printed(cs: Seq<char>, i: int, a: AtomV)
    requires
        readable(a),
        0 <= i,
        i + print_spec(a, true).len() <= cs.len(),
        cs.subrange(i, i + print_spec(a, true).len()) == print_spec(a, true),
        i + print_spec(a, true).len() == cs.len() || !is_plain(cs[i + print_spec(a, true).len()]),
    ensures
        tokens_from(cs, i) == prepend_tokens(
            atom_tokens(a),
            tokens_from(cs, i + print_spec(a, true).len()),
        ),
    decreases a,
{
    let pr = print_spec(a, true);
    let n = pr.len() as int;
    assert forall|j: int| 0 <= j < n implies cs[i + j] == #[trigger] pr[j] by {
        assert(cs.subrange(i, i + n)[j] == cs[i + j]);
    }
    match a {
        AtomV::Str(s) => {
            let e = escape_text(s);
            assert(pr == seq!['"'] + e + seq!['"']);
            assert(cs[i] == pr[0]);
            assert(cs[i + 1 + e.len()] == pr[1 + e.len() as int]);
            assert(cs.subrange(i + 1, i + 1 + e.len()) =~= e) by {
                assert forall|j: int| 0 <= j < e.len() implies cs.subrange(i + 1, i + 1 + e.len())[j]
                    == e[j] by {
                    assert(cs[i + 1 + j] == pr[1 + j]);
                }
            }
            lemma_literal_of_escaped(cs, i + 1, Seq::empty(), s);
            assert(Seq::<char>::empty() + s =~= s);
            assert(!is_white(cs[i]));
        },
        AtomV::List(xs) => {
            let jn = print_joined(xs, true);
            assert(pr == seq!['('] + jn + seq![')']);
            assert(cs[i] == pr[0]);
            assert(cs[i + 1 + jn.len()] == pr[1 + jn.len() as int]);
            assert(cs.subrange(i + 1, i + 1 + jn.len()) =~= jn) by {
                assert forall|j: int| 0 <= j < jn.len() implies cs.subrange(i + 1, i + 1 + jn.len())[j]
                    == jn[j] by {
                    assert(cs[i + 1 + j] == pr[1 + j]);
                }
            }
            lemma_tokens_of_joined(cs, i + 1, xs);
            assert(!is_white(cs[i]));
            assert(!is_white(cs[i + 1 + jn.len()]));
            assert(tokens_from(cs, i + 1 + jn.len()) == prepend_tokens(
                seq![seq![')']],
                tokens_from(cs, i + n),
            ));
            lemma_prepend_twice(joined_tokens(xs), seq![seq![')']], tokens_from(cs, i + n));
            lemma_prepend_twice(seq![seq!['(']], joined_tokens(xs) + seq![seq![')']], tokens_from(cs, i + n));
            assert(seq![seq!['(']] + (joined_tokens(xs) + seq![seq![')']]) =~= atom_tokens(a));
        },
        AtomV::Vector(xs) => {
            let jn = print_joined(xs, true);
            assert(pr == seq!['['] + jn + seq![']']);
            assert(cs[i] == pr[0]);
            assert(cs[i + 1 + jn.len()] == pr[1 + jn.len() as int]);
            assert(cs.subrange(i + 1, i + 1 + jn.len()) =~= jn) by {
                assert forall|j: int| 0 <= j < jn.len() implies cs.subrange(i + 1, i + 1 + jn.len())[j]
                    == jn[j] by {
                    assert(cs[i + 1 + j] == pr[1 + j]);
                }
            }
            lemma_tokens_of_joined(cs, i + 1, xs);
            assert(!is_white(cs[i]));
            assert(!is_white(cs[i + 1 + jn.len()]));
            assert(tokens_from(cs, i + 1 + jn.len()) == prepend_tokens(
                seq![seq![']']],
                tokens_from(cs, i + n),
            ));
            lemma_prepend_twice(joined_tokens(xs), seq![seq![']']], tokens_from(cs, i + n));
            lemma_prepend_twice(seq![seq!['[']], joined_tokens(xs) + seq![seq![']']], tokens_from(cs, i + n));
            assert(seq![seq!['[']] + (joined_tokens(xs) + seq![seq![']']]) =~= atom_tokens(a));
        },
        _ => {
            lemma_scalar_text(a);
            assert forall|j: int| i <= j < i + n implies is_plain(#[trigger] cs[j]) by {
                assert(cs[i + (j - i)] == pr[j - i]);
            }
            lemma_plain_run(cs, i, n);
            assert(is_plain(cs[i]));
            assert(!is_special(cs[i]));
            assert(cs.subrange(i, i + n) == pr);
        },
    }
}

proof fn lemma_tokens_of_joined(cs: Seq<char>, i: int, xs: Seq<AtomV>)
    requires
        forall|k: int| 0 <= k < xs.len() ==> readable(#[trigger] xs[k]),
        0 <= i,
        i + print_joined(xs, true).len() <= cs.len(),
        cs.subrange(i, i + print_joined(xs, true).len()) == print_joined(xs, true),
        i + print_joined(xs, true).len() == cs.len() || !is_plain(cs[i + print_joined(xs, true).len()]),
    ensures
        tokens_from(cs, i) == prepend_tokens(
            joined_tokens(xs),
            tokens_from(cs, i + print_joined(xs, true).len()),
        ),
    decreases xs,
{
    let jn = print_joined(xs, true);
    let n = jn.len() as int;
    assert forall|j: int| 0 <= j < n implies cs[i + j] == #[trigger] jn[j] by {
        assert(cs.subrange(i, i + n)[j] == cs[i + j]);
    }
    if xs.len() == 0 {
        lemma_prepend_empty(tokens_from(cs, i));
    } else if xs.len() == 1 {
        assert(xs.subrange(0, 0) =~= Seq::<AtomV>::empty());
        assert(joined_tokens(xs) =~= atom_tokens(xs[0]));
        lemma_tokens_of_printed(cs, i, xs[0]);
    } else {
        let init = xs.subrange(0, xs.len() - 1);
        let last = xs[xs.len() - 1];
        let ji = print_joined(init, true);
        let pl = print_spec(last, true);
        assert(jn == ji + seq![' '] + pl);
        assert forall|k: int| 0 <= k < init.len() implies readable(#[trigger] init[k]) by {
            assert(init[k] == xs[k]);
        }
        assert(cs[i + ji.len()] == jn[ji.len() as int]);
        assert(cs.subrange(i, i + ji.len()) =~= ji) by {
            assert forall|j: int| 0 <= j < ji.len() implies cs.subrange(i, i + ji.len())[j] == ji[j] by {
                assert(cs[i + j] == jn[j]);
            }
        }
        lemma_tokens_of_joined(cs, i, init);
        assert(is_white(cs[i + ji.len()]));
        let k = i + ji.len() + 1;
        assert(cs.subrange(k, k + pl.len()) =~= pl) by {
            assert forall|j: int| 0 <= j < pl.len() implies cs.subrange(k, k + pl.len())[j] == pl[j] by {
                assert(cs[k + j] == jn[ji.len() + 1 + j]);
            }
        }
        lemma_tokens_of_printed(cs, k, last);
        lemma_prepend_twice(joined_tokens(init), atom_tokens(last), tokens_from(cs, i + n));
    }
}

/// Reading the tokens of a readable value, from position `p`, gives the value
/// and the position after its tokens.
proof fn lemma_read_printed_tokens(ts: Seq<Seq<char>>, p: int, a: AtomV)
    requires
        readable(a),
        0 <= p,
        p + atom_tokens(a).len() <= ts.len(),
        ts.subrange(p, p + atom_tokens(a).len()) == atom_tokens(a),
    ensures
        read_form_spec(ts, p) == Ok::<(AtomV, int), ReadErrorV>((a, p + atom_tokens(a).len())),
    decreases a,
{
    let at = atom_tokens(a);
    assert(ts[p] == ts.subrange(p, p + at.len())[0]);
    match a {
        AtomV::List(xs) => {
            let jt = joined_tokens(xs);
            assert(ts.subrange(p + 1, p + 1 + jt.len()) =~= jt) by {
                assert forall|j: int| 0 <= j < jt.len() implies ts.subrange(p + 1, p + 1 + jt.len())[j]
                    == jt[j] by {
                    assert(ts[p + 1 + j] == ts.subrange(p, p + at.len())[1 + j]);
                }
            }
            assert(ts[p + 1 + jt.len()] == ts.subrange(p, p + at.len())[1 + jt.len() as int]);
            lemma_read_printed_seq(ts, p + 1, xs, ')', Seq::empty());
            assert(Seq::<AtomV>::empty() + xs =~= xs);
        },
        AtomV::Vector(xs) => {
            let jt = joined_tokens(xs);
            assert(ts.subrange(p + 1, p + 1 + jt.len()) =~= jt) by {
                assert forall|j: int| 0 <= j < jt.len() implies ts.subrange(p + 1, p + 1 + jt.len())[j]
                    == jt[j] by {
                    assert(ts[p + 1 + j] == ts.subrange(p, p + at.len())[1 + j]);
                }
            }
            assert(ts[p + 1 + jt.len()] == ts.subrange(p, p + at.len())[1 + jt.len() as int]);
            lemma_read_printed_seq(ts, p + 1, xs, ']', Seq::empty());
            assert(Seq::<AtomV>::empty() + xs =~= xs);
        },
        AtomV::Str(s) => {
            let tok = seq!['"'] + s + seq!['"'];
            assert(ts[p] == tok);
            assert(tok.len() >= 2 && tok[0] == '"' && tok[tok.len() - 1] == '"');
            assert(tok != seq!['^']);
            assert(tok != seq!['~', '@']);
            assert(tok != crate::printer::nil_text());
            assert(tok != crate::printer::true_text());
            assert(tok != crate::printer::false_text());
            assert(tok.subrange(1, tok.len() - 1) =~= s);
        },
        _ => {
            lemma_scalar_text(a);
            let t = print_spec(a, true);
            assert(ts[p] == t);
            assert(is_plain(t[0]));
            assert(t != seq!['^']);
            assert(t != seq!['\'']);
            assert(t != seq!['`']);
            assert(t != seq!['~']);
            assert(t != seq!['@']);
            assert(t != seq!['~', '@']);
            assert(t != seq!['(']);
            assert(t != seq!['[']);
            assert(t != seq!['{']);
        },
    }
}

proof fn lemma_read_printed_seq(
    ts: Seq<Seq<char>>,
    p: int,
    xs: Seq<AtomV>,
    close: char,
    acc: Seq<AtomV>,
)
    requires
        forall|k: int| 0 <= k < xs.len() ==> readable(#[trigger] xs[k]),
        close == ')' || close == ']',
        0 <= p,
        p + joined_tokens(xs).len() < ts.len(),
        ts.subrange(p, p + joined_tokens(xs).len()) == joined_tokens(xs),
        ts[p + joined_tokens(xs).len()] == seq![close],
    ensures
        read_seq_spec(ts, p, close, acc) == Ok::<(Seq<AtomV>, int), ReadErrorV>(
            (acc + xs, p + joined_tokens(xs).len() + 1),
        ),
    decreases xs,
{
    let jt = joined_tokens(xs);
    if xs.len() == 0 {
        assert(acc + xs =~= acc);
    } else {
        lemma_joined_tokens_front(xs);
        let x0 = xs[0];
        let rest = xs.skip(1);
        let a0 = atom_tokens(x0);
        let jr = joined_tokens(rest);
        lemma_first_token(x0);
        assert(ts[p] == jt[0]);
        assert(ts.subrange(p, p + a0.len()) =~= a0) by {
            assert forall|j: int| 0 <= j < a0.len() implies ts.subrange(p, p + a0.len())[j] == a0[j] by {
                assert(ts[p + j] == ts.subrange(p, p + jt.len())[j]);
            }
        }
        lemma_read_printed_tokens(ts, p, x0);
        let p1 = p + a0.len();
        assert(ts.subrange(p1, p1 + jr.len()) =~= jr) by {
            assert forall|j: int| 0 <= j < jr.len() implies ts.subrange(p1, p1 + jr.len())[j] == jr[j] by {
                assert(ts[p1 + j] == ts.subrange(p, p + jt.len())[a0.len() + j]);
            }
        }
        assert forall|k: int| 0 <= k < rest.len() implies readable(#[trigger] rest[k]) by {
            assert(rest[k] == xs[k + 1]);
        }
        lemma_read_printed_seq(ts, p1, rest, close, acc.push(x0));
        assert(acc.push(x0) + rest =~= acc + xs);
    }
}

/// A readable value, printed readably, reads back as the same value.
pub proof fn law_read_printed_readable(a: AtomV)
    requires
        readable(a),
    ensures
        read_str_spec(print_spec(a, true)) == Ok::<AtomV, ReadErrorV>(a),
{
    let cs = print_spec(a, true);
    assert(cs.subrange(0, cs.len() as int) =~= cs);
    lemma_tokens_of_printed(cs, 0, a);
    let at = atom_tokens(a);
    assert(tokens_from(cs, cs.len() as int) == Ok::<Seq<Seq<char>>, ReadErrorV>(Seq::empty()));
    assert(at + Seq::<Seq<char>>::empty() =~= at);
    assert(at.subrange(0, at.len() as int) =~= at);
    lemma_read_printed_tokens(at, 0, a);
}


/// The frame `n` steps out from frame `e` along the enclosing frames, if the
/// chain is that long.
pub open spec fn chain(fs: Seq<EnvV>, e: int, n: nat) -> Option<int>
    decreases n,
{
    if n == 0 {
        if 0 <= e < fs.len() {
            Some(e)
        } else {
            None
        }
    } else {
        match chain(fs, e, (n - 1) as nat) {
            Some(c) => match fs[c].outer {
                Some(o) => if o < c {
                    Some(o as int)
                } else {
                    None
                },
                None => None,
            },
            None => None,
        }
    }
}

/// The chain from `e`, one step further out, is the chain from its
/// enclosing frame.
proof fn lemma_chain_shift(fs: Seq<EnvV>, e: int, n: nat)
    ensures
        chain(fs, e, n + 1) == (if 0 <= e < fs.len() && fs[e].outer is Some && fs[e].outer->0 < e {
            chain(fs, fs[e].outer->0 as int, n)
        } else {
            None
        }),
    decreases n,
{
    if n > 0 {
        lemma_chain_shift(fs, e, (n - 1) as nat);
    } else if 0 <= e < fs.len() && fs[e].outer is Some && fs[e].outer->0 < e {
        let o = fs[e].outer->0 as int;
        assert(chain(fs, e, 0) == Some(e));
        assert(chain(fs, o, 0) == Some(o));
    } else {
        assert(chain(fs, e, 0) == (if 0 <= e < fs.len() {
            Some(e)
        } else {
            None::<int>
        }));
    }
}

proof fn lemma_chain_prefix(fs: Seq<EnvV>, e: int, i: nat, j: nat)
    requires
        i <= j,
        chain(fs, e, j) is Some,
    ensures
        chain(fs, e, i) is Some,
    decreases j,
{
    if i < j {
        lemma_chain_prefix(fs, e, i, (j - 1) as nat);
    }
}

/// Looking a name up from frame `e` gives its binding in the first frame
/// along the chain of enclosing frames that binds it.
pub proof fn law_env_get_first_binding(fs: Seq<EnvV>, e: int, k: Seq<char>, j: nat)
    requires
        chain(fs, e, j) is Some,
        frame_lookup(fs[chain(fs, e, j)->0].data, k) is Some,
        forall|i: nat| i < j ==> frame_lookup(fs[(#[trigger] chain(fs, e, i))->0].data, k) is None,
    ensures
        env_get(fs, e, k) == frame_lookup(fs[chain(fs, e, j)->0].data, k),
    decreases j,
{
    if j > 0 {
        lemma_chain_prefix(fs, e, 0, j);
        lemma_chain_prefix(fs, e, 1, j);
        assert(frame_lookup(fs[chain(fs, e, 0)->0].data, k) is None);
        lemma_chain_shift(fs, e, 0);
        let o = fs[e].outer->0 as int;
        lemma_chain_shift(fs, e, (j - 1) as nat);
        assert forall|i: nat| i < (j - 1) as nat implies frame_lookup(
            fs[(#[trigger] chain(fs, o, i))->0].data,
            k,
        ) is None by {
            lemma_chain_shift(fs, e, i);
            assert(frame_lookup(fs[chain(fs, e, i + 1)->0].data, k) is None);
        }
        law_env_get_first_binding(fs, o, k, (j - 1) as nat);
    }
}

/// The frame `n` steps out from `e`, if there is one, does not bind `k`.
pub open spec fn chain_unbound(fs: Seq<EnvV>, e: int, k: Seq<char>, n: nat) -> bool {
    match chain(fs, e, n) {
        Some(c) => frame_lookup(fs[c].data, k) is None,
        None => true,
    }
}

proof fn lemma_unbound_along_chain(fs: Seq<EnvV>, e: int, k: Seq<char>, n: nat)
    requires
        env_get(fs, e, k) is None,
    ensures
        chain_unbound(fs, e, k, n),
    decreases n,
{
    if n > 0 {
        lemma_chain_shift(fs, e, (n - 1) as nat);
        if 0 <= e < fs.len() && fs[e].outer is Some && fs[e].outer->0 < e {
            lemma_unbound_along_chain(fs, fs[e].outer->0 as int, k, (n - 1) as nat);
        }
    }
}

proof fn lemma_bound_nowhere(fs: Seq<EnvV>, e: int, k: Seq<char>)
    requires
        forall|n: nat| #[trigger] chain_unbound(fs, e, k, n),
    ensures
        env_get(fs, e, k) is None,
    decreases e,
{
    if 0 <= e < fs.len() {
        assert(chain_unbound(fs, e, k, 0));
        if fs[e].outer is Some && fs[e].outer->0 < e {
            let o = fs[e].outer->0 as int;
            assert forall|n: nat| #[trigger] chain_unbound(fs, o, k, n) by {
                lemma_chain_shift(fs, e, n);
                assert(chain_unbound(fs, e, k, n + 1));
            }
            lemma_bound_nowhere(fs, o, k);
        }
    }
}

/// Looking a name up from frame `e` finds nothing exactly when no frame
/// along the chain of enclosing frames binds it.
pub proof fn law_env_get_none(fs: Seq<EnvV>, e: int, k: Seq<char>)
    ensures
        env_get(fs, e, k) is None <==> forall|n: nat| #[trigger] chain_unbound(fs, e, k, n),
{
    if env_get(fs, e, k) is None {
        assert forall|n: nat| #[trigger] chain_unbound(fs, e, k, n) by {
            lemma_unbound_along_chain(fs, e, k, n);
        }
    }
    if forall|n: nat| #[trigger] chain_unbound(fs, e, k, n) {
        lemma_bound_nowhere(fs, e, k);
    }
}

/// Evaluating a symbol, with at least one step to take, gives the value it
/// is bound to as seen from `env`, or the not-found message; it binds nothing.
pub proof fn law_eval_symbol(
    st: Stage,
    fuel: nat,
    k: Seq<char>,
    env: EnvRef,
    s: StateV,
    o: Seq<FileRead>,
)
    requires
        fuel > 0,
    ensures
        eval_spec(st, fuel, AtomV::Symbol(k), env, s, o) == (
            match env_get(s.envs, env as int, k) {
                Some(v) => Ok::<AtomV, Seq<char>>(v),
                None => Err(not_found_msg(k)),
            },
            debug_spec(AtomV::Symbol(k), env, s),
        ),
        debug_spec(AtomV::Symbol(k), env, s).envs == s.envs,
        debug_spec(AtomV::Symbol(k), env, s).reads == s.reads,
{
    let s1 = debug_spec(AtomV::Symbol(k), env, s);
    assert(s1.envs == s.envs);
    assert(step_spec(st, (fuel - 1) as nat, AtomV::Symbol(k), env, s, o) == (
        match env_get(s.envs, env as int, k) {
            Some(v) => Ok::<StepV, Seq<char>>(StepV::Done(v)),
            None => Err(not_found_msg(k)),
        },
        s1,
    ));
}


/// Whether the tokenizer, scanning `cs` from `i`, ends inside a comment that
/// runs to the end of the text.
pub open spec fn open_comment(cs: Seq<char>, i: int) -> bool
    decreases cs.len() - i,
{
    if i < 0 || i >= cs.len() {
        false
    } else if is_white(cs[i]) || cs[i] == ',' {
        open_comment(cs, i + 1)
    } else if cs[i] == '~' && i + 1 < cs.len() && cs[i + 1] == '@' {
        open_comment(cs, i + 2)
    } else if is_special(cs[i]) {
        open_comment(cs, i + 1)
    } else if cs[i] == ';' {
        let j = line_end(cs, i);
        if i < j < cs.len() {
            open_comment(cs, j)
        } else {
            true
        }
    } else if cs[i] == '"' {
        match literal_from(cs, i + 1, Seq::empty()) {
            Err(_) => false,
            Ok((_, j)) => if i < j <= cs.len() {
                open_comment(cs, j)
            } else {
                false
            },
        }
    } else {
        let j = plain_end(cs, i);
        if i < j <= cs.len() {
            open_comment(cs, j)
        } else {
            false
        }
    }
}

proof fn lemma_plain_end_prefix(cs: Seq<char>, ds: Seq<char>, i: int)
    requires
        0 <= i <= cs.len(),
        ds.len() > 0,
        !is_plain(ds[0]),
    ensures
        plain_end(cs + ds, i) == plain_end(cs, i),
    decreases cs.len() - i,
{
    let x = cs + ds;
    if i < cs.len() {
        assert(x[i] == cs[i]);
        if is_plain(cs[i]) {
            lemma_plain_end_prefix(cs, ds, i + 1);
        }
    } else {
        assert(x[i] == ds[0]);
    }
}

proof fn lemma_line_end_prefix(cs: Seq<char>, ds: Seq<char>, i: int)
    requires
        0 <= i <= cs.len(),
        line_end(cs, i) < cs.len(),
    ensures
        line_end(cs + ds, i) == line_end(cs, i),
    decreases cs.len() - i,
{
    let x = cs + ds;
    if i < cs.len() {
        assert(x[i] == cs[i]);
        if cs[i] != '\n' {
            lemma_line_end_prefix(cs, ds, i + 1);
        }
    }
}

proof fn lemma_literal_prefix(cs: Seq<char>, ds: Seq<char>, i: int, buf: Seq<char>)
    requires
        0 <= i,
        literal_from(cs, i, buf) is Ok,
    ensures
        literal_from(cs + ds, i, buf) == literal_from(cs, i, buf),
    decreases cs.len() - i,
{
    let x = cs + ds;
    if i < cs.len() {
        assert(x[i] == cs[i]);
        if cs[i] == '\\' {
            if i + 1 < cs.len() {
                assert(x[i + 1] == cs[i + 1]);
                if cs[i + 1] == 'n' {
                    lemma_literal_prefix(cs, ds, i + 2, buf.push('\n'));
                } else if cs[i + 1] == '"' {
                    lemma_literal_prefix(cs, ds, i + 2, buf.push('"'));
                } else if cs[i + 1] == '\\' {
                    lemma_literal_prefix(cs, ds, i + 2, buf.push('\\'));
                }
            }
        } else if cs[i] != '"' {
            lemma_literal_prefix(cs, ds, i + 1, buf.push(cs[i]));
        }
    }
}

/// Tokenizing `cs` followed by text that starts with a space gives the
/// tokens of `cs` first; and exactly those of `cs` then those of the rest
/// when `cs` does not end inside a comment.
proof fn lemma_tokens_prefix(cs: Seq<char>, ds: Seq<char>, i: int)
    requires
        0 <= i <= cs.len(),
        ds.len() > 0,
        ds[0] == ' ',
        tokens_from(cs, i) is Ok,
    ensures
        tokens_from(cs + ds, i) matches Ok(u) ==> tokens_from(cs, i)->Ok_0.is_prefix_of(u),
        !open_comment(cs, i) ==> tokens_from(cs + ds, i) == prepend_tokens(
            tokens_from(cs, i)->Ok_0,
            tokens_from(cs + ds, cs.len() as int),
        ),
    decreases cs.len() - i,
{
    let x = cs + ds;
    let t = tokens_from(cs, i)->Ok_0;
    assert(!is_plain(' ')) by {
        assert(is_white(' '));
    }
    if i == cs.len() {
        assert(t =~= Seq::<Seq<char>>::empty());
        lemma_prepend_empty(tokens_from(x, i));
        if let Ok(u) = tokens_from(x, i) {
            assert(t.is_prefix_of(u));
        }
    } else {
        assert(x[i] == cs[i]);
        let c = cs[i];
        if is_white(c) || c == ',' {
            lemma_tokens_prefix(cs, ds, i + 1);
        } else if c == '~' && i + 1 < cs.len() && cs[i + 1] == '@' {
            assert(x[i + 1] == cs[i + 1]);
            lemma_tokens_prefix(cs, ds, i + 2);
            let tk = seq![seq!['~', '@']];
            lemma_prepend_twice(tk, tokens_from(cs, i + 2)->Ok_0, tokens_from(x, cs.len() as int));
            if let Ok(u) = tokens_from(x, i) {
                let r = tokens_from(cs, i + 2)->Ok_0;
                let v = tokens_from(x, i + 2)->Ok_0;
                assert(u == tk + v);
                assert(t == tk + r);
                assert(u.subrange(0, t.len() as int) =~= tk + v.subrange(0, r.len() as int));
            }
        } else if is_special(c) {
            if c == '~' {
                if i + 1 < cs.len() {
                    assert(x[i + 1] == cs[i + 1]);
                } else {
                    assert(x[i + 1] == ds[0]);
                }
            }
            lemma_tokens_prefix(cs, ds, i + 1);
            let tk = seq![seq![c]];
            lemma_prepend_twice(tk, tokens_from(cs, i + 1)->Ok_0, tokens_from(x, cs.len() as int));
            if let Ok(u) = tokens_from(x, i) {
                let r = tokens_from(cs, i + 1)->Ok_0;
                let v = tokens_from(x, i + 1)->Ok_0;
                assert(u == tk + v);
                assert(t == tk + r);
                assert(u.subrange(0, t.len() as int) =~= tk + v.subrange(0, r.len() as int));
            }
        } else if c == ';' {
            let j = line_end(cs, i);
            crate::reader::lemma_line_end(cs, i);
            if j < cs.len() {
                lemma_line_end_prefix(cs, ds, i);
                lemma_tokens_prefix(cs, ds, j);
            } else {
                assert(j == cs.len());
                assert(tokens_from(cs, j) == Ok::<Seq<Seq<char>>, ReadErrorV>(Seq::empty()));
                assert(tokens_from(cs, i) == tokens_from(cs, j));
                assert(t =~= Seq::<Seq<char>>::empty());
                if let Ok(u) = tokens_from(x, i) {
                    assert(t.is_prefix_of(u));
                }
            }
        } else if c == '"' {
            let lit = literal_from(cs, i + 1, Seq::empty());
            lemma_literal_prefix(cs, ds, i + 1, Seq::empty());
            let (text, j) = lit->Ok_0;
            crate::reader::lemma_literal_from(cs, i + 1, Seq::empty());
            lemma_tokens_prefix(cs, ds, j);
            let tk = seq![seq!['"'] + text + seq!['"']];
            lemma_prepend_twice(tk, tokens_from(cs, j)->Ok_0, tokens_from(x, cs.len() as int));
            if let Ok(u) = tokens_from(x, i) {
                let r = tokens_from(cs, j)->Ok_0;
                let v = tokens_from(x, j)->Ok_0;
                assert(u == tk + v);
                assert(t == tk + r);
                assert(u.subrange(0, t.len() as int) =~= tk + v.subrange(0, r.len() as int));
            }
        } else {
            let j = plain_end(cs, i);
            lemma_plain_end_prefix(cs, ds, i);
            crate::reader::lemma_plain_end(cs, i);
            assert(x.subrange(i, j) =~= cs.subrange(i, j));
            lemma_tokens_prefix(cs, ds, j);
            let tk = seq![cs.subrange(i, j)];
            lemma_prepend_twice(tk, tokens_from(cs, j)->Ok_0, tokens_from(x, cs.len() as int));
            if let Ok(u) = tokens_from(x, i) {
                let r = tokens_from(cs, j)->Ok_0;
                let v = tokens_from(x, j)->Ok_0;
                assert(u == tk + v);
                assert(t == tk + r);
                assert(u.subrange(0, t.len() as int) =~= tk + v.subrange(0, r.len() as int));
            }
        }
    }
}


proof fn lemma_plain_end_shift(x: Seq<char>, y: Seq<char>, k: int)
    requires
        0 <= k,
    ensures
        plain_end(x + y, x.len() + k) == x.len() + plain_end(y, k),
    decreases y.len() - k,
{
    let z = x + y;
    if k < y.len() {
        assert(z[x.len() + k] == y[k]);
        if is_plain(y[k]) {
            lemma_plain_end_shift(x, y, k + 1);
        }
    }
}

proof fn lemma_line_end_shift(x: Seq<char>, y: Seq<char>, k: int)
    requires
        0 <= k,
    ensures
        line_end(x + y, x.len() + k) == x.len() + line_end(y, k),
    decreases y.len() - k,
{
    let z = x + y;
    if k < y.len() {
        assert(z[x.len() + k] == y[k]);
        if y[k] != '\n' {
            lemma_line_end_shift(x, y, k + 1);
        }
    }
}

proof fn lemma_literal_shift(x: Seq<char>, y: Seq<char>, k: int, buf: Seq<char>)
    requires
        0 <= k,
    ensures
        literal_from(x + y, x.len() + k, buf) == (match literal_from(y, k, buf) {
            Ok((t, j)) => Ok::<(Seq<char>, int), ReadErrorV>((t, x.len() + j)),
            Err(e) => Err(e),
        }),
    decreases y.len() - k,
{
    let z = x + y;
    if k < y.len() {
        assert(z[x.len() + k] == y[k]);
        if y[k] == '\\' {
            if k + 1 < y.len() {
                assert(z[x.len() + k + 1] == y[k + 1]);
                if y[k + 1] == 'n' {
                    lemma_literal_shift(x, y, k + 2, buf.push('\n'));
                } else if y[k + 1] == '"' {
                    lemma_literal_shift(x, y, k + 2, buf.push('"'));
                } else if y[k + 1] == '\\' {
                    lemma_literal_shift(x, y, k + 2, buf.push('\\'));
                }
            }
        } else if y[k] != '"' {
            lemma_literal_shift(x, y, k + 1, buf.push(y[k]));
        }
    }
}

/// Tokenizing `x` followed by `y` from a position inside `y` gives the
/// tokens of `y` from there.
proof fn lemma_tokens_shift(x: Seq<char>, y: Seq<char>, k: int)
    requires
        0 <= k,
    ensures
        tokens_from(x + y, x.len() + k) == tokens_from(y, k),
    decreases y.len() - k,
{
    let z = x + y;
    let i = x.len() + k;
    if k < y.len() {
        assert(z[i] == y[k]);
        if k + 1 < y.len() {
            assert(z[i + 1] == y[k + 1]);
        }
        let c = y[k];
        if is_white(c) || c == ',' {
            lemma_tokens_shift(x, y, k + 1);
        } else if c == '~' && k + 1 < y.len() && y[k + 1] == '@' {
            lemma_tokens_shift(x, y, k + 2);
        } else if is_special(c) {
            lemma_tokens_shift(x, y, k + 1);
        } else if c == ';' {
            lemma_line_end_shift(x, y, k);
            crate::reader::lemma_line_end(y, k);
            let j = line_end(y, k);
            if k < j <= y.len() {
                lemma_tokens_shift(x, y, j);
            }
        } else if c == '"' {
            lemma_literal_shift(x, y, k + 1, Seq::empty());
            crate::reader::lemma_literal_from(y, k + 1, Seq::empty());
            if let Ok((text, j)) = literal_from(y, k + 1, Seq::empty()) {
                lemma_tokens_shift(x, y, j);
            }
        } else {
            lemma_plain_end_shift(x, y, k);
            crate::reader::lemma_plain_end(y, k);
            let j = plain_end(y, k);
            if k < j <= y.len() {
                assert(z.subrange(i, x.len() + j) =~= y.subrange(k, j));
                lemma_tokens_shift(x, y, j);
            }
        }
    }
}

/// The tokens of `s1`, a space and `s2` are those of `s1` followed by those
/// of `s2`, when `s1` does not end inside a comment.
pub proof fn law_tokens_of_joined_text(s1: Seq<char>, s2: Seq<char>)
    requires
        tokenize_spec(s1) is Ok,
        tokenize_spec(s2) is Ok,
        !open_comment(s1, 0),
    ensures
        tokenize_spec(s1 + seq![' '] + s2) == Ok::<Seq<Seq<char>>, ReadErrorV>(
            tokenize_spec(s1)->Ok_0 + tokenize_spec(s2)->Ok_0,
        ),
{
    let ds = seq![' '] + s2;
    let joined = s1 + ds;
    assert(s1 + seq![' '] + s2 =~= joined);
    lemma_tokens_prefix(s1, ds, 0);
    let x = s1 + seq![' '];
    assert(joined =~= x + s2);
    lemma_tokens_shift(x, s2, 0);
    assert(joined[s1.len() as int] == ' ');
    assert(is_white(' '));
    assert(tokens_from(joined, s1.len() as int) == tokens_from(joined, s1.len() + 1 as int));
}

/// Reading `s1`, a space and `s2` gives what reading `s1` gives, whenever
/// `s1` reads and the joined text can be split into tokens: later tokens,
/// even unbalanced ones, are never looked at.
pub proof fn law_read_first_form_of_text(s1: Seq<char>, s2: Seq<char>)
    requires
        read_str_spec(s1) is Ok,
        tokenize_spec(s1 + seq![' '] + s2) is Ok,
    ensures
        read_str_spec(s1 + seq![' '] + s2) == read_str_spec(s1),
{
    let ds = seq![' '] + s2;
    let joined = s1 + ds;
    assert(s1 + seq![' '] + s2 =~= joined);
    lemma_tokens_prefix(s1, ds, 0);
    let t = tokenize_spec(s1)->Ok_0;
    let u = tokenize_spec(joined)->Ok_0;
    assert(t.is_prefix_of(u));
    let rest = u.skip(t.len() as int);
    assert(u =~= t + rest);
    law_read_first_form_only(t, rest);
}

} // verus!
