//! Evaluation with and without tail calls in a loop: where both give a
//! value, they give the same one.

use vstd::prelude::*;
use crate::types::{AtomV, EnvRef};
use crate::semantics::{
    Stage,
    StateV,
    StepV,
    FileRead,
    eval_spec,
    step_spec,
    eval_seq_spec,
    eval_entries_spec,
    apply_spec,
    builtin_spec,
    def_spec,
    let_spec,
    let_bind_spec,
    do_spec,
    do_prefix_spec,
    if_spec,
    debug_spec,
    special_of,
    Special,
};

verus! {

/// Two states with the same frames and the same log of reads; what they
/// printed may differ.
pub open spec fn same_frames_and_reads(s: StateV, t: StateV) -> bool {
    s.envs == t.envs && s.reads == t.reads
}

/// One step without tail calls (`r1`) and one with them (`r2`) agree: they
/// are the same, or the first gives `nil` where the second leaves `nil` to
/// evaluate.
pub open spec fn steps_agree(r1: Result<StepV, Seq<char>>, r2: Result<StepV, Seq<char>>) -> bool {
    r1 == r2 || (r1 == Ok::<StepV, Seq<char>>(StepV::Done(AtomV::Nil)) && r2 matches Ok(
        StepV::Thunk(AtomV::Nil, _),
    ))
}

proof fn lemma_agree_eval(
    f: nat,
    g: nat,
    e: AtomV,
    env: EnvRef,
    s: StateV,
    t: StateV,
    o: Seq<FileRead>,
)
    requires
        same_frames_and_reads(s, t),
        eval_spec(Stage::IfFnDo, f, e, env, s, o).0 is Ok,
        eval_spec(Stage::Tco, g, e, env, t, o).0 is Ok,
    ensures
        eval_spec(Stage::IfFnDo, f, e, env, s, o).0 == eval_spec(Stage::Tco, g, e, env, t, o).0,
        same_frames_and_reads(
            eval_spec(Stage::IfFnDo, f, e, env, s, o).1,
            eval_spec(Stage::Tco, g, e, env, t, o).1,
        ),
    decreases f, 0nat, 0int,
{
    assert(f > 0);
    assert(g > 0);
    let f1 = (f - 1) as nat;
    let g1 = (g - 1) as nat;
    let (r1, s1) = step_spec(Stage::IfFnDo, f1, e, env, s, o);
    let (r2, t1) = step_spec(Stage::Tco, g1, e, env, t, o);
    assert(eval_spec(Stage::IfFnDo, f, e, env, s, o) == (match r1 {
        Err(m) => (Err(m), s1),
        Ok(StepV::Done(v)) => (Ok(v), s1),
        Ok(StepV::Thunk(e2, env2)) => eval_spec(Stage::IfFnDo, f1, e2, env2, s1, o),
    }));
    assert(eval_spec(Stage::Tco, g, e, env, t, o) == (match r2 {
        Err(m) => (Err(m), t1),
        Ok(StepV::Done(v)) => (Ok(v), t1),
        Ok(StepV::Thunk(e2, env2)) => eval_spec(Stage::Tco, g1, e2, env2, t1, o),
    }));
    assert(r1 is Ok);
    assert(r2 is Ok);
    lemma_agree_step(f1, g1, e, env, s, t, o);
    match r1 {
        Ok(StepV::Thunk(e2, env2)) => {
            assert(r2 == r1);
            lemma_agree_eval(f1, g1, e2, env2, s1, t1, o);
        },
        Ok(StepV::Done(v)) => {
            if r2 != r1 {
                let env2 = r2->Ok_0->Thunk_1;
                assert(eval_spec(Stage::Tco, g, e, env, t, o) == eval_spec(Stage::Tco, g1, AtomV::Nil, env2, t1, o));
                assert(g1 > 0);
                assert(step_spec(Stage::Tco, (g1 - 1) as nat, AtomV::Nil, env2, t1, o) == (
                    Ok::<StepV, Seq<char>>(StepV::Done(AtomV::Nil)),
                    debug_spec(AtomV::Nil, env2, t1),
                ));
            }
        },
        Err(_) => {},
    }
}

proof fn lemma_agree_step(
    f: nat,
    g: nat,
    e: AtomV,
    env: EnvRef,
    s: StateV,
    t: StateV,
    o: Seq<FileRead>,
)
    requires
        same_frames_and_reads(s, t),
        step_spec(Stage::IfFnDo, f, e, env, s, o).0 is Ok,
        step_spec(Stage::Tco, g, e, env, t, o).0 is Ok,
    ensures
        steps_agree(
            step_spec(Stage::IfFnDo, f, e, env, s, o).0,
            step_spec(Stage::Tco, g, e, env, t, o).0,
        ),
        same_frames_and_reads(
            step_spec(Stage::IfFnDo, f, e, env, s, o).1,
            step_spec(Stage::Tco, g, e, env, t, o).1,
        ),
    decreases f, 3nat, 0int,
{
    let sd = debug_spec(e, env, s);
    let td = debug_spec(e, env, t);
    assert(same_frames_and_reads(sd, td));
    match e {
        AtomV::List(xs) => {
            if xs.len() > 0 {
                let args = xs.skip(1);
                assert(special_of(Stage::IfFnDo, xs[0]) == special_of(Stage::Tco, xs[0]));
                match special_of(Stage::IfFnDo, xs[0]) {
                    Some(Special::Def) => lemma_agree_def(f, g, args, env, sd, td, o),
                    Some(Special::Let) => lemma_agree_let(f, g, args, env, sd, td, o),
                    Some(Special::Do) => lemma_agree_do(f, g, args, env, sd, td, o),
                    Some(Special::If) => lemma_agree_if(f, g, args, env, sd, td, o),
                    Some(Special::Fn) => {},
                    None => {
                        let (hr, s1) = eval_spec(Stage::IfFnDo, f, xs[0], env, sd, o);
                        let (hr2, t1) = eval_spec(Stage::Tco, g, xs[0], env, td, o);
                        assert(hr is Ok);
                        assert(hr2 is Ok);
                        lemma_agree_eval(f, g, xs[0], env, sd, td, o);
                        let (ar, s2) = eval_seq_spec(Stage::IfFnDo, f, args, 0, env, Seq::empty(), s1, o);
                        let (ar2, t2) = eval_seq_spec(Stage::Tco, g, args, 0, env, Seq::empty(), t1, o);
                        assert(ar is Ok);
                        assert(ar2 is Ok);
                        lemma_agree_seq(f, g, args, 0, env, Seq::empty(), s1, t1, o);
                        lemma_agree_apply(f, g, hr->Ok_0, ar->Ok_0, s2, t2, o);
                    },
                }
            }
        },
        AtomV::Vector(xs) => {
            let (r, s1) = eval_seq_spec(Stage::IfFnDo, f, xs, 0, env, Seq::empty(), sd, o);
            let (r2, t1) = eval_seq_spec(Stage::Tco, g, xs, 0, env, Seq::empty(), td, o);
            assert(r is Ok);
            assert(r2 is Ok);
            lemma_agree_seq(f, g, xs, 0, env, Seq::empty(), sd, td, o);
        },
        AtomV::Dict(es) => {
            let (r, s1) = eval_entries_spec(Stage::IfFnDo, f, es, 0, env, Seq::empty(), sd, o);
            let (r2, t1) = eval_entries_spec(Stage::Tco, g, es, 0, env, Seq::empty(), td, o);
            assert(r is Ok);
            assert(r2 is Ok);
            lemma_agree_entries(f, g, es, 0, env, Seq::empty(), sd, td, o);
        },
        _ => {},
    }
}

proof fn lemma_agree_seq(
    f: nat,
    g: nat,
    xs: Seq<AtomV>,
    i: int,
    env: EnvRef,
    acc: Seq<AtomV>,
    s: StateV,
    t: StateV,
    o: Seq<FileRead>,
)
    requires
        same_frames_and_reads(s, t),
        eval_seq_spec(Stage::IfFnDo, f, xs, i, env, acc, s, o).0 is Ok,
        eval_seq_spec(Stage::Tco, g, xs, i, env, acc, t, o).0 is Ok,
    ensures
        eval_seq_spec(Stage::IfFnDo, f, xs, i, env, acc, s, o).0 == eval_seq_spec(
            Stage::Tco,
            g,
            xs,
            i,
            env,
            acc,
            t,
            o,
        ).0,
        same_frames_and_reads(
            eval_seq_spec(Stage::IfFnDo, f, xs, i, env, acc, s, o).1,
            eval_seq_spec(Stage::Tco, g, xs, i, env, acc, t, o).1,
        ),
    decreases f, 1nat, xs.len() - i,
{
    if 0 <= i < xs.len() {
        let (r, s1) = eval_spec(Stage::IfFnDo, f, xs[i], env, s, o);
        let (r2, t1) = eval_spec(Stage::Tco, g, xs[i], env, t, o);
        assert(r is Ok);
        assert(r2 is Ok);
        lemma_agree_eval(f, g, xs[i], env, s, t, o);
        lemma_agree_seq(f, g, xs, i + 1, env, acc.push(r->Ok_0), s1, t1, o);
    }
}

proof fn lemma_agree_entries(
    f: nat,
    g: nat,
    es: Seq<(AtomV, AtomV)>,
    i: int,
    env: EnvRef,
    acc: Seq<(AtomV, AtomV)>,
    s: StateV,
    t: StateV,
    o: Seq<FileRead>,
)
    requires
        same_frames_and_reads(s, t),
        eval_entries_spec(Stage::IfFnDo, f, es, i, env, acc, s, o).0 is Ok,
        eval_entries_spec(Stage::Tco, g, es, i, env, acc, t, o).0 is Ok,
    ensures
        eval_entries_spec(Stage::IfFnDo, f, es, i, env, acc, s, o).0 == eval_entries_spec(
            Stage::Tco,
            g,
            es,
            i,
            env,
            acc,
            t,
            o,
        ).0,
        same_frames_and_reads(
            eval_entries_spec(Stage::IfFnDo, f, es, i, env, acc, s, o).1,
            eval_entries_spec(Stage::Tco, g, es, i, env, acc, t, o).1,
        ),
    decreases f, 1nat, es.len() - i,
{
    if 0 <= i < es.len() {
        let (r, s1) = eval_spec(Stage::IfFnDo, f, es[i].1, env, s, o);
        let (r2, t1) = eval_spec(Stage::Tco, g, es[i].1, env, t, o);
        assert(r is Ok);
        assert(r2 is Ok);
        lemma_agree_eval(f, g, es[i].1, env, s, t, o);
        lemma_agree_entries(
            f,
            g,
            es,
            i + 1,
            env,
            crate::order::dict_insert(acc, es[i].0, r->Ok_0),
            s1,
            t1,
            o,
        );
    }
}

proof fn lemma_agree_apply(
    f: nat,
    g: nat,
    h: AtomV,
    args: Seq<AtomV>,
    s: StateV,
    t: StateV,
    o: Seq<FileRead>,
)
    requires
        same_frames_and_reads(s, t),
        apply_spec(Stage::IfFnDo, f, h, args, s, o).0 is Ok,
        apply_spec(Stage::Tco, g, h, args, t, o).0 is Ok,
    ensures
        apply_spec(Stage::IfFnDo, f, h, args, s, o).0 == apply_spec(Stage::Tco, g, h, args, t, o).0,
        same_frames_and_reads(
            apply_spec(Stage::IfFnDo, f, h, args, s, o).1,
            apply_spec(Stage::Tco, g, h, args, t, o).1,
        ),
    decreases f, 2nat, 0int,
{
    if let AtomV::Function(b) = h {
        assert(builtin_spec(Stage::IfFnDo, f, b, args, s, o).0 is Ok);
        assert(builtin_spec(Stage::Tco, g, b, args, t, o).0 is Ok);
        lemma_agree_builtin(f, g, b, args, s, t, o);
    }
}

proof fn lemma_agree_builtin(
    f: nat,
    g: nat,
    b: crate::types::Builtin,
    args: Seq<AtomV>,
    s: StateV,
    t: StateV,
    o: Seq<FileRead>,
)
    requires
        same_frames_and_reads(s, t),
        builtin_spec(Stage::IfFnDo, f, b, args, s, o).0 is Ok,
        builtin_spec(Stage::Tco, g, b, args, t, o).0 is Ok,
    ensures
        builtin_spec(Stage::IfFnDo, f, b, args, s, o).0 == builtin_spec(Stage::Tco, g, b, args, t, o).0,
        same_frames_and_reads(
            builtin_spec(Stage::IfFnDo, f, b, args, s, o).1,
            builtin_spec(Stage::Tco, g, b, args, t, o).1,
        ),
    decreases f, 1nat, 0int,
{
    if b == crate::types::Builtin::Eval && args.len() > 0 {
        lemma_agree_eval(f, g, args[0], 0, s, t, o);
    }
}

proof fn lemma_agree_def(
    f: nat,
    g: nat,
    args: Seq<AtomV>,
    env: EnvRef,
    s: StateV,
    t: StateV,
    o: Seq<FileRead>,
)
    requires
        same_frames_and_reads(s, t),
        def_spec(Stage::IfFnDo, f, args, env, s, o).0 is Ok,
        def_spec(Stage::Tco, g, args, env, t, o).0 is Ok,
    ensures
        def_spec(Stage::IfFnDo, f, args, env, s, o).0 == def_spec(Stage::Tco, g, args, env, t, o).0,
        same_frames_and_reads(
            def_spec(Stage::IfFnDo, f, args, env, s, o).1,
            def_spec(Stage::Tco, g, args, env, t, o).1,
        ),
    decreases f, 1nat, 0int,
{
    if args.len() >= 2 && args[0] is Symbol {
        let (r, s1) = eval_spec(Stage::IfFnDo, f, args[1], env, s, o);
        let (r2, t1) = eval_spec(Stage::Tco, g, args[1], env, t, o);
        assert(r is Ok);
        assert(r2 is Ok);
        lemma_agree_eval(f, g, args[1], env, s, t, o);
    }
}

proof fn lemma_agree_let(
    f: nat,
    g: nat,
    args: Seq<AtomV>,
    env: EnvRef,
    s: StateV,
    t: StateV,
    o: Seq<FileRead>,
)
    requires
        same_frames_and_reads(s, t),
        let_spec(Stage::IfFnDo, f, args, env, s, o).0 is Ok,
        let_spec(Stage::Tco, g, args, env, t, o).0 is Ok,
    ensures
        let_spec(Stage::IfFnDo, f, args, env, s, o).0 == let_spec(Stage::Tco, g, args, env, t, o).0,
        same_frames_and_reads(
            let_spec(Stage::IfFnDo, f, args, env, s, o).1,
            let_spec(Stage::Tco, g, args, env, t, o).1,
        ),
    decreases f, 2nat, 0int,
{
    if args.len() >= 2 && (args[0] is List || args[0] is Vector) && env < s.envs.len() {
        let bs = match args[0] {
            AtomV::List(b) => b,
            AtomV::Vector(b) => b,
            _ => Seq::empty(),
        };
        let le = s.envs.len() as EnvRef;
        let frame = crate::env::EnvV { outer: Some(env), data: crate::env::FrameV::empty() };
        let s1 = crate::semantics::with_envs(s, s.envs.push(frame));
        let t1 = crate::semantics::with_envs(t, t.envs.push(frame));
        assert(let_bind_spec(Stage::IfFnDo, f, bs, 0, le, s1, o).0 is Ok);
        assert(let_bind_spec(Stage::Tco, g, bs, 0, le, t1, o).0 is Ok);
        lemma_agree_let_bind(f, g, bs, 0, le, s1, t1, o);
    }
}

proof fn lemma_agree_let_bind(
    f: nat,
    g: nat,
    bs: Seq<AtomV>,
    i: int,
    le: EnvRef,
    s: StateV,
    t: StateV,
    o: Seq<FileRead>,
)
    requires
        same_frames_and_reads(s, t),
        let_bind_spec(Stage::IfFnDo, f, bs, i, le, s, o).0 is Ok,
        let_bind_spec(Stage::Tco, g, bs, i, le, t, o).0 is Ok,
    ensures
        same_frames_and_reads(
            let_bind_spec(Stage::IfFnDo, f, bs, i, le, s, o).1,
            let_bind_spec(Stage::Tco, g, bs, i, le, t, o).1,
        ),
    decreases f, 1nat, bs.len() - i,
{
    if 0 <= i < bs.len() && bs[i] is Symbol && i + 1 < bs.len() {
        let (r, s1) = eval_spec(Stage::IfFnDo, f, bs[i + 1], le, s, o);
        let (r2, t1) = eval_spec(Stage::Tco, g, bs[i + 1], le, t, o);
        assert(r is Ok);
        assert(r2 is Ok);
        lemma_agree_eval(f, g, bs[i + 1], le, s, t, o);
        if le < s1.envs.len() {
            let k = bs[i]->Symbol_0;
            let v = r->Ok_0;
            lemma_agree_let_bind(
                f,
                g,
                bs,
                i + 2,
                le,
                crate::semantics::state_set(s1, le, k, v),
                crate::semantics::state_set(t1, le, k, v),
                o,
            );
        }
    }
}

proof fn lemma_agree_do(
    f: nat,
    g: nat,
    args: Seq<AtomV>,
    env: EnvRef,
    s: StateV,
    t: StateV,
    o: Seq<FileRead>,
)
    requires
        same_frames_and_reads(s, t),
        do_spec(Stage::IfFnDo, f, args, env, s, o).0 is Ok,
        do_spec(Stage::Tco, g, args, env, t, o).0 is Ok,
    ensures
        do_spec(Stage::IfFnDo, f, args, env, s, o).0 == do_spec(Stage::Tco, g, args, env, t, o).0,
        same_frames_and_reads(
            do_spec(Stage::IfFnDo, f, args, env, s, o).1,
            do_spec(Stage::Tco, g, args, env, t, o).1,
        ),
    decreases f, 2nat, 0int,
{
    if args.len() > 0 {
        assert(do_prefix_spec(Stage::IfFnDo, f, args, 0, env, s, o).0 is Ok);
        assert(do_prefix_spec(Stage::Tco, g, args, 0, env, t, o).0 is Ok);
        lemma_agree_do_prefix(f, g, args, 0, env, s, t, o);
    }
}

proof fn lemma_agree_do_prefix(
    f: nat,
    g: nat,
    args: Seq<AtomV>,
    i: int,
    env: EnvRef,
    s: StateV,
    t: StateV,
    o: Seq<FileRead>,
)
    requires
        same_frames_and_reads(s, t),
        do_prefix_spec(Stage::IfFnDo, f, args, i, env, s, o).0 is Ok,
        do_prefix_spec(Stage::Tco, g, args, i, env, t, o).0 is Ok,
    ensures
        same_frames_and_reads(
            do_prefix_spec(Stage::IfFnDo, f, args, i, env, s, o).1,
            do_prefix_spec(Stage::Tco, g, args, i, env, t, o).1,
        ),
    decreases f, 1nat, args.len() - i,
{
    if 0 <= i && i + 1 < args.len() {
        let (r, s1) = eval_spec(Stage::IfFnDo, f, args[i], env, s, o);
        let (r2, t1) = eval_spec(Stage::Tco, g, args[i], env, t, o);
        assert(r is Ok);
        assert(r2 is Ok);
        lemma_agree_eval(f, g, args[i], env, s, t, o);
        lemma_agree_do_prefix(f, g, args, i + 1, env, s1, t1, o);
    }
}

proof fn lemma_agree_if(
    f: nat,
    g: nat,
    args: Seq<AtomV>,
    env: EnvRef,
    s: StateV,
    t: StateV,
    o: Seq<FileRead>,
)
    requires
        same_frames_and_reads(s, t),
        if_spec(Stage::IfFnDo, f, args, env, s, o).0 is Ok,
        if_spec(Stage::Tco, g, args, env, t, o).0 is Ok,
    ensures
        steps_agree(if_spec(Stage::IfFnDo, f, args, env, s, o).0, if_spec(Stage::Tco, g, args, env, t, o).0),
        same_frames_and_reads(
            if_spec(Stage::IfFnDo, f, args, env, s, o).1,
            if_spec(Stage::Tco, g, args, env, t, o).1,
        ),
    decreases f, 1nat, 0int,
{
    if args.len() > 0 {
        let (r, s1) = eval_spec(Stage::IfFnDo, f, args[0], env, s, o);
        let (r2, t1) = eval_spec(Stage::Tco, g, args[0], env, t, o);
        assert(r is Ok);
        assert(r2 is Ok);
        lemma_agree_eval(f, g, args[0], env, s, t, o);
    }
}

/// Evaluation without tail calls in a loop (`IfFnDo`) and with them (`Tco`)
/// agree: from states with the same frames and reads, where both give a
/// value, it is the same value, and they leave the same frames and the same
/// log of reads. (They can differ in the steps they take, in what
/// `DEBUG-EVAL` prints, and in the message for an empty `do`, which is an
/// error in both.)
pub proof fn law_stages_agree(
    f: nat,
    g: nat,
    e: AtomV,
    env: EnvRef,
    s: StateV,
    t: StateV,
    o: Seq<FileRead>,
)
    requires
        same_frames_and_reads(s, t),
        eval_spec(Stage::IfFnDo, f, e, env, s, o).0 is Ok,
        eval_spec(Stage::Tco, g, e, env, t, o).0 is Ok,
    ensures
        eval_spec(Stage::IfFnDo, f, e, env, s, o).0 == eval_spec(Stage::Tco, g, e, env, t, o).0,
        eval_spec(Stage::IfFnDo, f, e, env, s, o).1.envs == eval_spec(Stage::Tco, g, e, env, t, o).1.envs,
        eval_spec(Stage::IfFnDo, f, e, env, s, o).1.reads == eval_spec(Stage::Tco, g, e, env, t, o).1.reads,
{
    lemma_agree_eval(f, g, e, env, s, t, o);
}

} // verus!
