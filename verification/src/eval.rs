//! The evaluator, proved to follow the semantics of [`crate::semantics`].

use vstd::prelude::*;
use crate::types::{Atom, AtomV, Builtin, EnvRef, atoms_view, entries_view, strings_view, lemma_atoms_view, lemma_entries_view};
use crate::env::{Env, EnvStore, EnvV, FrameV, binds_fit};
use crate::semantics::{Stage, FileRead, StateV, StepV, prefix, eval_spec, trampoline_spec, step_spec, eval_seq_spec, eval_entries_spec, apply_spec, builtin_spec, def_spec, let_spec, let_bind_spec, do_spec, do_prefix_spec, if_spec, fn_spec, debug_spec, debug_name, special_of, Special, is_falsy, with_output, with_envs, state_set, fuel_msg, env_missing_msg, not_found_msg, not_function_msg, arity_msg, do_msg, all_symbols, symbol_names};
use crate::core_lib::{apply_pure, text_result_view, is_pure};
use crate::printer::{print_into, print_all_into, print_joined};
use crate::order::insert_entry;

verus! {

/// Where the `slurp` builtin gets the contents of files.
pub trait Files {
    /// The contents of the file at `path`, or a description of why it could not be read.
    fn read_to_string(&mut self, path: &str) -> Result<String, String>;
}

/// The interpreter's state: the environments, the lines printed, and (as a
/// model only) the log of files read.
pub struct Interpreter {
    envs: EnvStore,
    output: Vec<String>,
    reads: Ghost<Seq<FileRead>>,
}

impl View for Interpreter {
    type V = StateV;

    closed spec fn view(&self) -> StateV {
        StateV { envs: self.envs@, output: strings_view(self.output@), reads: self.reads@ }
    }
}

/// One step of evaluation: a value, or a form still to evaluate in an environment.
pub enum Step {
    Done(Atom),
    Thunk(Atom, EnvRef),
}

/// The model of the outcome of one step.
pub open spec fn step_view(r: Result<Step, String>) -> Result<StepV, Seq<char>> {
    match r {
        Ok(Step::Done(a)) => Ok(StepV::Done(a@)),
        Ok(Step::Thunk(a, e)) => Ok(StepV::Thunk(a@, e)),
        Err(m) => Err(m@),
    }
}

/// The model of the outcome of evaluating a sequence of forms.
pub open spec fn seq_view(r: Result<Vec<Atom>, String>) -> Result<Seq<AtomV>, Seq<char>> {
    match r {
        Ok(v) => Ok(atoms_view(v@)),
        Err(m) => Err(m@),
    }
}

/// The model of the outcome of evaluating the values of map entries.
pub open spec fn entries_result_view(r: Result<Vec<(Atom, Atom)>, String>) -> Result<
    Seq<(AtomV, AtomV)>,
    Seq<char>,
> {
    match r {
        Ok(v) => Ok(entries_view(v@)),
        Err(m) => Err(m@),
    }
}

/// State `s1` follows `s0`: the log of reads and the environments only grow.
pub open spec fn follows(s0: StateV, s1: StateV) -> bool {
    prefix(s0.reads, s1.reads) && s0.envs.len() <= s1.envs.len()
}

/// `r` and `s1` are what evaluating `e` from `s0` gives, whatever the files
/// read after the log of `s1` would give.
pub open spec fn eval_agrees(
    st: Stage,
    fuel: nat,
    e: AtomV,
    env: EnvRef,
    s0: StateV,
    r: Result<AtomV, Seq<char>>,
    s1: StateV,
) -> bool {
    &&& follows(s0, s1)
    &&& forall|o: Seq<FileRead>|
        prefix(s1.reads, o) ==> #[trigger] eval_spec(st, fuel, e, env, s0, o) == (r, s1)
}

/// `r` and `s1` are what one step on `e` gives from `s0`, whatever the files
/// read after the log of `s1` would give.
pub open spec fn step_agrees(
    st: Stage,
    fuel: nat,
    e: AtomV,
    env: EnvRef,
    s0: StateV,
    r: Result<StepV, Seq<char>>,
    s1: StateV,
) -> bool {
    &&& follows(s0, s1)
    &&& forall|o: Seq<FileRead>|
        prefix(s1.reads, o) ==> #[trigger] step_spec(st, fuel, e, env, s0, o) == (r, s1)
}


/// `r` and `s1` are what evaluating the forms `xs` in order gives from `s0`.
pub open spec fn seq_agrees(
    st: Stage,
    fuel: nat,
    xs: Seq<AtomV>,
    env: EnvRef,
    s0: StateV,
    r: Result<Seq<AtomV>, Seq<char>>,
    s1: StateV,
) -> bool {
    &&& follows(s0, s1)
    &&& forall|o: Seq<FileRead>|
        prefix(s1.reads, o) ==> #[trigger] eval_seq_spec(st, fuel, xs, 0, env, Seq::empty(), s0, o)
            == (r, s1)
}

/// `r` and `s1` are what evaluating the values of the entries `es` gives from `s0`.
pub open spec fn entries_agrees(
    st: Stage,
    fuel: nat,
    es: Seq<(AtomV, AtomV)>,
    env: EnvRef,
    s0: StateV,
    r: Result<Seq<(AtomV, AtomV)>, Seq<char>>,
    s1: StateV,
) -> bool {
    &&& follows(s0, s1)
    &&& forall|o: Seq<FileRead>|
        prefix(s1.reads, o) ==> #[trigger] eval_entries_spec(
            st,
            fuel,
            es,
            0,
            env,
            Seq::empty(),
            s0,
            o,
        ) == (r, s1)
}

/// `r` and `s1` are what applying `f` to `args` gives from `s0`.
pub open spec fn apply_agrees(
    st: Stage,
    fuel: nat,
    f: AtomV,
    args: Seq<AtomV>,
    s0: StateV,
    r: Result<StepV, Seq<char>>,
    s1: StateV,
) -> bool {
    &&& follows(s0, s1)
    &&& forall|o: Seq<FileRead>|
        prefix(s1.reads, o) ==> #[trigger] apply_spec(st, fuel, f, args, s0, o) == (r, s1)
}

/// `r` and `s1` are what the builtin `b` gives on `args` from `s0`.
pub open spec fn builtin_agrees(
    st: Stage,
    fuel: nat,
    b: Builtin,
    args: Seq<AtomV>,
    s0: StateV,
    r: Result<AtomV, Seq<char>>,
    s1: StateV,
) -> bool {
    &&& follows(s0, s1)
    &&& forall|o: Seq<FileRead>|
        prefix(s1.reads, o) ==> #[trigger] builtin_spec(st, fuel, b, args, s0, o) == (r, s1)
}

/// `r` and `s1` are what the special form `kind` with arguments `args` gives from `s0`.
pub open spec fn special_spec(
    kind: Special,
    st: Stage,
    fuel: nat,
    args: Seq<AtomV>,
    env: EnvRef,
    s0: StateV,
    o: Seq<FileRead>,
) -> (Result<StepV, Seq<char>>, StateV) {
    match kind {
        Special::Def => def_spec(st, fuel, args, env, s0, o),
        Special::Let => let_spec(st, fuel, args, env, s0, o),
        Special::Do => do_spec(st, fuel, args, env, s0, o),
        Special::If => if_spec(st, fuel, args, env, s0, o),
        Special::Fn => (fn_spec(args, env), s0),
    }
}

/// `r` and `s1` are what the special form `kind` gives from `s0`.
pub open spec fn special_agrees(
    kind: Special,
    st: Stage,
    fuel: nat,
    args: Seq<AtomV>,
    env: EnvRef,
    s0: StateV,
    r: Result<StepV, Seq<char>>,
    s1: StateV,
) -> bool {
    &&& follows(s0, s1)
    &&& forall|o: Seq<FileRead>|
        prefix(s1.reads, o) ==> #[trigger] special_spec(kind, st, fuel, args, env, s0, o) == (r, s1)
}

/// The model of what a [`Files`] read gave.
pub open spec fn answer_view(r: Result<String, String>) -> Result<Seq<char>, Seq<char>> {
    match r {
        Ok(c) => Ok(c@),
        Err(m) => Err(m@),
    }
}

fn special_kind(st: Stage, head: &Atom) -> (r: Option<Special>)
    ensures
        r == special_of(st, head@),
{
    match head {
        Atom::Symbol(k) => {
            let early = st != Stage::Eval;
            let late = st == Stage::IfFnDo || st == Stage::Tco;
            if early && *k == "def!".to_owned() {
                Some(Special::Def)
            } else if early && *k == "let*".to_owned() {
                Some(Special::Let)
            } else if late && *k == "do".to_owned() {
                Some(Special::Do)
            } else if late && *k == "if".to_owned() {
                Some(Special::If)
            } else if late && *k == "fn*".to_owned() {
                Some(Special::Fn)
            } else {
                None
            }
        },
        _ => None,
    }
}

fn not_found(k: &String) -> (r: String)
    ensures
        r@ == not_found_msg(k@),
{
    let mut s = "'".to_owned();
    crate::text::push_text(&mut s, k);
    let tail = "' not found in environment".to_owned();
    crate::text::push_text(&mut s, &tail);
    s
}

/// Whether `n` arguments fit the parameters `binds` (see [`binds_fit`]).
fn binds_fit_exec(binds: &Vec<String>, n: usize) -> (r: bool)
    ensures
        r == binds_fit(strings_view(binds@), n as int, 0),
{
    let ghost bs = strings_view(binds@);
    let amp = "&".to_owned();
    proof {
        reveal_strlit("&");
        assert(amp@ =~= crate::env::ampersand());
    }
    let mut i: usize = 0;
    while i < binds.len()
        invariant
            bs == strings_view(binds@),
            amp@ == crate::env::ampersand(),
            i <= binds@.len(),
            binds_fit(bs, n as int, 0) == binds_fit(bs, n as int, i as int),
        decreases binds.len() - i,
    {
        proof {
            assert(bs[i as int] == binds@[i as int]@);
        }
        if binds[i] == amp {
            return i + 1 < binds.len() && i <= n;
        }
        if i >= n {
            return false;
        }
        i += 1;
    }
    true
}

proof fn lemma_prefix_trans(a: Seq<FileRead>, b: Seq<FileRead>, c: Seq<FileRead>)
    requires
        prefix(a, b),
        prefix(b, c),
    ensures
        prefix(a, c),
{
    assert forall|i: int| 0 <= i < a.len() implies a[i] == c[i] by {
        assert(a[i] == b[i]);
    }
}

proof fn lemma_skip_first(v: Seq<Atom>)
    requires
        v.len() > 0,
    ensures
        atoms_view(v.subrange(1, v.len() as int)) == atoms_view(v).skip(1),
        atoms_view(v)[0] == v[0]@,
{
    lemma_atoms_view(v);
    lemma_atoms_view(v.subrange(1, v.len() as int));
    assert(atoms_view(v.subrange(1, v.len() as int)) =~= atoms_view(v).skip(1));
}

impl Interpreter {
    /// A fresh interpreter over the given environments, with nothing printed or read.
    pub fn new(envs: EnvStore) -> (r: Interpreter)
        ensures
            r@ == (StateV {
                envs: envs@,
                output: Seq::<Seq<char>>::empty(),
                reads: Seq::<FileRead>::empty(),
            }),
    {
        let r = Interpreter { envs, output: Vec::new(), reads: Ghost(Seq::empty()) };
        proof {
            assert(strings_view(r.output@) =~= Seq::<Seq<char>>::empty());
        }
        r
    }

    /// The lines printed so far and not yet taken.
    pub fn output(&self) -> (r: &Vec<String>)
        ensures
            strings_view(r@) == self@.output,
    {
        &self.output
    }

    /// Hands out the lines printed so far, leaving none.
    pub fn take_output(&mut self) -> (r: Vec<String>)
        ensures
            strings_view(r@) == old(self)@.output,
            final(self)@ == (StateV {
                envs: old(self)@.envs,
                output: Seq::<Seq<char>>::empty(),
                reads: old(self)@.reads,
            }),
    {
        let mut lines: Vec<String> = Vec::new();
        std::mem::swap(&mut lines, &mut self.output);
        proof {
            assert(strings_view(self.output@) =~= Seq::<Seq<char>>::empty());
        }
        lines
    }

    /// The number of frames.
    pub fn frame_count(&self) -> (r: usize)
        ensures
            r == self@.envs.len(),
    {
        self.envs.len()
    }

    /// Binds `name` to `value` in the outermost frame (frame 0), when there is
    /// one; says whether there was.
    pub fn define(&mut self, name: &str, value: Atom) -> (r: bool)
        ensures
            r == (old(self)@.envs.len() > 0),
            r ==> final(self)@ == state_set(old(self)@, 0, name@, value@),
            !r ==> final(self)@ == old(self)@,
    {
        if self.envs.len() == 0 {
            return false;
        }
        self.envs.set(0, name, value);
        true
    }

    fn debug(&mut self, e: &Atom, env: EnvRef)
        ensures
            final(self)@ == debug_spec(e@, env, old(self)@),
    {
        let name = "DEBUG-EVAL".to_owned();
        let v = Env::get(&self.envs, env, name.as_str());
        let show = match &v {
            None => false,
            Some(Atom::Nil) => false,
            Some(Atom::Bool(b)) => *b,
            Some(_) => true,
        };
        if show {
            let mut line = "EVAL: ".to_owned();
            print_into(&mut line, e, true);
            let ghost l = line@;
            self.output.push(line);
            proof {
                assert(strings_view(self.output@) =~= strings_view(old(self).output@).push(l));
            }
        }
    }

    /// Evaluates `input` in frame `env` at stage `st`, taking at most `fuel` steps.
    #[verifier::loop_isolation(false)]
    pub fn eval<F: Files>(
        &mut self,
        files: &mut F,
        st: Stage,
        fuel: u64,
        input: Atom,
        env: EnvRef,
    ) -> (r: Result<Atom, String>)
        ensures
            eval_agrees(st, fuel as nat, input@, env, old(self)@, text_result_view(r), final(self)@),
        decreases fuel, 0nat,
    {
        let ghost s0 = self@;
        let ghost e0 = input@;
        let mut f: u64 = fuel;
        let mut cur = input;
        let mut cur_env = env;
        loop
            invariant
                f <= fuel,
                follows(s0, self@),
                forall|o: Seq<FileRead>|
                    prefix(self@.reads, o) ==> #[trigger] eval_spec(st, fuel as nat, e0, env, s0, o)
                        == eval_spec(st, f as nat, cur@, cur_env, self@, o),
            decreases f,
        {
            if f == 0 {
                return Err("evaluation step limit reached".to_owned());
            }
            f -= 1;
            let ghost s1 = self@;
            let ghost c1 = cur@;
            let ghost ce1 = cur_env;
            match self.eval_step(files, st, f, cur, cur_env) {
                Err(m) => {
                    proof {
                        assert forall|o: Seq<FileRead>| prefix(self@.reads, o) implies #[trigger] eval_spec(
                            st,
                            fuel as nat,
                            e0,
                            env,
                            s0,
                            o,
                        ) == (Err::<AtomV, Seq<char>>(m@), self@) by {
                            lemma_prefix_trans(s1.reads, self@.reads, o);
                            assert(step_spec(st, f as nat, c1, ce1, s1, o) == (
                                Err::<StepV, Seq<char>>(m@),
                                self@,
                            ));
                            assert(eval_spec(st, (f + 1) as nat, c1, ce1, s1, o) == eval_spec(
                                st,
                                fuel as nat,
                                e0,
                                env,
                                s0,
                                o,
                            ));
                        }
                        lemma_prefix_trans(s0.reads, s1.reads, self@.reads);
                    }
                    return Err(m);
                },
                Ok(Step::Done(v)) => {
                    proof {
                        assert forall|o: Seq<FileRead>| prefix(self@.reads, o) implies #[trigger] eval_spec(
                            st,
                            fuel as nat,
                            e0,
                            env,
                            s0,
                            o,
                        ) == (Ok::<AtomV, Seq<char>>(v@), self@) by {
                            lemma_prefix_trans(s1.reads, self@.reads, o);
                            assert(step_spec(st, f as nat, c1, ce1, s1, o) == (
                                Ok::<StepV, Seq<char>>(StepV::Done(v@)),
                                self@,
                            ));
                            assert(eval_spec(st, (f + 1) as nat, c1, ce1, s1, o) == eval_spec(
                                st,
                                fuel as nat,
                                e0,
                                env,
                                s0,
                                o,
                            ));
                        }
                        lemma_prefix_trans(s0.reads, s1.reads, self@.reads);
                    }
                    return Ok(v);
                },
                Ok(Step::Thunk(e2, env2)) => {
                    proof {
                        assert forall|o: Seq<FileRead>| prefix(self@.reads, o) implies #[trigger] eval_spec(
                            st,
                            fuel as nat,
                            e0,
                            env,
                            s0,
                            o,
                        ) == eval_spec(st, f as nat, e2@, env2, self@, o) by {
                            lemma_prefix_trans(s1.reads, self@.reads, o);
                            assert(step_spec(st, f as nat, c1, ce1, s1, o) == (
                                Ok::<StepV, Seq<char>>(StepV::Thunk(e2@, env2)),
                                self@,
                            ));
                            assert(eval_spec(st, (f + 1) as nat, c1, ce1, s1, o) == eval_spec(
                                st,
                                fuel as nat,
                                e0,
                                env,
                                s0,
                                o,
                            ));
                        }
                        lemma_prefix_trans(s0.reads, s1.reads, self@.reads);
                    }
                    cur = e2;
                    cur_env = env2;
                },
            }
        }
    }

    /// Finishes the step `step`: a failed step fails, a value is the result,
    /// and a form left to evaluate is evaluated with at most `fuel` steps.
    pub fn trampoline<F: Files>(
        &mut self,
        files: &mut F,
        st: Stage,
        fuel: u64,
        step: Result<Step, String>,
    ) -> (r: Result<Atom, String>)
        ensures
            follows(old(self)@, final(self)@),
            forall|o: Seq<FileRead>|
                prefix(final(self)@.reads, o) ==> #[trigger] trampoline_spec(
                    st,
                    fuel as nat,
                    step_view(step),
                    old(self)@,
                    o,
                ) == (text_result_view(r), final(self)@),
    {
        match step {
            Err(m) => Err(m),
            Ok(Step::Done(v)) => Ok(v),
            Ok(Step::Thunk(e, env)) => self.eval(files, st, fuel, e, env),
        }
    }

    /// One step of evaluation of `e` in frame `env` (see [`step_spec`]).
    pub fn eval_step<F: Files>(
        &mut self,
        files: &mut F,
        st: Stage,
        fuel: u64,
        e: Atom,
        env: EnvRef,
    ) -> (r: Result<Step, String>)
        ensures
            step_agrees(st, fuel as nat, e@, env, old(self)@, step_view(r), final(self)@),
        decreases fuel, 3nat,
    {
        let ghost s_in = self@;
        let ghost ev = e@;
        self.debug(&e, env);
        let ghost s = self@;
        match e {
            Atom::Symbol(k) => {
                let r = match Env::get(&self.envs, env, k.as_str()) {
                    Some(v) => Ok(Step::Done(v)),
                    None => Err(not_found(&k)),
                };
                proof {
                    assert forall|o: Seq<FileRead>| prefix(self@.reads, o) implies #[trigger] step_spec(
                        st,
                        fuel as nat,
                        ev,
                        env,
                        s_in,
                        o,
                    ) == (step_view(r), self@) by {
                        assert(ev == AtomV::Symbol(k@));
                    }
                }
                r
            },
            Atom::List(xs) => {
                if xs.len() == 0 {
                    proof {
                        lemma_atoms_view(xs@);
                    }
                    return Ok(Step::Done(Atom::List(xs)));
                }
                let ghost xv = atoms_view(xs@);
                proof {
                    lemma_skip_first(xs@);
                }
                let mut args = xs;
                let head = args.remove(0);
                proof {
                    assert(args@ =~= xs@.subrange(1, xs@.len() as int));
                }
                match special_kind(st, &head) {
                    Some(kind) => {
                        let r = self.special(files, st, fuel, kind, &args, env);
                        proof {
                            assert forall|o: Seq<FileRead>| prefix(self@.reads, o) implies #[trigger] step_spec(
                                st,
                                fuel as nat,
                                ev,
                                env,
                                s_in,
                                o,
                            ) == (step_view(r), self@) by {
                                assert(special_spec(kind, st, fuel as nat, xv.skip(1), env, s, o)
                                    == (step_view(r), self@));
                            }
                        }
                        r
                    },
                    None => {
                        let h = match self.eval(files, st, fuel, head, env) {
                            Err(m) => {
                                proof {
                                    assert forall|o: Seq<FileRead>| prefix(self@.reads, o) implies #[trigger] step_spec(
                                        st,
                                        fuel as nat,
                                        ev,
                                        env,
                                        s_in,
                                        o,
                                    ) == (Err::<StepV, Seq<char>>(m@), self@) by {
                                        assert(eval_spec(st, fuel as nat, xv[0], env, s, o) == (
                                            Err::<AtomV, Seq<char>>(m@),
                                            self@,
                                        ));
                                    }
                                }
                                return Err(m);
                            },
                            Ok(h) => h,
                        };
                        let ghost s1 = self@;
                        let vs = match self.eval_seq(files, st, fuel, &args, env) {
                            Err(m) => {
                                proof {
                                    assert forall|o: Seq<FileRead>| prefix(self@.reads, o) implies #[trigger] step_spec(
                                        st,
                                        fuel as nat,
                                        ev,
                                        env,
                                        s_in,
                                        o,
                                    ) == (Err::<StepV, Seq<char>>(m@), self@) by {
                                        lemma_prefix_trans(s1.reads, self@.reads, o);
                                        assert(eval_spec(st, fuel as nat, xv[0], env, s, o) == (
                                            Ok::<AtomV, Seq<char>>(h@),
                                            s1,
                                        ));
                                        assert(eval_seq_spec(
                                            st,
                                            fuel as nat,
                                            xv.skip(1),
                                            0,
                                            env,
                                            Seq::empty(),
                                            s1,
                                            o,
                                        ) == (Err::<Seq<AtomV>, Seq<char>>(m@), self@));
                                    }
                                    lemma_prefix_trans(s.reads, s1.reads, self@.reads);
                                }
                                return Err(m);
                            },
                            Ok(vs) => vs,
                        };
                        let ghost s2 = self@;
                        let r = self.apply(files, st, fuel, h, vs);
                        proof {
                            assert forall|o: Seq<FileRead>| prefix(self@.reads, o) implies #[trigger] step_spec(
                                st,
                                fuel as nat,
                                ev,
                                env,
                                s_in,
                                o,
                            ) == (step_view(r), self@) by {
                                lemma_prefix_trans(s2.reads, self@.reads, o);
                                lemma_prefix_trans(s1.reads, s2.reads, o);
                                assert(eval_spec(st, fuel as nat, xv[0], env, s, o) == (
                                    Ok::<AtomV, Seq<char>>(h@),
                                    s1,
                                ));
                                assert(eval_seq_spec(
                                    st,
                                    fuel as nat,
                                    xv.skip(1),
                                    0,
                                    env,
                                    Seq::empty(),
                                    s1,
                                    o,
                                ) == (Ok::<Seq<AtomV>, Seq<char>>(atoms_view(vs@)), s2));
                                assert(apply_spec(st, fuel as nat, h@, atoms_view(vs@), s2, o) == (
                                    step_view(r),
                                    self@,
                                ));
                            }
                            lemma_prefix_trans(s.reads, s1.reads, s2.reads);
                            lemma_prefix_trans(s.reads, s2.reads, self@.reads);
                        }
                        r
                    },
                }
            },
            Atom::Vector(xs) => {
                let r = match self.eval_seq(files, st, fuel, &xs, env) {
                    Err(m) => Err(m),
                    Ok(vs) => Ok(Step::Done(Atom::Vector(vs))),
                };
                proof {
                    assert forall|o: Seq<FileRead>| prefix(self@.reads, o) implies #[trigger] step_spec(
                        st,
                        fuel as nat,
                        ev,
                        env,
                        s_in,
                        o,
                    ) == (step_view(r), self@) by {
                        assert(ev == AtomV::Vector(atoms_view(xs@)));
                        assert(eval_seq_spec(st, fuel as nat, atoms_view(xs@), 0, env, Seq::empty(), s, o)
                            .1 == self@);
                    }
                }
                r
            },
            Atom::Dict(es) => {
                let r = match self.eval_entries(files, st, fuel, &es, env) {
                    Err(m) => Err(m),
                    Ok(vs) => Ok(Step::Done(Atom::Dict(vs))),
                };
                proof {
                    assert forall|o: Seq<FileRead>| prefix(self@.reads, o) implies #[trigger] step_spec(
                        st,
                        fuel as nat,
                        ev,
                        env,
                        s_in,
                        o,
                    ) == (step_view(r), self@) by {
                        assert(ev == AtomV::Dict(entries_view(es@)));
                        assert(eval_entries_spec(st, fuel as nat, entries_view(es@), 0, env, Seq::empty(), s, o)
                            .1 == self@);
                    }
                }
                r
            },
            other => {
                proof {
                    assert(other@ == ev);
                }
                Ok(Step::Done(other))
            },
        }
    }

    fn special<F: Files>(
        &mut self,
        files: &mut F,
        st: Stage,
        fuel: u64,
        kind: Special,
        args: &Vec<Atom>,
        env: EnvRef,
    ) -> (r: Result<Step, String>)
        ensures
            special_agrees(kind, st, fuel as nat, atoms_view(args@), env, old(self)@, step_view(r), final(self)@),
        decreases fuel, 2nat,
    {
        match kind {
            Special::Def => self.special_def(files, st, fuel, args, env),
            Special::Let => self.special_let(files, st, fuel, args, env),
            Special::Do => self.special_do(files, st, fuel, args, env),
            Special::If => self.special_if(files, st, fuel, args, env),
            Special::Fn => special_fn(args, env),
        }
    }
}


/// `fn*`: a function of the given parameters and body, closed over `env`.
#[verifier::loop_isolation(false)]
fn special_fn(args: &Vec<Atom>, env: EnvRef) -> (r: Result<Step, String>)
    ensures
        step_view(r) == fn_spec(atoms_view(args@), env),
{
    proof {
        lemma_atoms_view(args@);
    }
    let n = args.len();
    if n == 0 {
        return Err("fn* requires a parameter list".to_owned());
    }
    let ps = match &args[0] {
        Atom::List(p) => p,
        Atom::Vector(p) => p,
        _ => {
            return Err("fn* requires a parameter list".to_owned());
        },
    };
    let ghost pv = atoms_view(ps@);
    proof {
        lemma_atoms_view(ps@);
    }
    let mut names: Vec<String> = Vec::new();
    let mut i: usize = 0;
    while i < ps.len()
        invariant
            pv == atoms_view(ps@),
            pv.len() == ps@.len(),
            forall|j: int| 0 <= j < ps@.len() ==> #[trigger] pv[j] == ps@[j]@,
            i <= ps@.len(),
            names@.len() == i,
            forall|j: int| 0 <= j < i ==> (#[trigger] pv[j]) is Symbol,
            forall|j: int| 0 <= j < i ==> #[trigger] names@[j]@ == pv[j]->Symbol_0,
        decreases ps.len() - i,
    {
        match &ps[i] {
            Atom::Symbol(k) => {
                names.push(k.clone());
            },
            _ => {
                proof {
                    assert(!(pv[i as int] is Symbol));
                    assert(!all_symbols(pv));
                }
                return Err("fn* parameters must be symbols".to_owned());
            },
        }
        i += 1;
    }
    if n < 2 {
        return Err("fn* requires a body".to_owned());
    }
    let body = args[1].duplicate();
    proof {
        assert(strings_view(names@) =~= symbol_names(pv));
    }
    Ok(Step::Done(Atom::Lambda { params: names, body: Box::new(body), env }))
}

impl Interpreter {
    fn special_def<F: Files>(
        &mut self,
        files: &mut F,
        st: Stage,
        fuel: u64,
        args: &Vec<Atom>,
        env: EnvRef,
    ) -> (r: Result<Step, String>)
        ensures
            special_agrees(Special::Def, st, fuel as nat, atoms_view(args@), env, old(self)@, step_view(r), final(self)@),
        decreases fuel, 1nat,
    {
        proof {
            lemma_atoms_view(args@);
        }
        let ghost s = self@;
        let ghost xs = atoms_view(args@);
        let n = args.len();
        if n == 0 {
            return Err("def! requires a symbol as first argument".to_owned());
        }
        let key = match &args[0] {
            Atom::Symbol(k) => k.clone(),
            _ => {
                return Err("def! requires a symbol as first argument".to_owned());
            },
        };
        if n < 2 {
            return Err("def! requires a value as second argument".to_owned());
        }
        let form = args[1].duplicate();
        let v = match self.eval(files, st, fuel, form, env) {
            Err(m) => {
                proof {
                    assert forall|o: Seq<FileRead>| prefix(self@.reads, o) implies #[trigger] special_spec(
                        Special::Def,
                        st,
                        fuel as nat,
                        xs,
                        env,
                        s,
                        o,
                    ) == (Err::<StepV, Seq<char>>(m@), self@) by {
                        assert(eval_spec(st, fuel as nat, xs[1], env, s, o) == (Err::<AtomV, Seq<char>>(m@), self@));
                    }
                }
                return Err(m);
            },
            Ok(v) => v,
        };
        let ghost s1 = self@;
        if env >= self.envs.len() {
            let m = "environment not found".to_owned();
            proof {
                assert forall|o: Seq<FileRead>| prefix(self@.reads, o) implies #[trigger] special_spec(
                    Special::Def,
                    st,
                    fuel as nat,
                    xs,
                    env,
                    s,
                    o,
                ) == (Err::<StepV, Seq<char>>(m@), self@) by {
                    assert(eval_spec(st, fuel as nat, xs[1], env, s, o) == (Ok::<AtomV, Seq<char>>(v@), s1));
                }
            }
            return Err(m);
        }
        let stored = v.duplicate();
        self.envs.set(env, key.as_str(), stored);
        proof {
            assert(self@ == state_set(s1, env, xs[0]->Symbol_0, v@));
            assert forall|o: Seq<FileRead>| prefix(self@.reads, o) implies #[trigger] special_spec(
                Special::Def,
                st,
                fuel as nat,
                xs,
                env,
                s,
                o,
            ) == (Ok::<StepV, Seq<char>>(StepV::Done(v@)), self@) by {
                assert(eval_spec(st, fuel as nat, xs[1], env, s, o) == (Ok::<AtomV, Seq<char>>(v@), s1));
            }
        }
        Ok(Step::Done(v))
    }

    #[verifier::loop_isolation(false)]
    fn special_let<F: Files>(
        &mut self,
        files: &mut F,
        st: Stage,
        fuel: u64,
        args: &Vec<Atom>,
        env: EnvRef,
    ) -> (r: Result<Step, String>)
        ensures
            special_agrees(Special::Let, st, fuel as nat, atoms_view(args@), env, old(self)@, step_view(r), final(self)@),
        decreases fuel, 1nat,
    {
        proof {
            lemma_atoms_view(args@);
        }
        let ghost s = self@;
        let ghost xs = atoms_view(args@);
        let n = args.len();
        if n == 0 {
            return Err("let* needs a list of bindings".to_owned());
        }
        let bs = match &args[0] {
            Atom::List(b) => b,
            Atom::Vector(b) => b,
            _ => {
                return Err("let* needs a list of bindings".to_owned());
            },
        };
        if n < 2 {
            return Err("let* needs a function to execute".to_owned());
        }
        if env >= self.envs.len() {
            return Err("environment not found".to_owned());
        }
        let ghost bv = atoms_view(bs@);
        proof {
            lemma_atoms_view(bs@);
        }
        let le = Env::new(&mut self.envs, Some(env));
        let ghost s1 = self@;
        proof {
            assert(s1 == with_envs(s, s.envs.push(EnvV { outer: Some(env), data: FrameV::empty() })));
        }
        let mut i: usize = 0;
        loop
            invariant
                bv == atoms_view(bs@),
                bv.len() == bs@.len(),
                forall|j: int| 0 <= j < bs@.len() ==> #[trigger] bv[j] == bs@[j]@,
                i <= bs@.len(),
                le == s1.envs.len() - 1,
                follows(s1, self@),
                forall|o: Seq<FileRead>|
                    prefix(self@.reads, o) ==> #[trigger] let_bind_spec(st, fuel as nat, bv, 0, le, s1, o)
                        == let_bind_spec(st, fuel as nat, bv, i as int, le, self@, o),
            decreases bs.len() - i,
        {
            if i >= bs.len() {
                break;
            }
            let paired = match &bs[i] {
                Atom::Symbol(_) => i + 1 < bs.len(),
                _ => false,
            };
            if !paired {
                let m = "let* binding list must have symbol/value pairings".to_owned();
                proof {
                    assert forall|o: Seq<FileRead>| prefix(self@.reads, o) implies #[trigger] special_spec(
                        Special::Let,
                        st,
                        fuel as nat,
                        xs,
                        env,
                        s,
                        o,
                    ) == (Err::<StepV, Seq<char>>(m@), self@) by {
                        assert(let_bind_spec(st, fuel as nat, bv, i as int, le, self@, o) == (
                            Err::<(), Seq<char>>(m@),
                            self@,
                        ));
                        assert(let_bind_spec(st, fuel as nat, bv, 0, le, s1, o) == (
                            Err::<(), Seq<char>>(m@),
                            self@,
                        ));
                    }
                }
                return Err(m);
            }
            let key = match &bs[i] {
                Atom::Symbol(k) => k.clone(),
                _ => String::new(),
            };
            let ghost sb = self@;
            let form = bs[i + 1].duplicate();
            let v = match self.eval(files, st, fuel, form, le) {
                Err(m) => {
                    proof {
                        assert forall|o: Seq<FileRead>| prefix(self@.reads, o) implies #[trigger] let_bind_spec(
                            st,
                            fuel as nat,
                            bv,
                            0,
                            le,
                            s1,
                            o,
                        ) == (Err::<(), Seq<char>>(m@), self@) by {
                            lemma_prefix_trans(sb.reads, self@.reads, o);
                            assert(eval_spec(st, fuel as nat, bv[i + 1], le, sb, o) == (
                                Err::<AtomV, Seq<char>>(m@),
                                self@,
                            ));
                            assert(let_bind_spec(st, fuel as nat, bv, i as int, le, sb, o) == (
                                Err::<(), Seq<char>>(m@),
                                self@,
                            ));
                        }
                        lemma_prefix_trans(s1.reads, sb.reads, self@.reads);
                        assert forall|o: Seq<FileRead>| prefix(self@.reads, o) implies #[trigger] special_spec(
                            Special::Let,
                            st,
                            fuel as nat,
                            xs,
                            env,
                            s,
                            o,
                        ) == (Err::<StepV, Seq<char>>(m@), self@) by {
                            assert(let_bind_spec(st, fuel as nat, bv, 0, le, s1, o) == (
                                Err::<(), Seq<char>>(m@),
                                self@,
                            ));
                        }
                    }
                    return Err(m);
                },
                Ok(v) => v,
            };
            let ghost s2 = self@;
            self.envs.set(le, key.as_str(), v);
            proof {
                assert(self@ == state_set(s2, le, bv[i as int]->Symbol_0, v@));
                assert forall|o: Seq<FileRead>| prefix(self@.reads, o) implies #[trigger] let_bind_spec(
                    st,
                    fuel as nat,
                    bv,
                    0,
                    le,
                    s1,
                    o,
                ) == let_bind_spec(st, fuel as nat, bv, i + 2, le, self@, o) by {
                    assert(prefix(sb.reads, o));
                    assert(eval_spec(st, fuel as nat, bv[i + 1], le, sb, o) == (
                        Ok::<AtomV, Seq<char>>(v@),
                        s2,
                    ));
                }
                lemma_prefix_trans(s1.reads, sb.reads, self@.reads);
            }
            i += 2;
        }
        let body = args[1].duplicate();
        proof {
            assert forall|o: Seq<FileRead>| prefix(self@.reads, o) implies #[trigger] special_spec(
                Special::Let,
                st,
                fuel as nat,
                xs,
                env,
                s,
                o,
            ) == (Ok::<StepV, Seq<char>>(StepV::Thunk(body@, le)), self@) by {
                assert(let_bind_spec(st, fuel as nat, bv, i as int, le, self@, o) == (
                    Ok::<(), Seq<char>>(()),
                    self@,
                ));
                assert(let_bind_spec(st, fuel as nat, bv, 0, le, s1, o) == (
                    Ok::<(), Seq<char>>(()),
                    self@,
                ));
            }
        }
        Ok(Step::Thunk(body, le))
    }

    #[verifier::loop_isolation(false)]
    fn special_do<F: Files>(
        &mut self,
        files: &mut F,
        st: Stage,
        fuel: u64,
        args: &Vec<Atom>,
        env: EnvRef,
    ) -> (r: Result<Step, String>)
        ensures
            special_agrees(Special::Do, st, fuel as nat, atoms_view(args@), env, old(self)@, step_view(r), final(self)@),
        decreases fuel, 1nat,
    {
        proof {
            lemma_atoms_view(args@);
        }
        let ghost s = self@;
        let ghost xs = atoms_view(args@);
        let n = args.len();
        if n == 0 {
            if st == Stage::Tco {
                return Err("do needs at least one expression".to_owned());
            } else {
                return Err("do needs at least one element".to_owned());
            }
        }
        let mut i: usize = 0;
        while i + 1 < n
            invariant
                xs == atoms_view(args@),
                xs.len() == args@.len(),
                forall|j: int| 0 <= j < args@.len() ==> #[trigger] xs[j] == args@[j]@,
                n == args@.len(),
                n > 0,
                i < n,
                follows(s, self@),
                forall|o: Seq<FileRead>|
                    prefix(self@.reads, o) ==> #[trigger] do_prefix_spec(st, fuel as nat, xs, 0, env, s, o)
                        == do_prefix_spec(st, fuel as nat, xs, i as int, env, self@, o),
            decreases n - i,
        {
            let ghost sb = self@;
            let form = args[i].duplicate();
            match self.eval(files, st, fuel, form, env) {
                Err(m) => {
                    proof {
                        assert forall|o: Seq<FileRead>| prefix(self@.reads, o) implies #[trigger] special_spec(
                            Special::Do,
                            st,
                            fuel as nat,
                            xs,
                            env,
                            s,
                            o,
                        ) == (Err::<StepV, Seq<char>>(m@), self@) by {
                            lemma_prefix_trans(sb.reads, self@.reads, o);
                            assert(eval_spec(st, fuel as nat, xs[i as int], env, sb, o) == (
                                Err::<AtomV, Seq<char>>(m@),
                                self@,
                            ));
                            assert(do_prefix_spec(st, fuel as nat, xs, i as int, env, sb, o) == (
                                Err::<(), Seq<char>>(m@),
                                self@,
                            ));
                            assert(do_prefix_spec(st, fuel as nat, xs, 0, env, s, o) == (
                                Err::<(), Seq<char>>(m@),
                                self@,
                            ));
                        }
                        lemma_prefix_trans(s.reads, sb.reads, self@.reads);
                    }
                    return Err(m);
                },
                Ok(v) => {
                    proof {
                        assert forall|o: Seq<FileRead>| prefix(self@.reads, o) implies #[trigger] do_prefix_spec(
                            st,
                            fuel as nat,
                            xs,
                            0,
                            env,
                            s,
                            o,
                        ) == do_prefix_spec(st, fuel as nat, xs, i + 1, env, self@, o) by {
                            lemma_prefix_trans(sb.reads, self@.reads, o);
                            assert(eval_spec(st, fuel as nat, xs[i as int], env, sb, o) == (
                                Ok::<AtomV, Seq<char>>(v@),
                                self@,
                            ));
                        }
                        lemma_prefix_trans(s.reads, sb.reads, self@.reads);
                    }
                },
            }
            i += 1;
        }
        let last = args[n - 1].duplicate();
        proof {
            assert forall|o: Seq<FileRead>| prefix(self@.reads, o) implies #[trigger] special_spec(
                Special::Do,
                st,
                fuel as nat,
                xs,
                env,
                s,
                o,
            ) == (Ok::<StepV, Seq<char>>(StepV::Thunk(last@, env)), self@) by {
                assert(last@ == xs[n - 1]);
                assert(do_prefix_spec(st, fuel as nat, xs, i as int, env, self@, o) == (
                    Ok::<(), Seq<char>>(()),
                    self@,
                ));
                assert(do_prefix_spec(st, fuel as nat, xs, 0, env, s, o) == (
                    Ok::<(), Seq<char>>(()),
                    self@,
                ));
            }
        }
        Ok(Step::Thunk(last, env))
    }

    fn special_if<F: Files>(
        &mut self,
        files: &mut F,
        st: Stage,
        fuel: u64,
        args: &Vec<Atom>,
        env: EnvRef,
    ) -> (r: Result<Step, String>)
        ensures
            special_agrees(Special::If, st, fuel as nat, atoms_view(args@), env, old(self)@, step_view(r), final(self)@),
        decreases fuel, 1nat,
    {
        proof {
            lemma_atoms_view(args@);
        }
        let ghost s = self@;
        let ghost xs = atoms_view(args@);
        let n = args.len();
        if n == 0 {
            return Err("if needs a condition as first argument".to_owned());
        }
        let form = args[0].duplicate();
        let c = match self.eval(files, st, fuel, form, env) {
            Err(m) => {
                proof {
                    assert forall|o: Seq<FileRead>| prefix(self@.reads, o) implies #[trigger] special_spec(
                        Special::If,
                        st,
                        fuel as nat,
                        xs,
                        env,
                        s,
                        o,
                    ) == (Err::<StepV, Seq<char>>(m@), self@) by {
                        assert(eval_spec(st, fuel as nat, xs[0], env, s, o) == (
                            Err::<AtomV, Seq<char>>(m@),
                            self@,
                        ));
                    }
                }
                return Err(m);
            },
            Ok(c) => c,
        };
        let ghost s1 = self@;
        let falsy = match &c {
            Atom::Nil => true,
            Atom::Bool(b) => !*b,
            _ => false,
        };
        proof {
            assert(falsy == is_falsy(c@));
        }
        let r = if falsy {
            if n > 2 {
                Ok(Step::Thunk(args[2].duplicate(), env))
            } else if st == Stage::Tco {
                Ok(Step::Thunk(Atom::Nil, env))
            } else {
                Ok(Step::Done(Atom::Nil))
            }
        } else if n > 1 {
            Ok(Step::Thunk(args[1].duplicate(), env))
        } else {
            Err("if needs a true branch".to_owned())
        };
        proof {
            assert forall|o: Seq<FileRead>| prefix(self@.reads, o) implies #[trigger] special_spec(
                Special::If,
                st,
                fuel as nat,
                xs,
                env,
                s,
                o,
            ) == (step_view(r), self@) by {
                assert(eval_spec(st, fuel as nat, xs[0], env, s, o) == (Ok::<AtomV, Seq<char>>(c@), s1));
            }
        }
        r
    }

    #[verifier::loop_isolation(false)]
    fn eval_seq<F: Files>(
        &mut self,
        files: &mut F,
        st: Stage,
        fuel: u64,
        xs: &Vec<Atom>,
        env: EnvRef,
    ) -> (r: Result<Vec<Atom>, String>)
        ensures
            seq_agrees(st, fuel as nat, atoms_view(xs@), env, old(self)@, seq_view(r), final(self)@),
        decreases fuel, 1nat,
    {
        let ghost s = self@;
        let ghost xv = atoms_view(xs@);
        proof {
            lemma_atoms_view(xs@);
        }
        let mut acc: Vec<Atom> = Vec::new();
        let mut i: usize = 0;
        proof {
            assert(atoms_view(acc@) =~= Seq::<AtomV>::empty());
        }
        while i < xs.len()
            invariant
                xv == atoms_view(xs@),
                xv.len() == xs@.len(),
                forall|j: int| 0 <= j < xs@.len() ==> #[trigger] xv[j] == xs@[j]@,
                i <= xs@.len(),
                follows(s, self@),
                forall|o: Seq<FileRead>|
                    prefix(self@.reads, o) ==> #[trigger] eval_seq_spec(st, fuel as nat, xv, 0, env, Seq::empty(), s, o)
                        == eval_seq_spec(st, fuel as nat, xv, i as int, env, atoms_view(acc@), self@, o),
            decreases xs.len() - i,
        {
            let ghost sb = self@;
            let form = xs[i].duplicate();
            match self.eval(files, st, fuel, form, env) {
                Err(m) => {
                    proof {
                        assert forall|o: Seq<FileRead>| prefix(self@.reads, o) implies #[trigger] eval_seq_spec(
                            st,
                            fuel as nat,
                            xv,
                            0,
                            env,
                            Seq::empty(),
                            s,
                            o,
                        ) == (Err::<Seq<AtomV>, Seq<char>>(m@), self@) by {
                            lemma_prefix_trans(sb.reads, self@.reads, o);
                            assert(eval_spec(st, fuel as nat, xv[i as int], env, sb, o) == (
                                Err::<AtomV, Seq<char>>(m@),
                                self@,
                            ));
                        }
                        lemma_prefix_trans(s.reads, sb.reads, self@.reads);
                    }
                    return Err(m);
                },
                Ok(v) => {
                    proof {
                        crate::types::lemma_atoms_view_push(acc@, v);
                        assert forall|o: Seq<FileRead>| prefix(self@.reads, o) implies #[trigger] eval_seq_spec(
                            st,
                            fuel as nat,
                            xv,
                            0,
                            env,
                            Seq::empty(),
                            s,
                            o,
                        ) == eval_seq_spec(
                            st,
                            fuel as nat,
                            xv,
                            i + 1,
                            env,
                            atoms_view(acc@.push(v)),
                            self@,
                            o,
                        ) by {
                            lemma_prefix_trans(sb.reads, self@.reads, o);
                            assert(eval_spec(st, fuel as nat, xv[i as int], env, sb, o) == (
                                Ok::<AtomV, Seq<char>>(v@),
                                self@,
                            ));
                        }
                        lemma_prefix_trans(s.reads, sb.reads, self@.reads);
                    }
                    acc.push(v);
                },
            }
            i += 1;
        }
        Ok(acc)
    }

    #[verifier::loop_isolation(false)]
    fn eval_entries<F: Files>(
        &mut self,
        files: &mut F,
        st: Stage,
        fuel: u64,
        es: &Vec<(Atom, Atom)>,
        env: EnvRef,
    ) -> (r: Result<Vec<(Atom, Atom)>, String>)
        ensures
            entries_agrees(st, fuel as nat, entries_view(es@), env, old(self)@, entries_result_view(r), final(self)@),
        decreases fuel, 1nat,
    {
        let ghost s = self@;
        let ghost ev = entries_view(es@);
        proof {
            lemma_entries_view(es@);
        }
        let mut acc: Vec<(Atom, Atom)> = Vec::new();
        let mut i: usize = 0;
        proof {
            assert(entries_view(acc@) =~= Seq::<(AtomV, AtomV)>::empty());
        }
        while i < es.len()
            invariant
                ev == entries_view(es@),
                ev.len() == es@.len(),
                forall|j: int| 0 <= j < es@.len() ==> #[trigger] ev[j] == (es@[j].0@, es@[j].1@),
                i <= es@.len(),
                follows(s, self@),
                forall|o: Seq<FileRead>|
                    prefix(self@.reads, o) ==> #[trigger] eval_entries_spec(st, fuel as nat, ev, 0, env, Seq::empty(), s, o)
                        == eval_entries_spec(st, fuel as nat, ev, i as int, env, entries_view(acc@), self@, o),
            decreases es.len() - i,
        {
            let ghost sb = self@;
            let ghost a0 = entries_view(acc@);
            let form = es[i].1.duplicate();
            match self.eval(files, st, fuel, form, env) {
                Err(m) => {
                    proof {
                        assert forall|o: Seq<FileRead>| prefix(self@.reads, o) implies #[trigger] eval_entries_spec(
                            st,
                            fuel as nat,
                            ev,
                            0,
                            env,
                            Seq::empty(),
                            s,
                            o,
                        ) == (Err::<Seq<(AtomV, AtomV)>, Seq<char>>(m@), self@) by {
                            lemma_prefix_trans(sb.reads, self@.reads, o);
                            assert(eval_spec(st, fuel as nat, ev[i as int].1, env, sb, o) == (
                                Err::<AtomV, Seq<char>>(m@),
                                self@,
                            ));
                        }
                        lemma_prefix_trans(s.reads, sb.reads, self@.reads);
                    }
                    return Err(m);
                },
                Ok(v) => {
                    let k = es[i].0.duplicate();
                    let ghost vv = v@;
                    let ghost kv = k@;
                    insert_entry(&mut acc, k, v);
                    proof {
                        assert forall|o: Seq<FileRead>| prefix(self@.reads, o) implies #[trigger] eval_entries_spec(
                            st,
                            fuel as nat,
                            ev,
                            0,
                            env,
                            Seq::empty(),
                            s,
                            o,
                        ) == eval_entries_spec(
                            st,
                            fuel as nat,
                            ev,
                            i + 1,
                            env,
                            entries_view(acc@),
                            self@,
                            o,
                        ) by {
                            lemma_prefix_trans(sb.reads, self@.reads, o);
                            assert(eval_spec(st, fuel as nat, ev[i as int].1, env, sb, o) == (
                                Ok::<AtomV, Seq<char>>(vv),
                                self@,
                            ));
                        }
                        lemma_prefix_trans(s.reads, sb.reads, self@.reads);
                    }
                },
            }
            i += 1;
        }
        Ok(acc)
    }

    fn apply<F: Files>(
        &mut self,
        files: &mut F,
        st: Stage,
        fuel: u64,
        f: Atom,
        args: Vec<Atom>,
    ) -> (r: Result<Step, String>)
        ensures
            apply_agrees(st, fuel as nat, f@, atoms_view(args@), old(self)@, step_view(r), final(self)@),
        decreases fuel, 2nat,
    {
        let ghost s = self@;
        let ghost fv = f@;
        let ghost av = atoms_view(args@);
        proof {
            lemma_atoms_view(args@);
        }
        match f {
            Atom::Function(b) => {
                let r = self.call_builtin(files, st, fuel, b, args);
                proof {
                    assert forall|o: Seq<FileRead>| prefix(self@.reads, o) implies #[trigger] apply_spec(
                        st,
                        fuel as nat,
                        fv,
                        av,
                        s,
                        o,
                    ) == (step_view(
                        match r {
                            Ok(v) => Ok(Step::Done(v)),
                            Err(m) => Err(m),
                        },
                    ), self@) by {
                        assert(builtin_spec(st, fuel as nat, b, av, s, o) == (text_result_view(r), self@));
                    }
                }
                match r {
                    Ok(v) => Ok(Step::Done(v)),
                    Err(m) => Err(m),
                }
            },
            Atom::Lambda { params, body, env: closed } => {
                if closed >= self.envs.len() {
                    return Err("environment not found".to_owned());
                }
                if !binds_fit_exec(&params, args.len()) {
                    proof {
                        assert(fv == AtomV::Lambda(strings_view(params@), Box::new(body@), closed));
                    }
                    return Err("wrong number of arguments".to_owned());
                }
                let ne = Env::new_with_binds(
                    &mut self.envs,
                    Some(closed),
                    params.as_slice(),
                    args.as_slice(),
                );
                proof {
                    assert(self@ == with_envs(
                        s,
                        s.envs.push(
                            EnvV {
                                outer: Some(closed),
                                data: crate::env::bind_all(FrameV::empty(), strings_view(params@), av, 0),
                            },
                        ),
                    ));
                }
                Ok(Step::Thunk(*body, ne))
            },
            _ => Err("first element in a list must be a function".to_owned()),
        }
    }

    fn call_builtin<F: Files>(
        &mut self,
        files: &mut F,
        st: Stage,
        fuel: u64,
        b: Builtin,
        args: Vec<Atom>,
    ) -> (r: Result<Atom, String>)
        ensures
            builtin_agrees(st, fuel as nat, b, atoms_view(args@), old(self)@, text_result_view(r), final(self)@),
        decreases fuel, 1nat,
    {
        proof {
            lemma_atoms_view(args@);
        }
        match b {
            Builtin::Prn | Builtin::Println => {
                let readably = b == Builtin::Prn;
                let mut line = String::new();
                print_all_into(&mut line, &args, readably);
                let ghost l = line@;
                self.output.push(line);
                proof {
                    assert(strings_view(self.output@) =~= strings_view(old(self).output@).push(l));
                    assert(self@ == with_output(old(self)@, print_joined(atoms_view(args@), readably)));
                }
                Ok(Atom::Nil)
            },
            Builtin::Slurp => {
                if args.len() > 0 {
                    match &args[0] {
                        Atom::Str(path) => {
                            let answer = files.read_to_string(path.as_str());
                            let ghost k = self.reads@.len();
                            self.reads = Ghost(self.reads@.push((path@, answer_view(answer))));
                            proof {
                                assert forall|o: Seq<FileRead>| prefix(self@.reads, o) implies o[k as int]
                                    == (path@, answer_view(answer)) by {
                                    assert(self@.reads[k as int] == (path@, answer_view(answer)));
                                }
                            }
                            return match answer {
                                Ok(c) => Ok(Atom::Str(c)),
                                Err(m) => Err(m),
                            };
                        },
                        _ => {},
                    }
                }
                Err("slurp needs a string".to_owned())
            },
            Builtin::Eval => {
                if args.len() == 0 {
                    return Err("eval needs something to eval".to_owned());
                }
                let form = args[0].duplicate();
                let ghost s = self@;
                let r = self.eval(files, st, fuel, form, 0);
                proof {
                    assert forall|o: Seq<FileRead>| prefix(self@.reads, o) implies #[trigger] builtin_spec(
                        st,
                        fuel as nat,
                        b,
                        atoms_view(args@),
                        s,
                        o,
                    ) == (text_result_view(r), self@) by {
                        assert(eval_spec(st, fuel as nat, atoms_view(args@)[0], 0, s, o) == (
                            text_result_view(r),
                            self@,
                        ));
                    }
                }
                r
            },
            _ => apply_pure(b, &args),
        }
    }
}

} // verus!
