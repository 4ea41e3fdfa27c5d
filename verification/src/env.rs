//! Environments: frames of bindings from names to values, each with an
//! optional enclosing frame, kept together in a store.

use vstd::prelude::*;
use crate::types::{Atom, AtomV, EnvRef, atoms_view, strings_view, lemma_atoms_view};

verus! {

/// The bindings of one frame: name and value, at most one entry per name.
pub type FrameV = Seq<(Seq<char>, AtomV)>;

/// The model of a frame.
pub struct EnvV {
    pub outer: Option<EnvRef>,
    pub data: FrameV,
}

/// The value bound to `k` in a frame.
pub open spec fn frame_lookup(d: FrameV, k: Seq<char>) -> Option<AtomV>
    decreases d.len(),
{
    if d.len() == 0 {
        None
    } else if d[0].0 == k {
        Some(d[0].1)
    } else {
        frame_lookup(d.skip(1), k)
    }
}

/// A frame after binding `k` to `v`: an existing binding of `k` is replaced.
pub open spec fn frame_set(d: FrameV, k: Seq<char>, v: AtomV) -> FrameV
    decreases d.len(),
{
    if d.len() == 0 {
        seq![(k, v)]
    } else if d[0].0 == k {
        seq![(k, v)] + d.skip(1)
    } else {
        seq![d[0]] + frame_set(d.skip(1), k, v)
    }
}

/// The frames after binding `k` to `v` in frame `e`.
pub open spec fn store_set(fs: Seq<EnvV>, e: int, k: Seq<char>, v: AtomV) -> Seq<EnvV> {
    fs.update(e, EnvV { outer: fs[e].outer, data: frame_set(fs[e].data, k, v) })
}

/// Every frame encloses only frames made before it.
pub open spec fn frames_wf(fs: Seq<EnvV>) -> bool {
    forall|i: int| 0 <= i < fs.len() ==> ((#[trigger] fs[i]).outer matches Some(o) ==> o < i)
}

/// The value of `k` seen from frame `e`: its own binding, else what the
/// enclosing frame sees. `None` for a name bound nowhere on the way.
pub open spec fn env_get(fs: Seq<EnvV>, e: int, k: Seq<char>) -> Option<AtomV>
    decreases e,
{
    if e < 0 || e >= fs.len() {
        None
    } else {
        match frame_lookup(fs[e].data, k) {
            Some(v) => Some(v),
            None => match fs[e].outer {
                Some(o) => if o < e {
                    env_get(fs, o as int, k)
                } else {
                    None
                },
                None => None,
            },
        }
    }
}

/// The model of a frame's entries.
pub open spec fn data_view(d: Seq<(String, Atom)>) -> FrameV {
    d.map_values(|e: (String, Atom)| (e.0@, e.1@))
}

/// One frame of bindings.
pub struct Env {
    outer: Option<EnvRef>,
    data: Vec<(String, Atom)>,
}

impl View for Env {
    type V = EnvV;

    closed spec fn view(&self) -> EnvV {
        EnvV { outer: self.outer, data: data_view(self.data@) }
    }
}

proof fn lemma_frame_set_index(d: FrameV, k: Seq<char>, v: AtomV, i: int)
    requires
        0 <= i <= d.len(),
        forall|j: int| 0 <= j < i ==> (#[trigger] d[j]).0 != k,
    ensures
        frame_set(d, k, v) == d.take(i) + frame_set(d.skip(i), k, v),
        frame_lookup(d, k) == frame_lookup(d.skip(i), k),
    decreases i,
{
    if i == 0 {
        assert(d.skip(0) =~= d);
        assert(d.take(0) + frame_set(d, k, v) =~= frame_set(d, k, v));
    } else {
        let t = d.skip(1);
        assert forall|j: int| 0 <= j < i - 1 implies (#[trigger] t[j]).0 != k by {
            assert(t[j] == d[j + 1]);
        }
        assert(d[0].0 != k);
        lemma_frame_set_index(t, k, v, i - 1);
        assert(t.skip(i - 1) =~= d.skip(i));
        assert(seq![d[0]] + t.take(i - 1) =~= d.take(i));
        assert(seq![d[0]] + (t.take(i - 1) + frame_set(d.skip(i), k, v)) =~= d.take(i)
            + frame_set(d.skip(i), k, v));
    }
}

impl Env {
    /// Binds `symbol` to `atom` in this frame, replacing an earlier binding.
    pub fn set(&mut self, symbol: &str, atom: Atom)
        ensures
            final(self)@.outer == old(self)@.outer,
            final(self)@.data == frame_set(old(self)@.data, symbol@, atom@),
    {
        let key = symbol.to_owned();
        let ghost d0 = data_view(self.data@);
        let mut i: usize = 0;
        while i < self.data.len()
            invariant
                d0 == data_view(self.data@),
                self.data@ == old(self).data@,
                self.outer == old(self).outer,
                key@ == symbol@,
                i <= self.data@.len(),
                forall|j: int| 0 <= j < i ==> (#[trigger] d0[j]).0 != key@,
            decreases self.data.len() - i,
        {
            if self.data[i].0 == key {
                proof {
                    lemma_frame_set_index(d0, key@, atom@, i as int);
                }
                self.data.set(i, (key, atom));
                proof {
                    assert(data_view(self.data@) =~= d0.take(i as int) + (seq![(symbol@, atom@)]
                        + d0.skip(i as int).skip(1)));
                }
                return;
            }
            i += 1;
        }
        proof {
            lemma_frame_set_index(d0, key@, atom@, i as int);
            assert(d0.skip(i as int) =~= FrameV::empty());
        }
        self.data.push((key, atom));
        proof {
            assert(data_view(self.data@) =~= d0.take(i as int) + seq![(symbol@, atom@)]);
        }
    }

    /// The value bound to `key` in this frame itself.
    pub fn lookup(&self, key: &String) -> (r: Option<Atom>)
        ensures
            match frame_lookup(self@.data, key@) {
                Some(v) => r matches Some(a) && a@ == v,
                None => r is None,
            },
    {
        let ghost d0 = data_view(self.data@);
        let mut i: usize = 0;
        while i < self.data.len()
            invariant
                d0 == data_view(self.data@),
                d0 == self@.data,
                i <= self.data@.len(),
                forall|j: int| 0 <= j < i ==> (#[trigger] d0[j]).0 != key@,
            decreases self.data.len() - i,
        {
            if self.data[i].0 == *key {
                proof {
                    lemma_frame_set_index(d0, key@, AtomV::Nil, i as int);
                }
                return Some(self.data[i].1.duplicate());
            }
            i += 1;
        }
        proof {
            lemma_frame_set_index(d0, key@, AtomV::Nil, i as int);
            assert(d0.skip(i as int) =~= FrameV::empty());
        }
        None
    }
}


pub open spec fn ampersand() -> Seq<char> {
    seq!['&']
}

/// The bindings that a call makes: each name takes the argument at its
/// position; a name after `&` takes the list of the remaining arguments.
pub open spec fn bind_all(d: FrameV, binds: Seq<Seq<char>>, exprs: Seq<AtomV>, i: int) -> FrameV
    decreases binds.len() - i,
{
    if i < 0 || i >= binds.len() {
        d
    } else if binds[i] == ampersand() {
        if i + 1 < binds.len() && i <= exprs.len() {
            frame_set(d, binds[i + 1], AtomV::List(exprs.skip(i)))
        } else {
            d
        }
    } else if i < exprs.len() {
        bind_all(frame_set(d, binds[i], exprs[i]), binds, exprs, i + 1)
    } else {
        d
    }
}

/// Whether `n` arguments suffice for the parameters `binds` from position `i`:
/// one argument per name before `&`, and a name after `&`.
pub open spec fn binds_fit(binds: Seq<Seq<char>>, n: int, i: int) -> bool
    decreases binds.len() - i,
{
    if i < 0 || i >= binds.len() {
        true
    } else if binds[i] == ampersand() {
        i + 1 < binds.len() && i <= n
    } else {
        i < n && binds_fit(binds, n, i + 1)
    }
}

/// All frames, indexed by [`EnvRef`].
pub struct EnvStore {
    frames: Vec<Env>,
}

impl View for EnvStore {
    type V = Seq<EnvV>;

    closed spec fn view(&self) -> Seq<EnvV> {
        self.frames@.map_values(|e: Env| e@)
    }
}

impl EnvStore {
    #[verifier::type_invariant]
    spec fn wf(self) -> bool {
        frames_wf(self@)
    }

    /// A store with no frames.
    pub fn new() -> (r: EnvStore)
        ensures
            r@ == Seq::<EnvV>::empty(),
    {
        let r = EnvStore { frames: Vec::new() };
        proof {
            assert(r@ =~= Seq::<EnvV>::empty());
        }
        r
    }

    /// The number of frames; every frame encloses only earlier ones.
    pub fn len(&self) -> (r: usize)
        ensures
            r == self@.len(),
            frames_wf(self@),
    {
        proof {
            use_type_invariant(self);
        }
        self.frames.len()
    }

    fn push_frame(&mut self, frame: Env) -> (r: EnvRef)
        requires
            frame@.outer matches Some(o) ==> o < old(self)@.len(),
        ensures
            r == old(self)@.len(),
            final(self)@ == old(self)@.push(frame@),
    {
        proof {
            use_type_invariant(&*self);
        }
        let r = self.frames.len();
        let ghost old_view = self@;
        let mut frames = Vec::new();
        std::mem::swap(&mut frames, &mut self.frames);
        frames.push(frame);
        proof {
            assert(frames@.map_values(|e: Env| e@) =~= old_view.push(frame@));
        }
        self.frames = frames;
        r
    }

    /// Binds `symbol` to `atom` in frame `env`.
    pub fn set(&mut self, env: EnvRef, symbol: &str, atom: Atom)
        requires
            env < old(self)@.len(),
        ensures
            final(self)@ == store_set(old(self)@, env as int, symbol@, atom@),
    {
        proof {
            use_type_invariant(&*self);
        }
        let ghost old_view = self@;
        let mut frames = Vec::new();
        std::mem::swap(&mut frames, &mut self.frames);
        let mut frame = frames.remove(env);
        frame.set(symbol, atom);
        frames.insert(env, frame);
        proof {
            assert(frames@.map_values(|e: Env| e@) =~= old_view.update(
                env as int,
                EnvV {
                    outer: old_view[env as int].outer,
                    data: frame_set(old_view[env as int].data, symbol@, atom@),
                },
            ));
        }
        self.frames = frames;
    }
}

impl Env {
    /// Makes an empty frame enclosed by `outer`, and gives its name.
    pub fn new(store: &mut EnvStore, outer: Option<EnvRef>) -> (r: EnvRef)
        requires
            outer matches Some(o) ==> o < old(store)@.len(),
        ensures
            r == old(store)@.len(),
            final(store)@ == old(store)@.push(EnvV { outer, data: FrameV::empty() }),
    {
        let frame = Env { outer, data: Vec::new() };
        proof {
            assert(frame@.data =~= FrameV::empty());
        }
        store.push_frame(frame)
    }

    /// Makes a frame enclosed by `outer` that binds the parameter names
    /// `binds` to the arguments `exprs` (see [`bind_all`]), and gives its name.
    pub fn new_with_binds(
        store: &mut EnvStore,
        outer: Option<EnvRef>,
        binds: &[String],
        exprs: &[Atom],
    ) -> (r: EnvRef)
        requires
            outer matches Some(o) ==> o < old(store)@.len(),
            binds_fit(strings_view(binds@), exprs@.len() as int, 0),
        ensures
            r == old(store)@.len(),
            final(store)@ == old(store)@.push(
                EnvV {
                    outer,
                    data: bind_all(FrameV::empty(), strings_view(binds@), atoms_view(exprs@), 0),
                },
            ),
    {
        let ghost bs = strings_view(binds@);
        let ghost xs = atoms_view(exprs@);
        proof {
            lemma_atoms_view(exprs@);
        }
        let mut frame = Env { outer, data: Vec::new() };
        proof {
            assert(frame@.data =~= FrameV::empty());
        }
        let mut amp = String::new();
        crate::text::push_char(&mut amp, '&');
        proof {
            assert(amp@ =~= ampersand());
        }
        let mut i: usize = 0;
        while i < binds.len()
            invariant
                bs == strings_view(binds@),
                amp@ == ampersand(),
                store@ == old(store)@,
                outer matches Some(o) ==> o < old(store)@.len(),
                xs == atoms_view(exprs@),
                xs.len() == exprs@.len(),
                forall|j: int| 0 <= j < exprs@.len() ==> #[trigger] xs[j] == exprs@[j]@,
                i <= binds@.len(),
                frame@.outer == outer,
                binds_fit(bs, exprs@.len() as int, i as int),
                bind_all(FrameV::empty(), bs, xs, 0) == bind_all(frame@.data, bs, xs, i as int),
            decreases binds.len() - i,
        {
            let name = &binds[i];
            if *name == amp {
                proof {
                    assert(bs[i as int] =~= ampersand());
                }
                let rest_name = &binds[i + 1];
                let mut rest: Vec<Atom> = Vec::new();
                let mut j: usize = i;
                proof {
                    assert(atoms_view(rest@) =~= xs.subrange(i as int, i as int));
                }
                while j < exprs.len()
                    invariant
                        xs == atoms_view(exprs@),
                        xs.len() == exprs@.len(),
                        forall|m: int| 0 <= m < exprs@.len() ==> #[trigger] xs[m] == exprs@[m]@,
                        i <= j <= exprs@.len(),
                        atoms_view(rest@) == xs.subrange(i as int, j as int),
                    decreases exprs.len() - j,
                {
                    let a = exprs[j].duplicate();
                    proof {
                        crate::types::lemma_atoms_view_push(rest@, a);
                        assert(xs.subrange(i as int, j + 1) =~= xs.subrange(i as int, j as int).push(
                            xs[j as int],
                        ));
                    }
                    rest.push(a);
                    j += 1;
                }
                proof {
                    assert(xs.subrange(i as int, exprs@.len() as int) =~= xs.skip(i as int));
                }
                frame.set(rest_name.as_str(), Atom::List(rest));
                let r = store.push_frame(frame);
                return r;
            }
            proof {
                assert(binds@[i as int]@ == bs[i as int]);
            }
            let a = exprs[i].duplicate();
            frame.set(name.as_str(), a);
            i += 1;
        }
        store.push_frame(frame)
    }

    /// The value of `key` seen from frame `env` (see [`env_get`]).
    pub fn get(store: &EnvStore, env: EnvRef, key: &str) -> (r: Option<Atom>)
        ensures
            match env_get(store@, env as int, key@) {
                Some(v) => r matches Some(a) && a@ == v,
                None => r is None,
            },
    {
        let n = store.len();
        let k = key.to_owned();
        let mut current = env;
        loop
            invariant
                n == store@.len(),
                frames_wf(store@),
                k@ == key@,
                env_get(store@, env as int, key@) == env_get(store@, current as int, key@),
            decreases current,
        {
            if current >= n {
                return None;
            }
            let frame = store.frame(current);
            match frame.lookup(&k) {
                Some(a) => {
                    return Some(a);
                },
                None => {},
            }
            match frame.outer {
                Some(o) => {
                    proof {
                        assert(store@[current as int].outer == Some(o));
                        assert(o < current);
                    }
                    current = o;
                },
                None => {
                    return None;
                },
            }
        }
    }
}

impl EnvStore {
    fn frame(&self, i: EnvRef) -> (r: &Env)
        requires
            i < self@.len(),
        ensures
            r@ == self@[i as int],
    {
        &self.frames[i]
    }
}

} // verus!
