//! The values of the language and their mathematical model.

use vstd::prelude::*;

verus! {

/// An environment is named by its index in the store of environments.
pub type EnvRef = usize;

/// The functions that the language provides natively.
#[derive(Clone, Copy, Debug, PartialEq, Eq, Structural)]
pub enum Builtin {
    Add,
    Sub,
    Mul,
    Div,
    List,
    IsList,
    IsEmpty,
    Count,
    Equal,
    Less,
    LessEqual,
    Greater,
    GreaterEqual,
    PrStr,
    Str,
    Prn,
    Println,
    ReadString,
    Slurp,
    Eval,
}

/// A value of the language.
#[derive(Debug)]
pub enum Atom {
    Nil,
    Bool(bool),
    Int(i32),
    Keyword(String),
    Str(String),
    Symbol(String),
    List(Vec<Atom>),
    Vector(Vec<Atom>),
    /// The entries of a map, ordered by key. The maps that reading and
    /// evaluation make have strictly increasing keys (see
    /// `laws::law_read_maps_sorted` and `laws::law_eval_map_keys_increasing`).
    Dict(Vec<(Atom, Atom)>),
    Function(Builtin),
    Lambda { params: Vec<String>, body: Box<Atom>, env: EnvRef },
}

/// The mathematical model of an [`Atom`]: text is a sequence of characters.
pub enum AtomV {
    Nil,
    Bool(bool),
    Int(i32),
    Keyword(Seq<char>),
    Str(Seq<char>),
    Symbol(Seq<char>),
    List(Seq<AtomV>),
    Vector(Seq<AtomV>),
    Dict(Seq<(AtomV, AtomV)>),
    Function(Builtin),
    Lambda(Seq<Seq<char>>, Box<AtomV>, EnvRef),
}

/// The models of strings.
pub open spec fn strings_view(s: Seq<String>) -> Seq<Seq<char>> {
    s.map_values(|x: String| x@)
}

/// The model of a value.
pub open spec fn atom_view(a: Atom) -> AtomV
    decreases a,
{
    match a {
        Atom::Nil => AtomV::Nil,
        Atom::Bool(b) => AtomV::Bool(b),
        Atom::Int(n) => AtomV::Int(n),
        Atom::Keyword(s) => AtomV::Keyword(s@),
        Atom::Str(s) => AtomV::Str(s@),
        Atom::Symbol(s) => AtomV::Symbol(s@),
        Atom::List(v) => AtomV::List(atoms_view(v@)),
        Atom::Vector(v) => AtomV::Vector(atoms_view(v@)),
        Atom::Dict(v) => AtomV::Dict(entries_view(v@)),
        Atom::Function(b) => AtomV::Function(b),
        Atom::Lambda { params, body, env } => AtomV::Lambda(
            strings_view(params@),
            Box::new(atom_view(*body)),
            env,
        ),
    }
}

/// The models of values.
pub open spec fn atoms_view(s: Seq<Atom>) -> Seq<AtomV>
    decreases s,
{
    if s.len() == 0 {
        Seq::empty()
    } else {
        atoms_view(s.subrange(0, s.len() - 1)).push(atom_view(s[s.len() - 1]))
    }
}

/// The models of map entries.
pub open spec fn entries_view(s: Seq<(Atom, Atom)>) -> Seq<(AtomV, AtomV)>
    decreases s,
{
    if s.len() == 0 {
        Seq::empty()
    } else {
        entries_view(s.subrange(0, s.len() - 1)).push(
            (atom_view(s[s.len() - 1].0), atom_view(s[s.len() - 1].1)),
        )
    }
}

impl View for Atom {
    type V = AtomV;

    open spec fn view(&self) -> AtomV {
        atom_view(*self)
    }
}


/// The models of values, position by position.
pub proof fn lemma_atoms_view(s: Seq<Atom>)
    ensures
        atoms_view(s).len() == s.len(),
        forall|i: int| 0 <= i < s.len() ==> #[trigger] atoms_view(s)[i] == atom_view(s[i]),
    decreases s.len(),
{
    if s.len() > 0 {
        lemma_atoms_view(s.subrange(0, s.len() - 1));
    }
}

/// The models of map entries, position by position.
pub proof fn lemma_entries_view(s: Seq<(Atom, Atom)>)
    ensures
        entries_view(s).len() == s.len(),
        forall|i: int|
            0 <= i < s.len() ==> #[trigger] entries_view(s)[i] == (
                atom_view(s[i].0),
                atom_view(s[i].1),
            ),
    decreases s.len(),
{
    if s.len() > 0 {
        entries_view(s.subrange(0, s.len() - 1));
        lemma_entries_view(s.subrange(0, s.len() - 1));
    }
}

/// Appending to a sequence of atoms appends to its model.
pub proof fn lemma_atoms_view_push(s: Seq<Atom>, a: Atom)
    ensures
        atoms_view(s.push(a)) == atoms_view(s).push(atom_view(a)),
{
    assert(s.push(a).subrange(0, s.len() as int) =~= s);
}

/// The models of map entries after pushing one.
pub proof fn lemma_entries_view_push(s: Seq<(Atom, Atom)>, e: (Atom, Atom))
    ensures
        entries_view(s.push(e)) == entries_view(s).push((atom_view(e.0), atom_view(e.1))),
{
    assert(s.push(e).subrange(0, s.len() as int) =~= s);
}

impl Atom {
    /// A deep copy, equal in the model.
    pub fn duplicate(&self) -> (r: Atom)
        ensures
            r@ == self@,
        decreases self,
    {
        match self {
            Atom::Nil => Atom::Nil,
            Atom::Bool(b) => Atom::Bool(*b),
            Atom::Int(n) => Atom::Int(*n),
            Atom::Keyword(s) => Atom::Keyword(s.clone()),
            Atom::Str(s) => Atom::Str(s.clone()),
            Atom::Symbol(s) => Atom::Symbol(s.clone()),
            Atom::List(v) => Atom::List(duplicate_atoms(v)),
            Atom::Vector(v) => Atom::Vector(duplicate_atoms(v)),
            Atom::Dict(v) => Atom::Dict(duplicate_entries(v)),
            Atom::Function(b) => Atom::Function(*b),
            Atom::Lambda { params, body, env } => {
                let p = duplicate_strings(params);
                let b = (**body).duplicate();
                Atom::Lambda { params: p, body: Box::new(b), env: *env }
            },
        }
    }
}

/// A deep copy of a sequence of atoms.
pub fn duplicate_atoms(v: &Vec<Atom>) -> (r: Vec<Atom>)
    ensures
        atoms_view(r@) == atoms_view(v@),
    decreases v,
{
    let mut r: Vec<Atom> = Vec::new();
    let mut i: usize = 0;
    while i < v.len()
        invariant
            i <= v.len(),
            atoms_view(r@) == atoms_view(v@.subrange(0, i as int)),
        decreases v.len() - i,
    {
        proof {
            assert(decreases_to!(v => v@[i as int]));
        }
        let a = v[i].duplicate();
        proof {
            lemma_atoms_view_push(r@, a);
            assert(v@.subrange(0, i + 1).subrange(0, i as int) =~= v@.subrange(0, i as int));
        }
        r.push(a);
        i += 1;
    }
    proof {
        assert(v@.subrange(0, v.len() as int) =~= v@);
    }
    r
}

/// A deep copy of the entries of a map.
pub fn duplicate_entries(v: &Vec<(Atom, Atom)>) -> (r: Vec<(Atom, Atom)>)
    ensures
        entries_view(r@) == entries_view(v@),
    decreases v,
{
    let mut r: Vec<(Atom, Atom)> = Vec::new();
    let mut i: usize = 0;
    while i < v.len()
        invariant
            i <= v.len(),
            entries_view(r@) == entries_view(v@.subrange(0, i as int)),
        decreases v.len() - i,
    {
        proof {
            assert(decreases_to!(v => v@[i as int]));
            assert(decreases_to!(v@[i as int] => v@[i as int].0));
        }
        let k = v[i].0.duplicate();
        let x = v[i].1.duplicate();
        proof {
            lemma_entries_view_push(r@, (k, x));
            assert(v@.subrange(0, i + 1).subrange(0, i as int) =~= v@.subrange(0, i as int));
        }
        r.push((k, x));
        i += 1;
    }
    proof {
        assert(v@.subrange(0, v.len() as int) =~= v@);
    }
    r
}

/// A copy of a sequence of strings.
pub fn duplicate_strings(v: &Vec<String>) -> (r: Vec<String>)
    ensures
        strings_view(r@) == strings_view(v@),
{
    let mut r: Vec<String> = Vec::new();
    let mut i: usize = 0;
    while i < v.len()
        invariant
            i <= v.len(),
            r@.len() == i,
            forall|j: int| 0 <= j < i ==> #[trigger] r@[j]@ == v@[j]@,
        decreases v.len() - i,
    {
        let s = v[i].clone();
        r.push(s);
        i += 1;
    }
    proof {
        assert(strings_view(r@) =~= strings_view(v@));
    }
    r
}

} // verus!
