//! The total order on values (the order a derived `Ord` gives), structural
//! equality, and maps kept sorted by key.

use vstd::prelude::*;
use crate::types::{Atom, AtomV, Builtin, atom_view, atoms_view, entries_view, strings_view, lemma_atoms_view, lemma_entries_view};
use crate::text::chars_of;


verus! {

/// -1, 0 or 1 as `x` is below, equal to or above `y`.
pub open spec fn sign_of(x: int, y: int) -> int {
    if x < y {
        -1
    } else if x == y {
        0
    } else {
        1
    }
}

/// The position of a variant in the declaration of [`Atom`].
pub open spec fn rank(a: AtomV) -> int {
    match a {
        AtomV::Nil => 0,
        AtomV::Bool(_) => 1,
        AtomV::Int(_) => 2,
        AtomV::Keyword(_) => 3,
        AtomV::Str(_) => 4,
        AtomV::Symbol(_) => 5,
        AtomV::List(_) => 6,
        AtomV::Vector(_) => 7,
        AtomV::Dict(_) => 8,
        AtomV::Function(_) => 9,
        AtomV::Lambda(..) => 10,
    }
}

/// The position of a builtin in the declaration of [`Builtin`].
pub open spec fn builtin_rank(b: Builtin) -> int {
    match b {
        Builtin::Add => 0,
        Builtin::Sub => 1,
        Builtin::Mul => 2,
        Builtin::Div => 3,
        Builtin::List => 4,
        Builtin::IsList => 5,
        Builtin::IsEmpty => 6,
        Builtin::Count => 7,
        Builtin::Equal => 8,
        Builtin::Less => 9,
        Builtin::LessEqual => 10,
        Builtin::Greater => 11,
        Builtin::GreaterEqual => 12,
        Builtin::PrStr => 13,
        Builtin::Str => 14,
        Builtin::Prn => 15,
        Builtin::Println => 16,
        Builtin::ReadString => 17,
        Builtin::Slurp => 18,
        Builtin::Eval => 19,
    }
}

/// Lexicographic order of texts, by code point.
pub open spec fn text_order(a: Seq<char>, b: Seq<char>) -> int
    decreases a.len(),
{
    if a.len() == 0 {
        if b.len() == 0 {
            0
        } else {
            -1
        }
    } else if b.len() == 0 {
        1
    } else if a[0] != b[0] {
        sign_of((a[0] as u32) as int, (b[0] as u32) as int)
    } else {
        text_order(a.skip(1), b.skip(1))
    }
}

/// Lexicographic order of sequences of texts.
pub open spec fn texts_order(a: Seq<Seq<char>>, b: Seq<Seq<char>>) -> int
    decreases a.len(),
{
    if a.len() == 0 {
        if b.len() == 0 {
            0
        } else {
            -1
        }
    } else if b.len() == 0 {
        1
    } else if text_order(a[0], b[0]) != 0 {
        text_order(a[0], b[0])
    } else {
        texts_order(a.skip(1), b.skip(1))
    }
}

/// The order of values: first by variant, then by contents.
pub open spec fn atom_order(a: AtomV, b: AtomV) -> int
    decreases a,
{
    if rank(a) != rank(b) {
        sign_of(rank(a), rank(b))
    } else {
        match (a, b) {
            (AtomV::Bool(x), AtomV::Bool(y)) => sign_of(
                if x {
                    1int
                } else {
                    0
                },
                if y {
                    1int
                } else {
                    0
                },
            ),
            (AtomV::Int(x), AtomV::Int(y)) => sign_of(x as int, y as int),
            (AtomV::Keyword(x), AtomV::Keyword(y)) => text_order(x, y),
            (AtomV::Str(x), AtomV::Str(y)) => text_order(x, y),
            (AtomV::Symbol(x), AtomV::Symbol(y)) => text_order(x, y),
            (AtomV::List(x), AtomV::List(y)) => seq_order(x, y),
            (AtomV::Vector(x), AtomV::Vector(y)) => seq_order(x, y),
            (AtomV::Dict(x), AtomV::Dict(y)) => entries_order(x, y),
            (AtomV::Function(x), AtomV::Function(y)) => sign_of(
                builtin_rank(x),
                builtin_rank(y),
            ),
            (AtomV::Lambda(p, body, e), AtomV::Lambda(q, body2, f)) => {
                if texts_order(p, q) != 0 {
                    texts_order(p, q)
                } else if atom_order(*body, *body2) != 0 {
                    atom_order(*body, *body2)
                } else {
                    sign_of(e as int, f as int)
                }
            },
            _ => 0,
        }
    }
}

/// Lexicographic order of sequences of values.
pub open spec fn seq_order(a: Seq<AtomV>, b: Seq<AtomV>) -> int
    decreases a,
{
    if a.len() == 0 {
        if b.len() == 0 {
            0
        } else {
            -1
        }
    } else if b.len() == 0 {
        1
    } else if atom_order(a[0], b[0]) != 0 {
        atom_order(a[0], b[0])
    } else {
        seq_order(a.subrange(1, a.len() as int), b.subrange(1, b.len() as int))
    }
}

/// Lexicographic order of map entries, each compared by key, then by value.
pub open spec fn entries_order(a: Seq<(AtomV, AtomV)>, b: Seq<(AtomV, AtomV)>) -> int
    decreases a,
{
    if a.len() == 0 {
        if b.len() == 0 {
            0
        } else {
            -1
        }
    } else if b.len() == 0 {
        1
    } else if atom_order(a[0].0, b[0].0) != 0 {
        atom_order(a[0].0, b[0].0)
    } else if atom_order(a[0].1, b[0].1) != 0 {
        atom_order(a[0].1, b[0].1)
    } else {
        entries_order(a.subrange(1, a.len() as int), b.subrange(1, b.len() as int))
    }
}


fn sign(x: i64, y: i64) -> (r: i8)
    ensures
        r == sign_of(x as int, y as int),
{
    if x < y {
        -1
    } else if x == y {
        0
    } else {
        1
    }
}

fn sign_index(x: usize, y: usize) -> (r: i8)
    ensures
        r == sign_of(x as int, y as int),
{
    if x < y {
        -1
    } else if x == y {
        0
    } else {
        1
    }
}

fn rank_of(a: &Atom) -> (r: i64)
    ensures
        r == rank(a@),
{
    match a {
        Atom::Nil => 0,
        Atom::Bool(_) => 1,
        Atom::Int(_) => 2,
        Atom::Keyword(_) => 3,
        Atom::Str(_) => 4,
        Atom::Symbol(_) => 5,
        Atom::List(_) => 6,
        Atom::Vector(_) => 7,
        Atom::Dict(_) => 8,
        Atom::Function(_) => 9,
        Atom::Lambda { .. } => 10,
    }
}

fn builtin_index(b: Builtin) -> (r: i64)
    ensures
        r == builtin_rank(b),
{
    match b {
        Builtin::Add => 0,
        Builtin::Sub => 1,
        Builtin::Mul => 2,
        Builtin::Div => 3,
        Builtin::List => 4,
        Builtin::IsList => 5,
        Builtin::IsEmpty => 6,
        Builtin::Count => 7,
        Builtin::Equal => 8,
        Builtin::Less => 9,
        Builtin::LessEqual => 10,
        Builtin::Greater => 11,
        Builtin::GreaterEqual => 12,
        Builtin::PrStr => 13,
        Builtin::Str => 14,
        Builtin::Prn => 15,
        Builtin::Println => 16,
        Builtin::ReadString => 17,
        Builtin::Slurp => 18,
        Builtin::Eval => 19,
    }
}

/// Compares two texts in the order [`text_order`].
pub fn compare_text(a: &String, b: &String) -> (r: i8)
    ensures
        r == text_order(a@, b@),
{
    let x = chars_of(a.as_str());
    let y = chars_of(b.as_str());
    let mut i: usize = 0;
    proof {
        assert(a@.skip(0) =~= a@);
        assert(b@.skip(0) =~= b@);
    }
    while i < x.len() && i < y.len()
        invariant
            x@ == a@,
            y@ == b@,
            i <= x.len(),
            i <= y.len(),
            text_order(a@, b@) == text_order(a@.skip(i as int), b@.skip(i as int)),
        decreases x.len() - i,
    {
        if x[i] != y[i] {
            let r = sign((x[i] as u32) as i64, (y[i] as u32) as i64);
            proof {
                assert(a@.skip(i as int)[0] == a@[i as int]);
                assert(b@.skip(i as int)[0] == b@[i as int]);
            }
            return r;
        }
        proof {
            assert(a@.skip(i as int).skip(1) =~= a@.skip(i + 1));
            assert(b@.skip(i as int).skip(1) =~= b@.skip(i + 1));
        }
        i += 1;
    }
    if i < x.len() {
        1
    } else if i < y.len() {
        -1
    } else {
        0
    }
}

/// Compares two sequences of texts in the order [`texts_order`].
pub fn compare_texts(a: &Vec<String>, b: &Vec<String>) -> (r: i8)
    ensures
        r == texts_order(strings_view(a@), strings_view(b@)),
{
    let ghost sa = strings_view(a@);
    let ghost sb = strings_view(b@);
    let mut i: usize = 0;
    proof {
        assert(sa.skip(0) =~= sa);
        assert(sb.skip(0) =~= sb);
    }
    while i < a.len() && i < b.len()
        invariant
            sa == strings_view(a@),
            sb == strings_view(b@),
            i <= a.len(),
            i <= b.len(),
            texts_order(sa, sb) == texts_order(sa.skip(i as int), sb.skip(i as int)),
        decreases a.len() - i,
    {
        let c = compare_text(&a[i], &b[i]);
        if c != 0 {
            return c;
        }
        proof {
            assert(sa.skip(i as int).skip(1) =~= sa.skip(i + 1));
            assert(sb.skip(i as int).skip(1) =~= sb.skip(i + 1));
        }
        i += 1;
    }
    if i < a.len() {
        1
    } else if i < b.len() {
        -1
    } else {
        0
    }
}

/// Compares two values in the order [`atom_order`].
pub fn compare_atoms(a: &Atom, b: &Atom) -> (r: i8)
    ensures
        r == atom_order(a@, b@),
    decreases a,
{
    let ra = rank_of(a);
    let rb = rank_of(b);
    if ra != rb {
        return sign(ra, rb);
    }
    match (a, b) {
        (Atom::Bool(x), Atom::Bool(y)) => {
            let p: i64 = if *x { 1 } else { 0 };
            let q: i64 = if *y { 1 } else { 0 };
            sign(p, q)
        },
        (Atom::Int(x), Atom::Int(y)) => sign(*x as i64, *y as i64),
        (Atom::Keyword(x), Atom::Keyword(y)) => compare_text(x, y),
        (Atom::Str(x), Atom::Str(y)) => compare_text(x, y),
        (Atom::Symbol(x), Atom::Symbol(y)) => compare_text(x, y),
        (Atom::List(x), Atom::List(y)) => compare_seqs(x, y),
        (Atom::Vector(x), Atom::Vector(y)) => compare_seqs(x, y),
        (Atom::Dict(x), Atom::Dict(y)) => compare_entries(x, y),
        (Atom::Function(x), Atom::Function(y)) => sign(builtin_index(*x), builtin_index(*y)),
        (
            Atom::Lambda { params: p, body: bx, env: e },
            Atom::Lambda { params: q, body: by, env: f },
        ) => {
            let c = compare_texts(p, q);
            if c != 0 {
                return c;
            }
            let d = compare_atoms(&**bx, &**by);
            if d != 0 {
                return d;
            }
            sign_index(*e, *f)
        },
        _ => 0,
    }
}

/// Compares two sequences of values in the order [`seq_order`].
pub fn compare_seqs(a: &Vec<Atom>, b: &Vec<Atom>) -> (r: i8)
    ensures
        r == seq_order(atoms_view(a@), atoms_view(b@)),
    decreases a,
{
    let ghost sa = atoms_view(a@);
    let ghost sb = atoms_view(b@);
    proof {
        lemma_atoms_view(a@);
        lemma_atoms_view(b@);
    }
    let mut i: usize = 0;
    proof {
        assert(sa.subrange(0, sa.len() as int) =~= sa);
        assert(sb.subrange(0, sb.len() as int) =~= sb);
    }
    while i < a.len() && i < b.len()
        invariant
            sa == atoms_view(a@),
            sb == atoms_view(b@),
            sa.len() == a@.len(),
            sb.len() == b@.len(),
            forall|j: int| 0 <= j < a@.len() ==> #[trigger] sa[j] == atom_view(a@[j]),
            forall|j: int| 0 <= j < b@.len() ==> #[trigger] sb[j] == atom_view(b@[j]),
            i <= a.len(),
            i <= b.len(),
            seq_order(sa, sb) == seq_order(
                sa.subrange(i as int, sa.len() as int),
                sb.subrange(i as int, sb.len() as int),
            ),
        decreases a.len() - i,
    {
        proof {
            assert(decreases_to!(a => a@[i as int]));
        }
        let c = compare_atoms(&a[i], &b[i]);
        proof {
            let ta = sa.subrange(i as int, sa.len() as int);
            let tb = sb.subrange(i as int, sb.len() as int);
            assert(ta[0] == sa[i as int]);
            assert(tb[0] == sb[i as int]);
            assert(ta.subrange(1, ta.len() as int) =~= sa.subrange(i + 1, sa.len() as int));
            assert(tb.subrange(1, tb.len() as int) =~= sb.subrange(i + 1, sb.len() as int));
        }
        if c != 0 {
            return c;
        }
        i += 1;
    }
    if i < a.len() {
        1
    } else if i < b.len() {
        -1
    } else {
        0
    }
}

/// Compares two sequences of map entries in the order [`entries_order`].
pub fn compare_entries(a: &Vec<(Atom, Atom)>, b: &Vec<(Atom, Atom)>) -> (r: i8)
    ensures
        r == entries_order(entries_view(a@), entries_view(b@)),
    decreases a,
{
    let ghost sa = entries_view(a@);
    let ghost sb = entries_view(b@);
    proof {
        lemma_entries_view(a@);
        lemma_entries_view(b@);
    }
    let mut i: usize = 0;
    proof {
        assert(sa.subrange(0, sa.len() as int) =~= sa);
        assert(sb.subrange(0, sb.len() as int) =~= sb);
    }
    while i < a.len() && i < b.len()
        invariant
            sa == entries_view(a@),
            sb == entries_view(b@),
            sa.len() == a@.len(),
            sb.len() == b@.len(),
            forall|j: int|
                0 <= j < a@.len() ==> #[trigger] sa[j] == (atom_view(a@[j].0), atom_view(a@[j].1)),
            forall|j: int|
                0 <= j < b@.len() ==> #[trigger] sb[j] == (atom_view(b@[j].0), atom_view(b@[j].1)),
            i <= a.len(),
            i <= b.len(),
            entries_order(sa, sb) == entries_order(
                sa.subrange(i as int, sa.len() as int),
                sb.subrange(i as int, sb.len() as int),
            ),
        decreases a.len() - i,
    {
        proof {
            assert(decreases_to!(a => a@[i as int]));
            assert(decreases_to!(a@[i as int] => a@[i as int].0));
            assert(decreases_to!(a@[i as int] => a@[i as int].1));
        }
        let c = compare_atoms(&a[i].0, &b[i].0);
        let d = compare_atoms(&a[i].1, &b[i].1);
        proof {
            let ta = sa.subrange(i as int, sa.len() as int);
            let tb = sb.subrange(i as int, sb.len() as int);
            assert(ta[0] == sa[i as int]);
            assert(tb[0] == sb[i as int]);
            assert(ta.subrange(1, ta.len() as int) =~= sa.subrange(i + 1, sa.len() as int));
            assert(tb.subrange(1, tb.len() as int) =~= sb.subrange(i + 1, sb.len() as int));
        }
        if c != 0 {
            return c;
        }
        if d != 0 {
            return d;
        }
        i += 1;
    }
    if i < a.len() {
        1
    } else if i < b.len() {
        -1
    } else {
        0
    }
}


/// A character's code, read as a `u32`, is its code point.
pub proof fn lemma_char_code(c: char)
    ensures
        (c as u32) as int == c as int,
{
}

/// Texts are equal exactly when neither comes before the other.
pub proof fn lemma_text_order_zero(a: Seq<char>, b: Seq<char>)
    ensures
        text_order(a, b) == 0 <==> a == b,
    decreases a.len(),
{
    if a.len() > 0 && b.len() > 0 && a[0] == b[0] {
        lemma_text_order_zero(a.skip(1), b.skip(1));
        if a.skip(1) == b.skip(1) {
            assert(a =~= seq![a[0]] + a.skip(1));
            assert(b =~= seq![b[0]] + b.skip(1));
        }
        if a == b {
            assert(a.skip(1) =~= b.skip(1));
        }
    }
    if a.len() > 0 && b.len() > 0 && a[0] != b[0] {
        lemma_char_code(a[0]);
        lemma_char_code(b[0]);
        assert((a[0] as int) != (b[0] as int));
    }
    if a.len() == 0 && b.len() == 0 {
        assert(a =~= b);
    }
}

/// Sequences of texts are equal exactly when neither comes before the other.
pub proof fn lemma_texts_order_zero(a: Seq<Seq<char>>, b: Seq<Seq<char>>)
    ensures
        texts_order(a, b) == 0 <==> a == b,
    decreases a.len(),
{
    if a.len() == 0 && b.len() == 0 {
        assert(a =~= b);
    }
    if a.len() > 0 && b.len() > 0 {
        lemma_text_order_zero(a[0], b[0]);
        if text_order(a[0], b[0]) == 0 {
            lemma_texts_order_zero(a.skip(1), b.skip(1));
            if a.skip(1) == b.skip(1) {
                assert(a =~= seq![a[0]] + a.skip(1));
                assert(b =~= seq![b[0]] + b.skip(1));
            }
            if a == b {
                assert(a.skip(1) =~= b.skip(1));
            }
        }
    }
}

/// Values are equal exactly when neither comes before the other.
pub proof fn lemma_atom_order_zero(a: AtomV, b: AtomV)
    ensures
        atom_order(a, b) == 0 <==> a == b,
    decreases a,
{
    if rank(a) == rank(b) {
        match (a, b) {
            (AtomV::Keyword(x), AtomV::Keyword(y)) => lemma_text_order_zero(x, y),
            (AtomV::Str(x), AtomV::Str(y)) => lemma_text_order_zero(x, y),
            (AtomV::Symbol(x), AtomV::Symbol(y)) => lemma_text_order_zero(x, y),
            (AtomV::List(x), AtomV::List(y)) => lemma_seq_order_zero(x, y),
            (AtomV::Vector(x), AtomV::Vector(y)) => lemma_seq_order_zero(x, y),
            (AtomV::Dict(x), AtomV::Dict(y)) => lemma_entries_order_zero(x, y),
            (AtomV::Function(x), AtomV::Function(y)) => {
                assert(builtin_rank(x) == builtin_rank(y) ==> x == y);
            },
            (AtomV::Lambda(p, bx, e), AtomV::Lambda(q, by, f)) => {
                lemma_texts_order_zero(p, q);
                lemma_atom_order_zero(*bx, *by);
            },
            _ => {},
        }
    }
}

/// Sequences of values are equal exactly when neither comes before the other.
pub proof fn lemma_seq_order_zero(a: Seq<AtomV>, b: Seq<AtomV>)
    ensures
        seq_order(a, b) == 0 <==> a == b,
    decreases a,
{
    if a.len() == 0 && b.len() == 0 {
        assert(a =~= b);
    }
    if a.len() > 0 && b.len() > 0 {
        lemma_atom_order_zero(a[0], b[0]);
        if atom_order(a[0], b[0]) == 0 {
            let ta = a.subrange(1, a.len() as int);
            let tb = b.subrange(1, b.len() as int);
            lemma_seq_order_zero(ta, tb);
            if ta == tb {
                assert(a =~= seq![a[0]] + ta);
                assert(b =~= seq![b[0]] + tb);
            }
            if a == b {
                assert(ta =~= tb);
            }
        }
    }
}

/// Map entries are equal exactly when neither comes before the other.
pub proof fn lemma_entries_order_zero(a: Seq<(AtomV, AtomV)>, b: Seq<(AtomV, AtomV)>)
    ensures
        entries_order(a, b) == 0 <==> a == b,
    decreases a,
{
    if a.len() == 0 && b.len() == 0 {
        assert(a =~= b);
    }
    if a.len() > 0 && b.len() > 0 {
        lemma_atom_order_zero(a[0].0, b[0].0);
        lemma_atom_order_zero(a[0].1, b[0].1);
        if atom_order(a[0].0, b[0].0) == 0 && atom_order(a[0].1, b[0].1) == 0 {
            let ta = a.subrange(1, a.len() as int);
            let tb = b.subrange(1, b.len() as int);
            lemma_entries_order_zero(ta, tb);
            if ta == tb {
                assert(a =~= seq![a[0]] + ta);
                assert(b =~= seq![b[0]] + tb);
            }
            if a == b {
                assert(ta =~= tb);
            }
        }
    }
}

/// Texts compare the other way round when swapped.
pub proof fn lemma_text_order_flip(a: Seq<char>, b: Seq<char>)
    ensures
        text_order(b, a) == -text_order(a, b),
    decreases a.len(),
{
    if a.len() > 0 && b.len() > 0 && a[0] == b[0] {
        lemma_text_order_flip(a.skip(1), b.skip(1));
    }
}

/// Sequences of texts compare the other way round when swapped.
pub proof fn lemma_texts_order_flip(a: Seq<Seq<char>>, b: Seq<Seq<char>>)
    ensures
        texts_order(b, a) == -texts_order(a, b),
    decreases a.len(),
{
    if a.len() > 0 && b.len() > 0 {
        lemma_text_order_flip(a[0], b[0]);
        lemma_texts_order_flip(a.skip(1), b.skip(1));
    }
}

/// Values compare the other way round when swapped.
pub proof fn lemma_atom_order_flip(a: AtomV, b: AtomV)
    ensures
        atom_order(b, a) == -atom_order(a, b),
    decreases a,
{
    if rank(a) == rank(b) {
        match (a, b) {
            (AtomV::Keyword(x), AtomV::Keyword(y)) => lemma_text_order_flip(x, y),
            (AtomV::Str(x), AtomV::Str(y)) => lemma_text_order_flip(x, y),
            (AtomV::Symbol(x), AtomV::Symbol(y)) => lemma_text_order_flip(x, y),
            (AtomV::List(x), AtomV::List(y)) => lemma_seq_order_flip(x, y),
            (AtomV::Vector(x), AtomV::Vector(y)) => lemma_seq_order_flip(x, y),
            (AtomV::Dict(x), AtomV::Dict(y)) => lemma_entries_order_flip(x, y),
            (AtomV::Lambda(p, bx, e), AtomV::Lambda(q, by, f)) => {
                lemma_texts_order_flip(p, q);
                lemma_atom_order_flip(*bx, *by);
            },
            _ => {},
        }
    }
}

/// Sequences of values compare the other way round when swapped.
pub proof fn lemma_seq_order_flip(a: Seq<AtomV>, b: Seq<AtomV>)
    ensures
        seq_order(b, a) == -seq_order(a, b),
    decreases a,
{
    if a.len() > 0 && b.len() > 0 {
        lemma_atom_order_flip(a[0], b[0]);
        lemma_seq_order_flip(a.subrange(1, a.len() as int), b.subrange(1, b.len() as int));
    }
}

/// Map entries compare the other way round when swapped.
pub proof fn lemma_entries_order_flip(a: Seq<(AtomV, AtomV)>, b: Seq<(AtomV, AtomV)>)
    ensures
        entries_order(b, a) == -entries_order(a, b),
    decreases a,
{
    if a.len() > 0 && b.len() > 0 {
        lemma_atom_order_flip(a[0].0, b[0].0);
        lemma_atom_order_flip(a[0].1, b[0].1);
        lemma_entries_order_flip(a.subrange(1, a.len() as int), b.subrange(1, b.len() as int));
    }
}

/// Text order is transitive.
pub proof fn lemma_text_order_trans(a: Seq<char>, b: Seq<char>, c: Seq<char>)
    requires
        text_order(a, b) < 0,
        text_order(b, c) < 0,
    ensures
        text_order(a, c) < 0,
    decreases a.len(),
{
    if a.len() > 0 && b.len() > 0 && c.len() > 0 {
        lemma_char_code(a[0]);
        lemma_char_code(b[0]);
        lemma_char_code(c[0]);
        if a[0] == b[0] && b[0] == c[0] {
            lemma_text_order_trans(a.skip(1), b.skip(1), c.skip(1));
        }
    }
}

/// The order of sequences of texts is transitive.
pub proof fn lemma_texts_order_trans(a: Seq<Seq<char>>, b: Seq<Seq<char>>, c: Seq<Seq<char>>)
    requires
        texts_order(a, b) < 0,
        texts_order(b, c) < 0,
    ensures
        texts_order(a, c) < 0,
    decreases a.len(),
{
    if a.len() > 0 && b.len() > 0 && c.len() > 0 {
        lemma_text_order_zero(a[0], b[0]);
        lemma_text_order_zero(b[0], c[0]);
        lemma_text_order_zero(a[0], c[0]);
        if text_order(a[0], b[0]) != 0 && text_order(b[0], c[0]) != 0 {
            lemma_text_order_trans(a[0], b[0], c[0]);
        }
        if text_order(a[0], b[0]) == 0 && text_order(b[0], c[0]) == 0 {
            lemma_texts_order_trans(a.skip(1), b.skip(1), c.skip(1));
        }
    }
}

/// The order of values is transitive.
pub proof fn lemma_atom_order_trans(a: AtomV, b: AtomV, c: AtomV)
    requires
        atom_order(a, b) < 0,
        atom_order(b, c) < 0,
    ensures
        atom_order(a, c) < 0,
    decreases a,
{
    if rank(a) == rank(b) && rank(b) == rank(c) {
        match (a, b, c) {
            (AtomV::Keyword(x), AtomV::Keyword(y), AtomV::Keyword(z)) => lemma_text_order_trans(x, y, z),
            (AtomV::Str(x), AtomV::Str(y), AtomV::Str(z)) => lemma_text_order_trans(x, y, z),
            (AtomV::Symbol(x), AtomV::Symbol(y), AtomV::Symbol(z)) => lemma_text_order_trans(x, y, z),
            (AtomV::List(x), AtomV::List(y), AtomV::List(z)) => lemma_seq_order_trans(x, y, z),
            (AtomV::Vector(x), AtomV::Vector(y), AtomV::Vector(z)) => lemma_seq_order_trans(x, y, z),
            (AtomV::Dict(x), AtomV::Dict(y), AtomV::Dict(z)) => lemma_entries_order_trans(x, y, z),
            (AtomV::Lambda(p, bx, e), AtomV::Lambda(q, by, f), AtomV::Lambda(r, bz, g)) => {
                lemma_texts_order_zero(p, q);
                lemma_texts_order_zero(q, r);
                lemma_texts_order_zero(p, r);
                lemma_atom_order_zero(*bx, *by);
                lemma_atom_order_zero(*by, *bz);
                lemma_atom_order_zero(*bx, *bz);
                if texts_order(p, q) != 0 && texts_order(q, r) != 0 {
                    lemma_texts_order_trans(p, q, r);
                }
                if texts_order(p, q) == 0 && texts_order(q, r) == 0 && atom_order(*bx, *by) != 0
                    && atom_order(*by, *bz) != 0 {
                    lemma_atom_order_trans(*bx, *by, *bz);
                }
            },
            _ => {},
        }
    }
}

/// The order of sequences of values is transitive.
pub proof fn lemma_seq_order_trans(a: Seq<AtomV>, b: Seq<AtomV>, c: Seq<AtomV>)
    requires
        seq_order(a, b) < 0,
        seq_order(b, c) < 0,
    ensures
        seq_order(a, c) < 0,
    decreases a,
{
    if a.len() > 0 && b.len() > 0 && c.len() > 0 {
        lemma_atom_order_zero(a[0], b[0]);
        lemma_atom_order_zero(b[0], c[0]);
        lemma_atom_order_zero(a[0], c[0]);
        if atom_order(a[0], b[0]) != 0 && atom_order(b[0], c[0]) != 0 {
            lemma_atom_order_trans(a[0], b[0], c[0]);
        }
        if atom_order(a[0], b[0]) == 0 && atom_order(b[0], c[0]) == 0 {
            lemma_seq_order_trans(
                a.subrange(1, a.len() as int),
                b.subrange(1, b.len() as int),
                c.subrange(1, c.len() as int),
            );
        }
    }
}

/// The order of map entries is transitive.
pub proof fn lemma_entries_order_trans(
    a: Seq<(AtomV, AtomV)>,
    b: Seq<(AtomV, AtomV)>,
    c: Seq<(AtomV, AtomV)>,
)
    requires
        entries_order(a, b) < 0,
        entries_order(b, c) < 0,
    ensures
        entries_order(a, c) < 0,
    decreases a,
{
    if a.len() > 0 && b.len() > 0 && c.len() > 0 {
        lemma_atom_order_zero(a[0].0, b[0].0);
        lemma_atom_order_zero(b[0].0, c[0].0);
        lemma_atom_order_zero(a[0].0, c[0].0);
        lemma_atom_order_zero(a[0].1, b[0].1);
        lemma_atom_order_zero(b[0].1, c[0].1);
        lemma_atom_order_zero(a[0].1, c[0].1);
        if atom_order(a[0].0, b[0].0) != 0 && atom_order(b[0].0, c[0].0) != 0 {
            lemma_atom_order_trans(a[0].0, b[0].0, c[0].0);
        }
        if atom_order(a[0].0, b[0].0) == 0 && atom_order(b[0].0, c[0].0) == 0 {
            if atom_order(a[0].1, b[0].1) != 0 && atom_order(b[0].1, c[0].1) != 0 {
                lemma_atom_order_trans(a[0].1, b[0].1, c[0].1);
            }
            if atom_order(a[0].1, b[0].1) == 0 && atom_order(b[0].1, c[0].1) == 0 {
                lemma_entries_order_trans(
                    a.subrange(1, a.len() as int),
                    b.subrange(1, b.len() as int),
                    c.subrange(1, c.len() as int),
                );
            }
        }
    }
}

/// Structural equality of two values.
pub fn atoms_equal(a: &Atom, b: &Atom) -> (r: bool)
    ensures
        r == (a@ == b@),
{
    let c = compare_atoms(a, b);
    proof {
        lemma_atom_order_zero(a@, b@);
    }
    c == 0
}


/// The entries of a map after binding `k` to `v`: the entries stay ordered by
/// key; where a key equal to `k` is present, its value is replaced.
pub open spec fn dict_insert(es: Seq<(AtomV, AtomV)>, k: AtomV, v: AtomV) -> Seq<(AtomV, AtomV)>
    decreases es.len(),
{
    if es.len() == 0 {
        seq![(k, v)]
    } else if atom_order(k, es[0].0) < 0 {
        seq![(k, v)] + es
    } else if atom_order(k, es[0].0) == 0 {
        seq![(es[0].0, v)] + es.skip(1)
    } else {
        seq![es[0]] + dict_insert(es.skip(1), k, v)
    }
}

proof fn lemma_dict_insert_skip(es: Seq<(AtomV, AtomV)>, k: AtomV, v: AtomV, i: int)
    requires
        0 <= i <= es.len(),
        forall|j: int| 0 <= j < i ==> atom_order(k, #[trigger] es[j].0) > 0,
    ensures
        dict_insert(es, k, v) == es.take(i) + dict_insert(es.skip(i), k, v),
    decreases i,
{
    if i == 0 {
        assert(es.skip(0) =~= es);
        assert(es.take(0) + dict_insert(es, k, v) =~= dict_insert(es, k, v));
    } else {
        assert(atom_order(k, es[0].0) > 0);
        let t = es.skip(1);
        assert forall|j: int| 0 <= j < i - 1 implies atom_order(k, #[trigger] t[j].0) > 0 by {
            assert(t[j] == es[j + 1]);
        }
        lemma_dict_insert_skip(t, k, v, i - 1);
        assert(t.skip(i - 1) =~= es.skip(i));
        assert(seq![es[0]] + t.take(i - 1) =~= es.take(i));
        assert(dict_insert(es, k, v) == seq![es[0]] + dict_insert(t, k, v));
        assert(seq![es[0]] + (t.take(i - 1) + dict_insert(es.skip(i), k, v)) =~= es.take(i)
            + dict_insert(es.skip(i), k, v));
    }
}

/// Binds `k` to `v` in the entries of a map, as [`dict_insert`] says.
pub fn insert_entry(es: &mut Vec<(Atom, Atom)>, k: Atom, v: Atom)
    ensures
        entries_view(final(es)@) == dict_insert(entries_view(old(es)@), k@, v@),
{
    let ghost e0 = entries_view(es@);
    proof {
        lemma_entries_view(es@);
    }
    let mut i: usize = 0;
    while i < es.len() && compare_atoms(&k, &es[i].0) > 0
        invariant
            e0 == entries_view(es@),
            e0.len() == es@.len(),
            es@ == old(es)@,
            forall|j: int|
                0 <= j < es@.len() ==> #[trigger] e0[j] == (atom_view(es@[j].0), atom_view(es@[j].1)),
            i <= es.len(),
            forall|j: int| 0 <= j < i ==> atom_order(k@, #[trigger] e0[j].0) > 0,
        decreases es.len() - i,
    {
        i += 1;
    }
    let mut c: i8 = 1;
    if i < es.len() {
        c = compare_atoms(&k, &es[i].0);
    }
    proof {
        lemma_dict_insert_skip(e0, k@, v@, i as int);
    }
    if i == es.len() {
        proof {
            assert(e0.skip(i as int) =~= Seq::<(AtomV, AtomV)>::empty());
            crate::types::lemma_entries_view_push(es@, (k, v));
        }
        es.push((k, v));
        proof {
            assert(e0.take(i as int) =~= e0);
            assert(e0.take(i as int) + seq![(k@, v@)] =~= e0.push((k@, v@)));
        }
    } else if c == 0 {
        proof {
            lemma_atom_order_zero(k@, e0[i as int].0);
        }
        let ghost kv = (k@, v@);
        es.set(i, (k, v));
        proof {
            lemma_entries_view(es@);
            let target = e0.take(i as int) + (seq![(e0[i as int].0, v@)] + e0.skip(i as int).skip(1));
            assert(entries_view(es@) =~= target);
        }
    } else {
        es.insert(i, (k, v));
        proof {
            lemma_entries_view(es@);
            let target = e0.take(i as int) + (seq![(k@, v@)] + e0.skip(i as int));
            assert(entries_view(es@) =~= target);
        }
    }
}

} // verus!
