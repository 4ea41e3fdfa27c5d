//! Turning a value back into text.

use vstd::prelude::*;
use crate::types::{Atom, AtomV, atom_view, lemma_atoms_view, lemma_entries_view};
use crate::text::{push_char, push_text, int_text, int_to_string};

verus! {

/// The escape sequence for one character inside a readable string literal.
pub open spec fn escape_char(c: char) -> Seq<char> {
    if c == '\\' {
        seq!['\\', '\\']
    } else if c == '\n' {
        seq!['\\', 'n']
    } else if c == '"' {
        seq!['\\', '"']
    } else {
        seq![c]
    }
}

/// A text with backslashes, newlines and double quotes escaped.
pub open spec fn escape_text(s: Seq<char>) -> Seq<char>
    decreases s.len(),
{
    if s.len() == 0 {
        Seq::empty()
    } else {
        escape_text(s.subrange(0, s.len() - 1)) + escape_char(s[s.len() - 1])
    }
}

pub open spec fn nil_text() -> Seq<char> {
    seq!['n', 'i', 'l']
}

pub open spec fn true_text() -> Seq<char> {
    seq!['t', 'r', 'u', 'e']
}

pub open spec fn false_text() -> Seq<char> {
    seq!['f', 'a', 'l', 's', 'e']
}

pub open spec fn function_text() -> Seq<char> {
    seq!['#', '<', 'f', 'u', 'n', 'c', 't', 'i', 'o', 'n', '>']
}

/// The printed form of a value. With `readably`, strings are quoted and escaped.
pub open spec fn print_spec(a: AtomV, readably: bool) -> Seq<char>
    decreases a,
{
    match a {
        AtomV::Nil => nil_text(),
        AtomV::Bool(b) => if b {
            true_text()
        } else {
            false_text()
        },
        AtomV::Int(n) => int_text(n as int),
        AtomV::Keyword(s) => seq![':'] + s,
        AtomV::Str(s) => if readably {
            seq!['"'] + escape_text(s) + seq!['"']
        } else {
            s
        },
        AtomV::Symbol(s) => s,
        AtomV::List(xs) => seq!['('] + print_joined(xs, readably) + seq![')'],
        AtomV::Vector(xs) => seq!['['] + print_joined(xs, readably) + seq![']'],
        AtomV::Dict(es) => seq!['{'] + print_entries(es, readably) + seq!['}'],
        AtomV::Function(_) => function_text(),
        AtomV::Lambda(..) => function_text(),
    }
}

/// The printed forms of values, separated by single spaces.
pub open spec fn print_joined(xs: Seq<AtomV>, readably: bool) -> Seq<char>
    decreases xs,
{
    if xs.len() == 0 {
        Seq::empty()
    } else if xs.len() == 1 {
        print_spec(xs[0], readably)
    } else {
        print_joined(xs.subrange(0, xs.len() - 1), readably) + seq![' '] + print_spec(
            xs[xs.len() - 1],
            readably,
        )
    }
}

/// The printed form of one map entry: key, a space, value.
pub open spec fn print_entry(e: (AtomV, AtomV), readably: bool) -> Seq<char>
    decreases e,
{
    print_spec(e.0, readably) + seq![' '] + print_spec(e.1, readably)
}

/// The printed map entries, separated by single spaces.
pub open spec fn print_entries(es: Seq<(AtomV, AtomV)>, readably: bool) -> Seq<char>
    decreases es,
{
    if es.len() == 0 {
        Seq::empty()
    } else if es.len() == 1 {
        print_entry(es[0], readably)
    } else {
        print_entries(es.subrange(0, es.len() - 1), readably) + seq![' '] + print_entry(
            es[es.len() - 1],
            readably,
        )
    }
}

fn push_escaped(out: &mut String, s: &String)
    ensures
        final(out)@ == old(out)@ + escape_text(s@),
{
    let chars = crate::text::chars_of(s.as_str());
    let mut i: usize = 0;
    while i < chars.len()
        invariant
            chars@ == s@,
            i <= chars@.len(),
            out@ == old(out)@ + escape_text(s@.subrange(0, i as int)),
        decreases chars.len() - i,
    {
        let c = chars[i];
        if c == '\\' {
            push_char(out, '\\');
            push_char(out, '\\');
        } else if c == '\n' {
            push_char(out, '\\');
            push_char(out, 'n');
        } else if c == '"' {
            push_char(out, '\\');
            push_char(out, '"');
        } else {
            push_char(out, c);
        }
        proof {
            assert(s@.subrange(0, i + 1).subrange(0, i as int) =~= s@.subrange(0, i as int));
            assert(out@ =~= old(out)@ + escape_text(s@.subrange(0, i + 1)));
        }
        i += 1;
    }
    proof {
        assert(s@.subrange(0, chars@.len() as int) =~= s@);
    }
}

fn push_function_text(out: &mut String)
    ensures
        final(out)@ == old(out)@ + function_text(),
{
    push_char(out, '#');
    push_char(out, '<');
    push_char(out, 'f');
    push_char(out, 'u');
    push_char(out, 'n');
    push_char(out, 'c');
    push_char(out, 't');
    push_char(out, 'i');
    push_char(out, 'o');
    push_char(out, 'n');
    push_char(out, '>');
    proof {
        assert(out@ =~= old(out)@ + function_text());
    }
}

/// Appends the printed form of `atom` to `out`.
pub fn print_into(out: &mut String, atom: &Atom, readably: bool)
    ensures
        final(out)@ == old(out)@ + print_spec(atom@, readably),
    decreases atom,
{
    match atom {
        Atom::Nil => {
            push_char(out, 'n');
            push_char(out, 'i');
            push_char(out, 'l');
        },
        Atom::Bool(b) => {
            if *b {
                push_char(out, 't');
                push_char(out, 'r');
                push_char(out, 'u');
                push_char(out, 'e');
            } else {
                push_char(out, 'f');
                push_char(out, 'a');
                push_char(out, 'l');
                push_char(out, 's');
                push_char(out, 'e');
            }
        },
        Atom::Int(n) => {
            let t = int_to_string(*n);
            push_text(out, &t);
        },
        Atom::Keyword(s) => {
            push_char(out, ':');
            push_text(out, s);
        },
        Atom::Str(s) => {
            if readably {
                push_char(out, '"');
                push_escaped(out, s);
                push_char(out, '"');
            } else {
                push_text(out, s);
            }
        },
        Atom::Symbol(s) => {
            push_text(out, s);
        },
        Atom::List(xs) => {
            push_char(out, '(');
            print_all_into(out, xs, readably);
            push_char(out, ')');
        },
        Atom::Vector(xs) => {
            push_char(out, '[');
            print_all_into(out, xs, readably);
            push_char(out, ']');
        },
        Atom::Dict(es) => {
            push_char(out, '{');
            print_entries_into(out, es, readably);
            push_char(out, '}');
        },
        Atom::Function(_) => {
            push_function_text(out);
        },
        Atom::Lambda { .. } => {
            push_function_text(out);
        },
    }
    proof {
        assert(final(out)@ =~= old(out)@ + print_spec(atom@, readably));
    }
}

/// Appends the printed forms of `xs`, separated by spaces, to `out`.
pub fn print_all_into(out: &mut String, xs: &Vec<Atom>, readably: bool)
    ensures
        final(out)@ == old(out)@ + print_joined(crate::types::atoms_view(xs@), readably),
    decreases xs,
{
    let ghost v = crate::types::atoms_view(xs@);
    proof {
        lemma_atoms_view(xs@);
    }
    let mut i: usize = 0;
    while i < xs.len()
        invariant
            v == crate::types::atoms_view(xs@),
            v.len() == xs@.len(),
            forall|j: int| 0 <= j < xs@.len() ==> #[trigger] v[j] == atom_view(xs@[j]),
            i <= xs.len(),
            out@ == old(out)@ + print_joined(v.subrange(0, i as int), readably),
        decreases xs.len() - i,
    {
        proof {
            assert(decreases_to!(xs => xs@[i as int]));
        }
        if i > 0 {
            push_char(out, ' ');
        }
        print_into(out, &xs[i], readably);
        proof {
            let t = v.subrange(0, i + 1);
            assert(t.subrange(0, i as int) =~= v.subrange(0, i as int));
            assert(t[i as int] == v[i as int]);
            if i == 0 {
                assert(out@ =~= old(out)@ + print_joined(t, readably));
            } else {
                assert(out@ =~= old(out)@ + print_joined(t, readably));
            }
        }
        i += 1;
    }
    proof {
        assert(v.subrange(0, v.len() as int) =~= v);
    }
}

/// Appends the printed map entries to `out`.
pub fn print_entries_into(out: &mut String, es: &Vec<(Atom, Atom)>, readably: bool)
    ensures
        final(out)@ == old(out)@ + print_entries(crate::types::entries_view(es@), readably),
    decreases es,
{
    let ghost v = crate::types::entries_view(es@);
    proof {
        lemma_entries_view(es@);
    }
    let mut i: usize = 0;
    while i < es.len()
        invariant
            v == crate::types::entries_view(es@),
            v.len() == es@.len(),
            forall|j: int|
                0 <= j < es@.len() ==> #[trigger] v[j] == (atom_view(es@[j].0), atom_view(es@[j].1)),
            i <= es.len(),
            out@ == old(out)@ + print_entries(v.subrange(0, i as int), readably),
        decreases es.len() - i,
    {
        proof {
            assert(decreases_to!(es => es@[i as int]));
            assert(decreases_to!(es@[i as int] => es@[i as int].0));
            assert(decreases_to!(es@[i as int] => es@[i as int].1));
        }
        if i > 0 {
            push_char(out, ' ');
        }
        print_into(out, &es[i].0, readably);
        push_char(out, ' ');
        print_into(out, &es[i].1, readably);
        proof {
            let t = v.subrange(0, i + 1);
            assert(t.subrange(0, i as int) =~= v.subrange(0, i as int));
            assert(t[i as int] == v[i as int]);
            assert(print_entry(t[i as int], readably) == print_spec(atom_view(es@[i as int].0), readably)
                + seq![' '] + print_spec(atom_view(es@[i as int].1), readably));
            if i == 0 {
                assert(out@ =~= old(out)@ + print_entries(t, readably));
            } else {
                assert(out@ =~= old(out)@ + print_entries(t, readably));
            }
        }
        i += 1;
    }
    proof {
        assert(v.subrange(0, v.len() as int) =~= v);
    }
}

/// The printed form of a value: strings are quoted and escaped when
/// `print_readably` holds.
pub fn print_str(atom: &Atom, print_readably: bool) -> (r: String)
    ensures
        r@ == print_spec(atom@, print_readably),
{
    let mut out = String::new();
    print_into(&mut out, atom, print_readably);
    proof {
        assert(out@ =~= print_spec(atom@, print_readably));
    }
    out
}

} // verus!
