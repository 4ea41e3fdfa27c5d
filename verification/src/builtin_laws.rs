//! Laws of the builtins, the printer and white space, stated against
//! integer arithmetic, lengths, equality and characters.

use vstd::prelude::*;
use crate::types::{AtomV, Builtin};
use crate::core_lib::pure_builtin_spec;
use crate::printer::{print_spec, print_joined, print_entry, print_entries};
use crate::text::is_white;
use crate::reader::{tokens_from, is_plain, read_str_spec, error_message};

verus! {

/// `count` gives the length of a list or a vector given as its first argument.
pub proof fn law_count(xs: Seq<AtomV>, rest: Seq<AtomV>)
    requires
        xs.len() <= i32::MAX,
    ensures
        pure_builtin_spec(Builtin::Count, seq![AtomV::List(xs)] + rest) == Ok::<AtomV, Seq<char>>(
            AtomV::Int(xs.len() as i32),
        ),
        pure_builtin_spec(Builtin::Count, seq![AtomV::Vector(xs)] + rest) == Ok::<AtomV, Seq<char>>(
            AtomV::Int(xs.len() as i32),
        ),
{
    assert((seq![AtomV::List(xs)] + rest)[0] == AtomV::List(xs));
    assert((seq![AtomV::Vector(xs)] + rest)[0] == AtomV::Vector(xs));
}

/// `list` gives the list of its arguments; `list?` tells whether its first
/// argument is a list; `empty?` tells whether a list or vector has no
/// elements.
pub proof fn law_list_builtins(args: Seq<AtomV>, xs: Seq<AtomV>, rest: Seq<AtomV>)
    ensures
        pure_builtin_spec(Builtin::List, args) == Ok::<AtomV, Seq<char>>(AtomV::List(args)),
        args.len() > 0 ==> pure_builtin_spec(Builtin::IsList, args) == Ok::<AtomV, Seq<char>>(
            AtomV::Bool(args[0] is List),
        ),
        pure_builtin_spec(Builtin::IsList, seq![AtomV::List(xs)] + rest) == Ok::<AtomV, Seq<char>>(
            AtomV::Bool(true),
        ),
        pure_builtin_spec(Builtin::IsList, seq![AtomV::Vector(xs)] + rest) == Ok::<AtomV, Seq<char>>(
            AtomV::Bool(false),
        ),
        pure_builtin_spec(Builtin::IsEmpty, seq![AtomV::List(xs)] + rest) == Ok::<AtomV, Seq<char>>(
            AtomV::Bool(xs.len() == 0),
        ),
        pure_builtin_spec(Builtin::IsEmpty, seq![AtomV::Vector(xs)] + rest) == Ok::<AtomV, Seq<char>>(
            AtomV::Bool(xs.len() == 0),
        ),
{
    assert((seq![AtomV::List(xs)] + rest)[0] == AtomV::List(xs));
    assert((seq![AtomV::Vector(xs)] + rest)[0] == AtomV::Vector(xs));
}

/// `+`, `-` and `*` on two integers give the exact result when it fits in
/// an `i32`, and an overflow error when it does not.
pub proof fn law_integer_arithmetic(x: i32, y: i32)
    ensures
        pure_builtin_spec(Builtin::Add, seq![AtomV::Int(x), AtomV::Int(y)]) == (if i32::MIN <= x + y
            <= i32::MAX {
            Ok::<AtomV, Seq<char>>(AtomV::Int((x + y) as i32))
        } else {
            Err("integer overflow"@)
        }),
        pure_builtin_spec(Builtin::Sub, seq![AtomV::Int(x), AtomV::Int(y)]) == (if i32::MIN <= x - y
            <= i32::MAX {
            Ok::<AtomV, Seq<char>>(AtomV::Int((x - y) as i32))
        } else {
            Err("integer overflow"@)
        }),
        pure_builtin_spec(Builtin::Mul, seq![AtomV::Int(x), AtomV::Int(y)]) == (if i32::MIN <= x * y
            <= i32::MAX {
            Ok::<AtomV, Seq<char>>(AtomV::Int((x * y) as i32))
        } else {
            Err("integer overflow"@)
        }),
{
}

/// `<`, `<=`, `>` and `>=` on two integers compare them in integer order.
pub proof fn law_integer_comparison(x: i32, y: i32)
    ensures
        pure_builtin_spec(Builtin::Less, seq![AtomV::Int(x), AtomV::Int(y)]) == Ok::<AtomV, Seq<char>>(
            AtomV::Bool(x < y),
        ),
        pure_builtin_spec(Builtin::LessEqual, seq![AtomV::Int(x), AtomV::Int(y)]) == Ok::<
            AtomV,
            Seq<char>,
        >(AtomV::Bool(x <= y)),
        pure_builtin_spec(Builtin::Greater, seq![AtomV::Int(x), AtomV::Int(y)]) == Ok::<
            AtomV,
            Seq<char>,
        >(AtomV::Bool(x > y)),
        pure_builtin_spec(Builtin::GreaterEqual, seq![AtomV::Int(x), AtomV::Int(y)]) == Ok::<
            AtomV,
            Seq<char>,
        >(AtomV::Bool(x >= y)),
{
}

/// `/` on two integers divides rounding toward zero: the quotient `q` leaves
/// a remainder `x - q * y` smaller than `y` in size and of the sign of `x`.
/// Dividing by zero is an error, and so is the one quotient that does not
/// fit in an `i32`.
pub proof fn law_integer_division(x: i32, y: i32)
    ensures
        y == 0 ==> pure_builtin_spec(Builtin::Div, seq![AtomV::Int(x), AtomV::Int(y)]) == Err::<
            AtomV,
            Seq<char>,
        >("division by zero"@),
        x == i32::MIN && y == -1 ==> pure_builtin_spec(Builtin::Div, seq![AtomV::Int(x), AtomV::Int(y)])
            == Err::<AtomV, Seq<char>>("integer overflow"@),
        y != 0 && !(x == i32::MIN && y == -1) ==> (pure_builtin_spec(
            Builtin::Div,
            seq![AtomV::Int(x), AtomV::Int(y)],
        ) matches Ok(AtomV::Int(q)) && {
            let r = x - q * y;
            &&& (if r >= 0 {
                r
            } else {
                -r
            }) < (if y >= 0 {
                y as int
            } else {
                -y
            })
            &&& (r == 0 || (r > 0) == (x > 0))
        }),
{
    if y != 0 {
        let a: int = if x >= 0 {
            x as int
        } else {
            -x
        };
        let b: int = if y >= 0 {
            y as int
        } else {
            -y
        };
        vstd::arithmetic::div_mod::lemma_fundamental_div_mod(a, b);
        vstd::arithmetic::div_mod::lemma_mod_pos_bound(a, b);
        let qa = a / b;
        let m = a % b;
        assert(a == b * qa + m);
        assert(0 <= qa) by {
            vstd::arithmetic::div_mod::lemma_div_pos_is_pos(a, b);
        }
        assert(qa <= a) by (nonlinear_arith)
            requires
                a == b * qa + m,
                0 <= m,
                1 <= b,
                0 <= qa,
        ;
        assert(b * qa == qa * b) by (nonlinear_arith);
        let t = crate::core_lib::trunc_div(x as int, y as int);
        if x >= 0 && y > 0 {
            assert(t == qa);
            assert(x - t * y == m);
        } else if x >= 0 {
            assert(t == -qa);
            assert(x - t * y == a - qa * b) by (nonlinear_arith)
                requires
                    b == -y,
                    a == x,
                    t == -qa,
            ;
        } else if y > 0 {
            assert(t == -qa);
            assert(x - t * y == -(a - qa * b)) by (nonlinear_arith)
                requires
                    b == y,
                    a == -x,
                    t == -qa,
            ;
        } else {
            assert(t == qa);
            assert(x - t * y == -(a - qa * b)) by (nonlinear_arith)
                requires
                    b == -y,
                    a == -x,
                    t == qa,
            ;
        }
        if x == i32::MIN && y == -1 {
            vstd::arithmetic::div_mod::lemma_div_basics(a);
            assert(t == 2147483648);
        } else {
            if qa == a && a == 2147483648 {
                assert(b == 1) by (nonlinear_arith)
                    requires
                        a == b * qa + m,
                        0 <= m,
                        1 <= b,
                        qa == a,
                        a > 0,
                ;
            }
            assert(i32::MIN <= t <= i32::MAX);
        }
    }
}

/// `=` on two or more arguments tells whether the first two are the same
/// value.
pub proof fn law_equal(args: Seq<AtomV>)
    requires
        args.len() >= 2,
    ensures
        pure_builtin_spec(Builtin::Equal, args) == Ok::<AtomV, Seq<char>>(AtomV::Bool(args[0] == args[1])),
        pure_builtin_spec(Builtin::Equal, seq![args[1], args[0]] + args.skip(2)) == pure_builtin_spec(
            Builtin::Equal,
            args,
        ),
{
    let swapped = seq![args[1], args[0]] + args.skip(2);
    assert(swapped[0] == args[1]);
    assert(swapped[1] == args[0]);
}

/// The characters with Unicode's `White_Space` property are exactly those
/// the tokenizer treats as white space; none of them continues a plain token.
pub proof fn law_white_space(c: char)
    ensures
        is_white(c) <==> (c == '\t' || c == '\n' || c == '\u{0B}' || c == '\u{0C}' || c == '\r' || c
            == ' ' || c == '\u{85}' || c == '\u{A0}' || c == '\u{1680}' || c == '\u{2000}' || c
            == '\u{2001}' || c == '\u{2002}' || c == '\u{2003}' || c == '\u{2004}' || c == '\u{2005}'
            || c == '\u{2006}' || c == '\u{2007}' || c == '\u{2008}' || c == '\u{2009}' || c
            == '\u{200A}' || c == '\u{2028}' || c == '\u{2029}' || c == '\u{202F}' || c == '\u{205F}'
            || c == '\u{3000}'),
        is_white(c) ==> !is_plain(c),
{
    crate::order::lemma_char_code(c);
}

/// Between tokens, a tab, a newline, a space or any other white-space
/// character is skipped.
pub proof fn law_tokenizer_skips_white_space(cs: Seq<char>, i: int)
    requires
        0 <= i < cs.len(),
        cs[i] == '\t' || cs[i] == '\n' || cs[i] == '\r' || cs[i] == ' ' || cs[i] == '\u{A0}'
            || cs[i] == '\u{3000}' || is_white(cs[i]),
    ensures
        tokens_from(cs, i) == tokens_from(cs, i + 1),
{
}

/// A value with no string in it, at any depth.
pub open spec fn has_no_strings(a: AtomV) -> bool
    decreases a,
{
    match a {
        AtomV::Str(_) => false,
        AtomV::List(xs) => forall|i: int| 0 <= i < xs.len() ==> has_no_strings(#[trigger] xs[i]),
        AtomV::Vector(xs) => forall|i: int| 0 <= i < xs.len() ==> has_no_strings(#[trigger] xs[i]),
        AtomV::Dict(es) => entries_have_no_strings(es),
        _ => true,
    }
}

/// No key or value of the entries `es` has a string in it.
pub open spec fn entries_have_no_strings(es: Seq<(AtomV, AtomV)>) -> bool
    decreases es,
{
    forall|i: int| 0 <= i < es.len() ==> entry_has_no_strings(#[trigger] es[i])
}

/// Neither the key nor the value of `e` has a string in it.
pub open spec fn entry_has_no_strings(e: (AtomV, AtomV)) -> bool
    decreases e,
{
    has_no_strings(e.0) && has_no_strings(e.1)
}

proof fn lemma_print_plain_same(a: AtomV)
    requires
        has_no_strings(a),
    ensures
        print_spec(a, false) == print_spec(a, true),
    decreases a,
{
    match a {
        AtomV::List(xs) => lemma_print_joined_same(xs),
        AtomV::Vector(xs) => lemma_print_joined_same(xs),
        AtomV::Dict(es) => lemma_print_entries_same(es),
        _ => {},
    }
}

proof fn lemma_print_joined_same(xs: Seq<AtomV>)
    requires
        forall|i: int| 0 <= i < xs.len() ==> has_no_strings(#[trigger] xs[i]),
    ensures
        print_joined(xs, false) == print_joined(xs, true),
    decreases xs,
{
    if xs.len() == 1 {
        lemma_print_plain_same(xs[0]);
    } else if xs.len() > 1 {
        let init = xs.subrange(0, xs.len() - 1);
        assert forall|i: int| 0 <= i < init.len() implies has_no_strings(#[trigger] init[i]) by {
            assert(init[i] == xs[i]);
        }
        lemma_print_joined_same(init);
        lemma_print_plain_same(xs[xs.len() - 1]);
    }
}

proof fn lemma_print_entries_same(es: Seq<(AtomV, AtomV)>)
    requires
        entries_have_no_strings(es),
    ensures
        print_entries(es, false) == print_entries(es, true),
    decreases es,
{
    if es.len() >= 1 {
        let last = es[es.len() - 1];
        assert(entry_has_no_strings(last));
        lemma_print_plain_same(last.0);
        lemma_print_plain_same(last.1);
        assert(print_entry(last, false) == print_entry(last, true));
        if es.len() == 1 {
            assert(last == es[0]);
        } else {
            let init = es.subrange(0, es.len() - 1);
            assert forall|i: int| 0 <= i < init.len() implies entry_has_no_strings(#[trigger] init[i]) by {
                assert(init[i] == es[i]);
            }
            lemma_print_entries_same(init);
        }
    }
}

/// Printing readably or not differs only inside strings: a value with no
/// string in it prints the same either way.
pub proof fn law_print_readably_only_strings(a: AtomV)
    requires
        has_no_strings(a),
    ensures
        print_spec(a, false) == print_spec(a, true),
{
    lemma_print_plain_same(a);
}

/// Lists print between `(` and `)`, vectors between `[` and `]` and maps
/// between `{` and `}`, readably or not; the elements are printed in order,
/// separated by single spaces.
pub proof fn law_print_brackets(xs: Seq<AtomV>, es: Seq<(AtomV, AtomV)>, readably: bool)
    ensures
        print_spec(AtomV::List(xs), readably) == seq!['('] + print_joined(xs, readably) + seq![')'],
        print_spec(AtomV::Vector(xs), readably) == seq!['['] + print_joined(xs, readably) + seq![']'],
        print_spec(AtomV::Dict(es), readably) == seq!['{'] + print_entries(es, readably) + seq!['}'],
        print_joined(Seq::empty(), readably) == Seq::<char>::empty(),
        xs.len() == 1 ==> print_joined(xs, readably) == print_spec(xs[0], readably),
        xs.len() > 1 ==> print_joined(xs, readably) == print_joined(xs.drop_last(), readably) + seq![' ']
            + print_spec(xs.last(), readably),
{
}


/// `pr-str` gives, as a string, its arguments printed readably and separated
/// by single spaces.
pub proof fn law_pr_str(args: Seq<AtomV>)
    ensures
        pure_builtin_spec(Builtin::PrStr, args) == Ok::<AtomV, Seq<char>>(
            AtomV::Str(print_joined(args, true)),
        ),
{
}

/// `str` gives, as a string, its arguments printed not readably, one right
/// after another: nothing for no arguments, and one more argument adds its
/// printed form at the end.
pub proof fn law_str(args: Seq<AtomV>, a: AtomV)
    ensures
        pure_builtin_spec(Builtin::Str, Seq::empty()) == Ok::<AtomV, Seq<char>>(AtomV::Str(Seq::empty())),
        pure_builtin_spec(Builtin::Str, args) matches Ok(AtomV::Str(t)) && pure_builtin_spec(
            Builtin::Str,
            args.push(a),
        ) == Ok::<AtomV, Seq<char>>(AtomV::Str(t + print_spec(a, false))),
{
    assert(args.push(a).subrange(0, args.len() as int) =~= args);
}

/// `read-string` reads its string argument; a text that cannot be read
/// gives, as a string, the reader's description of the error.
pub proof fn law_read_string(text: Seq<char>, rest: Seq<AtomV>)
    ensures
        pure_builtin_spec(Builtin::ReadString, seq![AtomV::Str(text)] + rest) == (match read_str_spec(
            text,
        ) {
            Ok(a) => Ok::<AtomV, Seq<char>>(a),
            Err(e) => Ok(AtomV::Str(error_message(e))),
        }),
{
    assert((seq![AtomV::Str(text)] + rest)[0] == AtomV::Str(text));
}

} // verus!
