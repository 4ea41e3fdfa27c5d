//! Turning text into values: a tokenizer and a recursive-descent reader.

use vstd::prelude::*;
use crate::types::{Atom, AtomV};
use crate::text::{is_white, is_whitespace, chars_of, string_of, push_char, push_text};
use crate::order::{dict_insert, insert_entry};

verus! {

/// Why text could not be read.
#[derive(Debug)]
pub enum ReadError {
    UnexpectedEof,
    UnexpectedToken(String),
    InvalidEscape(String),
}

/// The model of a [`ReadError`].
pub enum ReadErrorV {
    UnexpectedEof,
    UnexpectedToken(Seq<char>),
    InvalidEscape(Seq<char>),
}

impl View for ReadError {
    type V = ReadErrorV;

    open spec fn view(&self) -> ReadErrorV {
        match self {
            ReadError::UnexpectedEof => ReadErrorV::UnexpectedEof,
            ReadError::UnexpectedToken(t) => ReadErrorV::UnexpectedToken(t@),
            ReadError::InvalidEscape(t) => ReadErrorV::InvalidEscape(t@),
        }
    }
}

pub open spec fn eof_text() -> Seq<char> {
    seq!['E', 'O', 'F']
}

pub open spec fn unexpected_token_text() -> Seq<char> {
    seq![
        'u', 'n', 'e', 'x', 'p', 'e', 'c', 't', 'e', 'd', ' ', 't', 'o', 'k', 'e', 'n', ':', ' '
    ]
}

pub open spec fn invalid_escape_text() -> Seq<char> {
    seq!['i', 'n', 'v', 'a', 'l', 'i', 'd', ' ', 'e', 's', 'c', 'a', 'p', 'e', ':', ' ']
}

/// The text that describes a read error to a user.
pub open spec fn error_message(e: ReadErrorV) -> Seq<char> {
    match e {
        ReadErrorV::UnexpectedEof => eof_text(),
        ReadErrorV::UnexpectedToken(t) => unexpected_token_text() + t,
        ReadErrorV::InvalidEscape(t) => invalid_escape_text() + t,
    }
}

fn push_chars(out: &mut String, cs: &[char])
    ensures
        final(out)@ == old(out)@ + cs@,
{
    let mut i: usize = 0;
    while i < cs.len()
        invariant
            i <= cs@.len(),
            out@ == old(out)@ + cs@.subrange(0, i as int),
        decreases cs.len() - i,
    {
        push_char(out, cs[i]);
        i += 1;
        proof {
            assert(out@ =~= old(out)@ + cs@.subrange(0, i as int));
        }
    }
    proof {
        assert(cs@.subrange(0, cs@.len() as int) =~= cs@);
    }
}

impl ReadError {
    /// The text that describes this error to a user.
    pub fn message(&self) -> (r: String)
        ensures
            r@ == error_message(self@),
    {
        let mut out = String::new();
        match self {
            ReadError::UnexpectedEof => {
                push_chars(&mut out, &['E', 'O', 'F']);
            },
            ReadError::UnexpectedToken(t) => {
                push_chars(
                    &mut out,
                    &[
                        'u', 'n', 'e', 'x', 'p', 'e', 'c', 't', 'e', 'd', ' ', 't', 'o', 'k', 'e',
                        'n', ':', ' ',
                    ],
                );
                push_text(&mut out, t);
            },
            ReadError::InvalidEscape(t) => {
                push_chars(
                    &mut out,
                    &['i', 'n', 'v', 'a', 'l', 'i', 'd', ' ', 'e', 's', 'c', 'a', 'p', 'e', ':', ' '],
                );
                push_text(&mut out, t);
            },
        }
        proof {
            assert(out@ =~= error_message(self@));
        }
        out
    }
}


/// Characters that form a token of their own.
pub open spec fn is_special(c: char) -> bool {
    c == '[' || c == ']' || c == '{' || c == '}' || c == '(' || c == ')' || c == '\''
        || c == '`' || c == '~' || c == '^' || c == '@'
}

/// Characters that may continue a plain token (a symbol, a number, a keyword).
pub open spec fn is_plain(c: char) -> bool {
    !is_white(c) && !is_special(c) && c != ',' && c != '"' && c != ';'
}

/// The index after the plain token that starts at `i`.
pub open spec fn plain_end(cs: Seq<char>, i: int) -> int
    decreases cs.len() - i,
{
    if 0 <= i < cs.len() && is_plain(cs[i]) {
        plain_end(cs, i + 1)
    } else {
        i
    }
}

/// The index of the end of the line that contains `i`: the next newline, or the end.
pub open spec fn line_end(cs: Seq<char>, i: int) -> int
    decreases cs.len() - i,
{
    if 0 <= i < cs.len() && cs[i] != '\n' {
        line_end(cs, i + 1)
    } else {
        i
    }
}

/// Reads the body of a string literal from `i` (just after its opening quote),
/// decoding escapes into `buf`; gives the decoded text and the index after the
/// closing quote.
pub open spec fn literal_from(cs: Seq<char>, i: int, buf: Seq<char>) -> Result<
    (Seq<char>, int),
    ReadErrorV,
>
    decreases cs.len() - i,
{
    if i < 0 || i >= cs.len() {
        Err(ReadErrorV::UnexpectedEof)
    } else if cs[i] == '"' {
        Ok((buf, i + 1))
    } else if cs[i] == '\\' {
        if i + 1 >= cs.len() {
            Err(ReadErrorV::UnexpectedEof)
        } else if cs[i + 1] == 'n' {
            literal_from(cs, i + 2, buf.push('\n'))
        } else if cs[i + 1] == '"' {
            literal_from(cs, i + 2, buf.push('"'))
        } else if cs[i + 1] == '\\' {
            literal_from(cs, i + 2, buf.push('\\'))
        } else {
            Err(ReadErrorV::InvalidEscape(seq!['\\', cs[i + 1]]))
        }
    } else {
        literal_from(cs, i + 1, buf.push(cs[i]))
    }
}

/// `ts` followed by the tokens of `rest`, if it has any.
pub open spec fn prepend_tokens(ts: Seq<Seq<char>>, rest: Result<Seq<Seq<char>>, ReadErrorV>) -> Result<
    Seq<Seq<char>>,
    ReadErrorV,
> {
    match rest {
        Ok(r) => Ok(ts + r),
        Err(e) => Err(e),
    }
}

/// The tokens of `cs` from index `i` on.
pub open spec fn tokens_from(cs: Seq<char>, i: int) -> Result<Seq<Seq<char>>, ReadErrorV>
    decreases cs.len() - i,
{
    if i < 0 || i >= cs.len() {
        Ok(Seq::empty())
    } else if is_white(cs[i]) || cs[i] == ',' {
        tokens_from(cs, i + 1)
    } else if cs[i] == '~' && i + 1 < cs.len() && cs[i + 1] == '@' {
        prepend_tokens(seq![seq!['~', '@']], tokens_from(cs, i + 2))
    } else if is_special(cs[i]) {
        prepend_tokens(seq![seq![cs[i]]], tokens_from(cs, i + 1))
    } else if cs[i] == ';' {
        let j = line_end(cs, i);
        if i < j <= cs.len() {
            tokens_from(cs, j)
        } else {
            Ok(Seq::empty())
        }
    } else if cs[i] == '"' {
        match literal_from(cs, i + 1, Seq::empty()) {
            Err(e) => Err(e),
            Ok((text, j)) => if i < j <= cs.len() {
                prepend_tokens(seq![seq!['"'] + text + seq!['"']], tokens_from(cs, j))
            } else {
                Ok(Seq::empty())
            },
        }
    } else {
        let j = plain_end(cs, i);
        if i < j <= cs.len() {
            prepend_tokens(seq![cs.subrange(i, j)], tokens_from(cs, j))
        } else {
            Ok(Seq::empty())
        }
    }
}

/// The tokens of a text.
pub open spec fn tokenize_spec(cs: Seq<char>) -> Result<Seq<Seq<char>>, ReadErrorV> {
    tokens_from(cs, 0)
}

pub(crate) proof fn lemma_line_end(cs: Seq<char>, i: int)
    requires
        0 <= i,
    ensures
        i <= line_end(cs, i),
        line_end(cs, i) <= cs.len() || line_end(cs, i) == i,
        0 <= i < cs.len() && cs[i] != '\n' ==> line_end(cs, i) > i,
    decreases cs.len() - i,
{
    if 0 <= i < cs.len() && cs[i] != '\n' {
        lemma_line_end(cs, i + 1);
    }
}

pub(crate) proof fn lemma_plain_end(cs: Seq<char>, i: int)
    requires
        0 <= i,
    ensures
        i <= plain_end(cs, i),
        plain_end(cs, i) <= cs.len() || plain_end(cs, i) == i,
        0 <= i < cs.len() && is_plain(cs[i]) ==> plain_end(cs, i) > i,
    decreases cs.len() - i,
{
    if 0 <= i < cs.len() && is_plain(cs[i]) {
        lemma_plain_end(cs, i + 1);
    }
}

pub(crate) proof fn lemma_literal_from(cs: Seq<char>, i: int, buf: Seq<char>)
    requires
        0 <= i,
    ensures
        literal_from(cs, i, buf) matches Ok((_, j)) ==> i < j <= cs.len(),
    decreases cs.len() - i,
{
    if 0 <= i < cs.len() && cs[i] != '"' {
        if cs[i] == '\\' {
            if i + 1 < cs.len() {
                if cs[i + 1] == 'n' {
                    lemma_literal_from(cs, i + 2, buf.push('\n'));
                } else if cs[i + 1] == '"' {
                    lemma_literal_from(cs, i + 2, buf.push('"'));
                } else if cs[i + 1] == '\\' {
                    lemma_literal_from(cs, i + 2, buf.push('\\'));
                }
            }
        } else {
            lemma_literal_from(cs, i + 1, buf.push(cs[i]));
        }
    }
}

/// Reads a string literal that starts at `start` (its opening quote): gives the
/// literal's token, the decoded text inside quotes, and the index after it.
fn read_string_literal(chars: &Vec<char>, start: usize) -> (r: Result<(Vec<char>, usize), ReadError>)
    requires
        start < chars@.len(),
        chars@[start as int] == '"',
    ensures
        match literal_from(chars@, start + 1, Seq::empty()) {
            Ok((text, j)) => r matches Ok((t, k)) && t@ == seq!['"'] + text + seq!['"'] && k == j,
            Err(e) => r matches Err(x) && x@ == e,
        },
{
    let n = chars.len();
    let mut buffer: Vec<char> = Vec::new();
    buffer.push('"');
    let mut i: usize = start + 1;
    proof {
        assert(buffer@.skip(1) =~= Seq::<char>::empty());
        lemma_literal_from(chars@, (start + 1) as int, Seq::empty());
    }
    loop
        invariant
            start < i,
            i <= chars@.len() + 1,
            buffer@.len() >= 1,
            buffer@[0] == '"',
            literal_from(chars@, start + 1, Seq::empty()) == literal_from(
                chars@,
                i as int,
                buffer@.skip(1),
            ),
        decreases chars@.len() + 2 - i,
    {
        if i >= chars.len() {
            return Err(ReadError::UnexpectedEof);
        }
        let c = chars[i];
        if c == '"' {
            let ghost b0 = buffer@;
            i += 1;
            buffer.push('"');
            proof {
                assert(buffer@ =~= seq!['"'] + b0.skip(1) + seq!['"']);
            }
            return Ok((buffer, i));
        } else if c == '\\' {
            if i + 1 >= chars.len() {
                return Err(ReadError::UnexpectedEof);
            }
            let d = chars[i + 1];
            let e: char;
            if d == 'n' {
                e = '\n';
            } else if d == '"' {
                e = '"';
            } else if d == '\\' {
                e = '\\';
            } else {
                let mut msg = String::new();
                push_char(&mut msg, '\\');
                push_char(&mut msg, d);
                proof {
                    assert(msg@ =~= seq!['\\', d]);
                }
                return Err(ReadError::InvalidEscape(msg));
            }
            proof {
                assert(buffer@.push(e).skip(1) =~= buffer@.skip(1).push(e));
            }
            buffer.push(e);
            i += 2;
        } else {
            proof {
                assert(buffer@.push(c).skip(1) =~= buffer@.skip(1).push(c));
            }
            buffer.push(c);
            i += 1;
        }
    }
}


/// The model of a sequence of tokens.
pub open spec fn tokens_view(v: Seq<Vec<char>>) -> Seq<Seq<char>> {
    v.map_values(|t: Vec<char>| t@)
}

proof fn lemma_prepend_push(ts: Seq<Vec<char>>, t: Vec<char>, rest: Result<Seq<Seq<char>>, ReadErrorV>)
    ensures
        prepend_tokens(tokens_view(ts), prepend_tokens(seq![t@], rest)) == prepend_tokens(
            tokens_view(ts.push(t)),
            rest,
        ),
{
    assert(tokens_view(ts.push(t)) =~= tokens_view(ts) + seq![t@]);
    match rest {
        Ok(r) => {
            assert(tokens_view(ts) + (seq![t@] + r) =~= tokens_view(ts) + seq![t@] + r);
        },
        Err(_) => {},
    }
}

fn is_special_char(c: char) -> (r: bool)
    ensures
        r == is_special(c),
{
    c == '[' || c == ']' || c == '{' || c == '}' || c == '(' || c == ')' || c == '\'' || c
        == '`' || c == '~' || c == '^' || c == '@'
}

/// Splits a text into tokens.
fn tokenize(input: &str) -> (r: Result<Vec<Vec<char>>, ReadError>)
    ensures
        match tokenize_spec(input@) {
            Ok(ts) => r matches Ok(v) && tokens_view(v@) == ts,
            Err(e) => r matches Err(x) && x@ == e,
        },
{
    let chars = chars_of(input);
    let n = chars.len();
    let ghost cs = chars@;
    let mut tokens: Vec<Vec<char>> = Vec::new();
    let mut i: usize = 0;
    proof {
        assert(tokens_view(tokens@) =~= Seq::<Seq<char>>::empty());
        assert(prepend_tokens(Seq::empty(), tokens_from(cs, 0)) =~= tokens_from(cs, 0));
        match tokens_from(cs, 0) {
            Ok(r) => {
                assert(Seq::<Seq<char>>::empty() + r =~= r);
            },
            Err(_) => {},
        }
    }
    while i < n
        invariant
            cs == chars@,
            cs == input@,
            n == cs.len(),
            i <= n,
            tokenize_spec(cs) == prepend_tokens(tokens_view(tokens@), tokens_from(cs, i as int)),
        decreases n - i,
    {
        let c = chars[i];
        if is_whitespace(c) || c == ',' {
            i += 1;
        } else if c == '~' && i + 1 < n && chars[i + 1] == '@' {
            let t: Vec<char> = vec!['~', '@'];
            proof {
                assert(t@ =~= seq!['~', '@']);
                lemma_prepend_push(tokens@, t, tokens_from(cs, i + 2));
            }
            tokens.push(t);
            i += 2;
        } else if is_special_char(c) {
            let t: Vec<char> = vec![c];
            proof {
                assert(t@ =~= seq![c]);
                lemma_prepend_push(tokens@, t, tokens_from(cs, i + 1));
            }
            tokens.push(t);
            i += 1;
        } else if c == ';' {
            let ghost start = i as int;
            proof {
                lemma_line_end(cs, start);
            }
            while i < n && chars[i] != '\n'
                invariant
                    cs == chars@,
                    n == cs.len(),
                    0 <= start <= i <= n,
                    line_end(cs, start) == line_end(cs, i as int),
                decreases n - i,
            {
                i += 1;
            }
            proof {
                assert(line_end(cs, start) == i);
            }
        } else if c == '"' {
            proof {
                lemma_literal_from(cs, i + 1, Seq::empty());
            }
            match read_string_literal(&chars, i) {
                Err(e) => {
                    return Err(e);
                },
                Ok((t, j)) => {
                    proof {
                        lemma_prepend_push(tokens@, t, tokens_from(cs, j as int));
                    }
                    tokens.push(t);
                    i = j;
                },
            }
        } else {
            let ghost start = i as int;
            proof {
                lemma_plain_end(cs, start);
            }
            let mut t: Vec<char> = Vec::new();
            while i < n && !is_whitespace(chars[i]) && !is_special_char(chars[i]) && chars[i]
                != ',' && chars[i] != '"' && chars[i] != ';'
                invariant
                    cs == chars@,
                    n == cs.len(),
                    0 <= start <= i <= n,
                    plain_end(cs, start) == plain_end(cs, i as int),
                    t@ == cs.subrange(start, i as int),
                decreases n - i,
            {
                let ghost t0 = t@;
                let ghost i0 = i as int;
                assert(i0 < n);
                t.push(chars[i]);
                i += 1;
                proof {
                    assert(t@ == t0.push(cs[i0]));
                    assert(t0 == cs.subrange(start, i0));
                    assert(t@ =~= cs.subrange(start, i as int));
                }
            }
            proof {
                assert(plain_end(cs, start) == i);
                lemma_prepend_push(tokens@, t, tokens_from(cs, i as int));
            }
            tokens.push(t);
        }
    }
    proof {
        assert(tokens_from(cs, i as int) == Ok::<Seq<Seq<char>>, ReadErrorV>(Seq::empty()));
        assert(tokens_view(tokens@) + Seq::<Seq<char>>::empty() =~= tokens_view(tokens@));
    }
    Ok(tokens)
}


/// Whether `c` is an ASCII decimal digit.
pub open spec fn is_digit(c: char) -> bool {
    48 <= (c as u32) <= 57
}

pub open spec fn all_digits(s: Seq<char>) -> bool {
    forall|i: int| 0 <= i < s.len() ==> is_digit(#[trigger] s[i])
}

/// The number that a sequence of decimal digits denotes.
pub open spec fn digits_value(s: Seq<char>) -> int
    decreases s.len(),
{
    if s.len() == 0 {
        0
    } else {
        digits_value(s.subrange(0, s.len() - 1)) * 10 + ((s[s.len() - 1] as u32) as int - 48)
    }
}

/// The integer that a token denotes, if it is an optional sign followed by
/// one or more decimal digits.
pub open spec fn integer_value(t: Seq<char>) -> Option<int> {
    if t.len() > 0 && (t[0] == '+' || t[0] == '-') {
        let d = t.skip(1);
        if d.len() > 0 && all_digits(d) {
            Some(
                if t[0] == '-' {
                    -digits_value(d)
                } else {
                    digits_value(d)
                },
            )
        } else {
            None
        }
    } else if t.len() > 0 && all_digits(t) {
        Some(digits_value(t))
    } else {
        None
    }
}

/// The token read as an `i32`, as `str::parse::<i32>` reads it.
pub open spec fn parse_i32_spec(t: Seq<char>) -> Option<i32> {
    match integer_value(t) {
        Some(v) => if i32::MIN <= v <= i32::MAX {
            Some(v as i32)
        } else {
            None
        },
        None => None,
    }
}

proof fn lemma_digits_value_grows(s: Seq<char>, k: int)
    requires
        all_digits(s),
        0 <= k <= s.len(),
    ensures
        0 <= digits_value(s.take(k)) <= digits_value(s),
        0 <= digits_value(s),
    decreases s.len(),
{
    if s.len() > 0 {
        let init = s.subrange(0, s.len() - 1);
        assert(all_digits(init)) by {
            assert forall|i: int| 0 <= i < init.len() implies is_digit(#[trigger] init[i]) by {
                assert(init[i] == s[i]);
            }
        }
        assert(is_digit(s[s.len() - 1]));
        if k < s.len() {
            lemma_digits_value_grows(init, k);
            assert(init.take(k) =~= s.take(k));
        } else {
            lemma_digits_value_grows(init, 0);
            assert(s.take(k) =~= s);
        }
    } else {
        assert(s.take(k) =~= s);
    }
}

fn is_digit_char(c: char) -> (r: bool)
    ensures
        r == is_digit(c),
{
    let n = c as u32;
    48 <= n && n <= 57
}

/// Reads a token as an `i32`: an optional sign, then decimal digits, in range.
fn parse_i32(t: &Vec<char>) -> (r: Option<i32>)
    ensures
        r == parse_i32_spec(t@),
{
    let n = t.len();
    if n == 0 {
        return None;
    }
    let neg = t[0] == '-';
    let start: usize = if t[0] == '-' || t[0] == '+' {
        1
    } else {
        0
    };
    if start == n {
        return None;
    }
    let ghost d = t@.skip(start as int);
    proof {
        if start == 0 {
            assert(d =~= t@);
        }
    }
    let mut acc: i64 = 0;
    let mut i: usize = start;
    proof {
        assert(d.take(0) =~= Seq::<char>::empty());
    }
    while i < n
        invariant
            d == t@.skip(start as int),
            n == t@.len(),
            start <= i <= n,
            start <= 1,
            n > 0,
            start < n,
            (start == 1) == (t@[0] == '-' || t@[0] == '+'),
            neg == (t@[0] == '-'),
            forall|j: int| 0 <= j < i - start ==> is_digit(#[trigger] d[j]),
            acc == digits_value(d.take(i - start)),
            0 <= acc <= 2147483648,
        decreases n - i,
    {
        let c = t[i];
        if !is_digit_char(c) {
            proof {
                assert(d[i - start] == c);
                assert(!is_digit(d[i - start]));
                assert(!all_digits(d));
                if start == 0 {
                    assert(d =~= t@);
                    assert(!all_digits(t@));
                }
                assert(integer_value(t@) is None);
            }
            return None;
        }
        let ghost k = (i - start) as int;
        proof {
            assert(d.take(k + 1).subrange(0, k) =~= d.take(k));
            assert(d.take(k + 1)[k] == c);
        }
        acc = acc * 10 + ((c as u32) as i64 - 48);
        i += 1;
        proof {
            assert(digits_value(d.take(k + 1)) == digits_value(d.take(k + 1).subrange(0, k)) * 10
                + ((d.take(k + 1)[k] as u32) as int - 48));
            assert(acc == digits_value(d.take(k + 1)));
        }
        if acc > 2147483648 {
            proof {
                if all_digits(d) {
                    lemma_digits_value_grows(d, k + 1);
                    assert(digits_value(d) > 2147483648);
                }
                if start == 0 {
                    assert(d =~= t@);
                }
            }
            return None;
        }
    }
    proof {
        assert(d.take(n - start) =~= d);
        assert(all_digits(d));
        if start == 0 {
            assert(d =~= t@);
        }
    }
    if neg {
        Some((-acc) as i32)
    } else if acc <= 2147483647 {
        Some(acc as i32)
    } else {
        None
    }
}

pub open spec fn with_meta_text() -> Seq<char> {
    seq!['w', 'i', 't', 'h', '-', 'm', 'e', 't', 'a']
}

pub open spec fn quote_text() -> Seq<char> {
    seq!['q', 'u', 'o', 't', 'e']
}

pub open spec fn quasiquote_text() -> Seq<char> {
    seq!['q', 'u', 'a', 's', 'i', 'q', 'u', 'o', 't', 'e']
}

pub open spec fn unquote_text() -> Seq<char> {
    seq!['u', 'n', 'q', 'u', 'o', 't', 'e']
}

pub open spec fn deref_text() -> Seq<char> {
    seq!['d', 'e', 'r', 'e', 'f']
}

pub open spec fn splice_unquote_text() -> Seq<char> {
    seq!['s', 'p', 'l', 'i', 'c', 'e', '-', 'u', 'n', 'q', 'u', 'o', 't', 'e']
}

/// The value that a single token (other than a bracket or a quote mark) denotes.
pub open spec fn token_atom(t: Seq<char>) -> AtomV {
    if t == crate::printer::nil_text() {
        AtomV::Nil
    } else if t == crate::printer::true_text() {
        AtomV::Bool(true)
    } else if t == crate::printer::false_text() {
        AtomV::Bool(false)
    } else if t.len() >= 2 && t[0] == '"' && t[t.len() - 1] == '"' {
        AtomV::Str(t.subrange(1, t.len() - 1))
    } else if t.len() >= 1 && t[0] == ':' {
        AtomV::Keyword(t.skip(1))
    } else {
        match parse_i32_spec(t) {
            Some(n) => AtomV::Int(n),
            None => AtomV::Symbol(t),
        }
    }
}

fn is_text(t: &Vec<char>, s: &[char]) -> (r: bool)
    ensures
        r == (t@ == s@),
{
    if t.len() != s.len() {
        return false;
    }
    let mut i: usize = 0;
    while i < t.len()
        invariant
            t@.len() == s@.len(),
            i <= t@.len(),
            forall|j: int| 0 <= j < i ==> t@[j] == s@[j],
        decreases t.len() - i,
    {
        if t[i] != s[i] {
            return false;
        }
        i += 1;
    }
    proof {
        assert(t@ =~= s@);
    }
    true
}

fn chars_to_string(cs: &[char]) -> (r: String)
    ensures
        r@ == cs@,
{
    let mut s = String::new();
    push_chars(&mut s, cs);
    s
}

/// The value that a token denotes.
fn token_to_atom(t: &Vec<char>) -> (r: Atom)
    ensures
        r@ == token_atom(t@),
{
    let n = t.len();
    if is_text(t, &['n', 'i', 'l']) {
        proof {
            assert(t@ =~= crate::printer::nil_text());
        }
        Atom::Nil
    } else if is_text(t, &['t', 'r', 'u', 'e']) {
        proof {
            assert(t@ =~= crate::printer::true_text());
        }
        Atom::Bool(true)
    } else if is_text(t, &['f', 'a', 'l', 's', 'e']) {
        proof {
            assert(t@ =~= crate::printer::false_text());
        }
        Atom::Bool(false)
    } else {
        proof {
            assert(t@ != crate::printer::nil_text()) by {
                if t@ == crate::printer::nil_text() {
                    assert(t@ =~= seq!['n', 'i', 'l']);
                }
            }
            assert(t@ != crate::printer::true_text()) by {
                if t@ == crate::printer::true_text() {
                    assert(t@ =~= seq!['t', 'r', 'u', 'e']);
                }
            }
            assert(t@ != crate::printer::false_text()) by {
                if t@ == crate::printer::false_text() {
                    assert(t@ =~= seq!['f', 'a', 'l', 's', 'e']);
                }
            }
        }
        if n >= 2 && t[0] == '"' && t[n - 1] == '"' {
            Atom::Str(string_of(t, 1, n - 1))
        } else if n >= 1 && t[0] == ':' {
            let s = string_of(t, 1, n);
            proof {
                assert(s@ =~= t@.skip(1));
            }
            Atom::Keyword(s)
        } else {
            match parse_i32(t) {
                Some(v) => Atom::Int(v),
                None => {
                    let s = string_of(t, 0, n);
                    proof {
                        assert(s@ =~= t@);
                    }
                    Atom::Symbol(s)
                },
            }
        }
    }
}


/// A two-element list headed by the symbol `name`, around what was read.
pub open spec fn quoted(name: Seq<char>, r: Result<(AtomV, int), ReadErrorV>) -> Result<
    (AtomV, int),
    ReadErrorV,
> {
    match r {
        Ok((inner, p)) => Ok((AtomV::List(seq![AtomV::Symbol(name), inner]), p)),
        Err(e) => Err(e),
    }
}

/// Reads one form from the tokens `ts` at position `p`: gives the value and
/// the position after it.
pub open spec fn read_form_spec(ts: Seq<Seq<char>>, p: int) -> Result<(AtomV, int), ReadErrorV>
    decreases ts.len() - p, 0int,
{
    if p < 0 || p >= ts.len() {
        Err(ReadErrorV::UnexpectedEof)
    } else {
        let t = ts[p];
        if t == seq!['^'] {
            match read_form_spec(ts, p + 1) {
                Err(e) => Err(e),
                Ok((meta, p1)) => if p < p1 <= ts.len() {
                    match read_form_spec(ts, p1) {
                        Err(e) => Err(e),
                        Ok((value, p2)) => Ok(
                            (
                                AtomV::List(
                                    seq![AtomV::Symbol(with_meta_text()), value, meta],
                                ),
                                p2,
                            ),
                        ),
                    }
                } else {
                    Err(ReadErrorV::UnexpectedEof)
                },
            }
        } else if t == seq!['\''] {
            quoted(quote_text(), read_form_spec(ts, p + 1))
        } else if t == seq!['`'] {
            quoted(quasiquote_text(), read_form_spec(ts, p + 1))
        } else if t == seq!['~'] {
            quoted(unquote_text(), read_form_spec(ts, p + 1))
        } else if t == seq!['@'] {
            quoted(deref_text(), read_form_spec(ts, p + 1))
        } else if t == seq!['~', '@'] {
            quoted(splice_unquote_text(), read_form_spec(ts, p + 1))
        } else if t == seq!['('] {
            match read_seq_spec(ts, p + 1, ')', Seq::empty()) {
                Ok((xs, q)) => Ok((AtomV::List(xs), q)),
                Err(e) => Err(e),
            }
        } else if t == seq!['['] {
            match read_seq_spec(ts, p + 1, ']', Seq::empty()) {
                Ok((xs, q)) => Ok((AtomV::Vector(xs), q)),
                Err(e) => Err(e),
            }
        } else if t == seq!['{'] {
            match read_dict_spec(ts, p + 1, Seq::empty()) {
                Ok((es, q)) => Ok((AtomV::Dict(es), q)),
                Err(e) => Err(e),
            }
        } else {
            Ok((token_atom(t), p + 1))
        }
    }
}

/// Reads forms into `acc` from position `p` up to the token `[close]`.
pub open spec fn read_seq_spec(ts: Seq<Seq<char>>, p: int, close: char, acc: Seq<AtomV>) -> Result<
    (Seq<AtomV>, int),
    ReadErrorV,
>
    decreases ts.len() - p, 1int,
{
    if p < 0 || p >= ts.len() {
        Err(ReadErrorV::UnexpectedEof)
    } else if ts[p] == seq![close] {
        Ok((acc, p + 1))
    } else {
        match read_form_spec(ts, p) {
            Err(e) => Err(e),
            Ok((a, p1)) => if p < p1 <= ts.len() {
                read_seq_spec(ts, p1, close, acc.push(a))
            } else {
                Err(ReadErrorV::UnexpectedEof)
            },
        }
    }
}

/// Reads key and value forms into the map entries `acc` from position `p`
/// up to the token `}`.
pub open spec fn read_dict_spec(ts: Seq<Seq<char>>, p: int, acc: Seq<(AtomV, AtomV)>) -> Result<
    (Seq<(AtomV, AtomV)>, int),
    ReadErrorV,
>
    decreases ts.len() - p, 1int,
{
    if p < 0 || p >= ts.len() {
        Err(ReadErrorV::UnexpectedEof)
    } else if ts[p] == seq!['}'] {
        Ok((acc, p + 1))
    } else {
        match read_form_spec(ts, p) {
            Err(e) => Err(e),
            Ok((k, p1)) => if p < p1 <= ts.len() {
                match read_form_spec(ts, p1) {
                    Err(e) => Err(e),
                    Ok((v, p2)) => if p1 < p2 <= ts.len() {
                        read_dict_spec(ts, p2, dict_insert(acc, k, v))
                    } else {
                        Err(ReadErrorV::UnexpectedEof)
                    },
                }
            } else {
                Err(ReadErrorV::UnexpectedEof)
            },
        }
    }
}

/// Reading advances: a form read at `p` ends after `p`, within the tokens.
pub proof fn lemma_read_form_advances(ts: Seq<Seq<char>>, p: int)
    ensures
        read_form_spec(ts, p) matches Ok((_, q)) ==> p < q <= ts.len(),
    decreases ts.len() - p, 0int,
{
    if 0 <= p < ts.len() {
        let t = ts[p];
        if t == seq!['^'] {
            lemma_read_form_advances(ts, p + 1);
            if let Ok((_, p1)) = read_form_spec(ts, p + 1) {
                if p < p1 <= ts.len() {
                    lemma_read_form_advances(ts, p1);
                }
            }
        } else if t == seq!['\''] || t == seq!['`'] || t == seq!['~'] || t == seq!['@'] || t
            == seq!['~', '@'] {
            lemma_read_form_advances(ts, p + 1);
        } else if t == seq!['('] {
            lemma_read_seq_advances(ts, p + 1, ')', Seq::empty());
        } else if t == seq!['['] {
            lemma_read_seq_advances(ts, p + 1, ']', Seq::empty());
        } else if t == seq!['{'] {
            lemma_read_dict_advances(ts, p + 1, Seq::empty());
        }
    }
}

pub proof fn lemma_read_seq_advances(ts: Seq<Seq<char>>, p: int, close: char, acc: Seq<AtomV>)
    ensures
        read_seq_spec(ts, p, close, acc) matches Ok((_, q)) ==> p < q <= ts.len(),
    decreases ts.len() - p, 1int,
{
    if 0 <= p < ts.len() && ts[p] != seq![close] {
        lemma_read_form_advances(ts, p);
        if let Ok((a, p1)) = read_form_spec(ts, p) {
            if p < p1 <= ts.len() {
                lemma_read_seq_advances(ts, p1, close, acc.push(a));
            }
        }
    }
}

pub proof fn lemma_read_dict_advances(ts: Seq<Seq<char>>, p: int, acc: Seq<(AtomV, AtomV)>)
    ensures
        read_dict_spec(ts, p, acc) matches Ok((_, q)) ==> p < q <= ts.len(),
    decreases ts.len() - p, 1int,
{
    if 0 <= p < ts.len() && ts[p] != seq!['}'] {
        lemma_read_form_advances(ts, p);
        if let Ok((k, p1)) = read_form_spec(ts, p) {
            if p < p1 <= ts.len() {
                lemma_read_form_advances(ts, p1);
                if let Ok((v, p2)) = read_form_spec(ts, p1) {
                    if p1 < p2 <= ts.len() {
                        lemma_read_dict_advances(ts, p2, dict_insert(acc, k, v));
                    }
                }
            }
        }
    }
}

/// What a text reads as: the first form among its tokens.
pub open spec fn read_str_spec(code: Seq<char>) -> Result<AtomV, ReadErrorV> {
    match tokenize_spec(code) {
        Err(e) => Err(e),
        Ok(ts) => match read_form_spec(ts, 0) {
            Ok((a, _)) => Ok(a),
            Err(e) => Err(e),
        },
    }
}


/// The model of the outcome of a read.
pub open spec fn read_result_view(r: Result<Atom, ReadError>) -> Result<AtomV, ReadErrorV> {
    match r {
        Ok(a) => Ok(a@),
        Err(e) => Err(e@),
    }
}

/// The model of the outcome of a read that ended at position `p`.
pub open spec fn read_outcome(r: Result<Atom, ReadError>, p: int) -> Result<(AtomV, int), ReadErrorV> {
    match r {
        Ok(a) => Ok((a@, p)),
        Err(e) => Err(e@),
    }
}

/// What a token opens or stands for.
enum TokenKind {
    Meta,
    Quote(u8),
    OpenList,
    OpenVector,
    OpenMap,
    Other,
}

/// Tokens and a position among them.
struct Reader {
    tokens: Vec<Vec<char>>,
    position: usize,
}

fn quote_name(which: u8) -> (r: String)
    requires
        which < 5,
    ensures
        which == 0 ==> r@ == quote_text(),
        which == 1 ==> r@ == quasiquote_text(),
        which == 2 ==> r@ == unquote_text(),
        which == 3 ==> r@ == deref_text(),
        which == 4 ==> r@ == splice_unquote_text(),
{
    let r = if which == 0 {
        chars_to_string(&['q', 'u', 'o', 't', 'e'])
    } else if which == 1 {
        chars_to_string(&['q', 'u', 'a', 's', 'i', 'q', 'u', 'o', 't', 'e'])
    } else if which == 2 {
        chars_to_string(&['u', 'n', 'q', 'u', 'o', 't', 'e'])
    } else if which == 3 {
        chars_to_string(&['d', 'e', 'r', 'e', 'f'])
    } else {
        chars_to_string(&['s', 'p', 'l', 'i', 'c', 'e', '-', 'u', 'n', 'q', 'u', 'o', 't', 'e'])
    };
    proof {
        if which == 0 {
            assert(r@ =~= quote_text());
        } else if which == 1 {
            assert(r@ =~= quasiquote_text());
        } else if which == 2 {
            assert(r@ =~= unquote_text());
        } else if which == 3 {
            assert(r@ =~= deref_text());
        } else {
            assert(r@ =~= splice_unquote_text());
        }
    }
    r
}

pub open spec fn quote_name_spec(which: u8) -> Seq<char> {
    if which == 0 {
        quote_text()
    } else if which == 1 {
        quasiquote_text()
    } else if which == 2 {
        unquote_text()
    } else if which == 3 {
        deref_text()
    } else {
        splice_unquote_text()
    }
}

fn is_one(t: &Vec<char>, c: char) -> (r: bool)
    ensures
        r == (t@ == seq![c]),
{
    let r = t.len() == 1 && t[0] == c;
    proof {
        if r {
            assert(t@ =~= seq![c]);
        }
    }
    r
}

fn classify(t: &Vec<char>) -> (k: TokenKind)
    ensures
        k matches TokenKind::Meta ==> t@ == seq!['^'],
        k matches TokenKind::Quote(w) ==> w < 5 && t@ == quote_token(w),
        k matches TokenKind::OpenList ==> t@ == seq!['('],
        k matches TokenKind::OpenVector ==> t@ == seq!['['],
        k matches TokenKind::OpenMap ==> t@ == seq!['{'],
        k matches TokenKind::Other ==> {
            &&& t@ != seq!['^']
            &&& t@ != seq!['(']
            &&& t@ != seq!['[']
            &&& t@ != seq!['{']
            &&& t@ != seq!['\'']
            &&& t@ != seq!['`']
            &&& t@ != seq!['~']
            &&& t@ != seq!['@']
            &&& t@ != seq!['~', '@']
        },
{
    if is_one(t, '^') {
        TokenKind::Meta
    } else if is_one(t, '\'') {
        TokenKind::Quote(0)
    } else if is_one(t, '`') {
        TokenKind::Quote(1)
    } else if is_one(t, '~') {
        TokenKind::Quote(2)
    } else if is_one(t, '@') {
        TokenKind::Quote(3)
    } else if t.len() == 2 && t[0] == '~' && t[1] == '@' {
        proof {
            assert(t@ =~= seq!['~', '@']);
        }
        TokenKind::Quote(4)
    } else if is_one(t, '(') {
        TokenKind::OpenList
    } else if is_one(t, '[') {
        TokenKind::OpenVector
    } else if is_one(t, '{') {
        TokenKind::OpenMap
    } else {
        proof {
            assert(t@ != seq!['~', '@']) by {
                if t@ == seq!['~', '@'] {
                    assert(t@.len() == 2 && t@[0] == '~' && t@[1] == '@');
                }
            }
        }
        TokenKind::Other
    }
}

pub open spec fn quote_token(which: u8) -> Seq<char> {
    if which == 0 {
        seq!['\'']
    } else if which == 1 {
        seq!['`']
    } else if which == 2 {
        seq!['~']
    } else if which == 3 {
        seq!['@']
    } else {
        seq!['~', '@']
    }
}

impl Reader {
    spec fn toks(&self) -> Seq<Seq<char>> {
        tokens_view(self.tokens@)
    }

    fn new(tokens: Vec<Vec<char>>) -> (r: Self)
        ensures
            r.tokens@ == tokens@,
            r.position == 0,
    {
        Reader { tokens, position: 0 }
    }

    /// Moves past the current token and gives it, if there is one.
    fn next(&mut self) -> (r: Option<Vec<char>>)
        requires
            old(self).position < old(self).tokens@.len(),
        ensures
            final(self).tokens@ == old(self).tokens@,
            final(self).position == old(self).position + 1,
            r matches Some(t) && t@ == old(self).toks()[old(self).position as int],
    {
        let n = self.tokens.len();
        self.position += 1;
        if self.position - 1 < n {
            let t = self.tokens[self.position - 1].clone();
            proof {
                assert(t@ =~= self.tokens@[self.position - 1]@);
            }
            Some(t)
        } else {
            None
        }
    }

    /// The current token, if there is one.
    fn peek(&self) -> (r: Option<&Vec<char>>)
        ensures
            r is Some <==> self.position < self.tokens@.len(),
            r matches Some(t) ==> t@ == self.toks()[self.position as int],
    {
        if self.position < self.tokens.len() {
            Some(&self.tokens[self.position])
        } else {
            None
        }
    }

    fn read_form(&mut self) -> (r: Result<Atom, ReadError>)
        requires
            old(self).position <= old(self).tokens@.len(),
        ensures
            final(self).tokens@ == old(self).tokens@,
            final(self).position <= final(self).tokens@.len(),
            read_outcome(r, final(self).position as int) == read_form_spec(
                old(self).toks(),
                old(self).position as int,
            ),
        decreases old(self).tokens@.len() - old(self).position, 0int,
    {
        let ghost ts = self.toks();
        let ghost p = self.position as int;
        let kind = match self.peek() {
            None => {
                return Err(ReadError::UnexpectedEof);
            },
            Some(t) => classify(t),
        };
        match kind {
            TokenKind::Meta => {
                self.next();
                proof {
                    lemma_read_form_advances(ts, p + 1);
                }
                let meta = match self.read_form() {
                    Err(e) => {
                        return Err(e);
                    },
                    Ok(m) => m,
                };
                let ghost p1 = self.position as int;
                proof {
                    lemma_read_form_advances(ts, p1);
                }
                let value = match self.read_form() {
                    Err(e) => {
                        return Err(e);
                    },
                    Ok(v) => v,
                };
                let name = chars_to_string(&['w', 'i', 't', 'h', '-', 'm', 'e', 't', 'a']);
                proof {
                    assert(name@ =~= with_meta_text());
                }
                let items = vec![Atom::Symbol(name), value, meta];
                proof {
                    crate::types::lemma_atoms_view(items@);
                    assert(crate::types::atoms_view(items@) =~= seq![
                        AtomV::Symbol(with_meta_text()),
                        items@[1]@,
                        items@[2]@,
                    ]);
                }
                Ok(Atom::List(items))
            },
            TokenKind::Quote(which) => {
                self.next();
                let inner = match self.read_form() {
                    Err(e) => {
                        return Err(e);
                    },
                    Ok(a) => a,
                };
                let name = quote_name(which);
                let items = vec![Atom::Symbol(name), inner];
                proof {
                    crate::types::lemma_atoms_view(items@);
                    assert(crate::types::atoms_view(items@) =~= seq![
                        AtomV::Symbol(quote_name_spec(which)),
                        items@[1]@,
                    ]);
                }
                Ok(Atom::List(items))
            },
            TokenKind::OpenList => {
                self.next();
                match self.read_sequence(')') {
                    Ok(xs) => Ok(Atom::List(xs)),
                    Err(e) => Err(e),
                }
            },
            TokenKind::OpenVector => {
                self.next();
                match self.read_sequence(']') {
                    Ok(xs) => Ok(Atom::Vector(xs)),
                    Err(e) => Err(e),
                }
            },
            TokenKind::OpenMap => {
                self.next();
                match self.read_map() {
                    Ok(es) => Ok(Atom::Dict(es)),
                    Err(e) => Err(e),
                }
            },
            TokenKind::Other => self.read_atom(),
        }
    }

    fn read_atom(&mut self) -> (r: Result<Atom, ReadError>)
        requires
            old(self).position < old(self).tokens@.len(),
        ensures
            final(self).tokens@ == old(self).tokens@,
            final(self).position == old(self).position + 1,
            r matches Ok(a) && a@ == token_atom(old(self).toks()[old(self).position as int]),
    {
        match self.next() {
            None => Err(ReadError::UnexpectedEof),
            Some(t) => Ok(token_to_atom(&t)),
        }
    }

    /// Reads forms up to the token `[close]`; the opening token is already consumed.
    fn read_sequence(&mut self, close: char) -> (r: Result<Vec<Atom>, ReadError>)
        requires
            old(self).position <= old(self).tokens@.len(),
        ensures
            final(self).tokens@ == old(self).tokens@,
            final(self).position <= final(self).tokens@.len(),
            match read_seq_spec(old(self).toks(), old(self).position as int, close, Seq::empty()) {
                Ok((xs, q)) => r matches Ok(v) && crate::types::atoms_view(v@) == xs
                    && final(self).position == q,
                Err(e) => r matches Err(x) && x@ == e,
            },
        decreases old(self).tokens@.len() - old(self).position, 1int,
    {
        let ghost ts = self.toks();
        let ghost p0 = self.position as int;
        let mut acc: Vec<Atom> = Vec::new();
        loop
            invariant
                self.tokens@ == old(self).tokens@,
                ts == self.toks(),
                p0 <= self.position <= self.tokens@.len(),
                p0 == old(self).position,
                read_seq_spec(ts, p0, close, Seq::empty()) == read_seq_spec(
                    ts,
                    self.position as int,
                    close,
                    crate::types::atoms_view(acc@),
                ),
            decreases self.tokens@.len() - self.position,
        {
            let ghost p = self.position as int;
            let at_close = match self.peek() {
                None => {
                    return Err(ReadError::UnexpectedEof);
                },
                Some(t) => t.len() == 1 && t[0] == close,
            };
            proof {
                if at_close {
                    assert(ts[p] =~= seq![close]);
                } else {
                    assert(ts[p] != seq![close]) by {
                        if ts[p] == seq![close] {
                            assert(ts[p].len() == 1 && ts[p][0] == close);
                        }
                    }
                }
            }
            if at_close {
                self.next();
                return Ok(acc);
            }
            proof {
                lemma_read_form_advances(ts, p);
            }
            match self.read_form() {
                Err(e) => {
                    return Err(e);
                },
                Ok(a) => {
                    proof {
                        crate::types::lemma_atoms_view_push(acc@, a);
                    }
                    acc.push(a);
                },
            }
        }
    }

    /// Reads keys and values up to the token `}`; the opening token is already consumed.
    fn read_map(&mut self) -> (r: Result<Vec<(Atom, Atom)>, ReadError>)
        requires
            old(self).position <= old(self).tokens@.len(),
        ensures
            final(self).tokens@ == old(self).tokens@,
            final(self).position <= final(self).tokens@.len(),
            match read_dict_spec(old(self).toks(), old(self).position as int, Seq::empty()) {
                Ok((es, q)) => r matches Ok(v) && crate::types::entries_view(v@) == es
                    && final(self).position == q,
                Err(e) => r matches Err(x) && x@ == e,
            },
        decreases old(self).tokens@.len() - old(self).position, 1int,
    {
        let ghost ts = self.toks();
        let ghost p0 = self.position as int;
        let mut acc: Vec<(Atom, Atom)> = Vec::new();
        loop
            invariant
                self.tokens@ == old(self).tokens@,
                ts == self.toks(),
                p0 <= self.position <= self.tokens@.len(),
                p0 == old(self).position,
                read_dict_spec(ts, p0, Seq::empty()) == read_dict_spec(
                    ts,
                    self.position as int,
                    crate::types::entries_view(acc@),
                ),
            decreases self.tokens@.len() - self.position,
        {
            let ghost p = self.position as int;
            let at_close = match self.peek() {
                None => {
                    return Err(ReadError::UnexpectedEof);
                },
                Some(t) => t.len() == 1 && t[0] == '}',
            };
            proof {
                if at_close {
                    assert(ts[p] =~= seq!['}']);
                } else {
                    assert(ts[p] != seq!['}']) by {
                        if ts[p] == seq!['}'] {
                            assert(ts[p].len() == 1 && ts[p][0] == '}');
                        }
                    }
                }
            }
            if at_close {
                self.next();
                return Ok(acc);
            }
            proof {
                lemma_read_form_advances(ts, p);
            }
            let k = match self.read_form() {
                Err(e) => {
                    return Err(e);
                },
                Ok(k) => k,
            };
            let ghost p1 = self.position as int;
            proof {
                lemma_read_form_advances(ts, p1);
            }
            let v = match self.read_form() {
                Err(e) => {
                    return Err(e);
                },
                Ok(v) => v,
            };
            insert_entry(&mut acc, k, v);
        }
    }
}

/// Reads the first form of a text.
///
/// # Errors
/// A [`ReadError`] when the text ends inside a form or holds an unknown escape.
pub fn read_str(code: &str) -> (r: Result<Atom, ReadError>)
    ensures
        read_result_view(r) == read_str_spec(code@),
{
    let tokens = match tokenize(code) {
        Ok(t) => t,
        Err(e) => {
            return Err(e);
        },
    };
    let mut reader = Reader::new(tokens);
    let r = reader.read_form();
    r
}

} // verus!
