//! Read, evaluate, print: one line of input answered.

use vstd::prelude::*;
use crate::types::Atom;
use crate::reader::{ReadError, ReadErrorV, read_str, read_str_spec, read_result_view};
use crate::printer::{print_str, print_spec};
use crate::eval::{Files, Interpreter, eval_agrees, follows};
use crate::semantics::{Stage, StateV, FileRead, prefix, eval_spec};
use crate::core_lib::text_result_view;

verus! {

/// Why a line could not be answered: it could not be read, or its evaluation failed.
#[derive(Debug)]
pub enum RepError {
    Read(ReadError),
    Eval(String),
}

/// The model of a [`RepError`].
pub enum RepErrorV {
    Read(ReadErrorV),
    Eval(Seq<char>),
}

/// The model of the answer to a line.
pub open spec fn rep_view(r: Result<String, RepError>) -> Result<Seq<char>, RepErrorV> {
    match r {
        Ok(t) => Ok(t@),
        Err(RepError::Read(e)) => Err(RepErrorV::Read(e@)),
        Err(RepError::Eval(m)) => Err(RepErrorV::Eval(m@)),
    }
}

/// The text of the form read from `code`, printed readably.
pub open spec fn read_print_spec(code: Seq<char>) -> Result<Seq<char>, ReadErrorV> {
    match read_str_spec(code) {
        Ok(a) => Ok(print_spec(a, true)),
        Err(e) => Err(e),
    }
}

/// Reads the first form of `code` and prints it back readably.
pub fn read_print(code: &str) -> (r: Result<String, ReadError>)
    ensures
        match r {
            Ok(t) => read_print_spec(code@) == Ok::<Seq<char>, ReadErrorV>(t@),
            Err(e) => read_print_spec(code@) == Err::<Seq<char>, ReadErrorV>(e@),
        },
{
    let parsed = read_str(code);
    match parsed {
        Ok(a) => Ok(print_str(&a, true)),
        Err(e) => Err(e),
    }
}

/// Reads the first form of `code`, evaluates it in the outermost frame and
/// prints the value readably; `o` answers file reads as in [`eval_spec`].
pub open spec fn rep_spec(
    st: Stage,
    fuel: nat,
    code: Seq<char>,
    s: StateV,
    o: Seq<FileRead>,
) -> (Result<Seq<char>, RepErrorV>, StateV) {
    match read_str_spec(code) {
        Err(e) => (Err(RepErrorV::Read(e)), s),
        Ok(a) => {
            let (r, s1) = eval_spec(st, fuel, a, 0, s, o);
            match r {
                Ok(v) => (Ok(print_spec(v, true)), s1),
                Err(m) => (Err(RepErrorV::Eval(m)), s1),
            }
        },
    }
}

impl Interpreter {
    /// Answers one line of input: reads its first form, evaluates it in the
    /// outermost frame (frame 0) at stage `st` in at most `fuel` steps, and
    /// prints the value readably.
    pub fn rep<F: Files>(&mut self, files: &mut F, st: Stage, fuel: u64, code: &str) -> (r: Result<
        String,
        RepError,
    >)
        ensures
            follows(old(self)@, final(self)@),
            forall|o: Seq<FileRead>|
                prefix(final(self)@.reads, o) ==> #[trigger] rep_spec(st, fuel as nat, code@, old(self)@, o)
                    == (rep_view(r), final(self)@),
    {
        let ghost s = self@;
        let parsed = read_str(code);
        let form = match parsed {
            Ok(a) => a,
            Err(e) => {
                proof {
                    assert(read_result_view(Err::<Atom, ReadError>(e)) == Err::<crate::types::AtomV, ReadErrorV>(e@));
                }
                return Err(RepError::Read(e));
            },
        };
        let ghost fv = form@;
        let r = self.eval(files, st, fuel, form, 0);
        proof {
            assert(eval_agrees(st, fuel as nat, fv, 0, s, text_result_view(r), self@));
        }
        match r {
            Ok(v) => Ok(print_str(&v, true)),
            Err(m) => Err(RepError::Eval(m)),
        }
    }
}

} // verus!
