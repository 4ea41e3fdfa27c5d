# mal

A small Lisp interpreter in the "make a lisp" family, written in Verus: the
reader, the printer, the environments and the evaluator each carry a contract
that Verus proves. One function is trusted rather than proved: `push_char`
in `src/text.rs`, which appends a character by calling std's `String::push`.

## Layout

- `src/types.rs`: the values (`Atom`) and their mathematical model (`AtomV`).
- `src/text.rs`: character and decimal-text helpers.
- `src/order.rs`: the order of values, used to keep map entries sorted by key.
- `src/reader.rs`: tokenizer and reader, proved against a specification of
  the grammar (`read_str_spec`).
- `src/printer.rs`: printing of values, plain or readable (`print_spec`).
- `src/env.rs`: frames of bindings kept in a store and named by index.
- `src/core_lib.rs`: the builtins and the standard environments.
- `src/semantics.rs`: a big-step semantics of evaluation with a step bound.
- `src/eval.rs`: the evaluator, proved to agree with the semantics.
- `src/repl.rs`: reading, evaluating and printing one line.
- `src/laws.rs`: properties that relate several operations.
- `src/stages.rs`: evaluation with and without tail calls in a loop agree.
- `app/main.rs`: the interactive program (line editing, file access).
