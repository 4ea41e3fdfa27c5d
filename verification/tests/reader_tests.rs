use mal::printer::print_str;
use mal::reader::{read_str, ReadError};
use mal::repl::read_print;
use mal::types::Atom;

fn reads_as(code: &str) -> String {
    match read_str(code) {
        Ok(a) => print_str(&a, true),
        Err(e) => format!("{e:?}"),
    }
}

#[test]
fn reads_integers() {
    assert!(matches!(read_str("42"), Ok(Atom::Int(42))));
    assert!(matches!(read_str("-123"), Ok(Atom::Int(-123))));
    assert!(matches!(read_str("+5"), Ok(Atom::Int(5))));
    assert!(matches!(read_str("2147483647"), Ok(Atom::Int(2147483647))));
    assert!(matches!(read_str("-2147483648"), Ok(Atom::Int(-2147483648))));
}

#[test]
fn integer_out_of_range_reads_as_symbol() {
    match read_str("2147483648") {
        Ok(Atom::Symbol(s)) => assert_eq!(s, "2147483648"),
        _ => panic!("expected a symbol"),
    }
    match read_str("-") {
        Ok(Atom::Symbol(s)) => assert_eq!(s, "-"),
        _ => panic!("expected a symbol"),
    }
    match read_str("1a") {
        Ok(Atom::Symbol(s)) => assert_eq!(s, "1a"),
        _ => panic!("expected a symbol"),
    }
}

#[test]
fn reads_constants_keywords_and_symbols() {
    assert!(matches!(read_str("nil"), Ok(Atom::Nil)));
    assert!(matches!(read_str("true"), Ok(Atom::Bool(true))));
    assert!(matches!(read_str("false"), Ok(Atom::Bool(false))));
    match read_str(":kw") {
        Ok(Atom::Keyword(k)) => assert_eq!(k, "kw"),
        _ => panic!("expected a keyword"),
    }
    match read_str("abc-def") {
        Ok(Atom::Symbol(s)) => assert_eq!(s, "abc-def"),
        _ => panic!("expected a symbol"),
    }
}

#[test]
fn reads_strings_with_escapes() {
    match read_str("\"a\\nb\\\"c\\\\d\"") {
        Ok(Atom::Str(s)) => assert_eq!(s, "a\nb\"c\\d"),
        _ => panic!("expected a string"),
    }
    match read_str("\"\"") {
        Ok(Atom::Str(s)) => assert_eq!(s, ""),
        _ => panic!("expected a string"),
    }
}

#[test]
fn reads_lists_and_vectors() {
    assert_eq!(reads_as("(1 2 (3 4))"), "(1 2 (3 4))");
    assert_eq!(reads_as("[1 [2] ()]"), "[1 [2] ()]");
    assert_eq!(reads_as("(  + 1   2 )"), "(+ 1 2)");
    assert_eq!(reads_as("(1,2,3)"), "(1 2 3)");
    assert_eq!(reads_as("()"), "()");
}

#[test]
fn reads_maps_in_key_order() {
    assert_eq!(reads_as("{\"b\" 2 \"a\" 1}"), "{\"a\" 1 \"b\" 2}");
    assert_eq!(reads_as("{\"a\" 1 :b 2}"), "{:b 2 \"a\" 1}");
    assert_eq!(reads_as("{\"a\" 1 \"a\" 2}"), "{\"a\" 2}");
    assert_eq!(reads_as("{}"), "{}");
}

#[test]
fn reads_quote_forms() {
    assert_eq!(reads_as("'a"), "(quote a)");
    assert_eq!(reads_as("`a"), "(quasiquote a)");
    assert_eq!(reads_as("~a"), "(unquote a)");
    assert_eq!(reads_as("~@a"), "(splice-unquote a)");
    assert_eq!(reads_as("@a"), "(deref a)");
    assert_eq!(reads_as("'(1 2)"), "(quote (1 2))");
}

#[test]
fn reads_metadata() {
    assert_eq!(reads_as("^{\"a\" 1} [1 2 3]"), "(with-meta [1 2 3] {\"a\" 1})");
}

#[test]
fn skips_comments_and_reads_first_form_only() {
    assert_eq!(reads_as("1 ; a comment"), "1");
    assert_eq!(reads_as("; a comment\n2"), "2");
    assert_eq!(reads_as("1 2 3"), "1");
    assert_eq!(reads_as(")"), ")");
}

#[test]
fn reports_end_of_input() {
    assert!(matches!(read_str(""), Err(ReadError::UnexpectedEof)));
    assert!(matches!(read_str("   "), Err(ReadError::UnexpectedEof)));
    assert!(matches!(read_str("(1 2"), Err(ReadError::UnexpectedEof)));
    assert!(matches!(read_str("[1"), Err(ReadError::UnexpectedEof)));
    assert!(matches!(read_str("{\"a\""), Err(ReadError::UnexpectedEof)));
    assert!(matches!(read_str("\"abc"), Err(ReadError::UnexpectedEof)));
    assert!(matches!(read_str("\"abc\\"), Err(ReadError::UnexpectedEof)));
    assert!(matches!(read_str("'"), Err(ReadError::UnexpectedEof)));
}

#[test]
fn reports_invalid_escape() {
    match read_str("\"a\\tb\"") {
        Err(ReadError::InvalidEscape(e)) => assert_eq!(e, "\\t"),
        _ => panic!("expected an invalid escape"),
    }
}

#[test]
fn error_messages() {
    assert_eq!(ReadError::UnexpectedEof.message(), "EOF");
    assert_eq!(ReadError::UnexpectedToken(")".to_string()).message(), "unexpected token: )");
    assert_eq!(ReadError::InvalidEscape("\\t".to_string()).message(), "invalid escape: \\t");
    assert_eq!(format!("{:?}", ReadError::UnexpectedEof), "UnexpectedEof");
}

#[test]
fn read_print_echoes_forms_readably() {
    assert_eq!(read_print("(1 2 (3 4))").unwrap(), "(1 2 (3 4))");
    assert_eq!(read_print("\"a\\nb\"").unwrap(), "\"a\\nb\"");
    assert_eq!(read_print("  :kw  ").unwrap(), ":kw");
    assert!(matches!(read_print("(1"), Err(ReadError::UnexpectedEof)));
}
