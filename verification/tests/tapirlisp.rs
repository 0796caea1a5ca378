use koto::tapirlisp::io::{print, print_list, read, read_terminates, ReadError};
use koto::tapirlisp::to_vec;
use koto::tapirlisp::types::Cons;

fn sym(s: &str) -> Cons {
    Cons::Symbol(s.to_string())
}

fn num(s: &str) -> Cons {
    Cons::Number(s.to_string())
}

fn cons(a: Cons, d: Cons) -> Cons {
    Cons::Cons(Box::new(a), Box::new(d))
}

fn list(items: Vec<Cons>) -> Cons {
    let mut l = Cons::Nil;
    for c in items.into_iter().rev() {
        l = cons(c, l);
    }
    l
}

fn read_str(s: &str) -> Result<Vec<Box<Cons>>, ReadError> {
    let s = s.to_string();
    assert!(read_terminates(&s));
    read(s)
}

#[test]
fn read_empty_text_gives_nothing() {
    assert_eq!(read_str("").unwrap().len(), 0);
    assert_eq!(read_str("   \n\t ").unwrap().len(), 0);
}

#[test]
fn read_atoms() {
    let v = read_str("abc 12 x").unwrap();
    assert_eq!(v.len(), 3);
    assert_eq!(*v[0], sym("abc"));
    assert_eq!(*v[1], num("12"));
    assert_eq!(*v[2], sym("x"));
}

#[test]
fn read_list_and_nested_list() {
    let v = read_str("(out 0.25 (sine 0 440))").unwrap();
    assert_eq!(v.len(), 1);
    let expected = list(vec![
        sym("out"),
        num("0.25"),
        list(vec![sym("sine"), num("0"), num("440")]),
    ]);
    assert_eq!(*v[0], expected);
}

#[test]
fn read_numerals_in_canonical_form() {
    let v = read_str("007 1.50 3. 0.0 00.010 10").unwrap();
    let texts: Vec<Cons> = v.into_iter().map(|b| *b).collect();
    assert_eq!(texts, vec![num("7"), num("1.5"), num("3"), num("0"), num("0.01"), num("10")]);
}

#[test]
fn read_invalid_number() {
    assert_eq!(read_str("1.2.3"), Err(ReadError::InvalidNumber("1.2.3".to_string())));
}

#[test]
fn read_unexpected_close_paren() {
    assert_eq!(read_str(")"), Err(ReadError::UnexpectedCloseParen));
    assert_eq!(read_str("a )"), Err(ReadError::UnexpectedCloseParen));
}

#[test]
fn read_stops_at_empty_list() {
    let v = read_str("a () b").unwrap();
    assert_eq!(v.len(), 1);
    assert_eq!(*v[0], sym("a"));
}

#[test]
fn read_number_followed_by_symbol() {
    let v = read_str("12abc").unwrap();
    assert_eq!(v.len(), 2);
    assert_eq!(*v[0], num("12"));
    assert_eq!(*v[1], sym("abc"));
}

#[test]
fn read_symbol_keeps_open_paren_inside() {
    let v = read_str("a(b c").unwrap();
    assert_eq!(*v[0], sym("a(b"));
    assert_eq!(*v[1], sym("c"));
}

#[test]
fn unclosed_list_never_reads_to_an_end() {
    assert!(!read_terminates(&"(a b".to_string()));
    assert!(!read_terminates(&"(".to_string()));
    assert!(read_terminates(&"(a b)".to_string()));
}

#[test]
fn unicode_whitespace_separates_tokens() {
    let v = read_str("a\u{3000}b\u{a0}c").unwrap();
    assert_eq!(v.len(), 3);
    assert_eq!(*v[2], sym("c"));
}

#[test]
fn print_atoms_and_lists() {
    assert_eq!(print(&Cons::Nil), "nil");
    assert_eq!(print(&num("2.5")), "2.5");
    assert_eq!(print(&sym("sine")), "sine");
    assert_eq!(print(&list(vec![sym("a"), num("1"), list(vec![sym("b")])])), "(a 1 (b))");
}

#[test]
fn print_dotted_pairs() {
    assert_eq!(print(&cons(sym("a"), num("1"))), "(a . 1)");
    assert_eq!(print(&cons(sym("a"), cons(sym("b"), sym("c")))), "(a b . c)");
    assert_eq!(print(&list(vec![Cons::Nil])), "(nil)");
}

#[test]
fn read_of_print_gives_back_the_expression() {
    let c = list(vec![
        sym("out"),
        num("0.25"),
        list(vec![sym("+"), list(vec![sym("sine"), num("0"), num("440")]), sym("shared-0")]),
    ]);
    let text = print(&c);
    let v = read_str(&text).unwrap();
    assert_eq!(v.len(), 1);
    assert_eq!(*v[0], c);
}

#[test]
fn to_vec_gives_list_elements() {
    let l = list(vec![sym("a"), num("1"), list(vec![sym("b")])]);
    let v = to_vec(&l);
    assert_eq!(v.len(), 3);
    assert_eq!(*v[0], sym("a"));
    assert_eq!(*v[2], list(vec![sym("b")]));
    assert_eq!(to_vec(&Cons::Nil).len(), 0);
}

#[test]
fn print_list_gives_the_elements_without_parens() {
    assert_eq!(print_list(&sym("a"), &list(vec![num("1"), sym("b")])), "a 1 b");
    assert_eq!(print_list(&sym("a"), &Cons::Nil), "a");
    assert_eq!(print_list(&sym("a"), &sym("b")), "a . b");
}

#[test]
fn reader_errors_in_words() {
    assert_eq!(ReadError::InvalidNumber("1.2.3".to_string()).message(), "Cannot parse '1.2.3' as a number");
    assert_eq!(ReadError::UnexpectedCloseParen.message(), "Unexpected ')'");
}
