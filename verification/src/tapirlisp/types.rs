//! The values of Tapir Lisp: S-expressions and the errors of the reader.

use vstd::prelude::*;

use crate::text::{concat_text, text_of_str};

verus! {

/// An S-expression as the reader builds it. A number keeps its numeral in
/// canonical decimal form (see `canonical_numeral`).
#[derive(Debug, PartialEq)]
pub enum Cons {
    Cons(Box<Cons>, Box<Cons>),
    Symbol(String),
    Number(String),
    Nil,
}

/// The mathematical form of an S-expression: text is a sequence of chars.
pub enum Sexp {
    Cons(Box<Sexp>, Box<Sexp>),
    Symbol(Seq<char>),
    Number(Seq<char>),
    Nil,
}

/// The mathematical form of `c`.
pub open spec fn sexp_of(c: Cons) -> Sexp
    decreases c,
{
    match c {
        Cons::Cons(car, cdr) => Sexp::Cons(Box::new(sexp_of(*car)), Box::new(sexp_of(*cdr))),
        Cons::Symbol(name) => Sexp::Symbol(name@),
        Cons::Number(n) => Sexp::Number(n@),
        Cons::Nil => Sexp::Nil,
    }
}

impl View for Cons {
    type V = Sexp;

    open spec fn view(&self) -> Sexp {
        sexp_of(*self)
    }
}

/// The number of nodes of an S-expression.
pub open spec fn sexp_size(c: Sexp) -> nat
    decreases c,
{
    match c {
        Sexp::Cons(car, cdr) => 1 + sexp_size(*car) + sexp_size(*cdr),
        _ => 1,
    }
}

/// An error of the reader.
#[derive(Debug, PartialEq)]
pub enum ReadError {
    InvalidNumber(String),
    UnexpectedCloseParen,
}

/// The mathematical form of a reader error.
pub enum ReadErr {
    InvalidNumber(Seq<char>),
    UnexpectedCloseParen,
}

impl View for ReadError {
    type V = ReadErr;

    open spec fn view(&self) -> ReadErr {
        match self {
            ReadError::InvalidNumber(s) => ReadErr::InvalidNumber(s@),
            ReadError::UnexpectedCloseParen => ReadErr::UnexpectedCloseParen,
        }
    }
}

impl ReadError {
    /// What went wrong, in words.
    pub fn message(&self) -> (s: String)
        ensures
            s@ == match self@ {
                ReadErr::InvalidNumber(t) => "Cannot parse '"@ + t + "' as a number"@,
                ReadErr::UnexpectedCloseParen => "Unexpected ')'"@,
            },
    {
        match self {
            ReadError::InvalidNumber(t) => {
                let s = concat_text(&text_of_str("Cannot parse '"), t);
                concat_text(&s, &text_of_str("' as a number"))
            },
            ReadError::UnexpectedCloseParen => text_of_str("Unexpected ')'"),
        }
    }
}

/// A copy of `c`.
pub fn copy_cons(c: &Cons) -> (r: Cons)
    ensures
        r@ == c@,
    decreases c,
{
    match c {
        Cons::Cons(car, cdr) => Cons::Cons(Box::new(copy_cons(car)), Box::new(copy_cons(cdr))),
        Cons::Symbol(name) => Cons::Symbol(name.clone()),
        Cons::Number(n) => Cons::Number(n.clone()),
        Cons::Nil => Cons::Nil,
    }
}

} // verus!
