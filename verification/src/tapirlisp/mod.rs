//! Tapir Lisp: a Lisp-like language that describes a sound signal flow.

pub mod dump;
pub mod io;
pub mod types;

use vstd::prelude::*;

use types::{copy_cons, Cons, Sexp};

pub use io::{print, read};

verus! {

/// A chain of `Cons` cells that ends in `Nil`.
pub open spec fn is_proper_list(c: Sexp) -> bool
    decreases c,
{
    match c {
        Sexp::Nil => true,
        Sexp::Cons(_, cdr) => is_proper_list(*cdr),
        _ => false,
    }
}

/// The elements of a list, in order.
pub open spec fn list_elements(c: Sexp) -> Seq<Sexp>
    decreases c,
{
    match c {
        Sexp::Cons(car, cdr) => seq![*car] + list_elements(*cdr),
        _ => Seq::empty(),
    }
}

/// The elements of the proper list `list`, copied.
pub fn to_vec(list: &Cons) -> (v: Vec<Box<Cons>>)
    requires
        is_proper_list(list@),
    ensures
        io::sexps(v@) == list_elements(list@),
{
    let mut v: Vec<Box<Cons>> = Vec::new();
    let mut cur = list;
    assert(io::sexps(v@) + list_elements(cur@) =~= list_elements(list@));
    loop
        invariant
            is_proper_list(cur@),
            io::sexps(v@) + list_elements(cur@) == list_elements(list@),
        decreases cur@,
    {
        match cur {
            Cons::Cons(elem, rest) => {
                let ghost before = io::sexps(v@);
                v.push(Box::new(copy_cons(elem)));
                assert(io::sexps(v@) =~= before.push((**elem)@));
                assert(io::sexps(v@) + list_elements((**rest)@) =~= before + list_elements(cur@));
                cur = rest;
            },
            _ => {
                assert(io::sexps(v@) + Seq::<Sexp>::empty() =~= io::sexps(v@));
                return v;
            },
        }
    }
}

} // verus!
