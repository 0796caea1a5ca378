//! A placeholder reader of unit descriptions.

use vstd::prelude::*;

verus! {

/// A list of names.
#[derive(Debug)]
pub enum Cons {
    Cons(String, Box<Cons>),
    Nil,
}

/// Reads a unit description; every text reads as the empty list.
pub fn read(s: String) -> (c: Cons)
    ensures
        c is Nil,
{
    Cons::Nil
}

} // verus!
