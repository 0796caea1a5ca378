//! What the unit generators share: their dumped form and the states of an
//! envelope generator.

use vstd::prelude::*;

verus! {

/// A unit generator as it is dumped: a value (its numeral), a wave table
/// (its numerals), a pattern (its events as text), or a unit with its name,
/// the names of its parameters and their dumped forms.
pub enum Parameter {
    Value(String),
    Table(Vec<String>),
    Pattern(Vec<String>),
    UG(String, Vec<String>, Vec<Box<Parameter>>),
}

/// The state of an envelope generator.
#[derive(Debug, Clone, Copy, PartialEq, Eq)]
pub enum ADSR {
    Attack,
    Decay,
    Sustin,
    Release,
    Idle,
}

/// An envelope generator: a unit whose state a trigger sets.
pub trait Eg {
    fn set_state(&mut self, state: ADSR, eplaced: u64);
}

} // verus!
