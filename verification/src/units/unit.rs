//! The states of an envelope generator, shared with the unit generators.

pub use crate::ugen::ugcore::{Eg, ADSR};
