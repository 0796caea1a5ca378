//! Sound units, as the signal graph sees them.

pub mod unit;
