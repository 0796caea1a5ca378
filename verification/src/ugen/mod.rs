//! Unit generators: the nodes of a sound signal graph.

pub mod ugcore;
pub mod util;
