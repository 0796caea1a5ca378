//! Koto: the verified core of a music performing filesystem.
//!
//! The library holds the parts of Koto that compute on plain values: the
//! filesystem tree that stands for a unit graph, built from the graph's
//! dump and changed by the requests of the kernel, and the plans that bring
//! the unit generators in line with it; the Tapir Lisp reader and printer
//! and the dump of a configuration as Tapir Lisp text; note names; musical
//! time; and the register machine of Somnia Lisp.

pub mod event;
pub mod events;
pub mod kotofs;
pub mod kotonode;
pub mod mtime;
pub mod somnia;
pub mod tapirlisp;
pub mod text;
pub mod time;
pub mod ugdump;
pub mod ugen;
pub mod units;
pub mod unitstr;
