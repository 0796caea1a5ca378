//! Events read from Lisp forms.

pub mod elisp;
