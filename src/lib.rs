//! A reader for a small Lisp-like surface syntax: strings, bare symbols,
//! keywords and parenthesised lists, read from bytes into a tree of forms.
//!
//! `grammar` states what reading yields as spec functions, `reader` holds
//! the executable reader proved against them, and `laws` proves what the
//! grammar guarantees, among it that plainly printed trees read back.
pub mod form;
pub mod grammar;
pub mod laws;
pub mod reader;

pub use form::{Form, FormView};
pub use reader::Parser;
