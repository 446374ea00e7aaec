//! An error or a warning about a program: what it is, what went wrong and
//! the lines where it happened.
use crate::syntax::tokens::LineNumber;
use vstd::prelude::*;

verus! {

#[derive(Debug)]
pub struct Diagnostic {
    pub title: String,
    pub message: String,
    pub lines: Vec<LineNumber>,
}

} // verus!
