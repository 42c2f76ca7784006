//! Diagnostics: a recorded parse error is a description together with the
//! byte offset into the original text at which it arose.

use vstd::prelude::*;

verus! {

/// Mathematical model of one diagnostic.
pub struct Diag {
    pub msg: Seq<char>,
    pub byte: int,
}

/// One recoverable parse error: a description and the byte offset into the
/// original text at which it was recorded.
#[derive(Debug, Clone)]
pub struct ParseError {
    pub desc: String,
    pub byte: usize,
}

impl View for ParseError {
    type V = Diag;

    open spec fn view(&self) -> Diag {
        Diag { msg: self.desc@, byte: self.byte as int }
    }
}

impl DeepView for ParseError {
    type V = Diag;

    open spec fn deep_view(&self) -> Diag {
        self.view()
    }
}

impl ParseError {
    pub fn new(desc: &str, b: usize) -> (r: ParseError)
        ensures
            r@.msg == desc@,
            r@.byte == b as int,
    {
        ParseError { desc: desc.to_owned(), byte: b }
    }
}

} // verus!
