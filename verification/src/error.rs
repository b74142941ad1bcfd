//! Errors of lexing, parsing and validation: a message and a byte offset.
use vstd::prelude::*;

use vstd::string::StringExecFns;

verus! {

/// An error with the byte offset it refers to.
#[derive(Debug, Clone, PartialEq)]
pub struct Error {
    pub message: String,
    pub position: usize,
}

impl View for Error {
    type V = (Seq<char>, int);

    open spec fn view(&self) -> (Seq<char>, int) {
        (self.message@, self.position as int)
    }
}

impl Error {
    /// An error with the given message at the given offset.
    pub fn new(message: &str, position: usize) -> (e: Self)
        ensures
            e.message@ == message@,
            e.position == position,
    {
        Self { message: String::from_str(message), position }
    }
}

} // verus!
