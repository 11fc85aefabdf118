use vstd::prelude::*;
use vstd::string::*;

verus! {

/// Error reported by every fallible codec in this crate.
#[derive(Debug)]
pub struct MmnError {
    pub message: String,
}

impl MmnError {
    /// An error carrying the given text.
    pub fn new(text: &str) -> (e: MmnError)
        ensures
            e.message@ == text@,
    {
        MmnError { message: String::from_str(text) }
    }

    /// An error whose text is `head` followed by `tail`.
    pub fn with_detail(head: &str, tail: &str) -> (e: MmnError)
        ensures
            e.message@ == head@ + tail@,
    {
        let s = String::from_str(head);
        MmnError { message: s.concat(tail) }
    }

    /// The human-readable text of the error.
    pub fn message(&self) -> (s: String)
        ensures
            s@ == self.message@,
    {
        self.message.clone()
    }
}

} // verus!
