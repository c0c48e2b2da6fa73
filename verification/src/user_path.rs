//! What the user wants to open.
use vstd::prelude::*;

verus! {

/// A path or URL that the user wants to open.
#[derive(Debug, Clone, PartialEq, Eq)]
pub struct UserPath {
    text: String,
}

impl View for UserPath {
    type V = Seq<char>;

    closed spec fn view(&self) -> Seq<char> {
        self.text@
    }
}

impl UserPath {
    /// The path or URL that is written so.
    pub fn new(text: String) -> (r: UserPath)
        ensures
            r@ == text@,
    {
        UserPath { text }
    }

    /// How the path or URL is written.
    pub fn as_str(&self) -> (r: &str)
        ensures
            r@ == self@,
    {
        self.text.as_str()
    }
}

} // verus!
