use vstd::prelude::*;

verus! {

/// An error that carries only a message.
#[derive(Debug)]
pub struct SimpleError(String);

impl SimpleError {
    /// The message.
    pub closed spec fn message(&self) -> Seq<char> {
        self.0@
    }

    pub fn new(s: &str) -> (r: Self)
        ensures
            r.message() == s@,
    {
        SimpleError(s.to_string())
    }

    /// The message, as the error displays it.
    pub fn as_str(&self) -> (r: &str)
        ensures
            r@ == self.message(),
    {
        self.0.as_str()
    }
}

} // verus!
