use vstd::prelude::*;

verus! {

/// What went wrong while reading an archive.
#[derive(Debug)]
pub struct Error {
    /// The message that describes the error.
    pub message: String,
}

impl View for Error {
    type V = Seq<char>;

    open spec fn view(&self) -> Seq<char> {
        self.message@
    }
}

/// An error that carries nothing but a message.
pub fn other(msg: &str) -> (error: Error)
    ensures
        error@ == msg@,
{
    Error { message: msg.to_owned() }
}

impl Error {
    /// The message of the error.
    pub fn to_string(&self) -> (message: String)
        ensures
            message@ == self@,
    {
        self.message.clone()
    }
}

} // verus!
