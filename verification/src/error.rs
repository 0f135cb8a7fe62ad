//! Why a module cannot be turned into CSS.

use vstd::prelude::*;

verus! {

/// A refused design, described by the message for the user.
#[derive(Debug)]
pub struct Error {
    pub message: String,
}

impl Error {
    /// An error with a fixed message.
    pub fn new(message: &str) -> (error: Error)
        ensures
            error.message@ == message@,
    {
        Error { message: message.to_owned() }
    }

    /// An error whose message ends in the text it is about.
    pub fn about(message: &str, subject: &str) -> (error: Error)
        ensures
            error.message@ == message@ + subject@,
    {
        let mut text = message.to_owned();
        text.append(subject);
        Error { message: text }
    }
}

/// A text or the message of an error, both taken by their views.
pub open spec fn text_outcome(result: Result<String, Error>) -> Result<Seq<char>, Seq<char>> {
    match result {
        Ok(text) => Ok(text@),
        Err(error) => Err(error.message@),
    }
}

} // verus!
