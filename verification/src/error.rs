//! The error that the operations of the library report.

use vstd::prelude::*;

verus! {

/// Why an operation was refused. An error is known by its message.
#[derive(Debug)]
pub enum Error {
    /// An operation could not be carried out.
    RuntimeError(String),
}

impl View for Error {
    type V = Seq<char>;

    open spec fn view(&self) -> Seq<char> {
        match self {
            Error::RuntimeError(message) => message@,
        }
    }
}

/// A result seen through the view of its value and the message of its error.
pub open spec fn res_view<T: View>(r: Result<T, Error>) -> Result<T::V, Seq<char>> {
    match r {
        Ok(value) => Ok(value@),
        Err(error) => Err(error@),
    }
}

/// A result without a value seen through the message of its error.
pub open spec fn unit_view(r: Result<(), Error>) -> Result<(), Seq<char>> {
    match r {
        Ok(_) => Ok(()),
        Err(error) => Err(error@),
    }
}

/// A result that is a flag, by its views.
pub open spec fn flag_view(r: Result<bool, Error>) -> Result<bool, Seq<char>> {
    match r {
        Ok(flag) => Ok(flag),
        Err(error) => Err(error@),
    }
}

impl Error {
    /// The message of the error.
    pub fn message(&self) -> (r: String)
        ensures
            r@ == self@,
    {
        match self {
            Error::RuntimeError(message) => message.clone(),
        }
    }
}

/// The error with the given message.
pub fn failure(message: &str) -> (r: Error)
    ensures
        r@ == message@,
{
    Error::RuntimeError(message.to_owned())
}

} // verus!
