//! What can go wrong, as a value.

use vstd::prelude::*;

use crate::text::{copy, push_text};

verus! {

/// A failure, with the text that a user sees.
#[derive(Debug, Clone)]
pub enum Error {
    /// A file that does not read.
    Parse { path: String, msg: String },
    /// A setting that cannot be honoured.
    Config(String),
    /// A mesh that is not one.
    Mesh(String),
    /// A field that does not fit.
    Field { field: String, msg: String },
}

/// The contents of an [`Error`].
pub enum Failure {
    Parse { path: Seq<char>, msg: Seq<char> },
    Config(Seq<char>),
    Mesh(Seq<char>),
    Field { field: Seq<char>, msg: Seq<char> },
}

impl View for Error {
    type V = Failure;

    open spec fn view(&self) -> Failure {
        match *self {
            Error::Parse { path, msg } => Failure::Parse { path: path@, msg: msg@ },
            Error::Config(msg) => Failure::Config(msg@),
            Error::Mesh(msg) => Failure::Mesh(msg@),
            Error::Field { field, msg } => Failure::Field { field: field@, msg: msg@ },
        }
    }
}

impl Failure {
    /// The text of a failure: what it is about, then what is wrong.
    pub open spec fn text(self) -> Seq<char> {
        match self {
            Failure::Parse { path, msg } => path + ": "@ + msg,
            Failure::Config(msg) => msg,
            Failure::Mesh(msg) => msg,
            Failure::Field { field, msg } => field + ": "@ + msg,
        }
    }
}

impl Error {
    /// The text of the error.
    pub fn text(&self) -> (r: String)
        ensures
            r@ == self@.text(),
    {
        match self {
            Error::Parse { path, msg } => {
                let mut s = copy(path);
                push_text(&mut s, ": ");
                push_text(&mut s, msg);
                s
            },
            Error::Config(msg) => copy(msg),
            Error::Mesh(msg) => copy(msg),
            Error::Field { field, msg } => {
                let mut s = copy(field);
                push_text(&mut s, ": ");
                push_text(&mut s, msg);
                s
            },
        }
    }
}

/// A parse failure for a file.
pub fn parse_error(path: &str, msg: String) -> (e: Error)
    ensures
        e@ == (Failure::Parse { path: path@, msg: msg@ }),
{
    Error::Parse { path: copy(path), msg }
}

} // verus!
