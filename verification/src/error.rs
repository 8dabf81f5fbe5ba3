use vstd::prelude::*;

verus! {

/// What can go wrong while reading, parsing or running a command line.
#[derive(Debug)]
pub enum Error {
    /// A command line that does not parse; the text says why.
    Parser(String),
    /// No more input.
    Lexer,
    Builtin,
    /// A command could not be run; the text says why.
    Run(String),
    Mutex,
    /// The user interrupted the input.
    Interrupt,
    /// An environment variable that is not set (its name).
    Env(String),
    /// An input or output error (its description).
    Io(String),
    /// Bytes that are not UTF-8.
    Utf8,
    /// A value that was looked for is not there (a line past the end of a
    /// script).
    Missing,
}

impl Error {
    /// A copy of the error.
    pub fn duplicate(&self) -> (res: Error)
        ensures
            res == *self,
    {
        match self {
            Error::Parser(m) => Error::Parser(m.clone()),
            Error::Lexer => Error::Lexer,
            Error::Builtin => Error::Builtin,
            Error::Run(m) => Error::Run(m.clone()),
            Error::Mutex => Error::Mutex,
            Error::Interrupt => Error::Interrupt,
            Error::Env(m) => Error::Env(m.clone()),
            Error::Io(m) => Error::Io(m.clone()),
            Error::Utf8 => Error::Utf8,
            Error::Missing => Error::Missing,
        }
    }
}

} // verus!
