//! Errors reported while loading a configuration.
use vstd::prelude::*;

verus! {

/// std's I/O error, carried opaque inside `Error::ReadFileError`; nothing is
/// assumed of its contents.
#[verifier::external_type_specification]
#[verifier::external_body]
pub struct ExIoError(std::io::Error);

/// Why loading failed. Line numbers count the newlines consumed before the
/// failure, so the first line of a file is line 0.
#[derive(Debug)]
pub enum Error {
    /// The file exists but could not be read.
    ReadFileError(std::io::Error),
    /// The dotted key was already assigned earlier in the file.
    RepeatedOption(String, usize),
    /// A `#` stood inside a member name.
    UnexpectedComment(usize),
    /// A line ended inside a member name.
    UnexpectedEndOfLine(usize),
    /// The input ended inside a member name or an open container.
    UnexpectedEndOfFile,
    /// A member name was followed directly by `}`.
    UnexpectedEndOfContainer(usize),
    /// An array held something other than `{`, `[` or `]`.
    UnexpectedCharacter(char, usize),
    /// A `:`, `{` or `[` had no name before it.
    EmptyKey(usize),
}

/// What a parse failure is, as plain values.
pub enum Failure {
    ReadFile,
    RepeatedOption(Seq<char>, nat),
    UnexpectedComment(nat),
    UnexpectedEndOfLine(nat),
    UnexpectedEndOfFile,
    UnexpectedEndOfContainer(nat),
    UnexpectedCharacter(char, nat),
    EmptyKey(nat),
}

impl View for Error {
    type V = Failure;

    open spec fn view(&self) -> Failure {
        match self {
            Error::ReadFileError(_) => Failure::ReadFile,
            Error::RepeatedOption(k, l) => Failure::RepeatedOption(k@, *l as nat),
            Error::UnexpectedComment(l) => Failure::UnexpectedComment(*l as nat),
            Error::UnexpectedEndOfLine(l) => Failure::UnexpectedEndOfLine(*l as nat),
            Error::UnexpectedEndOfFile => Failure::UnexpectedEndOfFile,
            Error::UnexpectedEndOfContainer(l) => Failure::UnexpectedEndOfContainer(*l as nat),
            Error::UnexpectedCharacter(c, l) => Failure::UnexpectedCharacter(*c, *l as nat),
            Error::EmptyKey(l) => Failure::EmptyKey(*l as nat),
        }
    }
}

} // verus!
