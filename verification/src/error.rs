//! The failures that a merge can report.

use vstd::prelude::*;

verus! {

/// Why a source could not be applied. In each case the target is left as it
/// was.
#[derive(Debug, PartialEq, Eq)]
pub enum ConfigError {
    /// The content of a file is not a well-formed document; the message says
    /// where and why.
    ParseError(String),
    /// A value cannot stand where it is put: a path runs through a value that
    /// is no table, or the merged tree does not fit the object. The string
    /// says where: the dotted path of the value that is no table, or what
    /// the object's rebuilding reports.
    TypeMismatch(String),
    /// The last command-line token names an option and no value follows it.
    MalformedArguments,
}

/// A failure as a mathematical value: the view of a [`ConfigError`].
pub enum Failure {
    /// A malformed document, with the parser's message.
    ParseError(Seq<char>),
    /// A value that cannot stand at the place given.
    TypeMismatch(Seq<char>),
    /// An option as the last token, without a value.
    MalformedArguments,
}

impl View for ConfigError {
    type V = Failure;

    open spec fn view(&self) -> Failure {
        match self {
            ConfigError::ParseError(message) => Failure::ParseError(message@),
            ConfigError::TypeMismatch(place) => Failure::TypeMismatch(place@),
            ConfigError::MalformedArguments => Failure::MalformedArguments,
        }
    }
}

} // verus!
