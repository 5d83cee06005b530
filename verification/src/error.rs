//! The ways in which parsing a directive line or evaluating a directive
//! sequence can fail.

use vstd::prelude::*;
use crate::command::Command;
use crate::command::Directive;

verus! {

/// Why a directive line was not parsed or a directive sequence was not
/// evaluated.
#[derive(Debug, PartialEq, Eq)]
pub enum Error {
    /// A pattern was not accepted as a regular expression. Holds the
    /// message that says why.
    FailedToParseRegex(String),
    /// The output of this shell command is not known.
    CommandNotRun(String),
    /// Something that is no symbolic link stands at this path, where the
    /// link to a preprocessed file should go.
    TargetAlreadyExists(String),
    /// The line starts with the prefix, but what follows is no directive.
    /// Holds the text after the prefix.
    UnrecognizedDirective(String),
    /// An `Else`, `EndIf`, `Option` or `EndAsk` at this line has no open block
    /// that it could belong to.
    StrayDirective(usize, Command),
    /// The block opened by this directive at this line is never closed.
    MissingClosingDirective(usize, Command),
    /// The expansion of this variable expression is not known.
    UnresolvedVariable(String),
    /// The question with these options has not been answered.
    UnansweredQuestion(String, Vec<String>),
}

/// An `Error` as a mathematical value.
pub enum Failure {
    FailedToParseRegex(Seq<char>),
    CommandNotRun(Seq<char>),
    TargetAlreadyExists(Seq<char>),
    UnrecognizedDirective(Seq<char>),
    StrayDirective(usize, Directive),
    MissingClosingDirective(usize, Directive),
    UnresolvedVariable(Seq<char>),
    UnansweredQuestion(Seq<char>, Seq<Seq<char>>),
}

impl View for Error {
    type V = Failure;

    open spec fn view(&self) -> Failure {
        match self {
            Error::FailedToParseRegex(message) => Failure::FailedToParseRegex(message@),
            Error::CommandNotRun(command) => Failure::CommandNotRun(command@),
            Error::TargetAlreadyExists(path) => Failure::TargetAlreadyExists(path@),
            Error::UnrecognizedDirective(text) => Failure::UnrecognizedDirective(text@),
            Error::StrayDirective(line, cmd) => Failure::StrayDirective(*line, cmd@),
            Error::MissingClosingDirective(line, cmd) => Failure::MissingClosingDirective(
                *line,
                cmd@,
            ),
            Error::UnresolvedVariable(var) => Failure::UnresolvedVariable(var@),
            Error::UnansweredQuestion(question, options) => Failure::UnansweredQuestion(
                question@,
                options.deep_view(),
            ),
        }
    }
}

} // verus!
