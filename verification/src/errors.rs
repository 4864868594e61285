//! The failures a declaration can end in.

use vstd::prelude::*;
use vstd::string::StringExecFns;
use crate::printer::{option_label, option_name};
use crate::text::string_push;

verus! {

/// Why a declaration failed. Every failure is final for the parse: the parser
/// keeps it and hands it to each declaration that follows.
#[derive(Debug)]
pub enum Error {
    InvalidState(&'static str),
    InvalidInput(char, &'static str, &'static str),
    MissingArgValue(char, &'static str),
    ConstructionError(char, &'static str, String),
    PositionalConstructionError(&'static str, String),
    SubConstructionError(&'static str, String),
    /// The offending short code and the cluster that holds it.
    ValuedArgInRun(char, String),
    /// The group already open and the one whose opening was attempted.
    NestedGroup(&'static str, &'static str),
    PrinterMissingGroup(&'static str),
    MissingArgument(String),
    MissingPositional(String),
    MultipleVariadic(&'static str),
    UnorderedPositionals(&'static str),
}

/// An [`Error`] with its texts as sequences of characters.
pub enum ErrorView {
    InvalidState(Seq<char>),
    InvalidInput(char, Seq<char>, Seq<char>),
    MissingArgValue(char, Seq<char>),
    ConstructionError(char, Seq<char>, Seq<char>),
    PositionalConstructionError(Seq<char>, Seq<char>),
    SubConstructionError(Seq<char>, Seq<char>),
    ValuedArgInRun(char, Seq<char>),
    NestedGroup(Seq<char>, Seq<char>),
    PrinterMissingGroup(Seq<char>),
    MissingArgument(Seq<char>),
    MissingPositional(Seq<char>),
    MultipleVariadic(Seq<char>),
    UnorderedPositionals(Seq<char>),
}

impl View for Error {
    type V = ErrorView;

    open spec fn view(&self) -> ErrorView {
        match *self {
            Error::InvalidState(d) => ErrorView::InvalidState(d@),
            Error::InvalidInput(c, l, d) => ErrorView::InvalidInput(c, l@, d@),
            Error::MissingArgValue(c, l) => ErrorView::MissingArgValue(c, l@),
            Error::ConstructionError(c, l, m) => ErrorView::ConstructionError(c, l@, m@),
            Error::PositionalConstructionError(n, m) => ErrorView::PositionalConstructionError(
                n@,
                m@,
            ),
            Error::SubConstructionError(n, m) => ErrorView::SubConstructionError(n@, m@),
            Error::ValuedArgInRun(c, r) => ErrorView::ValuedArgInRun(c, r@),
            Error::NestedGroup(o, a) => ErrorView::NestedGroup(o@, a@),
            Error::PrinterMissingGroup(n) => ErrorView::PrinterMissingGroup(n@),
            Error::MissingArgument(a) => ErrorView::MissingArgument(a@),
            Error::MissingPositional(a) => ErrorView::MissingPositional(a@),
            Error::MultipleVariadic(p) => ErrorView::MultipleVariadic(p@),
            Error::UnorderedPositionals(p) => ErrorView::UnorderedPositionals(p@),
        }
    }
}

/// The fixed headline of each kind of failure.
pub open spec fn headline(e: ErrorView) -> Seq<char> {
    match e {
        ErrorView::InvalidState(_) => "invalid parser state"@,
        ErrorView::InvalidInput(_, _, _) => "invalid input"@,
        ErrorView::MissingArgValue(_, _) => "missing argument value"@,
        ErrorView::ConstructionError(_, _, _) => "failed to construct target from string"@,
        ErrorView::PositionalConstructionError(_, _) =>
            "failed to construct positional target from string"@,
        ErrorView::SubConstructionError(_, _) => "failed to construct subcommand from string"@,
        ErrorView::ValuedArgInRun(_, _) =>
            "short-code runs only support valued-args as the last character in the run"@,
        ErrorView::NestedGroup(_, _) => "groups cannot be nested"@,
        ErrorView::PrinterMissingGroup(_) => "cannot add option to unknown group"@,
        ErrorView::MissingArgument(_) => "required argument was not given"@,
        ErrorView::MissingPositional(_) => "required positional was not given"@,
        ErrorView::MultipleVariadic(_) => "second declared variadic positional has no effect"@,
        ErrorView::UnorderedPositionals(_) =>
            "declaring a positional after a variadic positional has no effect"@,
    }
}

/// The whole message of a failure: its headline and its particulars. An
/// option is named as `-s, --long`, `-s` or `--long`.
pub open spec fn message_text(e: ErrorView) -> Seq<char> {
    let head = headline(e);
    match e {
        ErrorView::InvalidState(d) => head + ": "@ + d,
        ErrorView::InvalidInput(c, l, d) => head + ": "@ + option_name(c, l) + " "@ + d,
        ErrorView::MissingArgValue(c, l) => head + " for "@ + option_name(c, l),
        ErrorView::ConstructionError(c, l, m) => head + " for "@ + option_name(c, l) + ": "@ + m,
        ErrorView::PositionalConstructionError(n, m) => head + " for "@ + n + ": "@ + m,
        ErrorView::SubConstructionError(n, m) => head + " for "@ + n + ": "@ + m,
        ErrorView::ValuedArgInRun(c, r) => head + ": "@ + seq![c] + " is within "@ + r,
        ErrorView::NestedGroup(o, a) => head + " ("@ + a + " within "@ + o + ")"@,
        ErrorView::PrinterMissingGroup(n) => head + ": "@ + n,
        ErrorView::MissingArgument(a) => head + ": "@ + a,
        ErrorView::MissingPositional(a) => head + ": "@ + a,
        ErrorView::MultipleVariadic(p) => head + ": "@ + p,
        ErrorView::UnorderedPositionals(p) => head + ": "@ + p,
    }
}

impl Error {
    /// The message of this failure for a user.
    pub fn message(&self) -> (r: String)
        ensures
            r@ == message_text(self@),
    {
        let mut s = self.description().to_owned();
        match self {
            Error::InvalidState(d) => {
                s.append(": ");
                s.append(d);
            },
            Error::InvalidInput(c, l, d) => {
                s.append(": ");
                s.append(option_label(*c, l).as_str());
                s.append(" ");
                s.append(d);
            },
            Error::MissingArgValue(c, l) => {
                s.append(" for ");
                s.append(option_label(*c, l).as_str());
            },
            Error::ConstructionError(c, l, m) => {
                s.append(" for ");
                s.append(option_label(*c, l).as_str());
                s.append(": ");
                s.append(m.as_str());
            },
            Error::PositionalConstructionError(n, m) => {
                s.append(" for ");
                s.append(n);
                s.append(": ");
                s.append(m.as_str());
            },
            Error::SubConstructionError(n, m) => {
                s.append(" for ");
                s.append(n);
                s.append(": ");
                s.append(m.as_str());
            },
            Error::ValuedArgInRun(c, r) => {
                s.append(": ");
                string_push(&mut s, *c);
                s.append(" is within ");
                s.append(r.as_str());
                assert(s@ =~= message_text(self@));
            },
            Error::NestedGroup(o, a) => {
                s.append(" (");
                s.append(a);
                s.append(" within ");
                s.append(o);
                s.append(")");
            },
            Error::PrinterMissingGroup(n) => {
                s.append(": ");
                s.append(n);
            },
            Error::MissingArgument(a) => {
                s.append(": ");
                s.append(a.as_str());
            },
            Error::MissingPositional(a) => {
                s.append(": ");
                s.append(a.as_str());
            },
            Error::MultipleVariadic(p) => {
                s.append(": ");
                s.append(p);
            },
            Error::UnorderedPositionals(p) => {
                s.append(": ");
                s.append(p);
            },
        }
        s
    }

    /// The headline of this kind of failure, without its particulars.
    pub fn description(&self) -> (r: &'static str)
        ensures
            r@ == headline(self@),
    {
        match self {
            Error::InvalidState(_) => "invalid parser state",
            Error::InvalidInput(_, _, _) => "invalid input",
            Error::MissingArgValue(_, _) => "missing argument value",
            Error::ConstructionError(_, _, _) => "failed to construct target from string",
            Error::PositionalConstructionError(_, _) =>
                "failed to construct positional target from string",
            Error::SubConstructionError(_, _) => "failed to construct subcommand from string",
            Error::ValuedArgInRun(_, _) =>
                "short-code runs only support valued-args as the last character in the run",
            Error::NestedGroup(_, _) => "groups cannot be nested",
            Error::PrinterMissingGroup(_) => "cannot add option to unknown group",
            Error::MissingArgument(_) => "required argument was not given",
            Error::MissingPositional(_) => "required positional was not given",
            Error::MultipleVariadic(_) => "second declared variadic positional has no effect",
            Error::UnorderedPositionals(_) =>
                "declaring a positional after a variadic positional has no effect",
        }
    }

    /// A second copy of this failure.
    pub fn duplicate(&self) -> (r: Error)
        ensures
            r == *self,
    {
        match self {
            Error::InvalidState(d) => Error::InvalidState(*d),
            Error::InvalidInput(c, l, d) => Error::InvalidInput(*c, *l, *d),
            Error::MissingArgValue(c, l) => Error::MissingArgValue(*c, *l),
            Error::ConstructionError(c, l, m) => Error::ConstructionError(*c, *l, m.clone()),
            Error::PositionalConstructionError(n, m) => Error::PositionalConstructionError(
                *n,
                m.clone(),
            ),
            Error::SubConstructionError(n, m) => Error::SubConstructionError(*n, m.clone()),
            Error::ValuedArgInRun(c, r) => Error::ValuedArgInRun(*c, r.clone()),
            Error::NestedGroup(o, a) => Error::NestedGroup(*o, *a),
            Error::PrinterMissingGroup(n) => Error::PrinterMissingGroup(*n),
            Error::MissingArgument(a) => Error::MissingArgument(a.clone()),
            Error::MissingPositional(a) => Error::MissingPositional(a.clone()),
            Error::MultipleVariadic(p) => Error::MultipleVariadic(*p),
            Error::UnorderedPositionals(p) => Error::UnorderedPositionals(*p),
        }
    }
}

} // verus!
