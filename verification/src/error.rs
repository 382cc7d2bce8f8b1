//! Why and where a parse stopped.
use vstd::prelude::*;

verus! {

/// What was expected at the place where the parse stopped.
#[derive(Clone, Copy, Debug, PartialEq, Eq, Structural)]
pub enum ErrorKind {
    /// The command name `curl`.
    Command,
    /// Whitespace behind the command name.
    Whitespace,
    /// The single quote that opens a quoted text.
    OpenQuote,
    /// The single quote that closes a quoted text.
    CloseQuote,
    /// The literal that introduces an option of the shape that was tried.
    Prefix,
    /// The `: ` between the name and the value of a header.
    Separator,
    /// The character that names a flag behind a single `-`.
    FlagName,
    /// A cookie pair: a name that is not empty, `=`, and a value.
    CookiePair,
    /// An option of any of the four shapes.
    Option,
}

/// The three groups into which the failures fall.
#[derive(Clone, Copy, Debug, PartialEq, Eq, Structural)]
pub enum ErrorClass {
    /// A literal, a quote or a separator is missing where it has to stand.
    StructuralMismatch,
    /// A cookie pair lacks its `=` or its name.
    MalformedCookiePair,
    /// No option shape matches at a place where an option has to stand.
    UnrecognizedOption,
}

impl ErrorKind {
    /// The group of the failure.
    pub open spec fn spec_class(self) -> ErrorClass {
        match self {
            ErrorKind::CookiePair => ErrorClass::MalformedCookiePair,
            ErrorKind::Option => ErrorClass::UnrecognizedOption,
            _ => ErrorClass::StructuralMismatch,
        }
    }

    /// The group of the failure.
    #[verifier::when_used_as_spec(spec_class)]
    pub fn class(self) -> (c: ErrorClass)
        ensures
            c == self.spec_class(),
    {
        match self {
            ErrorKind::CookiePair => ErrorClass::MalformedCookiePair,
            ErrorKind::Option => ErrorClass::UnrecognizedOption,
            _ => ErrorClass::StructuralMismatch,
        }
    }
}

/// A failed parse, as text: what was left of the input where matching
/// stopped, and what was expected there.
pub struct Failure {
    pub rest: Seq<char>,
    pub kind: ErrorKind,
}

/// A failed parse: the input from the place where matching stopped, and what
/// was expected there.
#[derive(Clone, Copy, Debug, PartialEq, Eq)]
pub struct ParseError<'a> {
    pub input: &'a str,
    pub kind: ErrorKind,
}

impl<'a> View for ParseError<'a> {
    type V = Failure;

    open spec fn view(&self) -> Failure {
        Failure { rest: self.input@, kind: self.kind }
    }
}

} // verus!
