//! The error value shared by the tokenizer and the parser.

use vstd::prelude::*;
use vstd::string::*;

verus! {

/// What went wrong. Parsing knows a single kind.
#[derive(Clone, Copy, Debug, PartialEq, Eq, Structural)]
pub enum ErrorKind {
    SyntaxError,
}

/// A failure with its message and, once known, the place it was found at.
#[derive(Clone, Debug, PartialEq, Eq)]
pub struct Error {
    pub kind: ErrorKind,
    pub message: String,
    pub location: Option<(String, usize)>,
}

/// The mathematical content of an [`Error`].
pub struct ErrorView {
    pub kind: ErrorKind,
    pub message: Seq<char>,
    pub location: Option<(Seq<char>, usize)>,
}

impl ErrorView {
    /// A syntax error that has no location yet.
    pub open spec fn syntax(message: Seq<char>) -> ErrorView {
        ErrorView { kind: ErrorKind::SyntaxError, message, location: None }
    }

    /// The error with `(filename, line)` attached unless it already has a location.
    pub open spec fn located(self, filename: Seq<char>, line: usize) -> ErrorView {
        if self.location is None {
            ErrorView { location: Some((filename, line)), ..self }
        } else {
            self
        }
    }
}

impl View for Error {
    type V = ErrorView;

    open spec fn view(&self) -> ErrorView {
        ErrorView {
            kind: self.kind,
            message: self.message@,
            location: match self.location {
                Some((name, line)) => Some((name@, line)),
                None => None,
            },
        }
    }
}

/// `"unexpected <found>, expected <expectation>"`.
pub open spec fn msg_unexpected(found: Seq<char>, expectation: Seq<char>) -> Seq<char> {
    "unexpected "@ + found + ", expected "@ + expectation
}

/// `"unexpected end of input, expected <expectation>"`.
pub open spec fn msg_unexpected_end(expectation: Seq<char>) -> Seq<char> {
    "unexpected end of input, expected "@ + expectation
}

/// `"unexpected <found>"`.
pub open spec fn msg_unexpected_bare(found: Seq<char>) -> Seq<char> {
    "unexpected "@ + found
}

/// `"cannot assign to reserved variable name <name>"`.
pub open spec fn msg_reserved(name: Seq<char>) -> Seq<char> {
    "cannot assign to reserved variable name "@ + name
}

/// ``"mismatching name on block. Got `<got>`, expected `<expected>`"``.
pub open spec fn msg_mismatch(got: Seq<char>, expected: Seq<char>) -> Seq<char> {
    "mismatching name on block. Got `"@ + got + "`, expected `"@ + expected + "`"@
}

impl Error {
    /// A new error without a location.
    pub fn new(kind: ErrorKind, message: String) -> (e: Error)
        ensures
            e@ == (ErrorView { kind, message: message@, location: None }),
    {
        Error { kind, message, location: None }
    }

    /// A syntax error with the given message.
    pub fn syntax(message: &str) -> (e: Error)
        ensures
            e@ == ErrorView::syntax(message@),
    {
        Error::new(ErrorKind::SyntaxError, String::from_str(message))
    }

    /// The token `found` stands where `expectation` should.
    pub fn unexpected(found: &str, expectation: &str) -> (e: Error)
        ensures
            e@ == ErrorView::syntax(msg_unexpected(found@, expectation@)),
    {
        let mut m = String::from_str("unexpected ");
        m.append(found);
        m.append(", expected ");
        m.append(expectation);
        Error::new(ErrorKind::SyntaxError, m)
    }

    /// The input ends where `expectation` should stand.
    pub fn unexpected_end(expectation: &str) -> (e: Error)
        ensures
            e@ == ErrorView::syntax(msg_unexpected_end(expectation@)),
    {
        let mut m = String::from_str("unexpected end of input, expected ");
        m.append(expectation);
        Error::new(ErrorKind::SyntaxError, m)
    }

    /// The token `found` stands where nothing can be made of it.
    pub fn unexpected_bare(found: &str) -> (e: Error)
        ensures
            e@ == ErrorView::syntax(msg_unexpected_bare(found@)),
    {
        let mut m = String::from_str("unexpected ");
        m.append(found);
        Error::new(ErrorKind::SyntaxError, m)
    }

    /// The reserved name `name` stands where a name is assigned to.
    pub fn reserved(name: &str) -> (e: Error)
        ensures
            e@ == ErrorView::syntax(msg_reserved(name@)),
    {
        let mut m = String::from_str("cannot assign to reserved variable name ");
        m.append(name);
        Error::new(ErrorKind::SyntaxError, m)
    }

    /// A block opened as `expected` is closed as `got`.
    pub fn mismatch(got: &str, expected: &str) -> (e: Error)
        ensures
            e@ == ErrorView::syntax(msg_mismatch(got@, expected@)),
    {
        let mut m = String::from_str("mismatching name on block. Got `");
        m.append(got);
        m.append("`, expected `");
        m.append(expected);
        m.append("`");
        Error::new(ErrorKind::SyntaxError, m)
    }

    /// What went wrong.
    pub fn kind(&self) -> (k: ErrorKind)
        ensures
            k == self@.kind,
    {
        self.kind
    }

    /// The message, without the location.
    pub fn message(&self) -> (m: &str)
        ensures
            m@ == self@.message,
    {
        self.message.as_str()
    }

    /// The line of the location, if one is attached.
    pub fn line(&self) -> (l: Option<usize>)
        ensures
            l == match self@.location {
                Some((_, line)) => Some(line),
                None => None,
            },
    {
        match &self.location {
            Some((_, line)) => Some(*line),
            None => None,
        }
    }

    /// The file name of the location, if one is attached.
    pub fn filename(&self) -> (f: Option<&str>)
        ensures
            match self@.location {
                Some((name, _)) => f matches Some(s) && s@ == name,
                None => f is None,
            },
    {
        match &self.location {
            Some((name, _)) => Some(name.as_str()),
            None => None,
        }
    }

    /// Attaches a location, replacing any earlier one.
    pub fn set_location(&mut self, filename: &str, line: usize)
        ensures
            final(self)@ == (ErrorView { location: Some((filename@, line)), ..old(self)@ }),
    {
        self.location = Some((String::from_str(filename), line));
    }

    /// Attaches `(filename, line)` unless the error already carries a location.
    pub fn locate(self, filename: &str, line: usize) -> (e: Error)
        ensures
            e@ == self@.located(filename@, line),
    {
        let mut e = self;
        if e.line().is_none() {
            e.set_location(filename, line);
        }
        e
    }
}

} // verus!
