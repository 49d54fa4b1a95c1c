//! Error values of the notation layer (position and move text formats).
use vstd::prelude::*;
use vstd::string::StringExecFns;

verus! {

/// General categories of errors related to game-notation parsing.
#[derive(Clone, Copy, Debug, PartialEq, Eq, PartialOrd, Ord)]
pub enum ErrorKind {
    ParseError,
    AmbiguousMove,
    IllegalMove,
    IllegalPosition,
    IoError,
    Other,
}

/// The text that opens the description of an error of the given kind.
pub open spec fn kind_prefix_spec(kind: ErrorKind) -> Seq<char> {
    match kind {
        ErrorKind::ParseError => "Parse error. "@,
        ErrorKind::AmbiguousMove => "Ambiguous move. "@,
        ErrorKind::IllegalMove => "Illegal move. "@,
        ErrorKind::IllegalPosition => "Illegal position. "@,
        ErrorKind::IoError => "IO error. "@,
        ErrorKind::Other => ""@,
    }
}

/// The text of `error`, followed by the text of its cause, if there is one.
pub open spec fn describe_spec(kind: ErrorKind, error: Seq<char>, source: Option<Seq<char>>) -> Seq<char> {
    match source {
        Some(s) => kind_prefix_spec(kind) + error + "\nCaused by: "@ + s,
        None => kind_prefix_spec(kind) + error,
    }
}

/// An error of a given kind, with a payload message and optionally the message of the
/// error that caused it.
#[derive(Debug)]
pub struct Error {
    kind: ErrorKind,
    error: String,
    source: Option<String>,
}

impl Error {
    pub closed spec fn spec_kind(&self) -> ErrorKind {
        self.kind
    }

    pub closed spec fn spec_message(&self) -> Seq<char> {
        self.error@
    }

    pub closed spec fn spec_source(&self) -> Option<Seq<char>> {
        match self.source {
            Some(s) => Some(s@),
            None => None,
        }
    }

    /// An error of kind `kind` with the payload `error` and no cause.
    pub fn new(kind: ErrorKind, error: String) -> (r: Error)
        ensures
            r.spec_kind() == kind,
            r.spec_message() == error@,
            r.spec_source() is None,
    {
        Error { kind, error, source: None }
    }

    /// An error of kind `kind` with the payload `error`, caused by `source`.
    pub fn new_caused_by(kind: ErrorKind, error: String, source: String) -> (r: Error)
        ensures
            r.spec_kind() == kind,
            r.spec_message() == error@,
            r.spec_source() == Some(source@),
    {
        Error { kind, error, source: Some(source) }
    }

    /// A parse error with the payload `error`; the same as `Error::new(ErrorKind::ParseError, error)`.
    pub fn new_parse_error(error: String) -> (r: Error)
        ensures
            r.spec_kind() == ErrorKind::ParseError,
            r.spec_message() == error@,
            r.spec_source() is None,
    {
        Error { kind: ErrorKind::ParseError, error, source: None }
    }

    pub fn kind(&self) -> (r: ErrorKind)
        ensures
            r == self.spec_kind(),
    {
        self.kind
    }

    pub fn message(&self) -> (r: &str)
        ensures
            r@ == self.spec_message(),
    {
        self.error.as_str()
    }

    pub fn source_message(&self) -> (r: Option<&str>)
        ensures
            match r {
                Some(s) => self.spec_source() == Some(s@),
                None => self.spec_source() is None,
            },
    {
        match &self.source {
            Some(s) => Some(s.as_str()),
            None => None,
        }
    }

    /// The human-readable description: a prefix naming the kind, the payload, and the
    /// cause on a line of its own.
    pub fn to_text(&self) -> (r: String)
        ensures
            r@ == describe_spec(self.spec_kind(), self.spec_message(), self.spec_source()),
    {
        let mut r = String::from_str(kind_prefix(self.kind));
        r.append(self.error.as_str());
        match &self.source {
            Some(s) => {
                r.append("\nCaused by: ");
                r.append(s.as_str());
            },
            None => {},
        }
        r
    }
}

/// The text that opens the description of an error of kind `kind`.
pub fn kind_prefix(kind: ErrorKind) -> (r: &'static str)
    ensures
        r@ == kind_prefix_spec(kind),
{
    proof {
        reveal_strlit("Parse error. ");
        reveal_strlit("Ambiguous move. ");
        reveal_strlit("Illegal move. ");
        reveal_strlit("Illegal position. ");
        reveal_strlit("IO error. ");
        reveal_strlit("");
    }
    match kind {
        ErrorKind::ParseError => "Parse error. ",
        ErrorKind::AmbiguousMove => "Ambiguous move. ",
        ErrorKind::IllegalMove => "Illegal move. ",
        ErrorKind::IllegalPosition => "Illegal position. ",
        ErrorKind::IoError => "IO error. ",
        ErrorKind::Other => "",
    }
}

} // verus!
