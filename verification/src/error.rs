//! The library's failure cases. Construction is the only thing that can
//! fail: a file that cannot be read, or text the parser rejects. The two
//! remaining variants describe lookup outcomes for callers that want them
//! as errors; the read surface itself reports absence, not an error.

use vstd::prelude::*;
use vstd::string::StringExecFns;

verus! {

/// Why a configuration could not be produced, or a lookup not served.
#[derive(Debug)]
pub enum Error {
    /// The file could not be read; the text of the underlying report.
    Io(String),
    /// The source text is not a valid document; the parser's diagnostic.
    Toml(String),
    /// A requested key is absent.
    NotFound(String),
    /// A stored value does not have the requested type.
    TypeMismatch { expected: String, found: String },
}

/// The description an error shows.
pub open spec fn message_text(e: Error) -> Seq<char> {
    match e {
        Error::Io(m) => "IO error: "@ + m@,
        Error::Toml(m) => "TOML parsing error: "@ + m@,
        Error::NotFound(k) => "Configuration key not found: "@ + k@,
        Error::TypeMismatch { expected, found } => "Type mismatch: expected "@ + expected@
            + ", found "@ + found@,
    }
}

impl Error {
    /// A short description of the failure.
    pub fn message(&self) -> (s: String)
        ensures
            s@ == message_text(*self),
    {
        match self {
            Error::Io(m) => {
                let mut s = "IO error: ".to_owned();
                s.append(m.as_str());
                s
            },
            Error::Toml(m) => {
                let mut s = "TOML parsing error: ".to_owned();
                s.append(m.as_str());
                s
            },
            Error::NotFound(k) => {
                let mut s = "Configuration key not found: ".to_owned();
                s.append(k.as_str());
                s
            },
            Error::TypeMismatch { expected, found } => {
                let mut s = "Type mismatch: expected ".to_owned();
                s.append(expected.as_str());
                s.append(", found ");
                s.append(found.as_str());
                s
            },
        }
    }
}

} // verus!
