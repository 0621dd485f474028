//! The closed error taxonomy shared by encoding and decoding.

use vstd::prelude::*;
use vstd::string::StringExecFns;

verus! {

/// Everything that can go wrong while encoding or decoding a document.
///
/// The first error aborts the whole run; no variant carries a partial result.
#[derive(Debug, Clone, PartialEq, Eq, Hash)]
pub enum Error {
    /// An error raised by a user type's own encode or decode logic.
    Message(String),
    /// A data shape the format cannot represent.
    UnsupportedType(&'static str),
    /// Input ended before a token or document could complete.
    EarlyEOF,
    /// Non-whitespace input remained after a complete document.
    LateEOF,
    /// The tokenizer reported malformed input.
    Tokenize(String),
    /// A structural mismatch: what was wanted, and what stood there.
    Expected(String, String),
    /// A scalar's text failed to parse into the target type.
    StringParse(String),
}

/// The mathematical form of an [`Error`].
pub enum ErrorV {
    Message(Seq<char>),
    UnsupportedType(Seq<char>),
    EarlyEOF,
    LateEOF,
    Tokenize(Seq<char>),
    Expected(Seq<char>, Seq<char>),
    StringParse(Seq<char>),
}

impl DeepView for Error {
    type V = ErrorV;

    open spec fn deep_view(&self) -> ErrorV {
        match self {
            Error::Message(s) => ErrorV::Message(s@),
            Error::UnsupportedType(s) => ErrorV::UnsupportedType(s@),
            Error::EarlyEOF => ErrorV::EarlyEOF,
            Error::LateEOF => ErrorV::LateEOF,
            Error::Tokenize(s) => ErrorV::Tokenize(s@),
            Error::Expected(w, g) => ErrorV::Expected(w@, g@),
            Error::StringParse(s) => ErrorV::StringParse(s@),
        }
    }
}

/// The text [`Error::describe`] renders an error as.
pub open spec fn describe_spec(e: ErrorV) -> Seq<char> {
    match e {
        ErrorV::Message(s) => s,
        ErrorV::UnsupportedType(t) => "unsupported Serde data type "@ + t + " used"@,
        ErrorV::EarlyEOF => "input ended early"@,
        ErrorV::LateEOF => "input ended late"@,
        ErrorV::Tokenize(s) => s,
        ErrorV::Expected(w, g) => "expected "@ + w + ", got "@ + g,
        ErrorV::StringParse(s) => s,
    }
}

impl Error {
    /// A human-readable account of the error, one line.
    pub fn describe(&self) -> (r: String)
        ensures
            r@ == describe_spec(self.deep_view()),
    {
        match self {
            Error::Message(s) => s.clone(),
            Error::UnsupportedType(t) => {
                let mut out = String::from_str("unsupported Serde data type ");
                out.append(t);
                out.append(" used");
                assert(out@ == describe_spec(self.deep_view()));
                out
            },
            Error::EarlyEOF => String::from_str("input ended early"),
            Error::LateEOF => String::from_str("input ended late"),
            Error::Tokenize(s) => s.clone(),
            Error::Expected(w, g) => {
                let mut out = String::from_str("expected ");
                out.append(w.as_str());
                out.append(", got ");
                out.append(g.as_str());
                assert(out@ == describe_spec(self.deep_view()));
                out
            },
            Error::StringParse(s) => s.clone(),
        }
    }
}

} // verus!
