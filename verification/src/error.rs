//! The crate's one error type.

use vstd::prelude::*;
use crate::text::concat;

verus! {

/// Every failure einmo's operations can report, one variant per kind so a
/// caller can tell "this configuration is unknown" from "this content was
/// tampered with".
#[derive(Debug, Clone, PartialEq, Eq)]
pub enum EinmoError {
    /// A filesystem or storage failure at `path`.
    Io { path: String, message: String, not_found: bool },
    /// A stamp, signature, or verify-on-inspect failure.
    Verification(String),
    /// An envelope could not be parsed.
    Parse(String),
    /// A configuration or usage error.
    Config(String),
    /// A stage pair that is not a legal transition.
    IllegalTransition { from: String, to: String },
    /// An id that fails validation.
    InvalidId(String),
    /// A required signing key was not supplied.
    NoKey(String),
    /// A section-level (corpus) signature failure.
    CorpusSignature(String),
}

/// The human-readable message of each error kind.
pub open spec fn error_message(e: EinmoError) -> Seq<char> {
    match e {
        EinmoError::Io { path, message, .. } => seq!['I', '/', 'O', ' ', 'e', 'r', 'r', 'o', 'r', ' ', 'a', 't', ' ']
            + path@ + seq![':', ' '] + message@,
        EinmoError::Verification(m) => seq!['s', 'i', 'g', 'n', 'a', 't', 'u', 'r', 'e', ' ', 'v', 'e', 'r', 'i', 'f',
            'i', 'c', 'a', 't', 'i', 'o', 'n', ' ', 'f', 'a', 'i', 'l', 'e', 'd', ':', ' '] + m@,
        EinmoError::Parse(m) => seq!['p', 'a', 'r', 's', 'e', ' ', 'e', 'r', 'r', 'o', 'r', ':', ' '] + m@,
        EinmoError::Config(m) => seq!['c', 'o', 'n', 'f', 'i', 'g', 'u', 'r', 'a', 't', 'i', 'o', 'n', ' ', 'e', 'r',
            'r', 'o', 'r', ':', ' '] + m@,
        EinmoError::IllegalTransition { from, to } => seq!['i', 'l', 'l', 'e', 'g', 'a', 'l', ' ', 't', 'r', 'a', 'n',
            's', 'i', 't', 'i', 'o', 'n', ':', ' '] + from@ + seq![' ', '-', '>', ' '] + to@,
        EinmoError::InvalidId(m) => m@,
        EinmoError::NoKey(m) => seq!['n', 'o', ' ', 'k', 'e', 'y', ':', ' '] + m@,
        EinmoError::CorpusSignature(m) => seq!['c', 'o', 'r', 'p', 'u', 's', ' ', 's', 'i', 'g', 'n', 'a', 't', 'u',
            'r', 'e', ':', ' '] + m@,
    }
}

impl EinmoError {
    /// The error's message (what `Display` renders).
    pub fn to_string(&self) -> (r: String)
        ensures
            r@ == error_message(*self),
    {
        proof {
            reveal_strlit("I/O error at ");
            reveal_strlit(": ");
            reveal_strlit("signature verification failed: ");
            reveal_strlit("parse error: ");
            reveal_strlit("configuration error: ");
            reveal_strlit("illegal transition: ");
            reveal_strlit(" -> ");
            reveal_strlit("no key: ");
            reveal_strlit("corpus signature: ");
        }
        match self {
            EinmoError::Io { path, message, .. } => {
                let a = concat("I/O error at ", path.as_str());
                let b = concat(a.as_str(), ": ");
                concat(b.as_str(), message.as_str())
            },
            EinmoError::Verification(m) => concat("signature verification failed: ", m.as_str()),
            EinmoError::Parse(m) => concat("parse error: ", m.as_str()),
            EinmoError::Config(m) => concat("configuration error: ", m.as_str()),
            EinmoError::IllegalTransition { from, to } => {
                let a = concat("illegal transition: ", from.as_str());
                let b = concat(a.as_str(), " -> ");
                concat(b.as_str(), to.as_str())
            },
            EinmoError::InvalidId(m) => crate::text::own(m.as_str()),
            EinmoError::NoKey(m) => concat("no key: ", m.as_str()),
            EinmoError::CorpusSignature(m) => concat("corpus signature: ", m.as_str()),
        }
    }
}

} // verus!
