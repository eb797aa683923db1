//! What can go wrong, and the message each failure reads as.

use vstd::prelude::*;

use crate::text::{append, chars_of, string_of};

verus! {

#[derive(Debug, Clone, PartialEq, Eq)]
pub enum Error {
    /// Reading or writing a file failed; the message is the system's.
    Io(String),
    /// A file is not in the shape its name promised.
    Parse { what: String, message: String },
    Config(String),
    /// The request cannot be sent as it stands — a URL that does not parse, a
    /// header name with a space in it, a file to upload that is not there.
    /// Nothing left the machine.
    Invalid(String),
    /// The server could not be reached, or stopped answering part-way.
    Http(String),
    /// The token endpoint said no, or answered with something that is not a
    /// token.
    OAuth(String),
    /// Called off. An outcome rather than a fault: nobody is waiting for the
    /// answer any more.
    Cancelled,
}

/// The message an error reads as.
pub open spec fn error_text(error: Error) -> Seq<char> {
    match error {
        Error::Io(message) => message@,
        Error::Parse { what, message } => what@ + ": "@ + message@,
        Error::Config(message) => message@,
        Error::Invalid(message) => message@,
        Error::Http(message) => message@,
        Error::OAuth(message) => "OAuth2: "@ + message@,
        Error::Cancelled => "cancelled"@,
    }
}

impl Error {
    pub fn parse(what: &str, message: &str) -> (r: Error)
        ensures
            r == (Error::Parse { what: r->what, message: r->message }),
            r->what@ == what@,
            r->message@ == message@,
    {
        Error::Parse { what: what.to_string(), message: message.to_string() }
    }

    /// The message this error reads as.
    pub fn message(&self) -> (r: String)
        ensures
            r@ == error_text(*self),
    {
        match self {
            Error::Io(message) => message.clone(),
            Error::Parse { what, message } => {
                let mut out = chars_of(what.as_str());
                append(&mut out, &chars_of(": "));
                append(&mut out, &chars_of(message.as_str()));
                string_of(&out)
            },
            Error::Config(message) => message.clone(),
            Error::Invalid(message) => message.clone(),
            Error::Http(message) => message.clone(),
            Error::OAuth(message) => {
                let mut out = chars_of("OAuth2: ");
                append(&mut out, &chars_of(message.as_str()));
                string_of(&out)
            },
            Error::Cancelled => "cancelled".to_string(),
        }
    }
}

} // verus!
