//! The collection formats binman reads.
//!
//! Three hold one request per file — `.http`, Bruno's `.bru` and `.graphql` —
//! and each is read into the same [`Request`], so nothing above this module
//! knows which one a request came from.

pub mod bru;
pub mod curl;
pub mod graphql;
pub mod http;
pub mod http_laws;
pub mod bru_laws;
pub mod openapi;
pub mod postman;

use vstd::prelude::*;

use crate::request::Request;
use crate::text::{chars_of, lower, lower_chars, same};

verus! {

/// The extension `Path::extension` finds in the path `path` writes: what
/// follows the last `.` of the file name, unless the name starts with it.
pub uninterp spec fn path_extension(path: Seq<char>) -> Option<Seq<char>>;

/// `Path::extension`, as text. The contract only names the result.
#[verifier::external_body]
fn extension_of(path: &str) -> (r: Option<String>)
    ensures
        match r {
            Some(extension) => path_extension(path@) == Some(extension@),
            None => path_extension(path@) is None,
        },
{
    std::path::Path::new(path).extension().map(|extension| extension.to_string_lossy().into_owned())
}

/// The formats that hold one request per file.
#[derive(Debug, Clone, Copy, PartialEq, Eq, Hash, Structural)]
pub enum Format {
    Http,
    Bru,
    Graphql,
}

/// The format a file extension names, in any case.
pub open spec fn format_of_extension(extension: Seq<char>) -> Option<Format> {
    let e = lower(extension);
    if e == "http"@ {
        Some(Format::Http)
    } else if e == "bru"@ {
        Some(Format::Bru)
    } else if e == "graphql"@ {
        Some(Format::Graphql)
    } else {
        None
    }
}

impl Format {
    /// The format of the file at `path`, by its extension.
    pub fn of(path: &str) -> (r: Option<Format>)
        ensures
            r == match path_extension(path@) {
                Some(extension) => format_of_extension(extension),
                None => None,
            },
    {
        let extension = match extension_of(path) {
            Some(extension) => lower_chars(&chars_of(extension.as_str())),
            None => return None,
        };
        proof {
            reveal_strlit("http");
            reveal_strlit("bru");
            reveal_strlit("graphql");
        }
        if same(&extension, &chars_of("http")) {
            Some(Format::Http)
        } else if same(&extension, &chars_of("bru")) {
            Some(Format::Bru)
        } else if same(&extension, &chars_of("graphql")) {
            Some(Format::Graphql)
        } else {
            None
        }
    }

    pub fn label(self) -> (r: &'static str)
        ensures
            r@ == match self {
                Format::Http => ".http"@,
                Format::Bru => "Bruno"@,
                Format::Graphql => "GraphQL"@,
            },
    {
        match self {
            Format::Http => ".http",
            Format::Bru => "Bruno",
            Format::Graphql => "GraphQL",
        }
    }

    /// A file's text read as this format.
    pub fn parse(self, text: &str) -> (r: Request)
        ensures
            match self {
                Format::Http => http::http_request(r, text@),
                Format::Bru => bru::bru_request(r, text@),
                Format::Graphql => graphql::graphql_request(r, text@),
            },
    {
        match self {
            Format::Http => http::parse(text),
            Format::Bru => bru::parse(text),
            Format::Graphql => graphql::parse(text),
        }
    }
}

} // verus!
