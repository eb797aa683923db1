//! Where a request came from.

use vstd::prelude::*;

use crate::formats::{format_of_extension, path_extension, Format};
use crate::paths::{parent_of, parent_path};
use crate::request::Request;
use crate::varmap::Vars;

verus! {

#[derive(Debug, Clone, PartialEq, Eq)]
pub enum Origin {
    /// A `.http`, `.bru` or `.graphql` file.
    File(String),
    /// One request inside a Postman collection, by its position in the tree.
    Postman { path: String, item: Vec<usize> },
    /// One operation in an OpenAPI spec.
    OpenApi { path: String, route: String, method: String },
}

/// A request as read, with the variables its collection declares.
#[derive(Debug, Clone)]
pub struct Loaded {
    pub request: Request,
    pub collection_vars: Vars,
    pub title: String,
}

impl Origin {
    /// The file on disk, as its path is written.
    pub open spec fn file(&self) -> Seq<char> {
        match self {
            Origin::File(path) => path@,
            Origin::Postman { path, .. } => path@,
            Origin::OpenApi { path, .. } => path@,
        }
    }

    /// The file on disk.
    pub fn path(&self) -> (r: &str)
        ensures
            r@ == self.file(),
    {
        match self {
            Origin::File(path) => path.as_str(),
            Origin::Postman { path, .. } => path.as_str(),
            Origin::OpenApi { path, .. } => path.as_str(),
        }
    }

    /// Where the search for environments starts: the directory the file is
    /// in, or the empty path for a file without one.
    pub fn dir(&self) -> (r: String)
        ensures
            r@ == match parent_path(self.file()) {
                Some(parent) => parent,
                None => Seq::<char>::empty(),
            },
    {
        match parent_of(self.path()) {
            Some(parent) => parent,
            None => String::new(),
        }
    }

    /// The format a request saves back to, when it can be saved at all: a
    /// `.http` or `.bru` file, not a `.graphql` one, nor one request among
    /// many.
    pub fn savable(&self) -> (r: Option<Format>)
        ensures
            r == match self {
                Origin::File(path) => match path_extension(path@) {
                    Some(extension) => match format_of_extension(extension) {
                        Some(Format::Graphql) => None,
                        other => other,
                    },
                    None => None,
                },
                _ => None,
            },
    {
        match self {
            Origin::File(path) => match Format::of(path.as_str()) {
                Some(Format::Graphql) => None,
                other => other,
            },
            _ => None,
        }
    }

    /// What it is, for the message that says it cannot be saved back.
    pub fn describe(&self) -> (r: &'static str)
        ensures
            r@ == match self {
                Origin::File(_) => "A .graphql file"@,
                Origin::Postman { .. } => "A Postman collection"@,
                Origin::OpenApi { .. } => "An OpenAPI spec"@,
            },
    {
        match self {
            Origin::File(_) => "A .graphql file",
            Origin::Postman { .. } => "A Postman collection",
            Origin::OpenApi { .. } => "An OpenAPI spec",
        }
    }
}

} // verus!
