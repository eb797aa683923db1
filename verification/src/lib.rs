//! The request logic of binman, a terminal HTTP client: the collection
//! formats read into one request, `{{variables}}` and their layers, the
//! query string, auth headers, and the editing state the front end keeps.

pub mod text;
pub mod varmap;
pub mod cycle;
pub mod encoding;
pub mod error;
pub mod auth;
pub mod body;
pub mod request;
pub mod vars;
pub mod query;
pub mod formats;
pub mod app;
pub mod config;
pub mod decimal;
pub mod paths;
pub mod dotenv;
pub mod extract;
pub mod env;
pub mod client;
pub mod source;
pub mod oauth2;
pub mod collection;
pub mod ui;
pub mod workspace;
pub mod send;
pub mod pretty;
pub mod width;
pub mod random;
pub mod laws;
