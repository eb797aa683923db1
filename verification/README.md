# binman_core

The logic of binman, an HTTP client for the terminal, as a Verus-verified
library, with a small command-line program around it.

- `src/` is the library. Every function in it has a `requires`/`ensures`
  contract that Verus proves: the request file formats (`.http`, `.bru`,
  `.graphql`, curl command lines, Postman collections and environments,
  OpenAPI specs), variables and their layers, bodies and multipart
  encoding, OAuth2 client-credentials decisions and the token cache, the
  config file and its durations (added up exactly in `decimal.rs` before
  they are rounded), environment discovery, the list of collections and
  the search's order, the sidebar tree, the tabs' send and reply
  bookkeeping, and the editing state of the front end. Public proof
  functions state the laws that hold across calls.
- Calls into `base64`, `url`, `serde_json`, `regex`, `getrandom`,
  `unicode-width` and `std::path` go through small trusted wrappers, each
  with a doc comment that says what its contract claims.
- `app/` is the `binman` binary: it reads files and directories, sends
  with `reqwest`, appends to the history file, and prints. It hands the
  library plain values and takes plain values back; a response body read
  by `serde_json` is laid out there as the library's JSON document, for the
  extraction rules `binman send --script FILE` runs.
- `tests/` runs the library on concrete values.
