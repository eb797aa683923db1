//! What importing and building requests promise, said over all inputs:
//! curl's flags, a Postman request's URL, the auth header, a GraphQL body
//! read from a `.bru` file, and the operation an OpenAPI path gives for a
//! method.

use vstd::prelude::*;

use crate::auth::{auth_header, AuthKind};
use crate::encoding::{base64_of, json_compacted, json_quoted};
use crate::formats::bru::{
    blocks_from, bru_parsed, dedented, empty_state, graphql_payload, is_method_block_name, method_blocks, read_block, read_blocks,
    BlockView, BruState,
};
use crate::formats::curl::{applied, attachable_flags, attached_flag, run, valued_flags, CurlState};
use crate::formats::openapi::{operation_for, PathItem};
use crate::formats::postman::{converted, PostmanRequest, PostmanUrl};
use crate::request::Request;
use crate::text::{crlf_to_lf, lower, split, split_once, trim, upper};

verus! {

/// `-X` and its long form `--request` both set the method, upper-cased,
/// whatever was read before them.
pub proof fn request_flag_sets_method(st: CurlState, value: Seq<char>)
    ensures
        applied(st, "--request"@, value).method == Some(upper(value)),
        applied(st, "-X"@, value).method == Some(upper(value)),
        applied(st, "--request"@, value) == applied(st, "-X"@, value),
        applied(st, "--request"@, value).url == st.url,
        applied(st, "--request"@, value).headers == st.headers,
        applied(st, "--request"@, value).data == st.data,
{
}

/// The word after `-X` or `--request` is its value, whatever it looks
/// like, and reading goes on after it; `-XDELETE` carries its value in the
/// same word.
pub proof fn request_word_takes_its_value(words: Seq<Seq<char>>, i: int, st: CurlState)
    requires
        0 <= i < words.len(),
    ensures
        (words[i] == "--request"@ || words[i] == "-X"@) && i + 1 < words.len()
            ==> run(words, i, st) == run(words, i + 2, applied(st, words[i], words[i + 1])),
        words[i].len() > 2 && words[i].take(2) == "-X"@
            ==> run(words, i, st) == run(words, i + 1, applied(st, "-X"@, words[i].skip(2))),
{
    reveal_strlit("--request");
    reveal_strlit("-X");
    reveal_strlit("-H");
    reveal_strlit("-d");
    reveal_strlit("-u");
    reveal_strlit("-F");
    let w = words[i];
    assert(valued_flags()[0] == "-X"@ && valued_flags()[1] == "--request"@);
    assert(attachable_flags()[0] == "-X"@);
    if w == "--request"@ {
        assert(w.take(2)[1] == '-');
        assert forall|k: int| 0 <= k < attachable_flags().len() implies #[trigger] attachable_flags()[k] != w.take(2) by {
            assert(attachable_flags()[k][1] != '-');
        }
        assert(attached_flag(w) is None);
        assert(valued_flags().contains(w));
    }
    if w == "-X"@ {
        assert(attached_flag(w) is None);
        assert(valued_flags().contains(w));
    }
}

/// `-H` and `--header` add the header a `name: value` word names, trimmed,
/// after those read before it; a word with no name adds nothing.
pub proof fn header_flag_adds_header(st: CurlState, value: Seq<char>)
    ensures
        applied(st, "--header"@, value) == applied(st, "-H"@, value),
        applied(st, "-H"@, value).headers == match split_once(value, ':') {
            Some((name, content)) => if trim(name).len() > 0 {
                st.headers.push((trim(name), trim(content)))
            } else {
                st.headers
            },
            None => st.headers,
        },
        applied(st, "-H"@, value).method == st.method,
        applied(st, "-H"@, value).url == st.url,
{
    reveal_strlit("-H");
    reveal_strlit("--header");
    reveal_strlit("-X");
    reveal_strlit("--request");
    assert("-H"@ != "-X"@) by { assert("-H"@[1] != "-X"@[1]); }
    assert("--header"@ != "-X"@) by { assert("--header"@.len() != "-X"@.len()); }
    assert("--header"@ != "--request"@) by { assert("--header"@.len() != "--request"@.len()); }
    assert("-H"@ != "--request"@) by { assert("-H"@.len() != "--request"@.len()); }
}

/// Every data flag adds its word to the body's pieces as it is and marks
/// the body a form, and `--url` sets the URL.
pub proof fn data_and_url_flags(st: CurlState, value: Seq<char>)
    ensures
        applied(st, "-d"@, value).data == st.data.push(value),
        applied(st, "--data"@, value).data == st.data.push(value),
        applied(st, "--data-raw"@, value).data == st.data.push(value),
        applied(st, "--data-binary"@, value).data == st.data.push(value),
        applied(st, "--data-ascii"@, value).data == st.data.push(value),
        applied(st, "-d"@, value).form_encoded,
        applied(st, "-d"@, value).method == st.method,
        applied(st, "--url"@, value).url == value,
        applied(st, "--url"@, value).method == st.method,
{
    reveal_strlit("-d");
    reveal_strlit("--data");
    reveal_strlit("--data-raw");
    reveal_strlit("--data-binary");
    reveal_strlit("--data-ascii");
    reveal_strlit("--data-urlencode");
    reveal_strlit("--url");
    reveal_strlit("--json");
    reveal_strlit("-u");
    reveal_strlit("--user");
    reveal_strlit("-H");
    reveal_strlit("--header");
    reveal_strlit("-X");
    reveal_strlit("--request");
    assert("-d"@ != "-X"@) by { assert("-d"@[1] != "-X"@[1]); }
    assert("-d"@ != "-H"@) by { assert("-d"@[1] != "-H"@[1]); }
    assert("-d"@ != "--request"@) by { assert("-d"@.len() != "--request"@.len()); }
    assert("-d"@ != "--header"@) by { assert("-d"@.len() != "--header"@.len()); }
    let others = seq!["-X"@, "--request"@, "-H"@, "--header"@];
    assert forall|k: int| 0 <= k < others.len() implies "--data"@ != #[trigger] others[k] && "--data-raw"@ != others[k]
        && "--data-binary"@ != others[k] && "--data-ascii"@ != others[k] by {
        assert("--data"@.len() != others[k].len());
        assert("--data-raw"@.len() != others[k].len());
        assert("--data-binary"@.len() != others[k].len());
        assert("--data-ascii"@.len() != others[k].len());
    }
    assert(others[0] == "-X"@ && others[1] == "--request"@ && others[2] == "-H"@ && others[3] == "--header"@);
    let earlier = seq!["-X"@, "--request"@, "-H"@, "--header"@, "-d"@, "--data"@, "--data-raw"@, "--data-binary"@,
        "--data-ascii"@, "--data-urlencode"@, "--json"@, "-u"@, "--user"@];
    assert forall|k: int| 0 <= k < earlier.len() implies "--url"@ != #[trigger] earlier[k] by {
        assert("--url"@.len() != earlier[k].len());
    }
    assert(earlier[0] == "-X"@ && earlier[1] == "--request"@ && earlier[2] == "-H"@ && earlier[3] == "--header"@);
    assert(earlier[4] == "-d"@ && earlier[5] == "--data"@ && earlier[6] == "--data-raw"@ && earlier[7] == "--data-binary"@);
    assert(earlier[8] == "--data-ascii"@ && earlier[9] == "--data-urlencode"@ && earlier[10] == "--json"@);
    assert(earlier[11] == "-u"@ && earlier[12] == "--user"@);
}

/// A Postman request's URL is its raw text, whether Postman wrote it as a
/// plain string or as an object with a `raw` member, and empty when there
/// is none.
pub proof fn postman_url_is_raw_text(source: PostmanRequest, r: Request)
    requires
        converted(source, r),
    ensures
        source.url matches PostmanUrl::Raw(raw) ==> r.url@ == raw@,
        source.url matches PostmanUrl::Object { raw } ==> r.url@ == raw@,
        source.url is Missing ==> r.url@.len() == 0,
        source.method@.len() > 0 ==> r.method@ == upper(source.method@),
        source.method@.len() == 0 ==> r.method@ == "GET"@,
{
}

/// Basic auth sends `Authorization: Basic` and the base64 of
/// `user:password` whenever either of them is filled in, and nothing when
/// both are empty; Bearer sends the token when there is one; an API key
/// sends its name and value when it has a name; no auth, and client
/// credentials before a token is fetched, send nothing.
pub proof fn auth_header_law(values: Seq<Seq<char>>)
    requires
        values.len() >= 2,
    ensures
        (values[0].len() > 0 || values[1].len() > 0) ==> auth_header(AuthKind::Basic, values)
            == Some(("Authorization"@, "Basic "@ + base64_of(values[0] + ":"@ + values[1]))),
        (values[0].len() == 0 && values[1].len() == 0) ==> auth_header(AuthKind::Basic, values) is None,
        values[0].len() > 0 ==> auth_header(AuthKind::Bearer, values) == Some(("Authorization"@, "Bearer "@ + values[0])),
        values[0].len() == 0 ==> auth_header(AuthKind::Bearer, values) is None,
        values[0].len() > 0 ==> auth_header(AuthKind::ApiKey, values) == Some((values[0], values[1])),
        values[0].len() == 0 ==> auth_header(AuthKind::ApiKey, values) is None,
        auth_header(AuthKind::NoAuth, values) is None,
        auth_header(AuthKind::ClientCredentials, values) is None,
{
}

/// The JSON a GraphQL body goes out as holds the query, quoted, and, when
/// the variables are JSON, those variables compacted; variables that are
/// not JSON, or none, leave only the query.
pub proof fn graphql_payload_law(query: Seq<char>, variables: Option<Seq<char>>)
    ensures
        graphql_payload(query, variables) == match variables {
            Some(v) => match json_compacted(v) {
                Some(json) => "\u{7b}\u{22}query\u{22}:"@ + json_quoted(query) + ",\u{22}variables\u{22}:"@ + json + "\u{7d}"@,
                None => "\u{7b}\u{22}query\u{22}:"@ + json_quoted(query) + "\u{7d}"@,
            },
            None => "\u{7b}\u{22}query\u{22}:"@ + json_quoted(query) + "\u{7d}"@,
        },
{
}

/// A `.bru` file with a `body:graphql` block is sent as JSON: the query,
/// and the variables of a `body:graphql:vars` block when they are JSON.
pub proof fn bru_graphql_body(text: Seq<char>)
    ensures
        ({
            let lines = split(crlf_to_lf(text), '\n');
            let st = read_blocks(empty_state(), lines, blocks_from(lines, 0));
            let parsed = bru_parsed(text);
            match st.graphql {
                Some(query) => {
                    &&& parsed.kind == Some(crate::body::BodyKind::Json)
                    &&& match st.graphql_vars {
                        Some(v) => match json_compacted(v) {
                            Some(json) => parsed.body
                                == "\u{7b}\u{22}query\u{22}:"@ + json_quoted(query) + ",\u{22}variables\u{22}:"@ + json + "\u{7d}"@,
                            None => parsed.body == "\u{7b}\u{22}query\u{22}:"@ + json_quoted(query) + "\u{7d}"@,
                        },
                        None => parsed.body == "\u{7b}\u{22}query\u{22}:"@ + json_quoted(query) + "\u{7d}"@,
                    }
                },
                None => true,
            }
        }),
{
    let lines = split(crlf_to_lf(text), '\n');
    let st = read_blocks(empty_state(), lines, blocks_from(lines, 0));
    graphql_payload_law(if st.graphql is Some { st.graphql->0 } else { Seq::empty() }, st.graphql_vars);
}

/// A `body:graphql` block holds the query and a `body:graphql:vars` block
/// its variables, each read without its indent, the name in any case; the
/// rest of what was read stays as it was.
pub proof fn graphql_blocks_are_read(st: BruState, lines: Seq<Seq<char>>, b: BlockView)
    ensures
        lower(b.name) == "body:graphql"@ ==> read_block(st, lines, b)
            == (BruState { graphql: Some(dedented(lines.subrange(b.lo, b.hi))), ..st }),
        lower(b.name) == "body:graphql:vars"@ ==> read_block(st, lines, b)
            == (BruState { graphql_vars: Some(dedented(lines.subrange(b.lo, b.hi))), ..st }),
{
    reveal_strlit("body:graphql");
    reveal_strlit("body:graphql:vars");
    reveal_strlit("headers");
    reveal_strlit("vars");
    reveal_strlit("vars:pre-request");
    reveal_strlit("get");
    reveal_strlit("post");
    reveal_strlit("put");
    reveal_strlit("patch");
    reveal_strlit("delete");
    reveal_strlit("head");
    reveal_strlit("options");
    reveal_strlit("connect");
    reveal_strlit("trace");
    let n = lower(b.name);
    if n == "body:graphql"@ || n == "body:graphql:vars"@ {
        assert(n[0] == 'b');
        assert forall|k: int| 0 <= k < method_blocks().len() implies #[trigger] method_blocks()[k] != n by {
            assert(method_blocks()[k].len() < 5 || method_blocks()[k][4] != ':');
        }
        assert(lower(n) =~= n) by {
            assert forall|i: int| 0 <= i < n.len() implies crate::text::lower_char(#[trigger] n[i]) == n[i] by {
                if n == "body:graphql"@ {
                    assert('a' <= n[i] <= 'z' || n[i] == ':');
                } else {
                    assert('a' <= n[i] <= 'z' || n[i] == ':');
                }
            }
        }
        assert(!is_method_block_name(n));
        assert(n != "headers"@) by { assert("headers"@[0] != n[0]); }
        assert(n != "vars"@) by { assert("vars"@[0] != n[0]); }
        assert(n != "vars:pre-request"@) by { assert("vars:pre-request"@[0] != n[0]); }
        assert("body:graphql"@ != "body:graphql:vars"@) by { assert("body:graphql"@.len() != "body:graphql:vars"@.len()); }
    }
}

/// The operation a path gives for a method is the path item's field of that
/// name, whatever the method's case; any other method has none.
pub proof fn operation_by_method(item: PathItem, method: Seq<char>)
    ensures
        lower(method) == "get"@ ==> operation_for(item, method) == item.get,
        lower(method) == "post"@ ==> operation_for(item, method) == item.post,
        lower(method) == "put"@ ==> operation_for(item, method) == item.put,
        lower(method) == "patch"@ ==> operation_for(item, method) == item.patch,
        lower(method) == "delete"@ ==> operation_for(item, method) == item.delete,
        lower(method) == "head"@ ==> operation_for(item, method) == item.head,
        lower(method) == "options"@ ==> operation_for(item, method) == item.options,
        !(lower(method) == "get"@ || lower(method) == "post"@ || lower(method) == "put"@ || lower(method) == "patch"@
            || lower(method) == "delete"@ || lower(method) == "head"@ || lower(method) == "options"@)
            ==> operation_for(item, method) is None,
{
    reveal_strlit("get");
    reveal_strlit("post");
    reveal_strlit("put");
    reveal_strlit("patch");
    reveal_strlit("delete");
    reveal_strlit("head");
    reveal_strlit("options");
    assert("put"@ != "get"@) by { assert("put"@[0] != "get"@[0]); }
    assert("head"@ != "post"@) by { assert("head"@[0] != "post"@[0]); }
    let names = seq!["get"@, "post"@, "put"@, "patch"@, "delete"@, "head"@, "options"@];
    assert forall|i: int, j: int| 0 <= i < j < 7 && (#[trigger] names[i]).len() != (#[trigger] names[j]).len() implies names[i] != names[j] by {}
    assert(names[0] == "get"@ && names[1] == "post"@ && names[2] == "put"@ && names[3] == "patch"@);
    assert(names[4] == "delete"@ && names[5] == "head"@ && names[6] == "options"@);
}

} // verus!
