//! `binman send`: what follows it on the command line, which environment
//! it sends with, and the variables that stop it.

use vstd::prelude::*;

use crate::collection::{path_under, strip_root};
use crate::env::EnvSource;
use crate::paths::{components_of, parent_of, parent_path, path_components};
use crate::request::Request;
use crate::text::{
    append, chars_of, join, join_chars, same, split_once, split_once_chars, starts_with, starts_with_chars, string_of,
    views,
};
use crate::varmap::{pair_views, Vars};
use crate::vars::{scan, scanned, undefined, Scope};

verus! {

#[derive(Debug, PartialEq, Eq)]
pub struct Options {
    pub file: String,
    /// The environment, by name. Left out, it is the first one found, as it
    /// is when a request is opened in the terminal.
    pub env: Option<String>,
    /// Values given on the command line. They outrank every other layer, as
    /// values typed into the Vars section do.
    pub vars: Vars,
    /// `-i`: the status line and headers on stdout ahead of the body, as
    /// `curl -i` puts them.
    pub with_headers: bool,
}

/// What the arguments read so far say.
pub struct ArgsRead {
    pub file: Option<Seq<char>>,
    pub env: Option<Seq<char>>,
    pub vars: Map<Seq<char>, Seq<char>>,
    pub with_headers: bool,
}

pub open spec fn opt_text(o: Option<String>) -> Option<Seq<char>> {
    match o {
        Some(s) => Some(s@),
        None => None,
    }
}

/// The long form of `-i`.
pub open spec fn long_head_flag() -> Seq<char> {
    seq!['-', '-', 'i', 'n', 'c', 'l', 'u', 'd', 'e']
}

/// Reads `args` on from what `st` holds: the options, their values, and
/// the one request file; the message that refuses them when they do not
/// read.
pub open spec fn read_args(args: Seq<Seq<char>>, st: ArgsRead) -> Result<ArgsRead, Seq<char>>
    decreases args.len(),
{
    if args.len() == 0 {
        Ok(st)
    } else {
        let arg = args[0];
        let rest = args.skip(1);
        if arg == "-i"@ || arg == long_head_flag() {
            read_args(rest, ArgsRead { with_headers: true, ..st })
        } else if arg == "--env"@ {
            if rest.len() == 0 {
                Err("--env needs an environment's name"@)
            } else {
                read_args(rest.skip(1), ArgsRead { env: Some(rest[0]), ..st })
            }
        } else if arg == "--var"@ {
            if rest.len() == 0 {
                Err("--var needs NAME=VALUE"@)
            } else {
                match split_once(rest[0], '=') {
                    None => Err("--var "@ + rest[0] + " is not NAME=VALUE"@),
                    Some((name, value)) => read_args(rest.skip(1), ArgsRead { vars: st.vars.insert(name, value), ..st }),
                }
            }
        } else if starts_with(arg, "-"@) {
            Err("Unknown option "@ + arg + " for binman send. Try --help."@)
        } else if st.file is Some {
            Err("binman send takes one request file"@)
        } else {
            read_args(rest, ArgsRead { file: Some(arg), ..st })
        }
    }
}

/// The options `args` give, or the message that refuses them.
pub open spec fn options_of(args: Seq<Seq<char>>) -> Result<ArgsRead, Seq<char>> {
    match read_args(args, ArgsRead { file: None, env: None, vars: Map::empty(), with_headers: false }) {
        Ok(st) => if st.file is Some { Ok(st) } else { Err("binman send needs a request file: binman send <file>"@) },
        Err(message) => Err(message),
    }
}

impl Options {
    /// Reads what follows `binman send`.
    pub fn parse(args: Vec<String>) -> (r: Result<Options, String>)
        ensures
            match options_of(args@.map_values(|a: String| a@)) {
                Ok(st) => r matches Ok(options) && Some(options.file@) == st.file
                    && opt_text(options.env) == st.env
                    && options.vars@ == st.vars && options.with_headers == st.with_headers,
                Err(message) => r matches Err(text) && text@ == message,
            },
    {
        let ghost all = args@.map_values(|a: String| a@);
        let mut file: Option<String> = None;
        let mut env: Option<String> = None;
        let mut vars = Vars::new();
        let mut with_headers = false;
        let mut i: usize = 0;
        proof {
            reveal_strlit("-i");
            reveal_strlit("--env");
            reveal_strlit("--var");
            reveal_strlit("-");
            assert(all.skip(0) == all);
        }
        while i < args.len()
            invariant
                i <= args@.len(),
                all == args@.map_values(|a: String| a@),
                read_args(all, ArgsRead { file: None, env: None, vars: Map::empty(), with_headers: false })
                    == read_args(all.skip(i as int), ArgsRead {
                        file: opt_text(file),
                        env: opt_text(env),
                        vars: vars@,
                        with_headers: with_headers,
                    }),
            decreases args@.len() - i,
        {
            let arg = chars_of(args[i].as_str());
            assert(all.skip(i as int)[0] == arg@);
            assert(all.skip(i as int).skip(1) == all.skip(i + 1));
            i += 1;
            let long_flag: [char; 9] = ['-', '-', 'i', 'n', 'c', 'l', 'u', 'd', 'e'];
            assert(long_flag@ == long_head_flag());
            if same(&arg, &chars_of("-i")) || same(&arg, &long_flag) {
                with_headers = true;
            } else if same(&arg, &chars_of("--env")) {
                if i >= args.len() {
                    return Err("--env needs an environment's name".to_string());
                }
                assert(all.skip(i as int)[0] == args@[i as int]@);
                assert(all.skip(i as int).skip(1) == all.skip(i + 1));
                env = Some(args[i].clone());
                assert(opt_text(env) == Some(args@[i as int]@));
                i += 1;
            } else if same(&arg, &chars_of("--var")) {
                if i >= args.len() {
                    return Err("--var needs NAME=VALUE".to_string());
                }
                let pair = chars_of(args[i].as_str());
                assert(all.skip(i as int)[0] == pair@);
                assert(all.skip(i as int).skip(1) == all.skip(i + 1));
                match split_once_chars(&pair, '=') {
                    None => {
                        let mut message = chars_of("--var ");
                        append(&mut message, &pair);
                        append(&mut message, &chars_of(" is not NAME=VALUE"));
                        return Err(string_of(&message));
                    },
                    Some((name, value)) => {
                        vars.insert(string_of(&name), string_of(&value));
                    },
                }
                i += 1;
            } else if starts_with_chars(&arg, &chars_of("-")) {
                let mut message = chars_of("Unknown option ");
                append(&mut message, &arg);
                append(&mut message, &chars_of(" for binman send. Try --help."));
                return Err(string_of(&message));
            } else if file.is_some() {
                return Err("binman send takes one request file".to_string());
            } else {
                file = Some(string_of(&arg));
            }
        }
        assert(all.skip(i as int) =~= Seq::<Seq<char>>::empty());
        match file {
            Some(file) => Ok(Options { file, env, vars, with_headers }),
            None => Err("binman send needs a request file: binman send <file>".to_string()),
        }
    }
}

/// The headers as the text that is scanned for variables: a line each,
/// `name:value`.
pub open spec fn headers_text(headers: Seq<(Seq<char>, Seq<char>)>) -> Seq<char>
    decreases headers.len(),
{
    if headers.len() == 0 {
        Seq::empty()
    } else {
        headers_text(headers.drop_last()) + "\n"@ + headers.last().0 + ":"@ + headers.last().1
    }
}

/// Auth field values, a line each.
pub open spec fn values_text(values: Seq<Seq<char>>) -> Seq<char>
    decreases values.len(),
{
    if values.len() == 0 {
        Seq::empty()
    } else {
        values_text(values.drop_last()) + "\n"@ + values.last()
    }
}

/// Everything of a request that can name a variable, as one text: the URL,
/// each header, the body and each auth value, a line each.
pub open spec fn referring_text(url: Seq<char>, headers: Seq<(Seq<char>, Seq<char>)>, body: Seq<char>, auth: Seq<Seq<char>>) -> Seq<char> {
    url + headers_text(headers) + "\n"@ + body + values_text(auth)
}

/// The variables a request names that no layer of `scope` defines, each
/// once, in the order the request first names them. A value given on the
/// command line is a layer too, so it is never among them. While any is
/// listed, nothing is sent.
pub fn unset_names(request: &Request, auth_values: &Vec<String>, scope: &Scope) -> (r: Vec<String>)
    ensures
        r@.map_values(|s: String| s@) == undefined(
            scanned(referring_text(request.url@, request.header_pairs(), request.body@, auth_values@.map_values(|v: String| v@))),
            scope.layers(),
        ),
{
    proof {
        reveal_strlit("\n");
        reveal_strlit(":");
    }
    let ghost headers = request.header_pairs();
    let ghost auth = auth_values@.map_values(|v: String| v@);
    let mut text = chars_of(request.url.as_str());
    let mut i: usize = 0;
    while i < request.headers.len()
        invariant
            i <= request.headers@.len(),
            headers == pair_views(request.headers@),
            text@ == request.url@ + headers_text(headers.take(i as int)),
        decreases request.headers@.len() - i,
    {
        assert(headers.take(i + 1).drop_last() == headers.take(i as int));
        assert(headers.take(i + 1).last() == (request.headers@[i as int].0@, request.headers@[i as int].1@));
        let ghost before = text@;
        text.push('\n');
        append(&mut text, &chars_of(request.headers[i].0.as_str()));
        text.push(':');
        append(&mut text, &chars_of(request.headers[i].1.as_str()));
        proof {
            reveal_strlit("\n");
            reveal_strlit(":");
        }
        assert("\n"@ == seq!['\n'] && ":"@ == seq![':']);
        assert(text@ == before + "\n"@ + request.headers@[i as int].0@ + ":"@ + request.headers@[i as int].1@);
        i += 1;
    }
    assert(headers.take(request.headers@.len() as int) == headers);
    text.push('\n');
    append(&mut text, &chars_of(request.body.as_str()));
    let ghost head = text@;
    assert(head == request.url@ + headers_text(headers) + "\n"@ + request.body@);
    let mut j: usize = 0;
    while j < auth_values.len()
        invariant
            j <= auth_values@.len(),
            auth == auth_values@.map_values(|v: String| v@),
            text@ == head + values_text(auth.take(j as int)),
        decreases auth_values@.len() - j,
    {
        assert(auth.take(j + 1).drop_last() == auth.take(j as int));
        assert(auth.take(j + 1).last() == auth_values@[j as int]@);
        let ghost before = text@;
        text.push('\n');
        append(&mut text, &chars_of(auth_values[j].as_str()));
        proof {
            reveal_strlit("\n");
        }
        assert("\n"@ == seq!['\n']);
        assert(text@ == before + "\n"@ + auth_values@[j as int]@);
        j += 1;
    }
    assert(auth.take(auth_values@.len() as int) == auth);
    let names = scan(string_of(&text).as_str());
    let ghost all = names@.map_values(|s: String| s@);
    let mut out: Vec<String> = Vec::new();
    let mut k: usize = 0;
    while k < names.len()
        invariant
            k <= names@.len(),
            all == names@.map_values(|s: String| s@),
            out@.map_values(|s: String| s@) == undefined(all.take(k as int), scope.layers()),
        decreases names@.len() - k,
    {
        assert(all.take(k + 1).drop_last() == all.take(k as int));
        assert(all.take(k + 1).last() == names@[k as int]@);
        if scope.lookup(names[k].as_str()).is_none() {
            let ghost before = out@.map_values(|s: String| s@);
            out.push(names[k].clone());
            assert(out@.map_values(|s: String| s@) == before.push(names@[k as int]@));
        }
        k += 1;
    }
    assert(all.take(names@.len() as int) == all);
    out
}

/// The message a send is refused with while `names` are unset.
pub open spec fn unset_text(names: Seq<Seq<char>>) -> Seq<char> {
    join(names, ", "@) + (if names.len() == 1 { " is"@ } else { " are"@ })
        + " not set \u{2014} --env picks an environment, and --var NAME=VALUE gives a value"@
}

pub fn unset_message(names: &Vec<String>) -> (r: String)
    ensures
        r@ == unset_text(names@.map_values(|s: String| s@)),
{
    proof {
        reveal_strlit(", ");
        reveal_strlit(" is");
        reveal_strlit(" are");
        reveal_strlit(" not set \u{2014} --env picks an environment, and --var NAME=VALUE gives a value");
    }
    let mut parts: Vec<Vec<char>> = Vec::new();
    let mut i: usize = 0;
    while i < names.len()
        invariant
            i <= names@.len(),
            views(parts@) == names@.map_values(|s: String| s@).take(i as int),
        decreases names@.len() - i,
    {
        parts.push(chars_of(names[i].as_str()));
        assert(names@.map_values(|s: String| s@).take(i + 1) == names@.map_values(|s: String| s@).take(i as int).push(names@[i as int]@));
        assert(views(parts@) == views(parts@).drop_last().push(names@[i as int]@));
        i += 1;
    }
    assert(names@.map_values(|s: String| s@).take(names@.len() as int) == names@.map_values(|s: String| s@));
    let mut text = join_chars(&parts, &chars_of(", "));
    if names.len() == 1 {
        append(&mut text, &chars_of(" is"));
    } else {
        append(&mut text, &chars_of(" are"));
    }
    append(&mut text, &chars_of(" not set \u{2014} --env picks an environment, and --var NAME=VALUE gives a value"));
    string_of(&text)
}

/// Where the environment named `name` is among `envs`: the first with that
/// label.
pub open spec fn env_named(labels: Seq<Seq<char>>, name: Seq<char>) -> Option<int>
    decreases labels.len(),
{
    if labels.len() == 0 {
        None
    } else {
        match env_named(labels.drop_last(), name) {
            Some(i) => Some(i),
            None => if labels.last() == name { Some(labels.len() - 1) } else { None },
        }
    }
}

pub open spec fn env_labels(envs: Seq<EnvSource>) -> Seq<Seq<char>> {
    envs.map_values(|e: EnvSource| e.label@)
}

/// Which environment a send uses: the one `--env` names, or the first found
/// when it names none; none at all when none is found and none is asked
/// for. Asking for one where there are none, or for one not there, is
/// refused, saying which there are.
pub open spec fn environment_choice(labels: Seq<Seq<char>>, wanted: Option<Seq<char>>, file: Seq<char>) -> Result<Option<int>, Seq<char>> {
    match wanted {
        None => Ok(if labels.len() > 0 { Some(0) } else { None }),
        Some(name) => if labels.len() == 0 {
            Err("There are no environments above "@ + file)
        } else {
            match env_named(labels, name) {
                Some(i) => Ok(Some(i)),
                None => Err("There is no environment called "@ + name + " above "@ + file + " \u{2014} there is "@
                    + join(labels, ", "@)),
            }
        },
    }
}

pub fn choose_environment(envs: &Vec<EnvSource>, wanted: Option<&str>, file: &str) -> (r: Result<Option<usize>, String>)
    ensures
        match (r, environment_choice(env_labels(envs@), match wanted { Some(w) => Some(w@), None => None }, file@)) {
            (Ok(Some(i)), Ok(Some(j))) => i == j,
            (Ok(None), Ok(None)) => true,
            (Err(message), Err(text)) => message@ == text,
            _ => false,
        },
{
    proof {
        reveal_strlit("There are no environments above ");
        reveal_strlit("There is no environment called ");
        reveal_strlit(" above ");
        reveal_strlit(" \u{2014} there is ");
        reveal_strlit(", ");
    }
    let ghost labels = env_labels(envs@);
    let name = match wanted {
        None => {
            if envs.len() > 0 {
                assert(environment_choice(labels, None, file@) == Ok::<Option<int>, Seq<char>>(Some(0)));
                return Ok(Some(0));
            }
            assert(environment_choice(labels, None, file@) == Ok::<Option<int>, Seq<char>>(None));
            return Ok(None);
        },
        Some(name) => name,
    };
    if envs.len() == 0 {
        let mut text = chars_of("There are no environments above ");
        append(&mut text, &chars_of(file));
        let r = string_of(&text);
        assert(environment_choice(labels, Some(name@), file@) == Err::<Option<int>, Seq<char>>(r@));
        return Err(r);
    }
    let wanted_chars = chars_of(name);
    let mut parts: Vec<Vec<char>> = Vec::new();
    let mut i: usize = 0;
    while i < envs.len()
        invariant
            i <= envs@.len(),
            labels == env_labels(envs@),
            wanted_chars@ == name@,
            wanted matches Some(w) && w@ == name@,
            env_named(labels.take(i as int), name@) is None,
            views(parts@) == labels.take(i as int),
        decreases envs@.len() - i,
    {
        assert(labels.take(i + 1).drop_last() == labels.take(i as int));
        assert(labels.take(i + 1).last() == envs@[i as int].label@);
        let label = chars_of(envs[i].label.as_str());
        if same(&label, &wanted_chars) {
            proof {
                assert(env_named(labels.take(i + 1), name@) == Some(i as int));
                lemma_env_named_prefix(labels, name@, i as int + 1);
            }
            assert(environment_choice(labels, Some(name@), file@) == Ok::<Option<int>, Seq<char>>(Some(i as int)));
            return Ok(Some(i));
        }
        parts.push(label);
        assert(views(parts@) == views(parts@).drop_last().push(envs@[i as int].label@));
        i += 1;
    }
    assert(labels.take(envs@.len() as int) == labels);
    assert(env_named(labels, name@) is None);
    assert(views(parts@) == labels);
    let mut text = chars_of("There is no environment called ");
    append(&mut text, &wanted_chars);
    append(&mut text, &chars_of(" above "));
    append(&mut text, &chars_of(file));
    append(&mut text, &chars_of(" \u{2014} there is "));
    append(&mut text, &join_chars(&parts, &chars_of(", ")));
    let r = string_of(&text);
    assert(environment_choice(labels, Some(name@), file@) == Err::<Option<int>, Seq<char>>(r@));
    Err(r)
}

/// A name found among the first `n` labels is found there in all of them.
proof fn lemma_env_named_prefix(labels: Seq<Seq<char>>, name: Seq<char>, n: int)
    requires
        0 <= n <= labels.len(),
        env_named(labels.take(n), name) is Some,
    ensures
        env_named(labels, name) == env_named(labels.take(n), name),
    decreases labels.len() - n,
{
    if n < labels.len() {
        assert(labels.take(n + 1).drop_last() == labels.take(n));
        lemma_env_named_prefix(labels, name, n + 1);
    } else {
        assert(labels.take(n) == labels);
    }
}

/// The collection directory among `roots` that holds `path` most deeply:
/// of two as deep, the later.
pub open spec fn deepest_of(roots: Seq<Seq<char>>, path: Seq<char>) -> Option<Seq<char>>
    decreases roots.len(),
{
    if roots.len() == 0 {
        None
    } else {
        let before = deepest_of(roots.drop_last(), path);
        let candidate = roots.last();
        if path_under(candidate, path) is Some && (before is None
            || components_of(candidate).len() >= components_of(before->0).len()) {
            Some(candidate)
        } else {
            before
        }
    }
}

/// How far up from a request file its environments are looked for: to the
/// collection directory that holds it, or, for a file in none, its own
/// directory.
pub open spec fn root_of(roots: Seq<Seq<char>>, path: Seq<char>) -> Seq<char> {
    match deepest_of(roots, path) {
        Some(root) => root,
        None => match parent_path(path) {
            Some(parent) => parent,
            None => path,
        },
    }
}

pub fn root_for(path: &str, roots: &Vec<String>) -> (r: String)
    ensures
        r@ == root_of(roots@.map_values(|s: String| s@), path@),
{
    let ghost all = roots@.map_values(|s: String| s@);
    let mut best: Option<(usize, usize)> = None;
    let mut i: usize = 0;
    while i < roots.len()
        invariant
            i <= roots@.len(),
            all == roots@.map_values(|s: String| s@),
            match best {
                Some((at, count)) => at < roots@.len() && deepest_of(all.take(i as int), path@) == Some(roots@[at as int]@)
                    && count == components_of(roots@[at as int]@).len(),
                None => deepest_of(all.take(i as int), path@) is None,
            },
        decreases roots@.len() - i,
    {
        assert(all.take(i + 1).drop_last() == all.take(i as int));
        assert(all.take(i + 1).last() == roots@[i as int]@);
        if strip_root(roots[i].as_str(), path).is_some() {
            let count = path_components(roots[i].as_str()).len();
            let better = match best {
                Some((_, most)) => count >= most,
                None => true,
            };
            if better {
                best = Some((i, count));
            }
        }
        i += 1;
    }
    assert(all.take(roots@.len() as int) == all);
    match best {
        Some((at, _)) => roots[at].clone(),
        None => match parent_of(path) {
            Some(parent) => parent,
            None => path.to_string(),
        },
    }
}

} // verus!
