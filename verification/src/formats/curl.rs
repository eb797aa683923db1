//! curl command lines, in and out.
//!
//! Import covers what people actually paste, including what a browser's "Copy
//! as cURL" writes: `-X`, `-H`, the `-d`/`--data*` family, `--json`, `-u`,
//! `-F`, `-A`, `-e`, `-b`, `--url`, and `$'…'` quoting. Everything else curl
//! understands — `--cert`, `--resolve`, `--proxy` — is passed over: the aim is
//! the request, not curl's whole behaviour.
//!
//! As curl does, a body built from `-d` fields is sent as
//! `application/x-www-form-urlencoded` unless a Content-Type says otherwise.

use vstd::prelude::*;

use crate::encoding::{base64_encode, base64_of};
use crate::error::Error;
use crate::request::{Request, find_header, header_value, set_header, with_header};
use crate::text::{
    append, chars_of, contains_seq, eq_ignore_case, same_ignoring_case, is_space, is_space_char, join, join_chars, same, slice,
    split_once, split_once_chars, starts_with, starts_with_chars, string_of, trim, trim_chars,
    upper, upper_chars, views,
};
use crate::varmap::pair_views;
use vstd::utf8::encode_utf8;

verus! {

/// `acc` in front of what a quoted section gives, when it closes.
pub open spec fn prepend(acc: Seq<char>, r: Option<(Seq<char>, int)>) -> Option<(Seq<char>, int)> {
    match r {
        Some((text, end)) => Some((acc + text, end)),
        None => None,
    }
}

/// The text of a `'…'` section whose contents start at `q`, and where it
/// ends; `None` when it never closes.
pub open spec fn single_quoted(s: Seq<char>, q: int) -> Option<(Seq<char>, int)>
    decreases s.len() - q,
{
    if q < 0 || q >= s.len() {
        None
    } else if s[q] == '\'' {
        Some((Seq::empty(), q + 1))
    } else {
        prepend(seq![s[q]], single_quoted(s, q + 1))
    }
}

/// The text of a `"…"` section: a backslash escapes `"`, `\`, `$` and a
/// backquote, drops a line break, and is itself before anything else.
pub open spec fn double_quoted(s: Seq<char>, q: int) -> Option<(Seq<char>, int)>
    decreases s.len() - q,
{
    if q < 0 || q >= s.len() {
        None
    } else if s[q] == '"' {
        Some((Seq::empty(), q + 1))
    } else if s[q] == '\\' {
        if q + 1 < s.len() && (s[q + 1] == '"' || s[q + 1] == '\\' || s[q + 1] == '$' || s[q + 1] == '`') {
            prepend(seq![s[q + 1]], double_quoted(s, q + 2))
        } else if q + 1 < s.len() && s[q + 1] == '\n' {
            double_quoted(s, q + 2)
        } else {
            prepend(seq!['\\'], double_quoted(s, q + 1))
        }
    } else {
        prepend(seq![s[q]], double_quoted(s, q + 1))
    }
}

/// What a backslash and `c` stand for inside `$'…'`.
pub open spec fn unescaped(c: char) -> char {
    if c == 'n' {
        '\n'
    } else if c == 't' {
        '\t'
    } else if c == 'r' {
        '\r'
    } else {
        c
    }
}

/// The text of a `$'…'` section.
pub open spec fn ansi_quoted(s: Seq<char>, q: int) -> Option<(Seq<char>, int)>
    decreases s.len() - q,
{
    if q < 0 || q >= s.len() {
        None
    } else if s[q] == '\'' {
        Some((Seq::empty(), q + 1))
    } else if s[q] == '\\' {
        if q + 1 >= s.len() {
            None
        } else {
            prepend(seq![unescaped(s[q + 1])], ansi_quoted(s, q + 2))
        }
    } else {
        prepend(seq![s[q]], ansi_quoted(s, q + 1))
    }
}

pub proof fn lemma_single_quoted_end(s: Seq<char>, q: int)
    ensures
        single_quoted(s, q) matches Some((_, e)) ==> q < e <= s.len(),
    decreases s.len() - q,
{
    if 0 <= q < s.len() && s[q] != '\'' {
        lemma_single_quoted_end(s, q + 1);
    }
}

pub proof fn lemma_double_quoted_end(s: Seq<char>, q: int)
    ensures
        double_quoted(s, q) matches Some((_, e)) ==> q < e <= s.len(),
    decreases s.len() - q,
{
    if 0 <= q < s.len() && s[q] != '"' {
        lemma_double_quoted_end(s, q + 1);
        if q + 1 < s.len() {
            lemma_double_quoted_end(s, q + 2);
        }
    }
}

pub proof fn lemma_ansi_quoted_end(s: Seq<char>, q: int)
    ensures
        ansi_quoted(s, q) matches Some((_, e)) ==> q < e <= s.len(),
    decreases s.len() - q,
{
    if 0 <= q < s.len() && s[q] != '\'' {
        lemma_ansi_quoted_end(s, q + 1);
        if q + 1 < s.len() {
            lemma_ansi_quoted_end(s, q + 2);
        }
    }
}

/// The words of `s` from `p` on, as a POSIX shell splits them: `done` are
/// the words already finished, `current` the one being read, and `open`
/// whether one is being read at all. `None` when a quote never closes.
pub open spec fn words_from(s: Seq<char>, p: int, done: Seq<Seq<char>>, current: Seq<char>, open: bool) -> Option<Seq<Seq<char>>>
    decreases s.len() - p,
{
    if p < 0 || p >= s.len() {
        Some(if open { done.push(current) } else { done })
    } else {
        let c = s[p];
        if c == '\'' {
            proof {
                lemma_single_quoted_end(s, p + 1);
            }
            match single_quoted(s, p + 1) {
                Some((text, end)) => words_from(s, end, done, current + text, true),
                None => None,
            }
        } else if c == '"' {
            proof {
                lemma_double_quoted_end(s, p + 1);
            }
            match double_quoted(s, p + 1) {
                Some((text, end)) => words_from(s, end, done, current + text, true),
                None => None,
            }
        } else if c == '$' && p + 1 < s.len() && s[p + 1] == '\'' {
            proof {
                lemma_ansi_quoted_end(s, p + 2);
            }
            match ansi_quoted(s, p + 2) {
                Some((text, end)) => words_from(s, end, done, current + text, true),
                None => None,
            }
        } else if c == '\\' {
            if p + 1 >= s.len() {
                words_from(s, p + 1, done, current, open)
            } else if s[p + 1] == '\n' {
                words_from(s, p + 2, done, current, open)
            } else if s[p + 1] == '\r' {
                let next = if p + 2 < s.len() && s[p + 2] == '\n' { p + 3 } else { p + 2 };
                words_from(s, next, done, current, open)
            } else {
                words_from(s, p + 2, done, current.push(s[p + 1]), true)
            }
        } else if is_space(c) {
            if open {
                words_from(s, p + 1, done.push(current), Seq::empty(), false)
            } else {
                words_from(s, p + 1, done, current, false)
            }
        } else {
            words_from(s, p + 1, done, current.push(c), true)
        }
    }
}

/// The words of a pasted command; `None` when a quote never closes.
pub open spec fn shell_words(s: Seq<char>) -> Option<Seq<Seq<char>>> {
    words_from(s, 0, Seq::empty(), Seq::empty(), false)
}

fn single_quoted_exec(s: &[char], q: usize) -> (r: Option<(Vec<char>, usize)>)
    requires
        q <= s@.len(),
    ensures
        match r {
            Some((text, end)) => single_quoted(s@, q as int) == Some((text@, end as int)),
            None => single_quoted(s@, q as int) is None,
        },
{
    let mut acc: Vec<char> = Vec::new();
    let mut i = q;
    let total = s.len();
    while i < s.len()
        invariant
            q <= i <= s@.len(),
            total == s@.len(),
            single_quoted(s@, q as int) == prepend(acc@, single_quoted(s@, i as int)),
        decreases s@.len() - i,
    {
        if s[i] == '\'' {
            return Some((acc, i + 1));
        }
        let ghost before = acc@;
        acc.push(s[i]);
        proof {
            assert(before + seq![s@[i as int]] == acc@);
            match single_quoted(s@, i + 1) {
                Some((t, e)) => assert(before + (seq![s@[i as int]] + t) == acc@ + t),
                None => {},
            }
        }
        i += 1;
    }
    None
}

fn double_quoted_exec(s: &[char], q: usize) -> (r: Option<(Vec<char>, usize)>)
    requires
        q <= s@.len(),
    ensures
        match r {
            Some((text, end)) => double_quoted(s@, q as int) == Some((text@, end as int)),
            None => double_quoted(s@, q as int) is None,
        },
{
    let mut acc: Vec<char> = Vec::new();
    let mut i = q;
    let total = s.len();
    while i < s.len()
        invariant
            q <= i <= s@.len(),
            total == s@.len(),
            double_quoted(s@, q as int) == prepend(acc@, double_quoted(s@, i as int)),
        decreases s@.len() - i,
    {
        let c = s[i];
        if c == '"' {
            return Some((acc, i + 1));
        }
        let ghost before = acc@;
        if c == '\\' {
            if i + 1 < s.len() && (s[i + 1] == '"' || s[i + 1] == '\\' || s[i + 1] == '$' || s[i + 1] == '`') {
                acc.push(s[i + 1]);
                proof {
                    match double_quoted(s@, i + 2) {
                        Some((t, e)) => assert(before + (seq![s@[i + 1]] + t) == acc@ + t),
                        None => {},
                    }
                }
                i += 2;
            } else if i + 1 < s.len() && s[i + 1] == '\n' {
                i += 2;
            } else {
                acc.push('\\');
                proof {
                    match double_quoted(s@, i + 1) {
                        Some((t, e)) => assert(before + (seq!['\\'] + t) == acc@ + t),
                        None => {},
                    }
                }
                i += 1;
            }
        } else {
            acc.push(c);
            proof {
                match double_quoted(s@, i + 1) {
                    Some((t, e)) => assert(before + (seq![c] + t) == acc@ + t),
                    None => {},
                }
            }
            i += 1;
        }
    }
    None
}

fn unescape(c: char) -> (r: char)
    ensures
        r == unescaped(c),
{
    if c == 'n' {
        '\n'
    } else if c == 't' {
        '\t'
    } else if c == 'r' {
        '\r'
    } else {
        c
    }
}

fn ansi_quoted_exec(s: &[char], q: usize) -> (r: Option<(Vec<char>, usize)>)
    requires
        q <= s@.len(),
    ensures
        match r {
            Some((text, end)) => ansi_quoted(s@, q as int) == Some((text@, end as int)),
            None => ansi_quoted(s@, q as int) is None,
        },
{
    let mut acc: Vec<char> = Vec::new();
    let mut i = q;
    let total = s.len();
    while i < s.len()
        invariant
            q <= i <= s@.len(),
            total == s@.len(),
            ansi_quoted(s@, q as int) == prepend(acc@, ansi_quoted(s@, i as int)),
        decreases s@.len() - i,
    {
        let c = s[i];
        if c == '\'' {
            return Some((acc, i + 1));
        }
        let ghost before = acc@;
        if c == '\\' {
            if i + 1 >= s.len() {
                return None;
            }
            let u = unescape(s[i + 1]);
            acc.push(u);
            proof {
                match ansi_quoted(s@, i + 2) {
                    Some((t, e)) => assert(before + (seq![u] + t) == acc@ + t),
                    None => {},
                }
            }
            i += 2;
        } else {
            acc.push(c);
            proof {
                match ansi_quoted(s@, i + 1) {
                    Some((t, e)) => assert(before + (seq![c] + t) == acc@ + t),
                    None => {},
                }
            }
            i += 1;
        }
    }
    None
}

/// Just enough of a POSIX shell to read a pasted command: single and double
/// quotes, `$'…'`, backslash escapes, and `\` at the end of a line. `None`
/// when a quote is never closed.
pub fn shell_split(text: &[char]) -> (r: Option<Vec<Vec<char>>>)
    ensures
        match r {
            Some(words) => shell_words(text@) == Some(views(words@)),
            None => shell_words(text@) is None,
        },
{
    let s = text;
    let total = s.len();
    let mut out: Vec<Vec<char>> = Vec::new();
    assert(s@ == text@);
    let mut current: Vec<char> = Vec::new();
    let mut in_token = false;
    let mut p: usize = 0;
    assert(views(out@) =~= Seq::<Seq<char>>::empty());
    while p < s.len()
        invariant
            p <= s@.len(),
            total == s@.len(),
            s@ == text@,
            words_from(s@, p as int, views(out@), current@, in_token) == shell_words(s@),
        decreases s@.len() - p,
    {
        let c = s[p];
        if c == '\'' {
            proof {
                lemma_single_quoted_end(s@, p + 1);
            }
            match single_quoted_exec(s, p + 1) {
                Some((t, e)) => {
                    crate::text::append(&mut current, &t);
                    in_token = true;
                    p = e;
                },
                None => {
                    return None;
                },
            }
        } else if c == '"' {
            proof {
                lemma_double_quoted_end(s@, p + 1);
            }
            match double_quoted_exec(s, p + 1) {
                Some((t, e)) => {
                    crate::text::append(&mut current, &t);
                    in_token = true;
                    p = e;
                },
                None => return None,
            }
        } else if c == '$' && p + 1 < s.len() && s[p + 1] == '\'' {
            proof {
                lemma_ansi_quoted_end(s@, p + 2);
            }
            match ansi_quoted_exec(s, p + 2) {
                Some((t, e)) => {
                    crate::text::append(&mut current, &t);
                    in_token = true;
                    p = e;
                },
                None => return None,
            }
        } else if c == '\\' {
            if p + 1 >= s.len() {
                p += 1;
            } else if s[p + 1] == '\n' {
                p += 2;
            } else if s[p + 1] == '\r' {
                if p + 2 < s.len() && s[p + 2] == '\n' {
                    p += 3;
                } else {
                    p += 2;
                }
            } else {
                current.push(s[p + 1]);
                in_token = true;
                p += 2;
            }
        } else if is_space_char(c) {
            if in_token {
                let ghost before = views(out@);
                let word = current;
                out.push(word);
                assert(views(out@) == before.push(word@));
                current = Vec::new();
                in_token = false;
            }
            p += 1;
        } else {
            current.push(c);
            in_token = true;
            p += 1;
        }
    }
    if in_token {
        let ghost before = views(out@);
        let word = current;
        out.push(word);
        assert(views(out@) == before.push(word@));
    }
    Some(out)
}

/// Whether `text` is a curl invocation rather than a URL.
pub open spec fn is_curl_text(text: Seq<char>) -> bool {
    let t = trim(text);
    ||| t == "curl"@
    ||| starts_with(t, "curl "@)
    ||| starts_with(t, "curl\t"@)
    ||| starts_with(t, "curl\n"@)
    ||| starts_with(t, "$ curl "@)
}

/// Whether `text` is a curl invocation rather than a URL.
pub fn is_curl(text: &str) -> (r: bool)
    ensures
        r == is_curl_text(text@),
{
    let t = trim_chars(&chars_of(text));
    same(&t, &chars_of("curl")) || starts_with_chars(&t, &chars_of("curl "))
        || starts_with_chars(&t, &chars_of("curl\t")) || starts_with_chars(&t, &chars_of("curl\n"))
        || starts_with_chars(&t, &chars_of("$ curl "))
}

/// Flags that take a value.
pub open spec fn valued_flags() -> Seq<Seq<char>> {
    seq![
        "-X"@, "--request"@, "-H"@, "--header"@, "-d"@, "--data"@, "--data-raw"@,
        "--data-binary"@, "--data-ascii"@, "--data-urlencode"@, "--json"@, "-u"@, "--user"@,
        "--url"@, "-F"@, "--form"@, "--form-string"@, "-A"@, "--user-agent"@, "-e"@,
        "--referer"@, "-b"@, "--cookie"@,
    ]
}

/// Flags that take none, so the token after one is never mistaken for its
/// value.
pub open spec fn switch_flags() -> Seq<Seq<char>> {
    seq![
        "-s"@, "--silent"@, "-S"@, "--show-error"@, "-k"@, "--insecure"@, "-L"@, "--location"@,
        "-i"@, "--include"@, "-v"@, "--verbose"@, "-f"@, "--fail"@, "-N"@, "--no-buffer"@,
        "--compressed"@, "-#"@, "--progress-bar"@, "--http1.1"@, "--http2"@, "-g"@, "--globoff"@,
    ]
}

/// Flags that take a value and have no bearing on the request itself, such
/// as a proxy or a client certificate: each is passed over with its value,
/// whatever that value looks like.
pub open spec fn dropped_flags() -> Seq<Seq<char>> {
    seq![
        "-x"@, "--proxy"@, "-U"@, "--proxy-user"@, "-E"@, "--cert"@, "--key"@, "--cacert"@,
        "--resolve"@, "-o"@, "--output"@, "-m"@, "--max-time"@, "--connect-timeout"@,
    ]
}

/// Short flags whose value may be written straight after them: `-XPOST`.
pub open spec fn attachable_flags() -> Seq<Seq<char>> {
    seq!["-X"@, "-H"@, "-d"@, "-u"@, "-F"@]
}

fn member(word: &[char], list: &[&str]) -> (r: bool)
    ensures
        r == list@.map_values(|s: &str| s@).contains(word@),
{
    let ghost all = list@.map_values(|s: &str| s@);
    let mut i: usize = 0;
    while i < list.len()
        invariant
            i <= list@.len(),
            all == list@.map_values(|s: &str| s@),
            forall|j: int| 0 <= j < i ==> all[j] != word@,
        decreases list@.len() - i,
    {
        if same(word, &chars_of(list[i])) {
            assert(all[i as int] == word@);
            return true;
        }
        i += 1;
    }
    false
}

fn is_valued(word: &[char]) -> (r: bool)
    ensures
        r == valued_flags().contains(word@),
{
    let list: [&str; 23] = [
        "-X", "--request", "-H", "--header", "-d", "--data", "--data-raw", "--data-binary",
        "--data-ascii", "--data-urlencode", "--json", "-u", "--user", "--url", "-F", "--form",
        "--form-string", "-A", "--user-agent", "-e", "--referer", "-b", "--cookie",
    ];
    assert(list@.map_values(|s: &str| s@) =~= valued_flags());
    member(word, &list)
}

fn is_switch(word: &[char]) -> (r: bool)
    ensures
        r == switch_flags().contains(word@),
{
    let list: [&str; 23] = [
        "-s", "--silent", "-S", "--show-error", "-k", "--insecure", "-L", "--location", "-i",
        "--include", "-v", "--verbose", "-f", "--fail", "-N", "--no-buffer", "--compressed", "-#",
        "--progress-bar", "--http1.1", "--http2", "-g", "--globoff",
    ];
    assert(list@.map_values(|s: &str| s@) =~= switch_flags());
    member(word, &list)
}

fn is_dropped(word: &[char]) -> (r: bool)
    ensures
        r == dropped_flags().contains(word@),
{
    let list: [&str; 14] = [
        "-x", "--proxy", "-U", "--proxy-user", "-E", "--cert", "--key", "--cacert", "--resolve", "-o",
        "--output", "-m", "--max-time", "--connect-timeout",
    ];
    assert(list@.map_values(|s: &str| s@) =~= dropped_flags());
    member(word, &list)
}

/// The flag a token starts with when its value is written against it.
pub open spec fn attached_flag(token: Seq<char>) -> Option<Seq<char>> {
    if token.len() > 2 && attachable_flags().contains(token.take(2)) {
        Some(token.take(2))
    } else {
        None
    }
}

fn attached(token: &[char]) -> (r: Option<Vec<char>>)
    ensures
        match r {
            Some(flag) => attached_flag(token@) == Some(flag@),
            None => attached_flag(token@) is None,
        },
{
    if token.len() <= 2 {
        return None;
    }
    let head = slice(token, 0, 2);
    let list: [&str; 5] = ["-X", "-H", "-d", "-u", "-F"];
    assert(list@.map_values(|s: &str| s@) =~= attachable_flags());
    if member(&head, &list) {
        Some(head)
    } else {
        None
    }
}

/// Whether a word reads as the URL rather than as a flag's value.
pub open spec fn looks_like_url(text: Seq<char>) -> bool {
    starts_with(text, "http://"@) || starts_with(text, "https://"@) || starts_with(text, "{{"@)
}

fn looks_like_url_exec(text: &[char]) -> (r: bool)
    ensures
        r == looks_like_url(text@),
{
    starts_with_chars(text, &chars_of("http://")) || starts_with_chars(text, &chars_of("https://"))
        || starts_with_chars(text, &chars_of("{{"))
}

/// An unreserved byte stays as it is.
pub open spec fn unreserved(b: u8) -> bool {
    (65 <= b <= 90) || (97 <= b <= 122) || (48 <= b <= 57) || b == 45 || b == 95 || b == 46 || b == 126
}

/// An upper-case hex digit.
pub open spec fn hex_digit(n: u8) -> char {
    if n < 10 {
        ((48 + n) as u8) as char
    } else {
        ((55 + n) as u8) as char
    }
}

/// What one byte becomes: itself when unreserved, `+` for a space, `%XX`
/// otherwise.
pub open spec fn escaped_byte(b: u8) -> Seq<char> {
    if unreserved(b) {
        seq![b as char]
    } else if b == 32 {
        seq!['+']
    } else {
        seq!['%', hex_digit(b / 16), hex_digit(b % 16)]
    }
}

pub open spec fn escaped_bytes(bytes: Seq<u8>) -> Seq<char>
    decreases bytes.len(),
{
    if bytes.len() == 0 {
        Seq::empty()
    } else {
        escaped_bytes(bytes.drop_last()) + escaped_byte(bytes.last())
    }
}

/// Query escaping in the manner of Go's `url.QueryEscape`: unreserved
/// characters as they are, a space as `+`, every other byte of the UTF-8 text `%XX`.
pub open spec fn query_escaped(text: Seq<char>) -> Seq<char> {
    escaped_bytes(encode_utf8(text))
}

fn hex(n: u8) -> (r: char)
    requires
        n < 16,
    ensures
        r == hex_digit(n),
{
    if n < 10 {
        (48 + n) as char
    } else {
        (55 + n) as char
    }
}

fn query_escape(text: &str) -> (r: Vec<char>)
    ensures
        r@ == query_escaped(text@),
{
    let bytes = text.as_bytes();
    let ghost all = bytes@;
    assert(all == encode_utf8(text@));
    let mut out: Vec<char> = Vec::new();
    let mut i: usize = 0;
    while i < bytes.len()
        invariant
            i <= bytes@.len(),
            all == bytes@,
            out@ == escaped_bytes(all.take(i as int)),
        decreases bytes@.len() - i,
    {
        let b = bytes[i];
        let ghost before = out@;
        if (65 <= b && b <= 90) || (97 <= b && b <= 122) || (48 <= b && b <= 57) || b == 45 || b == 95 || b == 46 || b == 126 {
            out.push(b as char);
        } else if b == 32 {
            out.push('+');
        } else {
            out.push('%');
            out.push(hex(b / 16));
            out.push(hex(b % 16));
        }
        assert(out@ == before + escaped_byte(b));
        assert(all.take(i + 1).drop_last() == all.take(i as int));
        i += 1;
    }
    assert(all.take(bytes@.len() as int) == all);
    out
}

/// Where reading a curl command has got to: what it has found so far.
pub struct CurlState {
    pub url: Seq<char>,
    pub headers: Seq<(Seq<char>, Seq<char>)>,
    pub method: Option<Seq<char>>,
    pub data: Seq<Seq<char>>,
    pub form_encoded: bool,
    pub multipart: bool,
}

pub open spec fn data_flag(flag: Seq<char>) -> bool {
    flag == "-d"@ || flag == "--data"@ || flag == "--data-raw"@ || flag == "--data-binary"@ || flag == "--data-ascii"@
}

/// A field of `--data-urlencode`: `name=content` with the content escaped,
/// or all of it escaped.
pub open spec fn urlencoded_field(value: Seq<char>) -> Seq<char> {
    match split_once(value, '=') {
        Some((name, content)) => name + "="@ + query_escaped(content),
        None => query_escaped(value),
    }
}

/// `headers` with `name: value` appended when no header of that name is
/// there yet.
pub open spec fn defaulted(headers: Seq<(Seq<char>, Seq<char>)>, name: Seq<char>, value: Seq<char>) -> Seq<(Seq<char>, Seq<char>)> {
    if header_value(headers, name) is None {
        headers.push((name, value))
    } else {
        headers
    }
}

/// What one flag and its value do to the request being read.
pub open spec fn applied(st: CurlState, flag: Seq<char>, value: Seq<char>) -> CurlState {
    if flag == "-X"@ || flag == "--request"@ {
        CurlState { method: Some(upper(value)), ..st }
    } else if flag == "-H"@ || flag == "--header"@ {
        match split_once(value, ':') {
            Some((name, content)) => if trim(name).len() > 0 {
                CurlState { headers: st.headers.push((trim(name), trim(content))), ..st }
            } else {
                st
            },
            None => st,
        }
    } else if data_flag(flag) {
        CurlState { data: st.data.push(value), form_encoded: true, ..st }
    } else if flag == "--data-urlencode"@ {
        CurlState { data: st.data.push(urlencoded_field(value)), form_encoded: true, ..st }
    } else if flag == "--json"@ {
        CurlState {
            data: st.data.push(value),
            headers: defaulted(defaulted(st.headers, "Content-Type"@, "application/json"@), "Accept"@, "application/json"@),
            ..st
        }
    } else if flag == "-u"@ || flag == "--user"@ {
        CurlState { headers: with_header(st.headers, "Authorization"@, "Basic "@ + base64_of(value)), ..st }
    } else if flag == "--url"@ {
        CurlState { url: value, ..st }
    } else if flag == "-F"@ || flag == "--form"@ || flag == "--form-string"@ {
        CurlState { data: st.data.push(value), multipart: true, ..st }
    } else if flag == "-A"@ || flag == "--user-agent"@ {
        CurlState { headers: with_header(st.headers, "User-Agent"@, value), ..st }
    } else if flag == "-e"@ || flag == "--referer"@ {
        CurlState { headers: with_header(st.headers, "Referer"@, value), ..st }
    } else if (flag == "-b"@ || flag == "--cookie"@) && value.contains('=') {
        CurlState { headers: with_header(st.headers, "Cookie"@, value), ..st }
    } else {
        st
    }
}

/// Reads the words from `i` on. A flag that wants a value and is the last
/// word ends the reading.
pub open spec fn run(words: Seq<Seq<char>>, i: int, st: CurlState) -> CurlState
    decreases words.len() - i,
{
    if i < 0 || i >= words.len() {
        st
    } else {
        let word = words[i];
        let (flag, attached) = match attached_flag(word) {
            Some(flag) => (flag, Some(word.skip(2))),
            None => (word, None),
        };
        if valued_flags().contains(flag) {
            match attached {
                Some(value) => run(words, i + 1, applied(st, flag, value)),
                None => if i + 1 < words.len() {
                    run(words, i + 2, applied(st, flag, words[i + 1]))
                } else {
                    st
                },
            }
        } else if switch_flags().contains(flag) {
            run(words, i + 1, st)
        } else if dropped_flags().contains(flag) {
            if i + 1 < words.len() {
                run(words, i + 2, st)
            } else {
                run(words, i + 1, st)
            }
        } else if starts_with(word, "-"@) && word.len() > 1 {
            if i + 1 < words.len() && !starts_with(words[i + 1], "-"@) && !looks_like_url(words[i + 1]) {
                run(words, i + 2, st)
            } else {
                run(words, i + 1, st)
            }
        } else if st.url.len() == 0 {
            run(words, i + 1, CurlState { url: word, ..st })
        } else {
            run(words, i + 1, st)
        }
    }
}

pub open spec fn initial_state() -> CurlState {
    CurlState {
        url: Seq::empty(),
        headers: Seq::empty(),
        method: None,
        data: Seq::empty(),
        form_encoded: false,
        multipart: false,
    }
}

/// The request the words describe: method, URL, headers and body.
pub open spec fn finished(st: CurlState) -> (Seq<char>, Seq<char>, Seq<(Seq<char>, Seq<char>)>, Seq<char>) {
    let body = join(st.data, "&"@);
    let method = match st.method {
        Some(method) => method,
        None => if st.data.len() == 0 { "GET"@ } else { "POST"@ },
    };
    let headers = if header_value(st.headers, "Content-Type"@) is None {
        if st.multipart {
            st.headers.push(("Content-Type"@, "multipart/form-data"@))
        } else if st.form_encoded {
            st.headers.push(("Content-Type"@, "application/x-www-form-urlencoded"@))
        } else {
            st.headers
        }
    } else {
        st.headers
    };
    (method, st.url, headers, body)
}

/// What a pasted curl command asks for, or why it cannot be read.
pub open spec fn curl_parsed(text: Seq<char>) -> Result<(Seq<char>, Seq<char>, Seq<(Seq<char>, Seq<char>)>, Seq<char>), Seq<char>> {
    match shell_words(text) {
        None => Err("the curl command has an unterminated quote"@),
        Some(words) => {
            let rest = if words.len() > 0 && words[0] == "$"@ { words.drop_first() } else { words };
            if rest.len() > 0 && rest[0] == "curl"@ {
                Ok(finished(run(rest, 1, initial_state())))
            } else {
                Err("not a curl command"@)
            }
        },
    }
}

fn is_flag(flag: &[char], lit: &str) -> (r: bool)
    ensures
        r == (flag@ == lit@),
{
    same(flag, &chars_of(lit))
}

struct Reading {
    url: Vec<char>,
    headers: Vec<(String, String)>,
    method: Option<Vec<char>>,
    data: Vec<Vec<char>>,
    form_encoded: bool,
    multipart: bool,
}

impl Reading {
    spec fn state(&self) -> CurlState {
        CurlState {
            url: self.url@,
            headers: pair_views(self.headers@),
            method: match self.method {
                Some(m) => Some(m@),
                None => None,
            },
            data: views(self.data@),
            form_encoded: self.form_encoded,
            multipart: self.multipart,
        }
    }

    fn push_data(&mut self, value: Vec<char>)
        ensures
            final(self).state() == (CurlState { data: old(self).state().data.push(value@), ..old(self).state() }),
    {
        let ghost before = views(self.data@);
        self.data.push(value);
        assert(views(self.data@) == before.push(value@));
    }

    fn default_header(&mut self, name: &str, value: &str)
        ensures
            final(self).state() == (CurlState { headers: defaulted(old(self).state().headers, name@, value@), ..old(self).state() }),
    {
        let ghost before = pair_views(self.headers@);
        if crate::request::header(&self.headers, name).is_none() {
            self.headers.push((name.to_string(), value.to_string()));
            assert(pair_views(self.headers@) == before.push((name@, value@)));
        }
    }

    fn apply(&mut self, flag: &[char], value: Vec<char>)
        ensures
            final(self).state() == applied(old(self).state(), flag@, value@),
    {
        let ghost st = self.state();
        let ghost v = value@;
        if is_flag(flag, "-X") || is_flag(flag, "--request") {
            self.method = Some(upper_chars(&value));
            assert(self.state() == applied(st, flag@, v));
        } else if is_flag(flag, "-H") || is_flag(flag, "--header") {
            if let Some((name, content)) = split_once_chars(&value, ':') {
                let name = trim_chars(&name);
                if name.len() > 0 {
                    let content = trim_chars(&content);
                    let ghost before = pair_views(self.headers@);
                    self.headers.push((string_of(&name), string_of(&content)));
                    assert(pair_views(self.headers@) == before.push((name@, content@)));
                }
            }
            assert(self.state() == applied(st, flag@, v));
        } else if is_flag(flag, "-d") || is_flag(flag, "--data") || is_flag(flag, "--data-raw") || is_flag(flag, "--data-binary") || is_flag(flag, "--data-ascii") {
            self.push_data(value);
            self.form_encoded = true;
            assert(self.state() == applied(st, flag@, v));
        } else if is_flag(flag, "--data-urlencode") {
            let field = match split_once_chars(&value, '=') {
                Some((name, content)) => {
                    proof {
                        reveal_strlit("=");
                    }
                    let ghost n = name@;
                    let mut field = name;
                    field.push('=');
                    assert(field@ == n + "="@);
                    let escaped = query_escape(string_of(&content).as_str());
                    append(&mut field, &escaped);
                    assert(field@ == n + "="@ + query_escaped(content@));
                    field
                },
                None => query_escape(string_of(&value).as_str()),
            };
            assert(field@ == urlencoded_field(v));
            self.push_data(field);
            self.form_encoded = true;
            assert(self.state() == applied(st, flag@, v));
        } else if is_flag(flag, "--json") {
            self.push_data(value);
            self.default_header("Content-Type", "application/json");
            self.default_header("Accept", "application/json");
            assert(self.state() == applied(st, flag@, v));
        } else if is_flag(flag, "-u") || is_flag(flag, "--user") {
            let encoded = base64_encode(string_of(&value).as_str());
            let mut header_value = chars_of("Basic ");
            append(&mut header_value, &chars_of(encoded.as_str()));
            set_header(&mut self.headers, "Authorization", string_of(&header_value).as_str());
            assert(self.state() == applied(st, flag@, v));
        } else if is_flag(flag, "--url") {
            self.url = value;
            assert(self.state() == applied(st, flag@, v));
        } else if is_flag(flag, "-F") || is_flag(flag, "--form") || is_flag(flag, "--form-string") {
            self.push_data(value);
            self.multipart = true;
            assert(self.state() == applied(st, flag@, v));
        } else if is_flag(flag, "-A") || is_flag(flag, "--user-agent") {
            set_header(&mut self.headers, "User-Agent", string_of(&value).as_str());
            assert(self.state() == applied(st, flag@, v));
        } else if is_flag(flag, "-e") || is_flag(flag, "--referer") {
            set_header(&mut self.headers, "Referer", string_of(&value).as_str());
            assert(self.state() == applied(st, flag@, v));
        } else if (is_flag(flag, "-b") || is_flag(flag, "--cookie")) && crate::text::find_char(&value, '=').is_some() {
            set_header(&mut self.headers, "Cookie", string_of(&value).as_str());
        }
    }
}

/// Reads the word at `index`, and the value after it when it takes one.
/// Gives where reading goes on, or `None` when it stops.
fn read_word(reading: &mut Reading, words: &Vec<Vec<char>>, start: usize, index: usize) -> (r: Option<usize>)
    requires
        start < index < words@.len(),
    ensures
        match r {
            Some(next) => index < next <= words@.len() && run(views(words@).skip(start as int), index - start, old(reading).state())
                == run(views(words@).skip(start as int), next - start, final(reading).state()),
            None => run(views(words@).skip(start as int), index - start, old(reading).state()) == old(reading).state()
                && final(reading).state() == old(reading).state(),
        },
{
    let ghost rest = views(words@).skip(start as int);
    let ghost i = index - start;
    let word = &words[index];
    assert(rest[i] == word@);
    let (flag, attached_value) = match attached(word) {
        Some(flag) => {
            let value = slice(word, 2, word.len());
            assert(value@ == word@.skip(2));
            (flag, Some(value))
        },
        None => (slice(word, 0, word.len()), None),
    };
    assert(word@.subrange(0, word@.len() as int) == word@);
    assert(index < words.len());
    let next = index + 1;
    if is_valued(&flag) {
        let (value, after) = match attached_value {
            Some(value) => (value, next),
            None => {
                if next >= words.len() {
                    return None;
                }
                let value = slice(&words[next], 0, words[next].len());
                assert(words[next as int]@.subrange(0, words[next as int]@.len() as int) == words[next as int]@);
                assert(rest[i + 1] == value@);
                (value, next + 1)
            },
        };
        reading.apply(&flag, value);
        return Some(after);
    }
    if is_switch(&flag) {
        return Some(next);
    }
    if is_dropped(&flag) {
        if next < words.len() {
            return Some(next + 1);
        }
        return Some(next);
    }
    if starts_with_chars(word, &chars_of("-")) && word.len() > 1 {
        if next < words.len() && !starts_with_chars(&words[next], &chars_of("-")) && !looks_like_url_exec(&words[next]) {
            assert(rest[i + 1] == words[next as int]@);
            return Some(next + 1);
        }
        return Some(next);
    }
    if reading.url.len() == 0 {
        reading.url = slice(word, 0, word.len());
    }
    Some(next)
}

/// Reads a pasted curl command into a request.
pub fn parse(text: &str) -> (r: Result<Request, Error>)
    ensures
        match r {
            Ok(request) => curl_parsed(text@) == Ok::<_, Seq<char>>(
                (request.method@, request.url@, request.header_pairs(), request.body@),
            ) && request.kind is None && request.vars@ == Map::<Seq<char>, Seq<char>>::empty(),
            Err(error) => curl_parsed(text@) matches Err(message) && error matches Error::Invalid(m) && m@ == message,
        },
{
    let words = match shell_split(&chars_of(text)) {
        Some(words) => words,
        None => {
            return Err(Error::Invalid("the curl command has an unterminated quote".to_string()));
        },
    };
    let ghost all = views(words@);
    let mut start: usize = 0;
    if words.len() > 0 && same(&words[0], &chars_of("$")) {
        start = 1;
    }
    let ghost rest = if start == 1 { all.drop_first() } else { all };
    assert(rest == all.skip(start as int));
    if !(start < words.len() && same(&words[start], &chars_of("curl"))) {
        return Err(Error::Invalid("not a curl command".to_string()));
    }
    let mut reading = Reading {
        url: Vec::new(),
        headers: Vec::new(),
        method: None,
        data: Vec::new(),
        form_encoded: false,
        multipart: false,
    };
    assert(reading.state() == initial_state()) by {
        assert(views(reading.data@) =~= Seq::<Seq<char>>::empty());
        assert(pair_views(reading.headers@) =~= Seq::<(Seq<char>, Seq<char>)>::empty());
    }
    let mut index = start + 1;
    let total = words.len();
    loop
        invariant
            start + 1 <= index <= words@.len(),
            total == words@.len(),
            all == views(words@),
            rest == all.skip(start as int),
            run(rest, index - start, reading.state()) == run(rest, 1, initial_state()),
        ensures
            run(rest, index - start, reading.state()) == reading.state(),
            run(rest, index - start, reading.state()) == run(rest, 1, initial_state()),
        decreases words@.len() - index,
    {
        if index >= words.len() {
            break;
        }
        match read_word(&mut reading, &words, start, index) {
            Some(next) => {
                index = next;
            },
            None => {
                break;
            },
        }
    }
    let mut headers = reading.headers;
    if crate::request::header(&headers, "Content-Type").is_none() {
        let ghost before = pair_views(headers@);
        if reading.multipart {
            headers.push(("Content-Type".to_string(), "multipart/form-data".to_string()));
            assert(pair_views(headers@) == before.push(("Content-Type"@, "multipart/form-data"@)));
        } else if reading.form_encoded {
            headers.push(("Content-Type".to_string(), "application/x-www-form-urlencoded".to_string()));
            assert(pair_views(headers@) == before.push(("Content-Type"@, "application/x-www-form-urlencoded"@)));
        }
    }
    let method = match reading.method {
        Some(method) => string_of(&method),
        None => if reading.data.len() == 0 {
            "GET".to_string()
        } else {
            "POST".to_string()
        },
    };
    let body = join_chars(&reading.data, &chars_of("&"));
    let mut request = Request::empty();
    request.method = method;
    request.url = string_of(&reading.url);
    request.headers = headers;
    request.body = string_of(&body);
    Ok(request)
}

/// A character a shell reads as itself.
pub open spec fn plain_char(c: char) -> bool {
    ('0' <= c && c <= '9') || ('a' <= c && c <= 'z') || ('A' <= c && c <= 'Z') || "-_./:=@%+,"@.contains(c)
}

/// The inside of a single-quoted word: a quote closes, escapes itself and
/// reopens.
pub open spec fn quote_inner(t: Seq<char>) -> Seq<char>
    decreases t.len(),
{
    if t.len() == 0 {
        Seq::empty()
    } else {
        quote_inner(t.drop_last()) + if t.last() == '\'' { "'\\''"@ } else { seq![t.last()] }
    }
}

/// Single-quotes anything a shell would read as more than text.
pub open spec fn shell_quoted(t: Seq<char>) -> Seq<char> {
    if t.len() > 0 && forall|i: int| 0 <= i < t.len() ==> plain_char(#[trigger] t[i]) {
        t
    } else {
        "'"@ + quote_inner(t) + "'"@
    }
}

fn is_plain(c: char) -> (r: bool)
    ensures
        r == plain_char(c),
{
    let extra = chars_of("-_./:=@%+,");
    ('0' <= c && c <= '9') || ('a' <= c && c <= 'z') || ('A' <= c && c <= 'Z') || crate::text::find_char(&extra, c).is_some()
}

fn shell_quote(text: &[char]) -> (r: Vec<char>)
    ensures
        r@ == shell_quoted(text@),
{
    let mut plain = text.len() > 0;
    let mut i: usize = 0;
    while i < text.len()
        invariant
            i <= text@.len(),
            plain == (text@.len() > 0 && forall|j: int| 0 <= j < i ==> plain_char(#[trigger] text@[j])),
        decreases text@.len() - i,
    {
        if !is_plain(text[i]) {
            plain = false;
        }
        i += 1;
    }
    if plain {
        return slice(text, 0, text.len());
    }
    let mut out = chars_of("'");
    let ghost start = out@;
    let mut k: usize = 0;
    while k < text.len()
        invariant
            k <= text@.len(),
            out@ == start + quote_inner(text@.take(k as int)),
        decreases text@.len() - k,
    {
        assert(text@.take(k + 1).drop_last() == text@.take(k as int));
        if text[k] == '\'' {
            append(&mut out, &chars_of("'\\''"));
        } else {
            out.push(text[k]);
        }
        k += 1;
    }
    assert(text@.take(text@.len() as int) == text@);
    append(&mut out, &chars_of("'"));
    out
}

/// ` -H 'name: value'` for each header, leaving out `Content-Type` when a
/// multipart body's fields go out as `-F`.
pub open spec fn header_args(headers: Seq<(Seq<char>, Seq<char>)>, multipart: bool) -> Seq<char>
    decreases headers.len(),
{
    if headers.len() == 0 {
        Seq::empty()
    } else if multipart && eq_ignore_case(headers.last().0, "Content-Type"@) {
        header_args(headers.drop_last(), multipart)
    } else {
        header_args(headers.drop_last(), multipart) + " -H "@ + shell_quoted(headers.last().0 + ": "@ + headers.last().1)
    }
}

/// ` -F name=value` for each field.
pub open spec fn field_args(fields: Seq<(Seq<char>, Seq<char>)>) -> Seq<char>
    decreases fields.len(),
{
    if fields.len() == 0 {
        Seq::empty()
    } else {
        field_args(fields.drop_last()) + " -F "@ + shell_quoted(fields.last().0 + "="@ + fields.last().1)
    }
}

/// The curl one-liner for a request; `fields` are a multipart body's
/// fields.
pub open spec fn curl_command(
    method: Seq<char>,
    url: Seq<char>,
    headers: Seq<(Seq<char>, Seq<char>)>,
    body: Seq<char>,
    fields: Option<Seq<(Seq<char>, Seq<char>)>>,
) -> Seq<char> {
    let method = if method.len() == 0 { "GET"@ } else { method };
    let with_method = if method == "GET"@ { "curl"@ } else { "curl"@ + " -X "@ + method };
    let with_body = match fields {
        Some(fields) => with_method + header_args(headers, true) + field_args(fields),
        None => if body.len() > 0 {
            with_method + header_args(headers, false) + " --data-raw "@ + shell_quoted(body)
        } else {
            with_method + header_args(headers, false)
        },
    };
    if url.len() > 0 {
        with_body + " "@ + shell_quoted(url)
    } else {
        with_body
    }
}

/// The request as a curl one-liner. `fields` is a multipart body's fields,
/// which go out as `-F` so curl builds the body and its boundary itself.
pub fn format(request: &Request, fields: Option<&[(String, String)]>) -> (r: String)
    ensures
        r@ == curl_command(
            request.method@,
            request.url@,
            request.header_pairs(),
            request.body@,
            match fields {
                Some(f) => Some(pair_views(f@)),
                None => None,
            },
        ),
{
    let method = if request.method.as_str().is_empty() {
        chars_of("GET")
    } else {
        chars_of(request.method.as_str())
    };
    let mut out = chars_of("curl");
    if !same(&method, &chars_of("GET")) {
        append(&mut out, &chars_of(" -X "));
        append(&mut out, &method);
    }
    let multipart = fields.is_some();
    let ghost head = out@;
    let ghost all = request.header_pairs();
    let mut i: usize = 0;
    while i < request.headers.len()
        invariant
            i <= request.headers@.len(),
            all == request.header_pairs(),
            multipart == fields.is_some(),
            out@ == head + header_args(all.take(i as int), multipart),
        decreases request.headers@.len() - i,
    {
        let ghost t = all.take(i + 1);
        assert(t.drop_last() == all.take(i as int));
        let name = chars_of(request.headers[i].0.as_str());
        if !(multipart && same_ignoring_case(&name, &chars_of("Content-Type"))) {
            let mut pair = name;
            append(&mut pair, &chars_of(": "));
            append(&mut pair, &chars_of(request.headers[i].1.as_str()));
            append(&mut out, &chars_of(" -H "));
            append(&mut out, &shell_quote(&pair));
        }
        i += 1;
    }
    assert(all.take(request.headers@.len() as int) == all);
    match fields {
        Some(fields) => {
            let ghost fall = pair_views(fields@);
            let ghost mid = out@;
            let mut k: usize = 0;
            while k < fields.len()
                invariant
                    k <= fields@.len(),
                    fall == pair_views(fields@),
                    out@ == mid + field_args(fall.take(k as int)),
                decreases fields@.len() - k,
            {
                let ghost t = fall.take(k + 1);
                assert(t.drop_last() == fall.take(k as int));
                let mut pair = chars_of(fields[k].0.as_str());
                append(&mut pair, &chars_of("="));
                append(&mut pair, &chars_of(fields[k].1.as_str()));
                append(&mut out, &chars_of(" -F "));
                append(&mut out, &shell_quote(&pair));
                k += 1;
            }
            assert(fall.take(fields@.len() as int) == fall);
            assert(out@ == head + header_args(all, true) + field_args(fall));
        },
        None => {
            if !request.body.as_str().is_empty() {
                append(&mut out, &chars_of(" --data-raw "));
                let quoted = shell_quote(&chars_of(request.body.as_str()));
                append(&mut out, &quoted);
                assert(out@ == head + header_args(all, false) + " --data-raw "@ + shell_quoted(request.body@));
            }
        },
    }
    let ghost with_body = out@;
    if !request.url.as_str().is_empty() {
        append(&mut out, &chars_of(" "));
        let quoted = shell_quote(&chars_of(request.url.as_str()));
        append(&mut out, &quoted);
        assert(out@ == with_body + " "@ + shell_quoted(request.url@));
    }
    string_of(&out)
}

} // verus!
