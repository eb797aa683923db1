//! The editing state the terminal front end keeps: lines being typed, tables
//! of pairs, the tabs of a request, the pickers and forms drawn on top, and
//! the status line.

pub mod kv;
pub mod line;
pub mod mouse;
pub mod overlay;
pub mod prepare;
pub mod session;
pub mod tab;
pub mod tree;

use std::time::{Duration, Instant};
use vstd::prelude::*;

use crate::text::{append, chars_of, decimal, decimal_chars, digit_char, split_once_seq, split_once_seq_chars, slice, string_of};

verus! {

#[derive(Debug, Clone, Copy, PartialEq, Eq, Structural)]
pub enum Pane {
    Collections,
    Url,
    Request,
    Response,
}

impl Pane {
    /// The order Tab walks them in.
    pub const ORDER: [Pane; 4] = [Pane::Collections, Pane::Url, Pane::Request, Pane::Response];
}

#[derive(Debug, Clone, Copy, PartialEq, Eq, Structural)]
pub enum Tone {
    Info,
    Success,
    Warning,
    Error,
}

/// The tone a response's status is reported in.
pub open spec fn status_tone(status: u16) -> Tone {
    if 200 <= status <= 299 {
        Tone::Success
    } else if (100 <= status <= 199) || (300 <= status <= 399) {
        Tone::Info
    } else if 400 <= status <= 499 {
        Tone::Warning
    } else {
        Tone::Error
    }
}

pub fn tone_of(status: u16) -> (r: Tone)
    ensures
        r == status_tone(status),
{
    if 200 <= status && status <= 299 {
        Tone::Success
    } else if (100 <= status && status <= 199) || (300 <= status && status <= 399) {
        Tone::Info
    } else if 400 <= status && status <= 499 {
        Tone::Warning
    } else {
        Tone::Error
    }
}

/// `std::time::Instant`, a reading of the clock, carried through as it is.
#[verifier::external_type_specification]
#[verifier::external_body]
pub struct ExInstant(Instant);

/// `Instant::now`. Nothing is promised of the reading.
#[verifier::external_body]
fn now() -> (r: Instant) {
    Instant::now()
}

/// `Instant::elapsed`: how long ago `at` was, by the clock. Nothing is
/// promised of the reading: it depends on when it is taken.
#[verifier::external_body]
fn elapsed_since(at: Instant) -> (r: Duration) {
    at.elapsed()
}

/// The whole nanoseconds in a duration.
pub uninterp spec fn whole_nanos(duration: Duration) -> nat;

/// `Duration::as_nanos`. The contract only names the result.
#[verifier::external_body]
fn nanos_in(duration: Duration) -> (r: u128)
    ensures
        r == whole_nanos(duration),
{
    duration.as_nanos()
}

/// How long an informational message stays: six seconds.
pub const STALE_NANOS: u128 = 6_000_000_000;

/// Whether a message of `tone` shown `elapsed_nanos` ago has faded: only an
/// informational one does, once more than six seconds have passed.
pub fn stale_after(tone: Tone, elapsed_nanos: u128) -> (r: bool)
    ensures
        r == (tone == Tone::Info && elapsed_nanos > STALE_NANOS),
{
    match tone {
        Tone::Info => elapsed_nanos > STALE_NANOS,
        _ => false,
    }
}

pub struct Status {
    pub text: String,
    pub tone: Tone,
    pub at: Instant,
}

impl Status {
    /// A message, stamped now.
    pub fn new(text: &str, tone: Tone) -> (r: Status)
        ensures
            r.text@ == text@,
            r.tone == tone,
    {
        Status { text: text.to_string(), tone, at: now() }
    }

    /// Transient messages fade, so the bar goes back to showing context.
    /// Only an informational one ever does, six seconds after it was shown.
    pub fn is_stale(&self) -> (r: bool)
        ensures
            r ==> self.tone == Tone::Info,
    {
        stale_after(self.tone, nanos_in(elapsed_since(self.at)))
    }
}

/// Where a URL's host ends: at the first `/`, `?` or `#`.
pub open spec fn host_end(s: Seq<char>, i: int) -> bool {
    &&& 0 <= i <= s.len()
    &&& (i < s.len() ==> (s[i] == '/' || s[i] == '?' || s[i] == '#'))
    &&& forall|j: int| 0 <= j < i ==> !(s[j] == '/' || s[j] == '?' || s[j] == '#')
}

/// The scheme and host a URL goes to.
pub open spec fn url_host(url: Seq<char>) -> Seq<char> {
    let (scheme, rest) = match split_once_seq(url, "://"@) {
        Some((scheme, rest)) => (Some(scheme), rest),
        None => (None, url),
    };
    let host = rest.take(choose|i: int| host_end(rest, i));
    match scheme {
        Some(scheme) => scheme + "://"@ + host,
        None => host,
    }
}

/// The scheme and host a URL goes to.
pub fn host_of(url: &str) -> (r: String)
    ensures
        r@ == url_host(url@),
{
    let chars = chars_of(url);
    proof {
        reveal_strlit("://");
    }
    let sep = chars_of("://");
    let (scheme, rest) = match split_once_seq_chars(&chars, &sep) {
        Some((scheme, rest)) => (Some(scheme), rest),
        None => (None, slice(&chars, 0, chars.len())),
    };
    assert(chars@.subrange(0, chars@.len() as int) == chars@);
    let mut i: usize = 0;
    while i < rest.len() && !(rest[i] == '/' || rest[i] == '?' || rest[i] == '#')
        invariant
            i <= rest@.len(),
            forall|j: int| 0 <= j < i ==> !(rest@[j] == '/' || rest@[j] == '?' || rest@[j] == '#'),
        decreases rest@.len() - i,
    {
        i += 1;
    }
    assert(host_end(rest@, i as int));
    proof {
        let k = choose|k: int| host_end(rest@, k);
        if k < i {
            assert(k < rest@.len());
        }
        if k > i {
            assert(i < rest@.len());
        }
    }
    let host = slice(&rest, 0, i);
    match scheme {
        Some(scheme) => {
            let mut out = scheme;
            append(&mut out, &sep);
            append(&mut out, &host);
            crate::text::string_of(&out)
        },
        None => crate::text::string_of(&host),
    }
}

/// `n / d` rounded to the nearest whole number, a tie to the even one.
pub open spec fn rounded_half_even(n: nat, d: nat) -> nat {
    let q = n / d;
    let r = n % d;
    if 2 * r > d {
        q + 1
    } else if 2 * r < d {
        q
    } else if q % 2 == 1 {
        q + 1
    } else {
        q
    }
}

/// `bytes` in `unit`-sized units to one decimal place.
pub open spec fn tenths_text(bytes: nat, unit: nat) -> Seq<char> {
    let tenths = rounded_half_even(bytes * 10, unit);
    decimal(tenths / 10) + seq!['.', digit_char(tenths % 10)]
}

/// A size as people say it: bytes below a kibibyte, then kilobytes, then
/// megabytes, each to one decimal place.
pub open spec fn size_text(bytes: nat) -> Seq<char> {
    if bytes < 1024 {
        decimal(bytes) + " B"@
    } else if bytes < 1024 * 1024 {
        tenths_text(bytes, 1024) + " KB"@
    } else {
        tenths_text(bytes, 1024 * 1024) + " MB"@
    }
}

fn tenths(bytes: u128, unit: u128) -> (r: Vec<char>)
    requires
        1 <= unit <= 1024 * 1024,
        bytes <= u64::MAX,
    ensures
        r@ == tenths_text(bytes as nat, unit as nat),
{
    let n = bytes * 10;
    let q = n / unit;
    let r = n % unit;
    let t = if 2 * r > unit {
        q + 1
    } else if 2 * r < unit {
        q
    } else if q % 2 == 1 {
        q + 1
    } else {
        q
    };
    let mut out = decimal_chars(t / 10);
    let ghost head = out@;
    out.push('.');
    let digit = ((t % 10) as u8 + 48) as char;
    assert(digit == digit_char((t % 10) as nat));
    out.push(digit);
    assert(out@ == head + seq!['.', digit]);
    out
}

/// A response's size as people say it: `512 B`, `3.2 KB`, `3.0 MB`. The
/// arithmetic is exact, a tie going to the even tenth.
pub fn size(bytes: usize) -> (r: String)
    ensures
        r@ == size_text(bytes as nat),
{
    proof {
        reveal_strlit(" B");
        reveal_strlit(" KB");
        reveal_strlit(" MB");
    }
    let b = bytes as u128;
    let out = if b < 1024 {
        let mut out = decimal_chars(b);
        append(&mut out, &chars_of(" B"));
        out
    } else if b < 1024 * 1024 {
        let mut out = tenths(b, 1024);
        append(&mut out, &chars_of(" KB"));
        out
    } else {
        let mut out = tenths(b, 1024 * 1024);
        append(&mut out, &chars_of(" MB"));
        out
    };
    string_of(&out)
}

} // verus!
