//! What goes out and what comes back: a request as sent, the response, the
//! timings of one exchange, and the pieces of a stream.
//!
//! Sending itself is the front end's: it holds the connection, the cookie
//! jar and the clock.

use std::time::Duration;
use vstd::prelude::*;

use crate::encoding::{lossy_utf8, utf8_lossy};
use crate::request::{header, header_value};
use crate::text::{
    append, chars_of, decimal, decimal_chars, lower, lower_chars, starts_with, starts_with_chars, string_of, trim_start,
    trim_start_chars,
};
use crate::varmap::pair_views;

verus! {

/// A request with every variable resolved and its body encoded: exactly what
/// goes on the wire.
#[derive(Debug, Clone, Default, PartialEq, Eq)]
pub struct Prepared {
    pub method: String,
    pub url: String,
    pub headers: Vec<(String, String)>,
    pub body: Vec<u8>,
}

#[derive(Debug, Clone)]
pub struct Exchange {
    pub status: u16,
    pub reason: String,
    pub version: String,
    /// Where the response came from, after any redirects.
    pub url: String,
    pub headers: Vec<(String, String)>,
    pub body: Vec<u8>,
    /// What this response asked to be stored.
    pub set_cookies: Vec<SetCookie>,
    /// What the jar now holds for this host, and will send next time.
    pub jar: Vec<(String, String)>,
    pub trace: Trace,
    /// Arrived as server-sent events, a piece at a time.
    pub streamed: bool,
}

impl Exchange {
    /// The body as text, an invalid UTF-8 sequence read as U+FFFD.
    pub fn text(&self) -> (r: String)
        ensures
            r@ == lossy_utf8(self.body@),
    {
        utf8_lossy(self.body.as_slice())
    }

    /// A response header, in any case.
    pub fn header(&self, name: &str) -> (r: Option<&str>)
        ensures
            match r {
                Some(v) => header_value(pair_views(self.headers@), name@) == Some(v@),
                None => header_value(pair_views(self.headers@), name@) is None,
            },
    {
        header(self.headers.as_slice(), name)
    }
}

/// How long each phase of one send took.
#[derive(Debug, Clone, Copy, Default, PartialEq, Eq)]
pub struct Trace {
    /// `None` when there was nothing to resolve, as for an IP address.
    pub dns: Option<Duration>,
    /// The TCP connection and, for HTTPS, the TLS handshake on top of it. The
    /// HTTP library makes those one step, so they are timed as one.
    pub connect: Option<Duration>,
    /// From sending to the response's headers.
    pub first_byte: Duration,
    pub total: Duration,
}

#[derive(Debug, Clone, PartialEq, Eq)]
pub struct SetCookie {
    pub name: String,
    pub value: String,
    pub attributes: Vec<String>,
}

/// `bytes` holds `pattern` at `at`.
pub open spec fn bytes_at(bytes: Seq<u8>, pattern: Seq<u8>, at: int) -> bool {
    0 <= at && at + pattern.len() <= bytes.len() && bytes.subrange(at, at + pattern.len()) == pattern
}

/// Where `pattern` first occurs in `bytes`, if it does.
pub open spec fn first_bytes_at(bytes: Seq<u8>, pattern: Seq<u8>) -> Option<int> {
    if exists|at: int| bytes_at(bytes, pattern, at) {
        Some(choose|at: int| bytes_at(bytes, pattern, at) && forall|k: int| 0 <= k < at ==> !#[trigger] bytes_at(bytes, pattern, k))
    } else {
        None
    }
}

/// Where the first complete event in `bytes` ends: after the blank line
/// that closes it, `\n\n` or `\r\n\r\n`, whichever ends first.
#[verifier::opaque]
pub open spec fn event_end_of(bytes: Seq<u8>) -> Option<int> {
    let lf = match first_bytes_at(bytes, seq![10u8, 10u8]) {
        Some(at) => Some(at + 2),
        None => None,
    };
    let crlf = match first_bytes_at(bytes, seq![13u8, 10u8, 13u8, 10u8]) {
        Some(at) => Some(at + 4),
        None => None,
    };
    match (lf, crlf) {
        (Some(a), Some(b)) => Some(if a < b { a } else { b }),
        (Some(a), None) => Some(a),
        (None, b) => b,
    }
}

fn find_bytes(bytes: &[u8], pattern: &[u8]) -> (r: Option<usize>)
    requires
        pattern@.len() > 0,
    ensures
        match r {
            Some(at) => first_bytes_at(bytes@, pattern@) == Some(at as int) && at + pattern@.len() <= bytes@.len(),
            None => first_bytes_at(bytes@, pattern@) is None,
        },
{
    let n = bytes.len();
    let m = pattern.len();
    if m > n {
        assert forall|at: int| !bytes_at(bytes@, pattern@, at) by {}
        return None;
    }
    let mut at: usize = 0;
    while at <= n - m
        invariant
            n == bytes@.len(),
            m == pattern@.len(),
            m > 0,
            m <= n,
            at <= n - m + 1,
            forall|k: int| 0 <= k < at ==> !#[trigger] bytes_at(bytes@, pattern@, k),
        decreases n - at,
    {
        let mut j: usize = 0;
        while j < m && bytes[at + j] == pattern[j]
            invariant
                at + m <= n,
                n == bytes@.len(),
                m == pattern@.len(),
                j <= m,
                forall|i: int| 0 <= i < j ==> bytes@[at + i] == pattern@[i],
            decreases m - j,
        {
            j += 1;
        }
        if j == m {
            assert(bytes@.subrange(at as int, at + m) =~= pattern@);
            assert(bytes_at(bytes@, pattern@, at as int));
            proof {
                let w = choose|w: int| bytes_at(bytes@, pattern@, w) && forall|k: int| 0 <= k < w ==> !#[trigger] bytes_at(bytes@, pattern@, k);
                assert(bytes_at(bytes@, pattern@, w));
                if w < at {
                    assert(!bytes_at(bytes@, pattern@, w));
                }
                if w > at {
                    assert(!bytes_at(bytes@, pattern@, at as int));
                }
            }
            return Some(at);
        }
        assert(bytes@.subrange(at as int, at + m)[j as int] != pattern@[j as int]);
        at += 1;
    }
    assert forall|k: int| !bytes_at(bytes@, pattern@, k) by {
        if 0 <= k && k + m <= n {
            assert(k < at);
        }
    }
    None
}

/// Where the first complete event in `bytes` ends: after the blank line that
/// closes it.
#[verifier::rlimit(40)]
pub fn event_end(bytes: &[u8]) -> (r: Option<usize>)
    ensures
        match r {
            Some(end) => event_end_of(bytes@) == Some(end as int) && 2 <= end <= bytes@.len(),
            None => event_end_of(bytes@) is None,
        },
{
    reveal(event_end_of);
    let n = bytes.len();
    let lf_pattern: [u8; 2] = [10, 10];
    let crlf_pattern: [u8; 4] = [13, 10, 13, 10];
    assert(lf_pattern@ == seq![10u8, 10u8]);
    assert(crlf_pattern@ == seq![13u8, 10u8, 13u8, 10u8]);
    let lf = match find_bytes(bytes, &lf_pattern) {
        Some(at) => Some(at + 2),
        None => None,
    };
    let crlf = match find_bytes(bytes, &crlf_pattern) {
        Some(at) => Some(at + 4),
        None => None,
    };
    match lf {
        Some(a) => match crlf {
            Some(b) => Some(if a < b { a } else { b }),
            None => Some(a),
        },
        None => crlf,
    }
}

/// A response is a stream of server-sent events when its `Content-Type`,
/// read without regard to case or the space in front, starts with
/// `text/event-stream`.
pub open spec fn event_stream(headers: Seq<(Seq<char>, Seq<char>)>) -> bool {
    match header_value(headers, "content-type"@) {
        Some(value) => starts_with(lower(trim_start(value)), "text/event-stream"@),
        None => false,
    }
}

/// Whether the response's headers announce a stream of server-sent events.
pub fn is_event_stream(headers: &[(String, String)]) -> (r: bool)
    ensures
        r == event_stream(pair_views(headers@)),
{
    match header(headers, "content-type") {
        Some(value) => {
            let read = lower_chars(&trim_start_chars(&chars_of(value)));
            starts_with_chars(&read, &chars_of("text/event-stream"))
        },
        None => false,
    }
}

/// The complete events at the front of `pending`, each with the blank line
/// that closes it, and what is left after them.
pub open spec fn events_of(pending: Seq<u8>) -> (Seq<Seq<u8>>, Seq<u8>)
    decreases pending.len(),
{
    match event_end_of(pending) {
        Some(end) => if 0 < end <= pending.len() {
            let more = events_of(pending.skip(end));
            (seq![pending.take(end)] + more.0, more.1)
        } else {
            (Seq::empty(), pending)
        },
        None => (Seq::empty(), pending),
    }
}

pub open spec fn byte_views(v: Seq<Vec<u8>>) -> Seq<Seq<u8>> {
    v.map_values(|e: Vec<u8>| e@)
}

/// Takes the complete events off the front of what has arrived of a
/// stream, in order, and leaves the part of one still arriving.
pub fn take_events(pending: &mut Vec<u8>) -> (r: Vec<Vec<u8>>)
    ensures
        (byte_views(r@), final(pending)@) == events_of(old(pending)@),
{
    let ghost start = pending@;
    let mut events: Vec<Vec<u8>> = Vec::new();
    loop
        invariant
            events_of(start) == (byte_views(events@) + events_of(pending@).0, events_of(pending@).1),
        ensures
            events_of(start) == (byte_views(events@), pending@),
        decreases pending@.len(),
    {
        let end = match event_end(pending.as_slice()) {
            Some(end) => end,
            None => {
                assert(events_of(pending@) == (Seq::<Seq<u8>>::empty(), pending@));
                assert(byte_views(events@) + Seq::<Seq<u8>>::empty() =~= byte_views(events@));
                break;
            },
        };
        let mut event: Vec<u8> = Vec::new();
        let mut rest: Vec<u8> = Vec::new();
        let mut i: usize = 0;
        while i < pending.len()
            invariant
                end <= pending@.len(),
                i <= pending@.len(),
                event@ == pending@.take(if i < end { i as int } else { end as int }),
                rest@ == if i < end { Seq::<u8>::empty() } else { pending@.subrange(end as int, i as int) },
            decreases pending@.len() - i,
        {
            if i < end {
                event.push(pending[i]);
                assert(pending@.take(i + 1) =~= pending@.take(i as int).push(pending@[i as int]));
            } else {
                rest.push(pending[i]);
                assert(pending@.subrange(end as int, i + 1) =~= pending@.subrange(end as int, i as int).push(pending@[i as int]));
            }
            i += 1;
        }
        assert(rest@ =~= pending@.skip(end as int));
        let ghost before = pending@;
        let ghost done = byte_views(events@);
        events.push(event);
        assert(byte_views(events@) =~= done.push(before.take(end as int)));
        *pending = rest;
        assert(events_of(before).0 =~= seq![before.take(end as int)] + events_of(pending@).0);
        assert(done + events_of(before).0 =~= byte_views(events@) + events_of(pending@).0);
    }
    events
}

/// The whole milliseconds in a duration.
pub uninterp spec fn duration_millis(duration: Duration) -> nat;

/// `Duration::as_millis`. The contract only names the result.
#[verifier::external_body]
fn millis_in(duration: Duration) -> (r: u128)
    ensures
        r == duration_millis(duration),
{
    duration.as_millis()
}

/// A timeout as a person writes it: whole minutes as `2m`, whole seconds as
/// `30s`, anything finer in milliseconds.
pub open spec fn human_text(millis: nat) -> Seq<char> {
    if millis % 1000 != 0 {
        decimal(millis) + "ms"@
    } else if millis / 1000 >= 60 && (millis / 1000) % 60 == 0 {
        decimal(millis / 60000) + "m"@
    } else {
        decimal(millis / 1000) + "s"@
    }
}

/// A timeout as a person writes it, for the message that says one ran out.
pub fn human(duration: Duration) -> (r: String)
    ensures
        r@ == human_text(duration_millis(duration)),
{
    let millis = millis_in(duration);
    proof {
        reveal_strlit("ms");
        reveal_strlit("m");
        reveal_strlit("s");
    }
    if millis % 1000 != 0 {
        let mut out = decimal_chars(millis);
        append(&mut out, &chars_of("ms"));
        return string_of(&out);
    }
    let seconds = millis / 1000;
    if seconds >= 60 && seconds % 60 == 0 {
        assert(millis / 60000 == seconds / 60) by (nonlinear_arith)
            requires seconds == millis / 1000;
        let mut out = decimal_chars(seconds / 60);
        append(&mut out, &chars_of("m"));
        string_of(&out)
    } else {
        let mut out = decimal_chars(seconds);
        append(&mut out, &chars_of("s"));
        string_of(&out)
    }
}

} // verus!
