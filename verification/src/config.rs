//! `~/.config/binman/config`, a file of `KEY=value` lines.
//!
//! ```text
//! HTTP_FILES  = /path/to/collections
//! TIMEOUT     = 30s
//! CLIENT_CERT = /path/to/client.crt
//! CLIENT_KEY  = /path/to/client.key
//! ```
//!
//! Paths are kept as the text the file gives; turning them into paths on
//! disk is for the caller that opens them.

use std::time::Duration;
use vstd::prelude::*;

use crate::app::whole_nanos;
use crate::client::duration_millis;
use crate::decimal::{all_digits, lemma_pow10_add, lemma_rounded_parts, lemma_value_front, padded, rounded, scaled, sum, value};
use crate::error::Error;
use crate::text::{
    append, chars_of, first_at, opt_view, views, lemma_split_once_at, lemma_split_once_none, lines, lines_of, same,
    slice, split_once, split_once_chars, starts_with, starts_with_chars, string_of, trim, trim_chars,
};

verus! {

/// The duration of `nanos` nanoseconds.
pub uninterp spec fn nanos_duration(nanos: u64) -> Duration;

/// `Duration::from_nanos`. The contract names the result, and says what
/// `as_millis` and `as_nanos` read back from it: its whole milliseconds,
/// and the nanoseconds it was made from.
#[verifier::external_body]
fn duration_from_nanos(nanos: u64) -> (r: Duration)
    ensures
        r == nanos_duration(nanos),
        duration_millis(r) == nanos / 1_000_000,
        whole_nanos(r) == nanos,
{
    Duration::from_nanos(nanos)
}

/// Applied when `TIMEOUT` is not set at all: thirty seconds.
pub open spec fn default_timeout_nanos() -> u64 {
    30_000_000_000u64
}

/// Applied when `TIMEOUT` is not set at all: thirty seconds.
pub fn default_timeout() -> (r: Duration)
    ensures
        r == nanos_duration(default_timeout_nanos()),
{
    duration_from_nanos(30_000_000_000)
}

#[derive(Debug, Clone, PartialEq, Eq)]
pub struct Config {
    /// `HTTP_FILES`: the directory every collection is read from.
    pub root: String,
    /// `None` is no timeout at all, which is what a streaming endpoint needs.
    pub timeout: Option<Duration>,
    /// `CLIENT_CERT` and `CLIENT_KEY`. mTLS needs both, so one on its own is
    /// ignored.
    pub client_identity: Option<(String, String)>,
}

pub open spec fn is_digit(c: char) -> bool {
    '0' <= c <= '9'
}

/// A character that can stand in a number: a digit or the decimal point.
pub open spec fn numeric(c: char) -> bool {
    is_digit(c) || c == '.'
}

/// How many characters at the start of `s` are numeric, or are not, as
/// `numbers` asks.
pub open spec fn run(s: Seq<char>, numbers: bool) -> nat
    decreases s.len(),
{
    if s.len() == 0 || numeric(s[0]) != numbers {
        0
    } else {
        1 + run(s.skip(1), numbers)
    }
}

pub open spec fn pow10(n: nat) -> nat
    decreases n,
{
    if n == 0 {
        1
    } else {
        10 * pow10((n - 1) as nat)
    }
}

pub open spec fn digit_value(c: char) -> nat {
    (c as int - '0' as int) as nat
}

/// The number a run of decimal digits writes.
pub open spec fn digits_value(d: Seq<char>) -> nat
    decreases d.len(),
{
    if d.len() == 0 {
        0
    } else {
        digits_value(d.drop_last()) * 10 + digit_value(d.last())
    }
}

/// A number as a float reads one: at least one digit, and no more than one
/// decimal point.
pub open spec fn well_formed_number(s: Seq<char>) -> bool {
    &&& exists|j: int| 0 <= j < s.len() && is_digit(#[trigger] s[j])
    &&& forall|i: int, j: int| 0 <= i < j < s.len() && #[trigger] s[i] == '.' ==> #[trigger] s[j] != '.'
}

/// The digits before the decimal point.
pub open spec fn whole_digits(s: Seq<char>) -> Seq<char> {
    match split_once(s, '.') {
        Some((whole, _)) => whole,
        None => s,
    }
}

/// The digits after the decimal point.
pub open spec fn fraction_digits(s: Seq<char>) -> Seq<char> {
    match split_once(s, '.') {
        Some((_, fraction)) => fraction,
        None => Seq::empty(),
    }
}

/// Nanoseconds per unit.
pub open spec fn unit_nanos(unit: Seq<char>) -> Option<nat> {
    if unit == "ns"@ {
        Some(1)
    } else if unit == "us"@ || unit == "\u{b5}s"@ || unit == "\u{3bc}s"@ {
        Some(1_000)
    } else if unit == "ms"@ {
        Some(1_000_000)
    } else if unit == "s"@ {
        Some(1_000_000_000)
    } else if unit == "m"@ {
        Some(60_000_000_000)
    } else if unit == "h"@ {
        Some(3_600_000_000_000)
    } else {
        None
    }
}

/// One number and its unit, in units of `10^-p` nanoseconds: the digits
/// with the point taken out, times the unit, times ten for each place the
/// fraction is shorter than `p`. Nothing of the fraction is lost.
pub open spec fn term_scaled(number: Seq<char>, scale: nat, p: nat) -> nat {
    let fraction = fraction_digits(number);
    digits_value(whole_digits(number) + fraction) * scale * pow10((p - fraction.len()) as nat)
}

/// What `s` adds up to in units of `10^-p` nanoseconds, read number and
/// unit after number and unit; `None` when a number is missing or
/// malformed, or a unit unknown.
pub open spec fn duration_terms(s: Seq<char>, p: nat) -> Option<nat>
    decreases s.len(),
{
    if s.len() == 0 {
        Some(0)
    } else {
        let n = run(s, true);
        let number = s.take(n as int);
        let rest = s.skip(n as int);
        let u = run(rest, false);
        let unit = rest.take(u as int);
        if n == 0 || !well_formed_number(number) {
            None
        } else {
            match unit_nanos(unit) {
                None => None,
                Some(scale) => {
                    if s.skip((n + u) as int).len() < s.len() {
                        match duration_terms(s.skip((n + u) as int), p) {
                            Some(more) => Some(term_scaled(number, scale, p) + more),
                            None => None,
                        }
                    } else {
                        None
                    }
                }
            }
        }
    }
}

pub open spec fn saturated(n: nat) -> u64 {
    if n > u64::MAX {
        u64::MAX
    } else {
        n as u64
    }
}

/// A duration the way Go's `time.ParseDuration` writes them: `30s`, `1m30s`, `1.5s`, `500ms`, `2h`, or a bare `0`,
/// in nanoseconds. The terms are added up exactly, in units of `10^-n`
/// nanoseconds for a text `n` characters long (no fraction in it is
/// longer), and the sum is rounded once to the nearest nanosecond, a half
/// up, and held to what a `u64` holds.
pub open spec fn duration_nanos(text: Seq<char>) -> Option<u64> {
    let t = trim(text);
    if t == "0"@ {
        Some(0)
    } else if t.len() == 0 {
        None
    } else {
        match duration_terms(t, t.len()) {
            Some(n) => Some(saturated(rounded(n, t.len()))),
            None => None,
        }
    }
}

/// Reads a duration the way Go's `time.ParseDuration` does: `30s`, `1m30s`, `1.5s`, `500ms`, `2h`, or a bare `0`.
/// The terms are added up exactly and the sum rounded once to the nearest
/// nanosecond, so `1.5ns` is two; a sum past what a `u64` of nanoseconds
/// holds stops there.
pub fn parse_duration(text: &str) -> (r: Option<Duration>)
    ensures
        match duration_nanos(text@) {
            Some(n) => r == Some(nanos_duration(n)),
            None => r is None,
        },
{
    match duration_nanos_of(&chars_of(text)) {
        Some(n) => Some(duration_from_nanos(n)),
        None => None,
    }
}

fn duration_nanos_of(text: &Vec<char>) -> (r: Option<u64>)
    ensures
        r == duration_nanos(text@),
{
    let t = trim_chars(text);
    proof {
        reveal_strlit("0");
    }
    if same(&t, &chars_of("0")) {
        return Some(0);
    }
    if t.len() == 0 {
        return None;
    }
    let p = t.len();
    let mut total: Vec<u8> = padded(&Vec::new(), p);
    let ghost mut exact: nat = 0;
    let mut i: usize = 0;
    assert(t@.skip(0) == t@);
    while i < t.len()
        invariant
            i <= t@.len(),
            p == t@.len(),
            t@ == trim(text@),
            t@ != "0"@,
            t@.len() > 0,
            all_digits(total@),
            total@.len() >= p,
            value(total@) == exact,
            duration_terms(t@, p as nat) == match duration_terms(t@.skip(i as int), p as nat) {
                Some(more) => Some(exact + more),
                None => None,
            },
        decreases t@.len() - i,
    {
        let ghost s = t@.skip(i as int);
        let n = run_at(&t, i, true);
        if n == 0 {
            assert(duration_terms(s, p as nat) is None);
            assert(duration_terms(t@, p as nat) is None);
            assert(t@ == trim(text@));
            return None;
        }
        let number = slice(&t, i, i + n);
        let u = run_at(&t, i + n, false);
        proof {
            lemma_run(s, true);
        }
        assert(number@ == s.take(n as int));
        assert(t@.skip(i + n) == s.skip(n as int));
        assert(t@.skip(i + n).take(u as int) == s.skip(n as int).take(u as int));
        let unit = slice(&t, i + n, i + n + u);
        assert(unit@ == s.skip(n as int).take(u as int));
        let (c, e) = match unit_parts(&unit) {
            Some(parts) => parts,
            None => {
                assert(duration_terms(s, p as nat) is None);
                assert(duration_terms(t@, p as nat) is None);
                assert(t@ == trim(text@));
                return None;
            },
        };
        let term = match number_term(&number, c, e, p) {
            Some(term) => term,
            None => {
                assert(duration_terms(s, p as nat) is None);
                assert(duration_terms(t@, p as nat) is None);
                assert(t@ == trim(text@));
                return None;
            },
        };
        assert(t@.skip(i + n + u) == s.skip((n + u) as int));
        proof {
            exact = exact + term_scaled(number@, (c as nat) * pow10(e as nat), p as nat);
        }
        total = sum(&total, &term);
        i = i + n + u;
    }
    assert(t@.skip(i as int) =~= Seq::<char>::empty());
    Some(rounded_nanos(&total, p))
}

/// The digits divided by `10^p`, rounded to the nearest whole, a half up,
/// and held to what a `u64` holds.
fn rounded_nanos(digits: &Vec<u8>, p: usize) -> (r: u64)
    requires
        all_digits(digits@),
        p <= digits@.len(),
    ensures
        r == saturated(rounded(value(digits@), p as nat)),
{
    let mut v: u64 = 0;
    let mut j: usize = digits.len();
    assert(digits@.skip(j as int) =~= Seq::<u8>::empty());
    assert(value(digits@.skip(j as int)) == 0);
    while j > p
        invariant
            p <= j <= digits@.len(),
            all_digits(digits@),
            v == saturated(value(digits@.skip(j as int))),
        decreases j,
    {
        j -= 1;
        let d = digits[j];
        proof {
            let s = digits@.skip(j as int);
            lemma_value_front(s);
            assert(s.skip(1) =~= digits@.skip(j + 1));
            assert(s[0] == d);
            assert(d < 10);
            let above = value(digits@.skip(j + 1));
            lemma_saturated_product(above, 10);
            lemma_saturated_sum(above * 10, d as nat);
            assert(saturated(d as nat) == d);
        }
        v = saturating_add(saturating_mul(v, 10), d as u64);
    }
    let bump: u64 = if p >= 1 && digits[p - 1] >= 5 { 1 } else { 0 };
    proof {
        lemma_rounded_parts(digits@, p as int);
        lemma_saturated_sum(value(digits@.skip(p as int)), bump as nat);
        assert(saturated(bump as nat) == bump);
    }
    saturating_add(v, bump)
}

proof fn lemma_run(s: Seq<char>, numbers: bool)
    ensures
        run(s, numbers) <= s.len(),
        forall|j: int| 0 <= j < run(s, numbers) ==> numeric(#[trigger] s[j]) == numbers,
    decreases s.len(),
{
    if s.len() > 0 && numeric(s[0]) == numbers {
        lemma_run(s.skip(1), numbers);
        assert forall|j: int| 0 <= j < run(s, numbers) implies numeric(#[trigger] s[j]) == numbers by {
            if j > 0 {
                assert(s[j] == s.skip(1)[j - 1]);
            }
        }
    }
}

/// The length of the run at `from` of characters that are numeric, or are
/// not, as `numbers` asks.
fn run_at(t: &Vec<char>, from: usize, numbers: bool) -> (r: usize)
    requires
        from <= t@.len(),
    ensures
        r == run(t@.skip(from as int), numbers),
        from + r <= t@.len(),
{
    let mut k = from;
    while k < t.len() && (('0' <= t[k] && t[k] <= '9') || t[k] == '.') == numbers
        invariant
            from <= k <= t@.len(),
            run(t@.skip(from as int), numbers) == (k - from) + run(t@.skip(k as int), numbers),
        decreases t@.len() - k,
    {
        assert(t@.skip(k as int).skip(1) == t@.skip(k + 1));
        k += 1;
    }
    k - from
}

/// A unit's nanoseconds as `c · 10^e`.
fn unit_parts(unit: &Vec<char>) -> (r: Option<(u64, usize)>)
    ensures
        match unit_nanos(unit@) {
            Some(scale) => r matches Some((c, e)) && 1 <= c <= 36 && e <= 11 && scale == c * pow10(e as nat),
            None => r is None,
        },
{
    proof {
        reveal_strlit("ns");
        reveal_strlit("us");
        reveal_strlit("\u{b5}s");
        reveal_strlit("\u{3bc}s");
        reveal_strlit("ms");
        reveal_strlit("s");
        reveal_strlit("m");
        reveal_strlit("h");
        reveal_with_fuel(pow10, 12);
    }
    if same(unit, &chars_of("ns")) {
        Some((1, 0))
    } else if same(unit, &chars_of("us")) || same(unit, &chars_of("\u{b5}s")) || same(unit, &chars_of("\u{3bc}s")) {
        Some((1, 3))
    } else if same(unit, &chars_of("ms")) {
        Some((1, 6))
    } else if same(unit, &chars_of("s")) {
        Some((1, 9))
    } else if same(unit, &chars_of("m")) {
        Some((6, 10))
    } else if same(unit, &chars_of("h")) {
        Some((36, 11))
    } else {
        None
    }
}

fn saturating_add(a: u64, b: u64) -> (r: u64)
    ensures
        r == if a + b > u64::MAX { u64::MAX as int } else { a + b },
{
    match a.checked_add(b) {
        Some(sum) => sum,
        None => u64::MAX,
    }
}

fn saturating_mul(a: u64, b: u64) -> (r: u64)
    ensures
        r == if a * b > u64::MAX { u64::MAX as int } else { a * b },
{
    match a.checked_mul(b) {
        Some(product) => product,
        None => u64::MAX,
    }
}

/// `number` at `c · 10^e` nanoseconds per unit, in units of `10^-p`
/// nanoseconds; `None` when it is not a number.
fn number_term(number: &Vec<char>, c: u64, e: usize, p: usize) -> (r: Option<Vec<u8>>)
    requires
        1 <= c <= 36,
        e <= 11,
        number@.len() <= p,
        forall|j: int| 0 <= j < number@.len() ==> numeric(#[trigger] number@[j]),
    ensures
        match r {
            Some(digits) => well_formed_number(number@) && all_digits(digits@) && p <= digits@.len()
                && value(digits@) == term_scaled(number@, (c as nat) * pow10(e as nat), p as nat),
            None => !well_formed_number(number@),
        },
{
    let mut seen_dot = false;
    let mut any_digit = false;
    let mut k: usize = 0;
    while k < number.len()
        invariant
            k <= number@.len(),
            seen_dot == exists|j: int| 0 <= j < k && #[trigger] number@[j] == '.',
            any_digit == exists|j: int| 0 <= j < k && is_digit(#[trigger] number@[j]),
            forall|i: int, j: int| 0 <= i < j < k && #[trigger] number@[i] == '.' ==> #[trigger] number@[j] != '.',
        decreases number@.len() - k,
    {
        if number[k] == '.' {
            if seen_dot {
                assert(!well_formed_number(number@));
                return None;
            }
            seen_dot = true;
        }
        if '0' <= number[k] && number[k] <= '9' {
            any_digit = true;
        }
        k += 1;
    }
    if !any_digit {
        return None;
    }
    assert(well_formed_number(number@));
    let (whole, fraction) = match split_once_chars(number, '.') {
        Some((whole, fraction)) => (whole, fraction),
        None => (slice(number, 0, number.len()), Vec::new()),
    };
    assert(number@.subrange(0, number@.len() as int) == number@);
    assert(whole@ == whole_digits(number@));
    assert(fraction@ == fraction_digits(number@));
    proof {
        lemma_parts_are_digits(number@);
        lemma_parts_length(number@);
    }
    let digits = scaled(&whole, &fraction, c, p - fraction.len(), e);
    proof {
        let k = fraction@.len();
        let a = digits_value(whole@ + fraction@);
        lemma_pow10_add(e as nat, (p - k) as nat);
        assert((p - k + e) as nat == (e + (p - k)) as nat);
        let pe = pow10(e as nat);
        let pk = pow10((p - k) as nat);
        assert(a * (pe * pk) * c == a * (c * pe) * pk) by (nonlinear_arith);
    }
    Some(digits)
}

/// The whole and the fraction of a number are no longer than it.
proof fn lemma_parts_length(s: Seq<char>)
    ensures
        whole_digits(s).len() + fraction_digits(s).len() <= s.len(),
{
    if exists|i: int| first_at(s, '.', i) {
        let i = choose|i: int| first_at(s, '.', i);
        lemma_split_once_at(s, '.', i);
    }
}

proof fn lemma_first_exists(s: Seq<char>, c: char, j: int)
    requires
        0 <= j < s.len(),
        s[j] == c,
    ensures
        exists|i: int| first_at(s, c, i),
    decreases j,
{
    if exists|k: int| 0 <= k < j && s[k] == c {
        let k = choose|k: int| 0 <= k < j && s[k] == c;
        lemma_first_exists(s, c, k);
    } else {
        assert(first_at(s, c, j));
    }
}

proof fn lemma_parts_are_digits(s: Seq<char>)
    requires
        well_formed_number(s),
        forall|j: int| 0 <= j < s.len() ==> numeric(#[trigger] s[j]),
    ensures
        forall|j: int| 0 <= j < whole_digits(s).len() ==> is_digit(#[trigger] whole_digits(s)[j]),
        forall|j: int| 0 <= j < fraction_digits(s).len() ==> is_digit(#[trigger] fraction_digits(s)[j]),
{
    if exists|i: int| first_at(s, '.', i) {
        let i = choose|i: int| first_at(s, '.', i);
        lemma_split_once_at(s, '.', i);
        assert forall|j: int| 0 <= j < fraction_digits(s).len() implies is_digit(#[trigger] fraction_digits(s)[j]) by {
            assert(fraction_digits(s)[j] == s[i + 1 + j]);
            assert(s[i] == '.');
        }
        assert forall|j: int| 0 <= j < whole_digits(s).len() implies is_digit(#[trigger] whole_digits(s)[j]) by {
            assert(whole_digits(s)[j] == s[j]);
        }
    } else {
        assert forall|j: int| 0 <= j < s.len() implies s[j] != '.' by {
            if s[j] == '.' {
                lemma_first_exists(s, '.', j);
            }
        }
        lemma_split_once_none(s, '.');
    }
}

proof fn lemma_saturated_product(x: nat, scale: nat)
    requires
        1 <= scale <= u64::MAX,
    ensures
        saturated(x * scale) == if saturated(x) * scale > u64::MAX { u64::MAX as int } else { saturated(x) * scale },
{
    if x > u64::MAX {
        assert(x * scale >= x) by (nonlinear_arith)
            requires scale >= 1;
        assert(u64::MAX * scale >= u64::MAX) by (nonlinear_arith)
            requires scale >= 1;
    }
}

proof fn lemma_saturated_sum(a: nat, b: nat)
    ensures
        saturated(a + b) == if saturated(a) + saturated(b) > u64::MAX { u64::MAX as int } else { saturated(a) + saturated(b) },
{
}

pub proof fn lemma_front_digit(d: Seq<char>)
    requires
        d.len() > 0,
    ensures
        digits_value(d) == digit_value(d[0]) * pow10((d.len() - 1) as nat) + digits_value(d.skip(1)),
    decreases d.len(),
{
    if d.len() == 1 {
        assert(d.drop_last() =~= Seq::<char>::empty());
        assert(d.skip(1) =~= Seq::<char>::empty());
        assert(digits_value(d) == digits_value(d.drop_last()) * 10 + digit_value(d.last()));
        assert(d.last() == d[0]);
        assert(pow10(0) == 1);
        assert(digits_value(Seq::<char>::empty()) == 0);
        assert(digits_value(d.skip(1)) == 0);
        assert(digits_value(d.drop_last()) == 0);
        assert(digits_value(d) == digit_value(d[0]));
        let p0 = pow10((d.len() - 1) as nat);
        assert(p0 == 1);
        let x = digit_value(d[0]);
        assert(x * p0 == x) by (nonlinear_arith)
            requires p0 == 1;
    } else {
        let m = (d.len() - 1) as nat;
        let dl = d.drop_last();
        lemma_front_digit(dl);
        assert(dl.skip(1) == d.skip(1).drop_last());
        assert(d.skip(1).last() == d.last());
        assert(dl[0] == d[0]);
        let a = digit_value(d[0]);
        let p = pow10((m - 1) as nat);
        let rest = digits_value(dl.skip(1));
        let z = digit_value(d.last());
        assert(digits_value(d) == digits_value(dl) * 10 + z);
        assert(digits_value(dl) == a * p + rest);
        assert(digits_value(d.skip(1)) == rest * 10 + z);
        assert(pow10(m) == 10 * p);
        assert((a * p + rest) * 10 + z == a * (10 * p) + (rest * 10 + z)) by (nonlinear_arith);
        assert(digits_value(d) == a * pow10(m) + digits_value(d.skip(1)));
    }
}

/// What the lines read so far say: each key's value, the timeout in
/// nanoseconds (`None` for none at all), and the value of a `TIMEOUT` that
/// is not a duration, which stops the reading.
pub struct ConfigRead {
    pub root: Option<Seq<char>>,
    pub timeout: Option<u64>,
    pub cert: Option<Seq<char>>,
    pub key: Option<Seq<char>>,
    pub bad_timeout: Option<Seq<char>>,
}

/// What one line does. Blank lines, `#` comments, lines without `=`, empty
/// values and unknown keys change nothing.
pub open spec fn read_line(st: ConfigRead, raw: Seq<char>) -> ConfigRead {
    let line = trim(raw);
    if st.bad_timeout is Some || line.len() == 0 || starts_with(line, "#"@) {
        st
    } else {
        match split_once(line, '=') {
            None => st,
            Some((name, value)) => {
                let value = trim(value);
                let name = trim(name);
                if value.len() == 0 {
                    st
                } else if name == "HTTP_FILES"@ {
                    ConfigRead { root: Some(value), ..st }
                } else if name == "TIMEOUT"@ {
                    match duration_nanos(value) {
                        Some(n) => ConfigRead { timeout: if n == 0 { None } else { Some(n) }, ..st },
                        None => ConfigRead { bad_timeout: Some(value), ..st },
                    }
                } else if name == "CLIENT_CERT"@ {
                    ConfigRead { cert: Some(value), ..st }
                } else if name == "CLIENT_KEY"@ {
                    ConfigRead { key: Some(value), ..st }
                } else {
                    st
                }
            }
        }
    }
}

pub open spec fn read_lines(lines: Seq<Seq<char>>) -> ConfigRead
    decreases lines.len(),
{
    if lines.len() == 0 {
        ConfigRead { root: None, timeout: Some(default_timeout_nanos()), cert: None, key: None, bad_timeout: None }
    } else {
        read_line(read_lines(lines.drop_last()), lines.last())
    }
}

/// What a `TIMEOUT` that is not a duration is answered with.
pub open spec fn bad_timeout_message(value: Seq<char>, origin: Seq<char>) -> Seq<char> {
    "TIMEOUT = "@ + value + " in "@ + origin + " is not a duration \u{2014} write it as 30s, 2m or 1m30s"@
}

/// What a file without `HTTP_FILES` is answered with: where to add it.
pub open spec fn missing_root_message(origin: Seq<char>) -> Seq<char> {
    "HTTP_FILES is not set \u{2014} add `HTTP_FILES = /path/to/collections` to "@ + origin
}

impl Config {
    /// Reads the config file's text. `origin` is only for the messages: a
    /// missing `HTTP_FILES` should say which file it is missing from.
    pub fn parse(text: &str, origin: &str) -> (r: Result<Config, Error>)
        ensures
            ({
                let st = read_lines(lines(text@));
                match r {
                    Ok(config) => {
                        &&& st.bad_timeout is None
                        &&& st.root == Some(config.root@)
                        &&& config.timeout == match st.timeout {
                            Some(n) => Some(nanos_duration(n)),
                            None => None,
                        }
                        &&& match config.client_identity {
                            Some((cert, key)) => st.cert == Some(cert@) && st.key == Some(key@),
                            None => st.cert is None || st.key is None,
                        }
                    },
                    Err(error) => error matches Error::Config(message) && message@ == match st.bad_timeout {
                        Some(value) => bad_timeout_message(value, origin@),
                        None => missing_root_message(origin@),
                    } && (st.bad_timeout is Some || st.root is None),
                }
            }),
    {
        let all = lines_of(&chars_of(text));
        let ghost seen = views(all@);
        let mut root: Option<Vec<char>> = None;
        let mut timeout: Option<u64> = Some(30_000_000_000);
        let mut cert: Option<Vec<char>> = None;
        let mut key: Option<Vec<char>> = None;
        let mut i: usize = 0;
        while i < all.len()
            invariant
                i <= all@.len(),
                seen == views(all@),
                seen == lines(text@),
                read_lines(seen.take(i as int)) == (ConfigRead {
                    root: opt_view(root),
                    timeout: timeout,
                    cert: opt_view(cert),
                    key: opt_view(key),
                    bad_timeout: None,
                }),
            decreases all@.len() - i,
        {
            assert(seen.take(i + 1).drop_last() == seen.take(i as int));
            assert(seen.take(i + 1).last() == all@[i as int]@);
            let line = trim_chars(&all[i]);
            i += 1;
            proof {
                reveal_strlit("#");
            }
            if line.len() == 0 || starts_with_chars(&line, &chars_of("#")) {
                continue;
            }
            let (name, value) = match split_once_chars(&line, '=') {
                Some((name, value)) => (trim_chars(&name), trim_chars(&value)),
                None => continue,
            };
            if value.len() == 0 {
                continue;
            }
            proof {
                reveal_strlit("HTTP_FILES");
                reveal_strlit("TIMEOUT");
                reveal_strlit("CLIENT_CERT");
                reveal_strlit("CLIENT_KEY");
            }
            if same(&name, &chars_of("HTTP_FILES")) {
                root = Some(value);
            } else if same(&name, &chars_of("TIMEOUT")) {
                match duration_nanos_of(&value) {
                    Some(n) => {
                        timeout = if n == 0 { None } else { Some(n) };
                    },
                    None => {
                        let ghost st = read_lines(seen.take(i as int));
                        proof {
                            lemma_stays_bad(seen, i as int);
                        }
                        let mut message = chars_of("TIMEOUT = ");
                        append(&mut message, &value);
                        append(&mut message, &chars_of(" in "));
                        append(&mut message, &chars_of(origin));
                        append(&mut message, &chars_of(" is not a duration \u{2014} write it as 30s, 2m or 1m30s"));
                        return Err(Error::Config(string_of(&message)));
                    },
                }
            } else if same(&name, &chars_of("CLIENT_CERT")) {
                cert = Some(value);
            } else if same(&name, &chars_of("CLIENT_KEY")) {
                key = Some(value);
            }
        }
        assert(seen.take(seen.len() as int) == seen);
        let root = match root {
            Some(root) => string_of(&root),
            None => {
                let mut message = chars_of("HTTP_FILES is not set \u{2014} add `HTTP_FILES = /path/to/collections` to ");
                append(&mut message, &chars_of(origin));
                return Err(Error::Config(string_of(&message)));
            },
        };
        let timeout = match timeout {
            Some(n) => Some(duration_from_nanos(n)),
            None => None,
        };
        let client_identity = match (cert, key) {
            (Some(cert), Some(key)) => Some((string_of(&cert), string_of(&key))),
            _ => None,
        };
        Ok(Config { root, timeout, client_identity })
    }
}

/// Once a `TIMEOUT` has failed to read, the lines after it change nothing.
proof fn lemma_stays_bad(lines: Seq<Seq<char>>, n: int)
    requires
        0 <= n <= lines.len(),
        read_lines(lines.take(n)).bad_timeout is Some,
    ensures
        read_lines(lines) == read_lines(lines.take(n)),
    decreases lines.len() - n,
{
    if n < lines.len() {
        assert(lines.take(n + 1).drop_last() == lines.take(n));
        lemma_stays_bad(lines, n + 1);
    } else {
        assert(lines.take(n) == lines);
    }
}

} // verus!
