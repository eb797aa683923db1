//! The OAuth 2.0 client credentials grant: just enough to fetch a token
//! before sending the request it authorises.
//!
//! The exchange with the token endpoint is the front end's: it sends
//! [`token_form`], hands back what came, and keeps the tokens in a
//! [`TokenCache`], reused until shortly before they expire. A failed fetch
//! is never stored.

use vstd::prelude::*;

use crate::config::{digits_value, is_digit};
use crate::encoding::{form_serialize, form_serialized};
use crate::error::Error;
use crate::text::{append, chars_of, string_of, trim, trim_chars};

verus! {

#[derive(Debug, Clone, PartialEq, Eq, Hash)]
pub struct Grant {
    pub token_url: String,
    pub client_id: String,
    pub client_secret: String,
    pub scope: String,
}

/// A token this close to expiring, in milliseconds, is fetched again, so a
/// request never leaves authorised and arrives expired.
pub const SKEW_MILLIS: u64 = 30000;

/// For a response that does not say how long its token lasts. Without one,
/// an absent `expires_in` would read as zero and every request would fetch
/// anew.
pub const DEFAULT_LIFETIME_SECS: u64 = 3600;

/// The message for a grant that cannot be asked for.
pub open spec fn incomplete_message() -> Seq<char> {
    "a token URL and a client ID are both needed"@
}

/// A grant needs somewhere to go and someone to be.
pub fn check(grant: &Grant) -> (r: Result<(), Error>)
    ensures
        r is Ok <==> (trim(grant.token_url@).len() > 0 && trim(grant.client_id@).len() > 0),
        r matches Err(e) ==> e == Error::OAuth(e->OAuth_0) && e->OAuth_0@ == incomplete_message(),
{
    if trim_chars(&chars_of(grant.token_url.as_str())).len() == 0 || trim_chars(&chars_of(grant.client_id.as_str())).len() == 0 {
        Err(Error::OAuth("a token URL and a client ID are both needed".to_string()))
    } else {
        Ok(())
    }
}

/// The form the grant is posted as: RFC 6749 §4.4.2. An empty scope is
/// not the same as none, since some providers refuse it and others issue a
/// token that can do nothing, so it is left out.
pub open spec fn grant_form(grant: Grant) -> Seq<char> {
    "grant_type=client_credentials&client_id="@ + form_serialized(grant.client_id@) + "&client_secret="@
        + form_serialized(grant.client_secret@) + if grant.scope@.len() == 0 {
        Seq::empty()
    } else {
        "&scope="@ + form_serialized(grant.scope@)
    }
}

/// The form the grant is posted as.
pub fn token_form(grant: &Grant) -> (r: String)
    ensures
        r@ == grant_form(*grant),
{
    let mut form = chars_of("grant_type=client_credentials&client_id=");
    append(&mut form, &chars_of(form_serialize(grant.client_id.as_str()).as_str()));
    append(&mut form, &chars_of("&client_secret="));
    append(&mut form, &chars_of(form_serialize(grant.client_secret.as_str()).as_str()));
    if grant.scope.as_str().is_empty() {
        proof {
            assert(form@ + Seq::<char>::empty() =~= form@);
        }
    } else {
        let ghost before = form@;
        append(&mut form, &chars_of("&scope="));
        append(&mut form, &chars_of(form_serialize(grant.scope.as_str()).as_str()));
        proof {
            assert(form@ =~= before + ("&scope="@ + form_serialized(grant.scope@)));
        }
    }
    string_of(&form)
}

/// How `expires_in` came: a JSON number (as an unsigned integer, when it is
/// one), a string, or anything else.
#[derive(Debug, Clone, PartialEq, Eq)]
pub enum Expiry {
    Number(Option<u64>),
    Text(String),
    Other,
}

/// What a token response holds, as far as binman reads it.
#[derive(Debug, Clone, PartialEq, Eq)]
pub struct TokenResponse {
    pub access_token: Option<String>,
    pub expires_in: Option<Expiry>,
}

/// What follows a leading `+`, or all of `s`.
pub open spec fn unsigned_digits(s: Seq<char>) -> Seq<char> {
    if s.len() > 0 && s[0] == '+' { s.skip(1) } else { s }
}

pub open spec fn all_digits(d: Seq<char>) -> bool {
    forall|i: int| 0 <= i < d.len() ==> is_digit(#[trigger] d[i])
}

/// `s` read as `u64::from_str` reads it: an optional `+`, then digits,
/// and no more than fits.
pub open spec fn parsed_u64(s: Seq<char>) -> Option<u64> {
    let d = unsigned_digits(s);
    if d.len() > 0 && all_digits(d) && digits_value(d) <= u64::MAX {
        Some(digits_value(d) as u64)
    } else {
        None
    }
}

proof fn lemma_digits_grow(d: Seq<char>, k: int)
    requires
        0 <= k <= d.len(),
        forall|i: int| 0 <= i < d.len() ==> is_digit(#[trigger] d[i]),
    ensures
        digits_value(d.take(k)) <= digits_value(d),
    decreases d.len() - k,
{
    if k < d.len() {
        lemma_digits_grow(d, k + 1);
        assert(d.take(k + 1).drop_last() =~= d.take(k));
    } else {
        assert(d.take(k) =~= d);
    }
}

/// `u64::from_str`, digit by digit.
pub(crate) fn parse_u64(s: &Vec<char>) -> (r: Option<u64>)
    ensures
        r == parsed_u64(s@),
{
    let start: usize = if s.len() > 0 && s[0] == '+' { 1 } else { 0 };
    let ghost d = unsigned_digits(s@);
    assert(d =~= s@.skip(start as int));
    if start >= s.len() {
        return None;
    }
    let mut value: u128 = 0;
    let mut i: usize = start;
    while i < s.len()
        invariant
            start <= i <= s@.len(),
            start < s@.len(),
            d =~= s@.skip(start as int),
            d == unsigned_digits(s@),
            forall|j: int| 0 <= j < i - start ==> is_digit(#[trigger] d[j]),
            value == digits_value(d.take(i - start)),
            value <= u64::MAX,
        decreases s@.len() - i,
    {
        let c = s[i];
        assert(d[i - start] == c);
        if !('0' <= c && c <= '9') {
            proof {
                assert(!is_digit(d[i - start]));
                assert(!all_digits(d));
            }
            return None;
        }
        let ghost t = d.take(i - start + 1);
        assert(t.drop_last() =~= d.take(i - start));
        assert(t.last() == c);
        let next = value * 10 + ((c as u32) - 48) as u128;
        assert(digits_value(t) == next);
        if next > u64::MAX as u128 {
            proof {
                assert forall|j: int| 0 <= j < i - start + 1 implies is_digit(#[trigger] d[j]) by {}
                if all_digits(d) {
                    lemma_digits_grow(d, i - start + 1);
                }
            }
            return None;
        }
        value = next;
        i += 1;
    }
    assert(d.take(d.len() as int) =~= d);
    Some(value as u64)
}

/// `expires_in` as seconds: a number, or the string some providers send
/// instead; none for zero.
pub open spec fn expiry_seconds(expiry: Expiry) -> Option<u64> {
    let seconds = match expiry {
        Expiry::Number(n) => n,
        Expiry::Text(text) => parsed_u64(trim(text@)),
        Expiry::Other => None,
    };
    match seconds {
        Some(s) => if s > 0 { Some(s) } else { None },
        None => None,
    }
}

/// `expires_in` as seconds, or none.
pub fn seconds(expiry: &Expiry) -> (r: Option<u64>)
    ensures
        r == expiry_seconds(*expiry),
{
    let seconds = match expiry {
        Expiry::Number(n) => *n,
        Expiry::Text(text) => parse_u64(&trim_chars(&chars_of(text.as_str()))),
        Expiry::Other => None,
    };
    match seconds {
        Some(s) => if s > 0 { Some(s) } else { None },
        None => None,
    }
}

/// The token a response carries and how many seconds it lasts, or why it
/// carries none.
pub open spec fn token_in(response: TokenResponse) -> Result<(Seq<char>, u64), Seq<char>> {
    match response.access_token {
        Some(token) => if token@.len() > 0 {
            Ok((token@, match response.expires_in {
                Some(expiry) => match expiry_seconds(expiry) {
                    Some(s) => s,
                    None => DEFAULT_LIFETIME_SECS,
                },
                None => DEFAULT_LIFETIME_SECS,
            }))
        } else {
            Err("the token response had no access_token"@)
        },
        None => Err("the token response had no access_token"@),
    }
}

/// The token a successful response carries, and how long it lasts.
pub fn token_of(response: &TokenResponse) -> (r: Result<(String, u64), Error>)
    ensures
        match (r, token_in(*response)) {
            (Ok((token, lifetime)), Ok((expected, secs))) => token@ == expected && lifetime == secs,
            (Err(e), Err(why)) => e == Error::OAuth(e->OAuth_0) && e->OAuth_0@ == why,
            _ => false,
        },
{
    let token = match &response.access_token {
        Some(token) => {
            if token.as_str().is_empty() {
                return Err(Error::OAuth("the token response had no access_token".to_string()));
            }
            token.clone()
        },
        None => return Err(Error::OAuth("the token response had no access_token".to_string())),
    };
    let lifetime = match &response.expires_in {
        Some(expiry) => match seconds(expiry) {
            Some(s) => s,
            None => DEFAULT_LIFETIME_SECS,
        },
        None => DEFAULT_LIFETIME_SECS,
    };
    Ok((token, lifetime))
}

/// The error for an endpoint that answered with a failure. The body belongs
/// in the message: `invalid_client` and `invalid_scope` arrive with the
/// same status and want different fixes.
pub fn refused(status: &str, body: &str) -> (r: Error)
    ensures
        r == Error::OAuth(r->OAuth_0),
        r->OAuth_0@ == "the token endpoint answered "@ + status@ + ": "@ + trim(body@),
{
    let mut message = chars_of("the token endpoint answered ");
    append(&mut message, &chars_of(status));
    append(&mut message, &chars_of(": "));
    append(&mut message, &trim_chars(&chars_of(body)));
    Error::OAuth(string_of(&message))
}

/// The error for a response that is not JSON.
pub fn undecodable(reason: &str) -> (r: Error)
    ensures
        r == Error::OAuth(r->OAuth_0),
        r->OAuth_0@ == "could not decode the token response: "@ + reason@,
{
    let mut message = chars_of("could not decode the token response: ");
    append(&mut message, &chars_of(reason));
    Error::OAuth(string_of(&message))
}

/// The error for an endpoint that could not be reached, or whose answer
/// could not be read.
pub fn unreachable_endpoint(reading: bool, reason: &str) -> (r: Error)
    ensures
        r == Error::OAuth(r->OAuth_0),
        r->OAuth_0@ == (if reading { "reading the token response: "@ } else { "reaching the token endpoint: "@ }) + reason@,
{
    let mut message = if reading { chars_of("reading the token response: ") } else { chars_of("reaching the token endpoint: ") };
    append(&mut message, &chars_of(reason));
    Error::OAuth(string_of(&message))
}

/// What a token is kept under: the endpoint, the client and the scope.
pub open spec fn key_of(grant: Grant) -> (Seq<char>, Seq<char>, Seq<char>) {
    (grant.token_url@, grant.client_id@, grant.scope@)
}

/// `a + b`, or the most a `u64` holds.
pub open spec fn capped(n: int) -> u64 {
    if n > u64::MAX { u64::MAX } else { n as u64 }
}

/// Tokens by endpoint, client and scope, with when each expires, in
/// milliseconds on the front end's clock.
pub struct TokenCache {
    entries: Vec<(String, String, String, String, u64)>,
}

pub open spec fn entry_key(entry: (String, String, String, String, u64)) -> (Seq<char>, Seq<char>, Seq<char>) {
    (entry.0@, entry.1@, entry.2@)
}

impl TokenCache {
    /// No key is kept twice.
    #[verifier::type_invariant]
    spec fn keys_once(&self) -> bool {
        keyed_once(self.entries@)
    }

    /// The tokens, each with when it expires.
    pub closed spec fn view(&self) -> Map<(Seq<char>, Seq<char>, Seq<char>), (Seq<char>, u64)> {
        entries_view(self.entries@)
    }

    pub fn new() -> (r: TokenCache)
        ensures
            r.view() == Map::<(Seq<char>, Seq<char>, Seq<char>), (Seq<char>, u64)>::empty(),
    {
        let r = TokenCache { entries: Vec::new() };
        assert(r.view() =~= Map::<(Seq<char>, Seq<char>, Seq<char>), (Seq<char>, u64)>::empty());
        r
    }

    fn position(&self, grant: &Grant) -> (r: Option<usize>)
        ensures
            match r {
                Some(i) => i < self.entries@.len() && entry_key(self.entries@[i as int]) == key_of(*grant),
                None => forall|i: int| 0 <= i < self.entries@.len() ==> entry_key(#[trigger] self.entries@[i]) != key_of(*grant),
            },
    {
        let mut i: usize = 0;
        while i < self.entries.len()
            invariant
                i <= self.entries@.len(),
                forall|j: int| 0 <= j < i ==> entry_key(#[trigger] self.entries@[j]) != key_of(*grant),
            decreases self.entries@.len() - i,
        {
            let entry = &self.entries[i];
            if entry.0 == grant.token_url && entry.1 == grant.client_id && entry.2 == grant.scope {
                return Some(i);
            }
            i += 1;
        }
        None
    }

    /// The token kept for the grant, while it is not within
    /// [`SKEW_MILLIS`] of expiring at `now`.
    pub fn cached(&self, grant: &Grant, now: u64) -> (r: Option<String>)
        ensures
            match r {
                Some(token) => self.view().contains_key(key_of(*grant))
                    && self.view()[key_of(*grant)].0 == token@
                    && capped(now + SKEW_MILLIS) < self.view()[key_of(*grant)].1,
                None => !self.view().contains_key(key_of(*grant))
                    || capped(now + SKEW_MILLIS) >= self.view()[key_of(*grant)].1,
            },
            match r {
                Some(token) => cache_hit(self.view(), key_of(*grant), now) == Some(token@),
                None => cache_hit(self.view(), key_of(*grant), now) is None,
            },
    {
        proof { use_type_invariant(self); }
        match self.position(grant) {
            Some(i) => {
                let (_, _, _, token, expires) = &self.entries[i];
                proof {
                    lemma_only_index(self.entries@, i as int);
                }
                let soon = now.saturating_add(SKEW_MILLIS);
                if soon < *expires {
                    Some(token.clone())
                } else {
                    None
                }
            },
            None => None,
        }
    }

    /// Keeps `token` for the grant, good for `lifetime` seconds from `now`,
    /// in place of any kept before.
    pub fn store(&mut self, grant: &Grant, token: String, now: u64, lifetime: u64)
        ensures
            final(self).view() == old(self).view().insert(key_of(*grant), (token@, capped(now + lifetime * 1000))),
    {
        proof { use_type_invariant(&*self); }
        let total: u128 = now as u128 + lifetime as u128 * 1000;
        let expires: u64 = if total > u64::MAX as u128 { u64::MAX } else { total as u64 };
        let entry = (grant.token_url.clone(), grant.client_id.clone(), grant.scope.clone(), token, expires);
        let ghost before = self.entries@;
        let ghost key = key_of(*grant);
        let ghost value = (entry.3@, expires);
        let found = self.position(grant);
        let mut entries: Vec<(String, String, String, String, u64)> = Vec::new();
        std::mem::swap(&mut entries, &mut self.entries);
        match found {
            Some(i) => {
                proof {
                    lemma_store_at(before, i as int, entry);
                }
                entries.set(i, entry);
            },
            None => {
                proof {
                    lemma_store_new(before, entry);
                }
                entries.push(entry);
            },
        }
        std::mem::swap(&mut entries, &mut self.entries);
        proof {
            assert(entries_view(self.entries@) =~= entries_view(before).insert(key, value));
        }
    }
}

/// Whether no key is kept twice.
pub open spec fn keyed_once(entries: Seq<(String, String, String, String, u64)>) -> bool {
    forall|i: int, j: int| 0 <= i < j < entries.len() ==> entry_key(#[trigger] entries[i]) != entry_key(#[trigger] entries[j])
}

/// The tokens the entries keep, each with when it expires.
pub open spec fn entries_view(entries: Seq<(String, String, String, String, u64)>) -> Map<(Seq<char>, Seq<char>, Seq<char>), (Seq<char>, u64)> {
    Map::new(
        |key: (Seq<char>, Seq<char>, Seq<char>)| exists|i: int| 0 <= i < entries.len() && entry_key(#[trigger] entries[i]) == key,
        |key: (Seq<char>, Seq<char>, Seq<char>)| {
            let i = choose|i: int| 0 <= i < entries.len() && entry_key(#[trigger] entries[i]) == key;
            (entries[i].3@, entries[i].4)
        },
    )
}

proof fn lemma_only_index(entries: Seq<(String, String, String, String, u64)>, j: int)
    requires
        keyed_once(entries),
        0 <= j < entries.len(),
    ensures
        entries_view(entries).contains_key(entry_key(entries[j])),
        entries_view(entries)[entry_key(entries[j])] == (entries[j].3@, entries[j].4),
{
    let key = entry_key(entries[j]);
    let i = choose|i: int| 0 <= i < entries.len() && entry_key(#[trigger] entries[i]) == key;
    if i != j {
        if i < j {
            assert(entry_key(entries[i]) != entry_key(entries[j]));
        } else {
            assert(entry_key(entries[j]) != entry_key(entries[i]));
        }
    }
}

proof fn lemma_store_at(before: Seq<(String, String, String, String, u64)>, i: int, entry: (String, String, String, String, u64))
    requires
        keyed_once(before),
        0 <= i < before.len(),
        entry_key(before[i]) == entry_key(entry),
    ensures
        keyed_once(before.update(i, entry)),
        entries_view(before.update(i, entry)) == entries_view(before).insert(entry_key(entry), (entry.3@, entry.4)),
{
    let after = before.update(i, entry);
    assert forall|a: int, b: int| 0 <= a < b < after.len() implies entry_key(#[trigger] after[a]) != entry_key(#[trigger] after[b]) by {
        assert(entry_key(after[a]) == entry_key(before[a]));
        assert(entry_key(after[b]) == entry_key(before[b]));
    }
    let key = entry_key(entry);
    assert forall|k: (Seq<char>, Seq<char>, Seq<char>)| #[trigger] entries_view(after).contains_key(k) == entries_view(before).insert(key, (entry.3@, entry.4)).contains_key(k) by {
        if entries_view(before).contains_key(k) {
            let j = choose|j: int| 0 <= j < before.len() && entry_key(#[trigger] before[j]) == k;
            assert(entry_key(after[j]) == k);
        }
        if entries_view(after).contains_key(k) {
            let j = choose|j: int| 0 <= j < after.len() && entry_key(#[trigger] after[j]) == k;
            assert(entry_key(before[j]) == k);
        }
    }
    assert forall|k: (Seq<char>, Seq<char>, Seq<char>)| entries_view(after).contains_key(k) implies
        #[trigger] entries_view(after)[k] == entries_view(before).insert(key, (entry.3@, entry.4))[k] by {
        let j = choose|j: int| 0 <= j < after.len() && entry_key(#[trigger] after[j]) == k;
        lemma_only_index(after, j);
        if j != i {
            lemma_only_index(before, j);
        } else {
            lemma_only_index(after, i);
        }
    }
    assert(entries_view(after) =~= entries_view(before).insert(key, (entry.3@, entry.4)));
}

proof fn lemma_store_new(before: Seq<(String, String, String, String, u64)>, entry: (String, String, String, String, u64))
    requires
        keyed_once(before),
        forall|i: int| 0 <= i < before.len() ==> entry_key(#[trigger] before[i]) != entry_key(entry),
    ensures
        keyed_once(before.push(entry)),
        entries_view(before.push(entry)) == entries_view(before).insert(entry_key(entry), (entry.3@, entry.4)),
{
    let after = before.push(entry);
    let n = before.len() as int;
    assert forall|a: int, b: int| 0 <= a < b < after.len() implies entry_key(#[trigger] after[a]) != entry_key(#[trigger] after[b]) by {
        if b == n {
            assert(after[a] == before[a]);
        } else {
            assert(after[a] == before[a]);
            assert(after[b] == before[b]);
        }
    }
    let key = entry_key(entry);
    assert forall|k: (Seq<char>, Seq<char>, Seq<char>)| #[trigger] entries_view(after).contains_key(k) == entries_view(before).insert(key, (entry.3@, entry.4)).contains_key(k) by {
        if entries_view(before).contains_key(k) {
            let j = choose|j: int| 0 <= j < before.len() && entry_key(#[trigger] before[j]) == k;
            assert(after[j] == before[j]);
        }
        if k == key {
            assert(entry_key(after[n]) == k);
        }
        if entries_view(after).contains_key(k) {
            let j = choose|j: int| 0 <= j < after.len() && entry_key(#[trigger] after[j]) == k;
            if j < n {
                assert(after[j] == before[j]);
            }
        }
    }
    assert forall|k: (Seq<char>, Seq<char>, Seq<char>)| entries_view(after).contains_key(k) implies
        #[trigger] entries_view(after)[k] == entries_view(before).insert(key, (entry.3@, entry.4))[k] by {
        let j = choose|j: int| 0 <= j < after.len() && entry_key(#[trigger] after[j]) == k;
        lemma_only_index(after, j);
        if j < n {
            assert(after[j] == before[j]);
            lemma_only_index(before, j);
        }
    }
    assert(entries_view(after) =~= entries_view(before).insert(key, (entry.3@, entry.4)));
}

/// A token stored for a grant is handed back for it until it is within
/// [`SKEW_MILLIS`] of expiring, and not after: a token is reused until
/// shortly before it expires.
pub proof fn stored_then_cached(
    tokens: Map<(Seq<char>, Seq<char>, Seq<char>), (Seq<char>, u64)>,
    grant: Grant,
    token: Seq<char>,
    now: u64,
    lifetime: u64,
    later: u64,
)
    requires
        now + lifetime * 1000 <= u64::MAX,
        later + SKEW_MILLIS <= u64::MAX,
    ensures
        ({
            let kept = tokens.insert(key_of(grant), (token, capped(now + lifetime * 1000)));
            &&& kept.contains_key(key_of(grant))
            &&& kept[key_of(grant)].0 == token
            &&& (capped(later + SKEW_MILLIS) < kept[key_of(grant)].1 <==> later + SKEW_MILLIS < now + lifetime * 1000)
        }),
{
}

/// Whether `e` is an OAuth2 error saying `text`.
pub open spec fn oauth_error(e: Error, text: Seq<char>) -> bool {
    e == Error::OAuth(e->OAuth_0) && e->OAuth_0@ == text
}

/// A 2xx status: the token endpoint granted the request.
pub open spec fn granted(status: u16) -> bool {
    200 <= status <= 299
}

/// The token kept for `key` that is good beyond `now` by more than
/// [`SKEW_MILLIS`], if one is.
pub open spec fn cache_hit(tokens: Map<(Seq<char>, Seq<char>, Seq<char>), (Seq<char>, u64)>, key: (Seq<char>, Seq<char>, Seq<char>), now: u64) -> Option<Seq<char>> {
    if tokens.contains_key(key) && capped(now + SKEW_MILLIS) < tokens[key].1 {
        Some(tokens[key].0)
    } else {
        None
    }
}

/// What the token endpoint's answer comes to: the token, or the text of
/// the OAuth2 error.
pub open spec fn settled_result(status: u16, status_text: Seq<char>, body: Seq<char>, parsed: Result<TokenResponse, String>) -> Result<Seq<char>, Seq<char>> {
    if !granted(status) {
        Err("the token endpoint answered "@ + status_text + ": "@ + trim(body))
    } else {
        match parsed {
            Err(reason) => Err("could not decode the token response: "@ + reason@),
            Ok(response) => match token_in(response) {
                Ok((token, _)) => Ok(token),
                Err(why) => Err(why),
            },
        }
    }
}

/// The tokens kept once the answer has come: the new token for the grant,
/// good for its lifetime from `now`, when the answer grants one, and
/// otherwise the tokens as they were.
pub open spec fn settled_tokens(
    tokens: Map<(Seq<char>, Seq<char>, Seq<char>), (Seq<char>, u64)>,
    grant: Grant,
    now: u64,
    status: u16,
    parsed: Result<TokenResponse, String>,
) -> Map<(Seq<char>, Seq<char>, Seq<char>), (Seq<char>, u64)> {
    if !granted(status) {
        tokens
    } else {
        match parsed {
            Err(_) => tokens,
            Ok(response) => match token_in(response) {
                Ok((token, secs)) => tokens.insert(key_of(grant), (token, capped(now + secs * 1000))),
                Err(_) => tokens,
            },
        }
    }
}

/// What an answer from the token endpoint comes to, once it has come:
/// `status` with its text as the endpoint gave it, the body, and the body
/// read as a token response, or why it could not be. A refusal is reported
/// with the endpoint's own answer and never cached; a token is kept for
/// the grant until it expires, and handed back.
pub fn settle_token(
    cache: &mut TokenCache,
    grant: &Grant,
    now: u64,
    status: u16,
    status_text: &str,
    body: &str,
    parsed: &Result<TokenResponse, String>,
) -> (r: Result<String, Error>)
    ensures
        !granted(status) ==> (r matches Err(e) && oauth_error(e, "the token endpoint answered "@ + status_text@ + ": "@ + trim(body@))),
        !granted(status) ==> final(cache).view() == old(cache).view(),
        granted(status) ==> match parsed {
            Err(reason) => (r matches Err(e) && oauth_error(e, "could not decode the token response: "@ + reason@))
                && final(cache).view() == old(cache).view(),
            Ok(response) => match token_in(*response) {
                Ok((token, secs)) => (r matches Ok(t) && t@ == token)
                    && final(cache).view() == old(cache).view().insert(key_of(*grant), (token, capped(now + secs * 1000))),
                Err(why) => (r matches Err(e) && oauth_error(e, why)) && final(cache).view() == old(cache).view(),
            },
        },
        final(cache).view() == settled_tokens(old(cache).view(), *grant, now, status, *parsed),
        match r {
            Ok(t) => settled_result(status, status_text@, body@, *parsed) == Ok::<Seq<char>, Seq<char>>(t@),
            Err(e) => e is OAuth && settled_result(status, status_text@, body@, *parsed) == Err::<Seq<char>, Seq<char>>(e->OAuth_0@),
        },
{
    if status < 200 || status > 299 {
        return Err(refused(status_text, body));
    }
    match parsed {
        Err(reason) => Err(undecodable(reason.as_str())),
        Ok(response) => match token_of(response) {
            Ok((token, lifetime)) => {
                let handed = token.clone();
                cache.store(grant, token, now, lifetime);
                Ok(handed)
            },
            Err(e) => Err(e),
        },
    }
}

/// Fetching a token for a grant: one kept for it that is good for more
/// than [`SKEW_MILLIS`] yet is handed back with no request sent; otherwise
/// one request goes out. A 2xx answer with an `access_token` gives that
/// token and keeps it for the grant, for `expires_in` seconds (an hour
/// when that is missing or not above zero), so a fetch before it is within
/// [`SKEW_MILLIS`] of expiring is served from the cache; any other answer
/// is an OAuth2 error, and the tokens stay as they were.
pub proof fn token_fetch_law(
    tokens: Map<(Seq<char>, Seq<char>, Seq<char>), (Seq<char>, u64)>,
    grant: Grant,
    now: u64,
    status: u16,
    status_text: Seq<char>,
    body: Seq<char>,
    parsed: Result<TokenResponse, String>,
    later: u64,
)
    ensures
        cache_hit(tokens, key_of(grant), now) matches Some(t) ==> tokens.contains_key(key_of(grant))
            && tokens[key_of(grant)].0 == t && capped(now + SKEW_MILLIS) < tokens[key_of(grant)].1,
        !granted(status) ==> settled_tokens(tokens, grant, now, status, parsed) == tokens
            && settled_result(status, status_text, body, parsed) == Err::<Seq<char>, Seq<char>>("the token endpoint answered "@ + status_text + ": "@ + trim(body)),
        granted(status) && (parsed matches Ok(response) && token_in(response) matches Ok((token, secs))
            && now + secs * 1000 <= u64::MAX && later + SKEW_MILLIS <= u64::MAX) ==> ({
            let (token, secs) = token_in(parsed->Ok_0)->Ok_0;
            let kept = settled_tokens(tokens, grant, now, status, parsed);
            &&& settled_result(status, status_text, body, parsed) == Ok::<Seq<char>, Seq<char>>(token)
            &&& kept[key_of(grant)] == (token, (now + secs * 1000) as u64)
            &&& (cache_hit(kept, key_of(grant), later) == Some(token) <==> later + SKEW_MILLIS < now + secs * 1000)
        }),
        !(granted(status) && (parsed matches Ok(response) && token_in(response) is Ok))
            ==> settled_tokens(tokens, grant, now, status, parsed) == tokens
                && settled_result(status, status_text, body, parsed) is Err,
{
}

} // verus!
