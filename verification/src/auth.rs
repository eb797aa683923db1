//! The Auth tab: what each kind asks for, and the header it becomes.

use vstd::prelude::*;

use crate::cycle::step;
use crate::encoding::{base64_encode, base64_of};
use crate::text::{append, chars_of, contains_chars, contains_seq, lower, lower_chars, string_of};

verus! {

#[derive(Debug, Clone, Copy, PartialEq, Eq, Hash, Structural)]
pub enum AuthKind {
    NoAuth,
    Bearer,
    Basic,
    ApiKey,
    ClientCredentials,
}

/// An auth kind with its field values, in [`AuthKind::fields`] order, as a
/// request file holds them.
#[derive(Debug, Clone, PartialEq, Eq)]
pub struct Auth {
    pub kind: AuthKind,
    pub values: Vec<String>,
}

/// The order ← and → step through the kinds.
pub open spec fn auth_kinds() -> Seq<AuthKind> {
    seq![AuthKind::NoAuth, AuthKind::Bearer, AuthKind::Basic, AuthKind::ApiKey, AuthKind::ClientCredentials]
}

pub open spec fn auth_kind_position(kind: AuthKind) -> int {
    match kind {
        AuthKind::NoAuth => 0,
        AuthKind::Bearer => 1,
        AuthKind::Basic => 2,
        AuthKind::ApiKey => 3,
        AuthKind::ClientCredentials => 4,
    }
}

/// The fields each kind asks for, in order.
pub open spec fn auth_fields(kind: AuthKind) -> Seq<Seq<char>> {
    match kind {
        AuthKind::NoAuth => Seq::empty(),
        AuthKind::Bearer => seq!["Token"@],
        AuthKind::Basic => seq!["Username"@, "Password"@],
        AuthKind::ApiKey => seq!["Header"@, "Value"@],
        AuthKind::ClientCredentials => seq!["Token URL"@, "Client ID"@, "Client Secret"@, "Scope"@],
    }
}

impl AuthKind {
    pub const ALL: [AuthKind; 5] = [
        AuthKind::NoAuth,
        AuthKind::Bearer,
        AuthKind::Basic,
        AuthKind::ApiKey,
        AuthKind::ClientCredentials,
    ];

    pub fn at(position: usize) -> (r: AuthKind)
        requires
            position < 5,
        ensures
            r == auth_kinds()[position as int],
    {
        match position {
            0 => AuthKind::NoAuth,
            1 => AuthKind::Bearer,
            2 => AuthKind::Basic,
            3 => AuthKind::ApiKey,
            _ => AuthKind::ClientCredentials,
        }
    }

    pub fn position(self) -> (r: usize)
        ensures
            r == auth_kind_position(self),
            r < 5,
    {
        match self {
            AuthKind::NoAuth => 0,
            AuthKind::Bearer => 1,
            AuthKind::Basic => 2,
            AuthKind::ApiKey => 3,
            AuthKind::ClientCredentials => 4,
        }
    }

    pub fn label(self) -> (r: &'static str)
        ensures
            r@ == match self {
                AuthKind::NoAuth => "No auth"@,
                AuthKind::Bearer => "Bearer token"@,
                AuthKind::Basic => "Basic auth"@,
                AuthKind::ApiKey => "API key"@,
                AuthKind::ClientCredentials => "OAuth2 client credentials"@,
            },
    {
        match self {
            AuthKind::NoAuth => "No auth",
            AuthKind::Bearer => "Bearer token",
            AuthKind::Basic => "Basic auth",
            AuthKind::ApiKey => "API key",
            AuthKind::ClientCredentials => "OAuth2 client credentials",
        }
    }

    pub fn fields(self) -> (r: &'static [&'static str])
        ensures
            r@.map_values(|s: &str| s@) == auth_fields(self),
    {
        let r: &'static [&'static str] = match self {
            AuthKind::NoAuth => &[],
            AuthKind::Bearer => &["Token"],
            AuthKind::Basic => &["Username", "Password"],
            AuthKind::ApiKey => &["Header", "Value"],
            AuthKind::ClientCredentials => &["Token URL", "Client ID", "Client Secret", "Scope"],
        };
        assert(r@.map_values(|s: &str| s@) =~= auth_fields(self));
        r
    }

    /// The kind `delta` steps round from this one.
    pub fn cycle(self, delta: isize) -> (r: AuthKind)
        ensures
            r == auth_kinds()[(auth_kind_position(self) + delta) % 5],
    {
        AuthKind::at(step(self.position(), 5, delta))
    }
}

/// Whether a field holds something that should not be read over a
/// shoulder.
pub open spec fn secret_field(field: Seq<char>) -> bool {
    contains_seq(lower(field), "secret"@) || contains_seq(lower(field), "password"@)
}

/// Whether a field holds something that should not be read over a shoulder.
pub fn is_secret(field: &str) -> (r: bool)
    ensures
        r == secret_field(field@),
{
    let field = lower_chars(&chars_of(field));
    contains_chars(&field, &chars_of("secret")) || contains_chars(&field, &chars_of("password"))
}

/// The value at `index`, or nothing when there are fewer.
pub open spec fn value_at(values: Seq<Seq<char>>, index: int) -> Seq<char> {
    if 0 <= index < values.len() {
        values[index]
    } else {
        Seq::empty()
    }
}

/// The header an auth kind adds, from its field values in
/// [`AuthKind::fields`] order. Client credentials has to fetch a token
/// before it has a header to give, so it adds none here.
pub open spec fn auth_header(kind: AuthKind, values: Seq<Seq<char>>) -> Option<(Seq<char>, Seq<char>)> {
    let first = value_at(values, 0);
    let second = value_at(values, 1);
    match kind {
        AuthKind::Bearer => if first.len() > 0 {
            Some(("Authorization"@, "Bearer "@ + first))
        } else {
            None
        },
        AuthKind::Basic => if !(first.len() == 0 && second.len() == 0) {
            Some(("Authorization"@, "Basic "@ + base64_of(first + ":"@ + second)))
        } else {
            None
        },
        AuthKind::ApiKey => if first.len() > 0 {
            Some((first, second))
        } else {
            None
        },
        _ => None,
    }
}

fn value(values: &[String], index: usize) -> (r: Vec<char>)
    ensures
        r@ == value_at(values@.map_values(|s: String| s@), index as int),
{
    if index < values.len() {
        chars_of(values[index].as_str())
    } else {
        Vec::new()
    }
}

/// The header an auth kind adds, from its field values in
/// [`AuthKind::fields`] order.
pub fn header(kind: AuthKind, values: &[String]) -> (r: Option<(String, String)>)
    ensures
        match r {
            Some((name, value)) => auth_header(kind, values@.map_values(|s: String| s@)) == Some((name@, value@)),
            None => auth_header(kind, values@.map_values(|s: String| s@)) is None,
        },
{
    let first = value(values, 0);
    let second = value(values, 1);
    match kind {
        AuthKind::Bearer => if first.len() > 0 {
            let mut v = chars_of("Bearer ");
            append(&mut v, &first);
            Some(("Authorization".to_string(), string_of(&v)))
        } else {
            None
        },
        AuthKind::Basic => if !(first.len() == 0 && second.len() == 0) {
            let mut credentials = first;
            append(&mut credentials, &chars_of(":"));
            append(&mut credentials, &second);
            let encoded = base64_encode(string_of(&credentials).as_str());
            let mut v = chars_of("Basic ");
            append(&mut v, &chars_of(encoded.as_str()));
            Some(("Authorization".to_string(), string_of(&v)))
        } else {
            None
        },
        AuthKind::ApiKey => if first.len() > 0 {
            Some((string_of(&first), string_of(&second)))
        } else {
            None
        },
        _ => None,
    }
}

/// Stepping through the kinds `delta` one way and then `delta` back comes
/// back to the kind it started from.
pub proof fn auth_cycle_returns(kind: AuthKind, delta: int)
    ensures
        auth_kinds()[(auth_kind_position(auth_kinds()[(auth_kind_position(kind) + delta) % 5]) - delta) % 5] == kind,
{
    let p = auth_kind_position(kind);
    crate::cycle::lemma_step_back(p, delta, 5);
    let i = (p + delta) % 5;
    assert(auth_kind_position(auth_kinds()[i]) == i);
    assert(auth_kinds()[p] == kind);
}

} // verus!
