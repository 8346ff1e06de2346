//! Request pipeline: the cookie-to-header translator and the
//! authorization guard applied to protected routes.
//!
//! The translator promotes the access-token cookie into a bearer
//! authorization header, short-circuiting requests whose cookie cannot
//! be a header value. The guard verifies the bearer token's signature,
//! expiry and revocation state, and requires membership in the
//! administrative group.

use vstd::prelude::*;
use crate::hashing::fnv1a_hash;
use crate::registry::RevocationRegistry;
use crate::token::{Claims, ClaimsModel, token_model, verify};

verus! {

/// The single group whose membership gates the protected API surface.
pub open spec fn admin_group_name() -> Seq<char> {
    "lldap_admin"@
}

/// The administrative group's name as a string value.
pub fn admin_group() -> (r: String)
    ensures
        r@ == admin_group_name(),
{
    String::from_str("lldap_admin")
}

#[derive(Debug, PartialEq, Eq, Structural)]
pub enum GuardError {
    /// Signature or structure check failed.
    InvalidJwt,
    /// The claim set's expiry lies before the current time.
    ExpiredJwt,
    /// The token's hash is in the revocation registry.
    LoggedOut,
    /// The claim set lacks the administrative group.
    NotInGroup,
}

pub open spec fn groups_contain(gs: Seq<Seq<char>>, name: Seq<char>) -> bool {
    exists|i: int| 0 <= i < gs.len() && gs[i] == name
}

/// Outcome of signature, expiry and revocation checks on a bearer token.
pub open spec fn bearer_outcome(key: Seq<u8>, revoked: Set<u64>, token: Seq<char>, now: u64)
    -> Result<ClaimsModel, GuardError> {
    match token_model(key, token) {
        None => Err(GuardError::InvalidJwt),
        Some(c) => if c.exp < now {
            Err(GuardError::ExpiredJwt)
        } else if revoked.contains(fnv1a_hash(token)) {
            Err(GuardError::LoggedOut)
        } else {
            Ok(c)
        },
    }
}

/// Outcome of the full guard: bearer checks, then the admin-group gate.
pub open spec fn validator_outcome(key: Seq<u8>, revoked: Set<u64>, token: Seq<char>, now: u64)
    -> Result<ClaimsModel, GuardError> {
    match bearer_outcome(key, revoked, token, now) {
        Err(e) => Err(e),
        Ok(c) => if groups_contain(c.groups, admin_group_name()) {
            Ok(c)
        } else {
            Err(GuardError::NotInGroup)
        },
    }
}

fn contains_group(groups: &Vec<String>, name: &String) -> (r: bool)
    ensures
        r == groups_contain(groups.deep_view(), name@),
{
    let mut i: usize = 0;
    while i < groups.len()
        invariant
            i <= groups@.len(),
            forall|k: int| 0 <= k < i ==> groups@[k]@ != name@,
        decreases groups@.len() - i,
    {
        if groups[i].eq(name) {
            proof {
                assert(groups.deep_view()[i as int] == name@);
            }
            return true;
        }
        i += 1;
    }
    proof {
        assert(forall|k: int| 0 <= k < groups.deep_view().len()
            ==> #[trigger] groups.deep_view()[k] == groups@[k]@);
    }
    false
}

/// Verifies a bearer token's signature, then its expiry, then its
/// revocation state, in that order; returns the verified claim set.
pub fn validate_bearer(key: &Vec<u8>, registry: &RevocationRegistry, token: &str, now: u64)
    -> (r: Result<Claims, GuardError>)
    ensures
        match r {
            Ok(c) => bearer_outcome(key@, registry@, token@, now) == Ok::<ClaimsModel, GuardError>(c@),
            Err(e) => bearer_outcome(key@, registry@, token@, now) == Err::<ClaimsModel, GuardError>(e),
        },
{
    let claims = match verify(key, token) {
        Ok(c) => c,
        Err(_) => {
            return Err(GuardError::InvalidJwt);
        },
    };
    if claims.exp < now {
        return Err(GuardError::ExpiredJwt);
    }
    if registry.contains(crate::hashing::hash_token(token)) {
        return Err(GuardError::LoggedOut);
    }
    Ok(claims)
}

/// The guard for protected routes: bearer checks plus the admin-group
/// gate; only a valid, unexpired, unrevoked token whose group snapshot
/// holds the administrative group passes.
pub fn token_validator(key: &Vec<u8>, registry: &RevocationRegistry, token: &str, now: u64)
    -> (r: Result<Claims, GuardError>)
    ensures
        match r {
            Ok(c) => validator_outcome(key@, registry@, token@, now) == Ok::<ClaimsModel, GuardError>(c@),
            Err(e) => validator_outcome(key@, registry@, token@, now) == Err::<ClaimsModel, GuardError>(e),
        },
{
    let claims = match validate_bearer(key, registry, token, now) {
        Ok(c) => c,
        Err(e) => {
            return Err(e);
        },
    };
    let admin = admin_group();
    if contains_group(&claims.groups, &admin) {
        Ok(claims)
    } else {
        Err(GuardError::NotInGroup)
    }
}

/// A character every byte of whose UTF-8 encoding may stand in a header
/// value: horizontal tab, or anything but a control character; bytes of
/// multi-byte characters are all at least 0x80 and so always allowed.
pub open spec fn valid_header_char(c: char) -> bool {
    c == '\t' || (c as int >= 32 && c as int != 127)
}

pub open spec fn valid_header_value(s: Seq<char>) -> bool {
    forall|i: int| 0 <= i < s.len() ==> valid_header_char(#[trigger] s[i])
}

/// Checks that a cookie value can be carried in a header.
fn header_value_ok(s: &str) -> (r: bool)
    ensures
        r == valid_header_value(s@),
{
    let n: usize = s.unicode_len();
    let mut i: usize = 0;
    while i < n
        invariant
            i <= n,
            n == s@.len(),
            forall|k: int| 0 <= k < i ==> valid_header_char(#[trigger] s@[k]),
        decreases n - i,
    {
        let c = s.get_char(i);
        if !(c == '\t' || (c as u32 >= 32 && c as u32 != 127)) {
            return false;
        }
        i += 1;
    }
    true
}

/// What the translator does with one request's access-token cookie.
pub enum CookieDecision {
    /// No cookie: the request passes through unchanged.
    NoCookie,
    /// The cookie's value, promoted to a bearer authorization header.
    Header(String),
    /// The cookie cannot be encoded as a header value: reject the request.
    BadCookie,
}

pub open spec fn bearer_header_text(v: Seq<char>) -> Seq<char> {
    "Bearer "@ + v
}

/// The cookie-to-header translator's decision: absence passes through,
/// a well-formed value becomes `Bearer <value>`, anything else is
/// short-circuited before routing.
pub fn cookie_to_header(cookie: Option<&String>) -> (r: CookieDecision)
    ensures
        match cookie {
            None => r is NoCookie,
            Some(v) => if valid_header_value(v@) {
                r matches CookieDecision::Header(h) && h@ == bearer_header_text(v@)
            } else {
                r is BadCookie
            },
        },
{
    match cookie {
        None => CookieDecision::NoCookie,
        Some(v) => {
            if header_value_ok(v.as_str()) {
                let mut h = String::from_str("Bearer ");
                h.append(v.as_str());
                CookieDecision::Header(h)
            } else {
                CookieDecision::BadCookie
            }
        },
    }
}

pub open spec fn cookie_view(cookie: Option<&String>) -> Option<Seq<char>> {
    match cookie {
        None => None,
        Some(v) => Some(v@),
    }
}

/// Outcome of the whole pipeline for one request to a protected route.
pub enum RequestOutcome {
    /// Rejected before routing: the cookie is not a header value.
    BadRequest,
    /// No credentials reached the guard: unauthorized, not a bad request.
    MissingBearer,
    /// The guard rejected the bearer token.
    Denied(GuardError),
    /// The verified claim set, handed to the route handler.
    Allowed(Claims),
}

/// The ordered pipeline for a protected route: translator first, then
/// the guard on the synthesized bearer header. A syntactically invalid
/// cookie never reaches the guard; a missing cookie is the guard's
/// missing-credential path, not a malformed request.
pub fn handle_protected_request(key: &Vec<u8>, registry: &RevocationRegistry,
    cookie: Option<&String>, now: u64) -> (r: RequestOutcome)
    ensures
        match cookie_view(cookie) {
            None => r is MissingBearer,
            Some(v) => if !valid_header_value(v) {
                r is BadRequest
            } else {
                match validator_outcome(key@, registry@, v, now) {
                    Ok(c) => r matches RequestOutcome::Allowed(rc) && rc@ == c,
                    Err(e) => r matches RequestOutcome::Denied(d) && d == e,
                }
            },
        },
{
    let header = match cookie_to_header(cookie) {
        CookieDecision::NoCookie => {
            return RequestOutcome::MissingBearer;
        },
        CookieDecision::BadCookie => {
            return RequestOutcome::BadRequest;
        },
        CookieDecision::Header(h) => h,
    };
    let n: usize = header.as_str().unicode_len();
    proof {
        reveal_strlit("Bearer ");
    }
    let bearer = header.as_str().substring_char(7, n);
    proof {
        let v = cookie_view(cookie)->Some_0;
        assert(bearer@ =~= v);
    }
    match token_validator(key, registry, bearer, now) {
        Ok(c) => RequestOutcome::Allowed(c),
        Err(e) => RequestOutcome::Denied(e),
    }
}

/// A valid, unexpired, unrevoked token is accepted by the bearer checks
/// for its whole validity window, with its claim set intact.
pub proof fn lemma_round_trip_window(key: Seq<u8>, revoked: Set<u64>, t: Seq<char>, now: u64, c: ClaimsModel)
    requires
        token_model(key, t) == Some(c),
        now <= c.exp,
        !revoked.contains(fnv1a_hash(t)),
    ensures
        bearer_outcome(key, revoked, t, now) == Ok::<ClaimsModel, GuardError>(c),
{
}

/// A token whose one-day lifetime has elapsed is rejected as expired
/// even though its signature still checks out.
pub proof fn lemma_expired_rejected(key: Seq<u8>, revoked: Set<u64>, t: Seq<char>, now: u64, c: ClaimsModel)
    requires
        token_model(key, t) == Some(c),
        c.exp == c.iat + crate::TOKEN_LIFETIME_SECONDS,
        c.iat + crate::TOKEN_LIFETIME_SECONDS < now,
    ensures
        bearer_outcome(key, revoked, t, now) == Err::<ClaimsModel, GuardError>(GuardError::ExpiredJwt),
{
}

/// A token whose hash was blacklisted is rejected as logged out despite
/// a valid signature and unexpired claims.
pub proof fn lemma_revoked_rejected(key: Seq<u8>, revoked: Set<u64>, t: Seq<char>, now: u64, c: ClaimsModel)
    requires
        token_model(key, t) == Some(c),
        now <= c.exp,
        revoked.contains(fnv1a_hash(t)),
    ensures
        bearer_outcome(key, revoked, t, now) == Err::<ClaimsModel, GuardError>(GuardError::LoggedOut),
{
}

/// Growing the revocation registry changes the outcome only for tokens
/// whose hash was added: everyone else's tokens stay exactly as valid.
pub proof fn lemma_revocation_scoped(key: Seq<u8>, revoked: Set<u64>, added: Set<u64>, t: Seq<char>, now: u64)
    requires
        !added.contains(fnv1a_hash(t)),
    ensures
        bearer_outcome(key, revoked.union(added), t, now) == bearer_outcome(key, revoked, t, now),
{
}

/// Admin gating: a token passing the bearer checks but lacking the
/// administrative group is turned away by the guard with the
/// insufficient-privilege reason, while a route content with the bearer
/// checks alone still accepts it.
pub proof fn lemma_admin_gating(key: Seq<u8>, revoked: Set<u64>, t: Seq<char>, now: u64, c: ClaimsModel)
    requires
        bearer_outcome(key, revoked, t, now) == Ok::<ClaimsModel, GuardError>(c),
        !groups_contain(c.groups, admin_group_name()),
    ensures
        validator_outcome(key, revoked, t, now) == Err::<ClaimsModel, GuardError>(GuardError::NotInGroup),
        bearer_outcome(key, revoked, t, now) == Ok::<ClaimsModel, GuardError>(c),
{
}

} // verus!
