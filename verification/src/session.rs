//! Session protocol handlers: authorize (login), refresh (silent
//! re-issue) and logout (revoke), composed over an abstract directory
//! backend.
//!
//! The backend owns credential checks, group membership, refresh-token
//! records and the per-user blacklist; its contract below is what the
//! handlers' guarantees rest on. The refresh-token cookie carries
//! `<opaque-token>+<username>`, split on the first `+`.

use vstd::prelude::*;
use crate::hashing::fnv1a_hash;
use crate::hashing::hash_token;
use crate::pipeline::cookie_view;
use crate::registry::RevocationRegistry;
use crate::token::{ClaimsModel, token_chars, token_model, mint};

verus! {

/// A bind attempt: username and credential.
pub struct BindRequest {
    pub name: String,
    pub password: String,
}

#[derive(Clone, Copy, Debug, PartialEq, Eq, Structural)]
pub enum BackendError {
    /// The credentials were rejected.
    AuthenticationFailed,
    /// The store could not complete the operation.
    Internal,
}

#[derive(Clone, Copy, Debug, PartialEq, Eq, Structural)]
pub enum AuthError {
    /// No refresh-token cookie accompanied the request.
    MissingRefreshToken,
    /// The cookie is malformed, or the token is unknown for that user.
    InvalidRefreshToken,
    /// A backend call failed.
    Backend(BackendError),
}

/// The directory backend the session handlers are composed over.
///
/// The spec functions model its observable state; each method promises
/// how its result and the state relate to that model, never that it
/// succeeds: availability is the backend's own affair.
pub trait Backend: Sized {
    /// Whether these credentials bind successfully in the current state.
    spec fn valid_bind(&self, name: Seq<char>, password: Seq<char>) -> bool;

    /// The user's current group memberships, in the backend's order.
    spec fn groups_of(&self, user: Seq<char>) -> Seq<Seq<char>>;

    /// Whether a refresh-token record with this hash exists for this user.
    spec fn token_stored(&self, hash: u64, user: Seq<char>) -> bool;

    /// The access-token hashes the backend wants revoked for this user.
    spec fn blacklist_of(&self, user: Seq<char>) -> Set<u64>;

    /// The validity window, in seconds, of the refresh tokens it issues.
    spec fn refresh_window(&self) -> u64;

    fn bind(&self, request: &BindRequest) -> (r: Result<(), BackendError>)
        ensures
            r is Ok ==> self.valid_bind(request.name@, request.password@),
    ;

    fn get_user_groups(&self, user: &String) -> (r: Result<Vec<String>, BackendError>)
        ensures
            r matches Ok(g) ==> g.deep_view() == self.groups_of(user@),
    ;

    /// Creates a refresh token: the raw value goes back to the caller
    /// with the window it is valid for, and only its hash enters the
    /// store. The raw value never contains the cookie delimiter `+`.
    /// Creation is one atomic store operation: on failure nothing is
    /// persisted.
    fn create_refresh_token(&mut self, user: &String) -> (r: Result<(String, u64), BackendError>)
        ensures
            r matches Ok(p) ==> {
                &&& forall|k: int| 0 <= k < p.0@.len() ==> p.0@[k] != '+'
                &&& p.1 == old(self).refresh_window()
                &&& final(self).token_stored(fnv1a_hash(p.0@), user@)
                &&& forall|h: u64, u: Seq<char>| final(self).token_stored(h, u)
                    == (old(self).token_stored(h, u) || (h == fnv1a_hash(p.0@) && u == user@))
            },
            r is Err ==> forall|h: u64, u: Seq<char>|
                final(self).token_stored(h, u) == old(self).token_stored(h, u),
            forall|n: Seq<char>, pw: Seq<char>|
                final(self).valid_bind(n, pw) == old(self).valid_bind(n, pw),
            forall|u: Seq<char>| final(self).groups_of(u) == old(self).groups_of(u),
            forall|u: Seq<char>| final(self).blacklist_of(u) == old(self).blacklist_of(u),
            final(self).refresh_window() == old(self).refresh_window(),
    ;

    fn check_token(&self, hash: u64, user: &String) -> (r: Result<bool, BackendError>)
        ensures
            r matches Ok(b) ==> b == self.token_stored(hash, user@),
    ;

    /// Revokes a refresh token by hash; revoking an absent hash is a
    /// no-op. Deletion is one atomic store operation: even on failure,
    /// either nothing happened or exactly the presented hash is gone.
    fn delete_refresh_token(&mut self, hash: u64) -> (r: Result<(), BackendError>)
        ensures
            r is Ok ==> forall|h: u64, u: Seq<char>| final(self).token_stored(h, u)
                == (old(self).token_stored(h, u) && h != hash),
            r is Err ==> {
                ||| forall|h: u64, u: Seq<char>|
                    final(self).token_stored(h, u) == old(self).token_stored(h, u)
                ||| forall|h: u64, u: Seq<char>| final(self).token_stored(h, u)
                    == (old(self).token_stored(h, u) && h != hash)
            },
            forall|n: Seq<char>, pw: Seq<char>|
                final(self).valid_bind(n, pw) == old(self).valid_bind(n, pw),
            forall|u: Seq<char>| final(self).groups_of(u) == old(self).groups_of(u),
            forall|u: Seq<char>| final(self).blacklist_of(u) == old(self).blacklist_of(u),
            final(self).refresh_window() == old(self).refresh_window(),
    ;

    fn blacklist_jwts(&self, user: &String) -> (r: Result<Vec<u64>, BackendError>)
        ensures
            r matches Ok(v) ==> v@.to_set() == self.blacklist_of(user@),
    ;
}

/// Splits a cookie value at its first `+` into token and username.
pub open spec fn split_plus(v: Seq<char>) -> Option<(Seq<char>, Seq<char>)>
    decreases v.len(),
{
    if v.len() == 0 {
        None
    } else if v.first() == '+' {
        Some((Seq::empty(), v.drop_first()))
    } else {
        match split_plus(v.drop_first()) {
            Some(p) => Some((seq![v.first()] + p.0, p.1)),
            None => None,
        }
    }
}

pub proof fn lemma_split_plus_at(v: Seq<char>, i: int)
    requires
        0 <= i < v.len(),
        v[i] == '+',
        forall|k: int| 0 <= k < i ==> v[k] != '+',
    ensures
        split_plus(v) == Some((v.subrange(0, i), v.subrange(i + 1, v.len() as int))),
    decreases i,
{
    if i == 0 {
        assert(v.first() == '+');
        assert(Seq::<char>::empty() =~= v.subrange(0, 0));
        assert(v.drop_first() =~= v.subrange(1, v.len() as int));
    } else {
        assert(v.first() != '+');
        let w = v.drop_first();
        assert(w[i - 1] == '+');
        assert(forall|k: int| 0 <= k < i - 1 ==> #[trigger] w[k] == v[k + 1]);
        lemma_split_plus_at(w, i - 1);
        assert(seq![v.first()] + w.subrange(0, i - 1) =~= v.subrange(0, i));
        assert(w.subrange(i, w.len() as int) =~= v.subrange(i + 1, v.len() as int));
    }
}

pub proof fn lemma_split_plus_none(v: Seq<char>)
    requires
        forall|k: int| 0 <= k < v.len() ==> v[k] != '+',
    ensures
        split_plus(v) is None,
    decreases v.len(),
{
    if v.len() > 0 {
        assert(forall|k: int| 0 <= k < v.len() - 1 ==> #[trigger] v.drop_first()[k] == v[k + 1]);
        lemma_split_plus_none(v.drop_first());
    }
}

/// A delimiter-free token joined to a username reads back exactly.
pub proof fn lemma_split_plus_concat(raw: Seq<char>, user: Seq<char>)
    requires
        forall|k: int| 0 <= k < raw.len() ==> raw[k] != '+',
    ensures
        split_plus(raw + seq!['+'] + user) == Some((raw, user)),
{
    let v = raw + seq!['+'] + user;
    assert(v[raw.len() as int] == '+');
    assert(forall|k: int| 0 <= k < raw.len() ==> #[trigger] v[k] == raw[k]);
    lemma_split_plus_at(v, raw.len() as int);
    assert(v.subrange(0, raw.len() as int) =~= raw);
    assert(v.subrange(raw.len() as int + 1, v.len() as int) =~= user);
}

/// Refresh-token secrecy, parsing side: of a compound cookie
/// `token+username`, only the 64-bit hash of the token part and the
/// username appear in the parsed result, so the raw secret reaches
/// neither the store nor the revocation checks; the backend contract
/// in turn admits nothing but that hash into a token record.
pub proof fn lemma_refresh_cookie_carries_only_hash(t: Seq<char>, u: Seq<char>)
    requires
        forall|k: int| 0 <= k < t.len() ==> t[k] != '+',
    ensures
        refresh_cookie_parts(Some(t + seq!['+'] + u)) == Ok::<(u64, Seq<char>), AuthError>((fnv1a_hash(t), u)),
{
    lemma_split_plus_concat(t, u);
}

/// What the refresh-token cookie, if any, stands for: the hash of its
/// token part and its username part, or the reason it is rejected.
pub open spec fn refresh_cookie_parts(cv: Option<Seq<char>>) -> Result<(u64, Seq<char>), AuthError> {
    match cv {
        None => Err(AuthError::MissingRefreshToken),
        Some(v) => match split_plus(v) {
            None => Err(AuthError::InvalidRefreshToken),
            Some(p) => Ok((fnv1a_hash(p.0), p.1)),
        },
    }
}

/// Recovers the refresh-token hash and username from the cookie; rejects
/// a missing cookie and a value without the `+` delimiter, in that order,
/// before any backend call is made.
pub fn get_refresh_token_from_cookie(cookie: Option<&String>) -> (r: Result<(u64, String), AuthError>)
    ensures
        match r {
            Ok(p) => refresh_cookie_parts(cookie_view(cookie)) == Ok::<(u64, Seq<char>), AuthError>((p.0, p.1@)),
            Err(e) => refresh_cookie_parts(cookie_view(cookie)) == Err::<(u64, Seq<char>), AuthError>(e),
        },
{
    if cookie.is_none() {
        return Err(AuthError::MissingRefreshToken);
    }
    let v = cookie.unwrap();
    let s = v.as_str();
    let n: usize = s.unicode_len();
    let mut i: usize = 0;
    while i < n
        invariant
            i <= n,
            n == s@.len(),
            cookie_view(cookie) == Some(s@),
            forall|k: int| 0 <= k < i ==> s@[k] != '+',
        decreases n - i,
    {
        if s.get_char(i) == '+' {
            let token_part = s.substring_char(0, i);
            let user_part = s.substring_char(i + 1, n);
            let h = hash_token(token_part);
            proof {
                lemma_split_plus_at(s@, i as int);
                assert(split_plus(s@) == Some((token_part@, user_part@)));
            }
            return Ok((h, user_part.to_owned()));
        }
        i += 1;
    }
    proof {
        lemma_split_plus_none(s@);
    }
    Err(AuthError::InvalidRefreshToken)
}

/// A successful login: the access token (also the response body), the
/// refresh-token cookie value, and that cookie's validity window.
pub struct LoginResponse {
    pub token: String,
    pub refresh_cookie: String,
    pub refresh_max_age: u64,
}

/// Login: check the bind, snapshot the user's groups, create a refresh
/// token, and mint an access token carrying that snapshot. The refresh
/// cookie's validity window is the one the backend issues, and a failed
/// login leaves the backend's state exactly as it was: in particular,
/// no refresh token is ever persisted for it.
pub fn post_authorize<B: Backend>(backend: &mut B, jwt_key: &Vec<u8>, request: &BindRequest, now: u64)
    -> (r: Result<LoginResponse, AuthError>)
    requires
        now <= u64::MAX - crate::TOKEN_LIFETIME_SECONDS,
    ensures
        match r {
            Ok(resp) => ({
                let c = ClaimsModel {
                    user: request.name@,
                    iat: now,
                    exp: (now + crate::TOKEN_LIFETIME_SECONDS) as u64,
                    groups: old(backend).groups_of(request.name@),
                };
                &&& old(backend).valid_bind(request.name@, request.password@)
                &&& resp.token@ == token_chars(jwt_key@, c)
                &&& token_model(jwt_key@, resp.token@) == Some(c)
                &&& resp.refresh_max_age == old(backend).refresh_window()
                &&& exists|raw: Seq<char>| {
                    &&& #[trigger] split_plus(resp.refresh_cookie@) == Some((raw, request.name@))
                    &&& final(backend).token_stored(fnv1a_hash(raw), request.name@)
                }
            }),
            Err(AuthError::Backend(_)) => forall|h: u64, u: Seq<char>|
                final(backend).token_stored(h, u) == old(backend).token_stored(h, u),
            Err(_) => false,
        },
        forall|n: Seq<char>, pw: Seq<char>|
            final(backend).valid_bind(n, pw) == old(backend).valid_bind(n, pw),
        forall|u: Seq<char>| final(backend).groups_of(u) == old(backend).groups_of(u),
        forall|u: Seq<char>| final(backend).blacklist_of(u) == old(backend).blacklist_of(u),
        final(backend).refresh_window() == old(backend).refresh_window(),
{
    match backend.bind(request) {
        Ok(u) => u,
        Err(e) => {
            return Err(AuthError::Backend(e));
        },
    };
    let groups = match backend.get_user_groups(&request.name) {
        Ok(g) => g,
        Err(e) => {
            return Err(AuthError::Backend(e));
        },
    };
    let (raw, max_age) = match backend.create_refresh_token(&request.name) {
        Ok(p) => p,
        Err(e) => {
            return Err(AuthError::Backend(e));
        },
    };
    let token = mint(jwt_key, &request.name, &groups, now);
    let ghost raw_view = raw@;
    let mut cookie = raw;
    cookie.append("+");
    cookie.append(request.name.as_str());
    proof {
        reveal_strlit("+");
        assert("+"@ =~= seq!['+']);
        assert(cookie@ == raw_view + seq!['+'] + request.name@);
        lemma_split_plus_concat(raw_view, request.name@);
    }
    Ok(LoginResponse { token, refresh_cookie: cookie, refresh_max_age: max_age })
}

/// Silent refresh: if the presented refresh token is on record for its
/// user, mint a fresh access token carrying the user's groups as they
/// are now — the one path where a token's group snapshot can change
/// without a full re-login. The refresh token itself is not rotated.
pub fn get_refresh<B: Backend>(backend: &B, jwt_key: &Vec<u8>, cookie: Option<&String>, now: u64)
    -> (r: Result<String, AuthError>)
    requires
        now <= u64::MAX - crate::TOKEN_LIFETIME_SECONDS,
    ensures
        ({
            let parts = refresh_cookie_parts(cookie_view(cookie));
            match r {
                Ok(token) => ({
                    &&& parts matches Ok(p)
                    &&& backend.token_stored(parts->Ok_0.0, parts->Ok_0.1)
                    &&& ({
                        let c = ClaimsModel {
                            user: parts->Ok_0.1,
                            iat: now,
                            exp: (now + crate::TOKEN_LIFETIME_SECONDS) as u64,
                            groups: backend.groups_of(parts->Ok_0.1),
                        };
                        token@ == token_chars(jwt_key@, c) && token_model(jwt_key@, token@) == Some(c)
                    })
                }),
                Err(AuthError::MissingRefreshToken) => parts == Err::<(u64, Seq<char>), AuthError>(AuthError::MissingRefreshToken),
                Err(AuthError::InvalidRefreshToken) => parts == Err::<(u64, Seq<char>), AuthError>(AuthError::InvalidRefreshToken)
                    || (parts matches Ok(p) && !backend.token_stored(p.0, p.1)),
                Err(AuthError::Backend(_)) => parts is Ok,
            }
        }),
{
    let (hash, user) = match get_refresh_token_from_cookie(cookie) {
        Ok(p) => p,
        Err(e) => {
            return Err(e);
        },
    };
    let found = match backend.check_token(hash, &user) {
        Ok(b) => b,
        Err(e) => {
            return Err(AuthError::Backend(e));
        },
    };
    if !found {
        return Err(AuthError::InvalidRefreshToken);
    }
    let groups = match backend.get_user_groups(&user) {
        Ok(g) => g,
        Err(e) => {
            return Err(AuthError::Backend(e));
        },
    };
    Ok(mint(jwt_key, &user, &groups, now))
}

/// Logout: after validating the refresh token, revoke it in the store
/// and add every access-token hash the backend blacklists for that user
/// to the revocation registry. Those two are the only things logout
/// touches: credentials, group sets and the backend's per-user
/// blacklists stay as they were, a missing or malformed cookie is
/// rejected before any backend call, and even on a backend failure the
/// store either kept the record or lost exactly the presented hash.
/// A second logout with the same cookie finds no record and is rejected
/// as an invalid refresh token; the registry, being a set, cannot take
/// duplicate entries either way.
pub fn post_logout<B: Backend>(backend: &mut B, registry: &mut RevocationRegistry,
    cookie: Option<&String>) -> (r: Result<(), AuthError>)
    ensures
        ({
            let parts = refresh_cookie_parts(cookie_view(cookie));
            match r {
                Ok(u) => ({
                    &&& parts matches Ok(p)
                    &&& old(backend).token_stored(parts->Ok_0.0, parts->Ok_0.1)
                    &&& forall|h: u64, u2: Seq<char>| final(backend).token_stored(h, u2)
                        == (old(backend).token_stored(h, u2) && h != parts->Ok_0.0)
                    &&& final(registry)@ == old(registry)@.union(old(backend).blacklist_of(parts->Ok_0.1))
                }),
                Err(e) => ({
                    &&& final(registry)@ == old(registry)@
                    &&& match e {
                        AuthError::MissingRefreshToken => {
                            &&& parts == Err::<(u64, Seq<char>), AuthError>(AuthError::MissingRefreshToken)
                            &&& *final(backend) == *old(backend)
                        },
                        AuthError::InvalidRefreshToken => {
                            &&& parts == Err::<(u64, Seq<char>), AuthError>(AuthError::InvalidRefreshToken)
                                || (parts matches Ok(p) && !old(backend).token_stored(p.0, p.1))
                            &&& *final(backend) == *old(backend)
                        },
                        AuthError::Backend(_) => {
                            &&& parts is Ok
                            &&& {
                                ||| forall|h: u64, u2: Seq<char>| final(backend).token_stored(h, u2)
                                    == old(backend).token_stored(h, u2)
                                ||| forall|h: u64, u2: Seq<char>| final(backend).token_stored(h, u2)
                                    == (old(backend).token_stored(h, u2) && h != parts->Ok_0.0)
                            }
                        },
                    }
                }),
            }
        }),
        forall|n: Seq<char>, pw: Seq<char>|
            final(backend).valid_bind(n, pw) == old(backend).valid_bind(n, pw),
        forall|u: Seq<char>| final(backend).groups_of(u) == old(backend).groups_of(u),
        forall|u: Seq<char>| final(backend).blacklist_of(u) == old(backend).blacklist_of(u),
        final(backend).refresh_window() == old(backend).refresh_window(),
{
    let (hash, user) = match get_refresh_token_from_cookie(cookie) {
        Ok(p) => p,
        Err(e) => {
            return Err(e);
        },
    };
    let found = match backend.check_token(hash, &user) {
        Ok(b) => b,
        Err(e) => {
            return Err(AuthError::Backend(e));
        },
    };
    if !found {
        return Err(AuthError::InvalidRefreshToken);
    }
    match backend.delete_refresh_token(hash) {
        Ok(u) => u,
        Err(e) => {
            return Err(AuthError::Backend(e));
        },
    };
    let hashes = match backend.blacklist_jwts(&user) {
        Ok(v) => v,
        Err(e) => {
            return Err(AuthError::Backend(e));
        },
    };
    let ghost target = old(registry)@.union(hashes@.to_set());
    let mut i: usize = 0;
    proof {
        assert(old(registry)@.union(hashes@.take(0).to_set()) =~= old(registry)@);
    }
    while i < hashes.len()
        invariant
            i <= hashes@.len(),
            registry@ == old(registry)@.union(hashes@.take(i as int).to_set()),
        decreases hashes@.len() - i,
    {
        let h = hashes[i];
        registry.add(h);
        proof {
            let prev = hashes@.take(i as int);
            let cur = hashes@.take(i as int + 1);
            assert(cur =~= prev.push(h));
            assert forall|x: u64| cur.to_set().contains(x) <==> prev.to_set().contains(x) || x == h by {
                if cur.contains(x) {
                    let k = choose|k: int| 0 <= k < cur.len() && cur[k] == x;
                    if k < prev.len() {
                        assert(prev[k] == x);
                        assert(prev.contains(x));
                    }
                }
                if prev.contains(x) {
                    let k = choose|k: int| 0 <= k < prev.len() && prev[k] == x;
                    assert(cur[k] == x);
                    assert(cur.contains(x));
                }
                if x == h {
                    assert(cur[cur.len() - 1] == x);
                    assert(cur.contains(x));
                }
            }
            assert(registry@ =~= old(registry)@.union(cur.to_set()));
        }
        i += 1;
    }
    proof {
        assert(hashes@.take(hashes@.len() as int) =~= hashes@);
    }
    Ok(())
}

} // verus!
