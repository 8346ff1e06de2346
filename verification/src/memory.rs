//! An in-memory directory backend: a verified reference implementation
//! of the [`Backend`] contract, also the test double for the session
//! handlers.
//!
//! It stores credentials, per-user group sets, refresh-token records and
//! per-user blacklists in plain vectors. A refresh-token record holds
//! only the 64-bit hash of the raw token, never the raw value itself;
//! raw tokens are drawn from a counter here, where a production backend
//! would draw them from a random source.

use vstd::prelude::*;
use crate::hashing::{fnv1a_hash, hash_token};
use crate::hexnum::{hex_width, all_hex, is_hex_digit, hex_val, u64_to_hex16};
use crate::session::{Backend, BackendError, BindRequest};

verus! {

pub struct UserEntry {
    pub name: String,
    pub password: String,
}

pub struct GroupEntry {
    pub user: String,
    pub groups: Vec<String>,
}

pub struct TokenEntry {
    pub hash: u64,
    pub user: String,
}

pub struct JwtEntry {
    pub user: String,
    pub hash: u64,
}

pub open spec fn user_in(s: Seq<UserEntry>, name: Seq<char>, password: Seq<char>) -> bool {
    exists|i: int| 0 <= i < s.len() && (#[trigger] s[i]).name@ == name && s[i].password@ == password
}

pub open spec fn token_in(s: Seq<TokenEntry>, hash: u64, user: Seq<char>) -> bool {
    exists|i: int| 0 <= i < s.len() && (#[trigger] s[i]).hash == hash && s[i].user@ == user
}

pub open spec fn jwt_in(s: Seq<JwtEntry>, user: Seq<char>, hash: u64) -> bool {
    exists|i: int| 0 <= i < s.len() && (#[trigger] s[i]).user@ == user && s[i].hash == hash
}

/// The group set of the first entry for `user`, if any; later entries
/// for the same user are shadowed by `set_user_groups`.
pub open spec fn groups_in(s: Seq<GroupEntry>, user: Seq<char>) -> Seq<Seq<char>>
    decreases s.len(),
{
    if s.len() == 0 {
        Seq::empty()
    } else if s.first().user@ == user {
        s.first().groups.deep_view()
    } else {
        groups_in(s.drop_first(), user)
    }
}

pub struct MemoryBackend {
    pub users: Vec<UserEntry>,
    pub group_sets: Vec<GroupEntry>,
    pub tokens: Vec<TokenEntry>,
    pub jwt_hashes: Vec<JwtEntry>,
    pub next_token: u64,
}

fn clone_string_vec(v: &Vec<String>) -> (r: Vec<String>)
    ensures
        r.deep_view() == v.deep_view(),
{
    let mut r: Vec<String> = Vec::new();
    let mut i: usize = 0;
    while i < v.len()
        invariant
            i <= v@.len(),
            r@.len() == i,
            forall|k: int| 0 <= k < i ==> #[trigger] r@[k] == v@[k],
        decreases v@.len() - i,
    {
        r.push(v[i].clone());
        i += 1;
    }
    proof {
        assert(r.deep_view() =~= v.deep_view());
    }
    r
}

impl MemoryBackend {
    /// An empty backend: no users, no groups, no tokens, nothing revoked.
    pub fn new() -> (r: Self)
        ensures
            forall|n: Seq<char>, p: Seq<char>| !r.valid_bind(n, p),
            forall|u: Seq<char>| r.groups_of(u) == Seq::<Seq<char>>::empty(),
            forall|h: u64, u: Seq<char>| !r.token_stored(h, u),
            forall|u: Seq<char>| r.blacklist_of(u) == Set::<u64>::empty(),
    {
        let r = MemoryBackend {
            users: Vec::new(),
            group_sets: Vec::new(),
            tokens: Vec::new(),
            jwt_hashes: Vec::new(),
            next_token: 0,
        };
        proof {
            assert(forall|u: Seq<char>| #[trigger] r.blacklist_of(u) =~= Set::<u64>::empty());
        }
        r
    }

    /// Registers a user with a credential.
    pub fn add_user(&mut self, name: String, password: String)
        ensures
            forall|n: Seq<char>, p: Seq<char>| final(self).valid_bind(n, p)
                == (old(self).valid_bind(n, p) || (n == name@ && p == password@)),
            forall|u: Seq<char>| final(self).groups_of(u) == old(self).groups_of(u),
            forall|h: u64, u: Seq<char>| final(self).token_stored(h, u) == old(self).token_stored(h, u),
            forall|u: Seq<char>| final(self).blacklist_of(u) == old(self).blacklist_of(u),
    {
        let ghost nv = name@;
        let ghost pv = password@;
        self.users.push(UserEntry { name, password });
        proof {
            let news = self.users@;
            let olds = old(self).users@;
            assert forall|n: Seq<char>, p: Seq<char>| user_in(news, n, p)
                <==> (user_in(olds, n, p) || (n == nv && p == pv)) by {
                if user_in(news, n, p) {
                    let i = choose|i: int| 0 <= i < news.len() && (#[trigger] news[i]).name@ == n
                        && news[i].password@ == p;
                    if i < olds.len() {
                        assert(olds[i].name@ == n && olds[i].password@ == p);
                    }
                }
                if user_in(olds, n, p) {
                    let i = choose|i: int| 0 <= i < olds.len() && (#[trigger] olds[i]).name@ == n
                        && olds[i].password@ == p;
                    assert(news[i].name@ == n && news[i].password@ == p);
                }
                if n == nv && p == pv {
                    assert(news[news.len() - 1].name@ == n && news[news.len() - 1].password@ == p);
                }
            }
            assert(forall|u: Seq<char>| #[trigger] final(self).blacklist_of(u)
                =~= old(self).blacklist_of(u));
        }
    }

    /// Sets (or replaces) a user's group memberships.
    pub fn set_user_groups(&mut self, user: String, groups: Vec<String>)
        ensures
            final(self).groups_of(user@) == groups.deep_view(),
            forall|u: Seq<char>| u != user@ ==> final(self).groups_of(u) == old(self).groups_of(u),
            forall|n: Seq<char>, p: Seq<char>| final(self).valid_bind(n, p) == old(self).valid_bind(n, p),
            forall|h: u64, u: Seq<char>| final(self).token_stored(h, u) == old(self).token_stored(h, u),
            forall|u: Seq<char>| final(self).blacklist_of(u) == old(self).blacklist_of(u),
    {
        let ghost uv = user@;
        let entry = GroupEntry { user, groups };
        let ghost e = entry;
        self.group_sets.insert(0, entry);
        proof {
            assert(self.group_sets@ =~= seq![e] + old(self).group_sets@);
            assert(self.group_sets@.first() == e);
            assert(self.group_sets@.drop_first() =~= old(self).group_sets@);
            assert(forall|u: Seq<char>| #[trigger] final(self).blacklist_of(u)
                =~= old(self).blacklist_of(u));
        }
    }

    /// Records an issued access-token hash for a user, so that logout
    /// can blacklist it later.
    pub fn record_jwt(&mut self, user: String, hash: u64)
        ensures
            final(self).blacklist_of(user@) == old(self).blacklist_of(user@).insert(hash),
            forall|u: Seq<char>| u != user@ ==> final(self).blacklist_of(u) == old(self).blacklist_of(u),
            forall|n: Seq<char>, p: Seq<char>| final(self).valid_bind(n, p) == old(self).valid_bind(n, p),
            forall|u: Seq<char>| final(self).groups_of(u) == old(self).groups_of(u),
            forall|h: u64, u: Seq<char>| final(self).token_stored(h, u) == old(self).token_stored(h, u),
    {
        let ghost uv = user@;
        self.jwt_hashes.push(JwtEntry { user, hash });
        proof {
            let news = self.jwt_hashes@;
            let olds = old(self).jwt_hashes@;
            assert forall|u: Seq<char>, h: u64| jwt_in(news, u, h)
                <==> (jwt_in(olds, u, h) || (u == uv && h == hash)) by {
                if jwt_in(news, u, h) {
                    let i = choose|i: int| 0 <= i < news.len() && (#[trigger] news[i]).user@ == u
                        && news[i].hash == h;
                    if i < olds.len() {
                        assert(olds[i].user@ == u && olds[i].hash == h);
                    }
                }
                if jwt_in(olds, u, h) {
                    let i = choose|i: int| 0 <= i < olds.len() && (#[trigger] olds[i]).user@ == u
                        && olds[i].hash == h;
                    assert(news[i].user@ == u && news[i].hash == h);
                }
                if u == uv && h == hash {
                    assert(news[news.len() - 1].user@ == u && news[news.len() - 1].hash == h);
                }
            }
            assert(final(self).blacklist_of(uv) =~= old(self).blacklist_of(uv).insert(hash));
            assert forall|u: Seq<char>| u != uv implies #[trigger] final(self).blacklist_of(u)
                == old(self).blacklist_of(u) by {
                assert(final(self).blacklist_of(u) =~= old(self).blacklist_of(u));
            }
        }
    }
}

/// Refresh-token secrecy: a refresh-token record holds the 64-bit hash
/// of the raw token, and even that hash's canonical sixteen-digit
/// rendering can never coincide with a raw token this backend hands
/// out, every raw token being eighteen characters long.
pub proof fn lemma_stored_hash_is_not_raw(raw: Seq<char>, h: u64)
    requires
        raw.len() != 16,
    ensures
        hex_width(h as int, 16) != raw,
{
    crate::hexnum::lemma_pow16_16();
    crate::hexnum::lemma_hex_width_val(h as int, 16);
}

impl Backend for MemoryBackend {
    open spec fn valid_bind(&self, name: Seq<char>, password: Seq<char>) -> bool {
        user_in(self.users@, name, password)
    }

    open spec fn groups_of(&self, user: Seq<char>) -> Seq<Seq<char>> {
        groups_in(self.group_sets@, user)
    }

    open spec fn token_stored(&self, hash: u64, user: Seq<char>) -> bool {
        token_in(self.tokens@, hash, user)
    }

    open spec fn blacklist_of(&self, user: Seq<char>) -> Set<u64> {
        Set::new(|h: u64| jwt_in(self.jwt_hashes@, user, h))
    }

    open spec fn refresh_window(&self) -> u64 {
        crate::REFRESH_LIFETIME_SECONDS
    }

    fn bind(&self, request: &BindRequest) -> (r: Result<(), BackendError>)
        ensures
            r is Ok <==> self.valid_bind(request.name@, request.password@),
            r is Err ==> r == Err::<(), BackendError>(BackendError::AuthenticationFailed),
    {
        let mut i: usize = 0;
        while i < self.users.len()
            invariant
                i <= self.users@.len(),
                forall|k: int| 0 <= k < i ==> !((#[trigger] self.users@[k]).name@ == request.name@
                    && self.users@[k].password@ == request.password@),
            decreases self.users@.len() - i,
        {
            if self.users[i].name.eq(&request.name) && self.users[i].password.eq(&request.password) {
                return Ok(());
            }
            i += 1;
        }
        Err(BackendError::AuthenticationFailed)
    }

    fn get_user_groups(&self, user: &String) -> (r: Result<Vec<String>, BackendError>)
        ensures
            r matches Ok(g) && g.deep_view() == self.groups_of(user@),
    {
        let s = &self.group_sets;
        let mut i: usize = 0;
        proof {
            assert(s@.skip(0) =~= s@);
        }
        while i < s.len()
            invariant
                i <= s@.len(),
                s == &self.group_sets,
                groups_in(s@.skip(i as int), user@) == self.groups_of(user@),
            decreases s@.len() - i,
        {
            proof {
                assert(s@.skip(i as int).first() == s@[i as int]);
                assert(s@.skip(i as int).drop_first() =~= s@.skip(i as int + 1));
            }
            if s[i].user.eq(user) {
                return Ok(clone_string_vec(&s[i].groups));
            }
            i += 1;
        }
        proof {
            assert(s@.skip(s@.len() as int) =~= Seq::<GroupEntry>::empty());
        }
        let empty: Vec<String> = Vec::new();
        proof {
            assert(empty.deep_view() =~= Seq::<Seq<char>>::empty());
        }
        Ok(empty)
    }

    fn create_refresh_token(&mut self, user: &String) -> (r: Result<(String, u64), BackendError>)
        ensures
            r is Ok,
            r matches Ok(p) ==> p.0@.len() == 18,
    {
        let mut raw = String::from_str("rt");
        raw.append(u64_to_hex16(self.next_token).as_str());
        self.next_token = self.next_token.wrapping_add(1);
        let h = hash_token(raw.as_str());
        let ghost uv = user@;
        self.tokens.push(TokenEntry { hash: h, user: user.clone() });
        proof {
            reveal_strlit("rt");
            assert forall|k: int| 0 <= k < raw@.len() implies raw@[k] != '+' by {
                if k < 2 {
                    assert(raw@[k] == "rt"@[k]);
                } else {
                    assert(is_hex_digit(hex_width(old(self).next_token as int, 16)[k - 2]));
                    assert(raw@[k] == hex_width(old(self).next_token as int, 16)[k - 2]);
                    assert(hex_val('+') == 16);
                }
            }
            let news = self.tokens@;
            let olds = old(self).tokens@;
            assert forall|h2: u64, u2: Seq<char>| token_in(news, h2, u2)
                <==> (token_in(olds, h2, u2) || (h2 == fnv1a_hash(raw@) && u2 == uv)) by {
                if token_in(news, h2, u2) {
                    let i = choose|i: int| 0 <= i < news.len() && (#[trigger] news[i]).hash == h2
                        && news[i].user@ == u2;
                    if i < olds.len() {
                        assert(olds[i].hash == h2 && olds[i].user@ == u2);
                    }
                }
                if token_in(olds, h2, u2) {
                    let i = choose|i: int| 0 <= i < olds.len() && (#[trigger] olds[i]).hash == h2
                        && olds[i].user@ == u2;
                    assert(news[i].hash == h2 && news[i].user@ == u2);
                }
                if h2 == fnv1a_hash(raw@) && u2 == uv {
                    assert(news[news.len() - 1].hash == h2 && news[news.len() - 1].user@ == u2);
                }
            }
            assert(forall|u: Seq<char>| #[trigger] final(self).blacklist_of(u)
                =~= old(self).blacklist_of(u));
        }
        Ok((raw, crate::REFRESH_LIFETIME_SECONDS))
    }

    fn check_token(&self, hash: u64, user: &String) -> (r: Result<bool, BackendError>)
        ensures
            r == Ok::<bool, BackendError>(self.token_stored(hash, user@)),
    {
        let mut i: usize = 0;
        while i < self.tokens.len()
            invariant
                i <= self.tokens@.len(),
                forall|k: int| 0 <= k < i ==> !((#[trigger] self.tokens@[k]).hash == hash
                    && self.tokens@[k].user@ == user@),
            decreases self.tokens@.len() - i,
        {
            if self.tokens[i].hash == hash && self.tokens[i].user.eq(user) {
                return Ok(true);
            }
            i += 1;
        }
        Ok(false)
    }

    fn delete_refresh_token(&mut self, hash: u64) -> (r: Result<(), BackendError>)
        ensures
            r is Ok,
    {
        let mut kept: Vec<TokenEntry> = Vec::new();
        let mut i: usize = 0;
        while i < self.tokens.len()
            invariant
                i <= self.tokens@.len(),
                self.tokens@ == old(self).tokens@,
                self.users@ == old(self).users@,
                self.group_sets@ == old(self).group_sets@,
                self.jwt_hashes@ == old(self).jwt_hashes@,
                forall|h2: u64, u2: Seq<char>| token_in(kept@, h2, u2)
                    <==> exists|j: int| 0 <= j < i && (#[trigger] self.tokens@[j]).hash == h2
                        && self.tokens@[j].user@ == u2 && h2 != hash,
            decreases self.tokens@.len() - i,
        {
            let ghost prevk = kept@;
            let keep_it = self.tokens[i].hash != hash;
            if keep_it {
                let e = TokenEntry { hash: self.tokens[i].hash, user: self.tokens[i].user.clone() };
                proof {
                    assert(e.hash == self.tokens@[i as int].hash);
                    assert(e.user@ == self.tokens@[i as int].user@);
                }
                kept.push(e);
            }
            proof {
                let news = kept@;
                assert forall|h2: u64, u2: Seq<char>| token_in(news, h2, u2)
                    <==> exists|j: int| 0 <= j < i + 1 && (#[trigger] self.tokens@[j]).hash == h2
                        && self.tokens@[j].user@ == u2 && h2 != hash by {
                    if token_in(news, h2, u2) {
                        let m = choose|m: int| 0 <= m < news.len() && (#[trigger] news[m]).hash == h2
                            && news[m].user@ == u2;
                        if m < prevk.len() {
                            assert(prevk[m].hash == h2 && prevk[m].user@ == u2);
                            assert(token_in(prevk, h2, u2));
                            let jj = choose|j: int| 0 <= j < i && (#[trigger] self.tokens@[j]).hash == h2
                                && self.tokens@[j].user@ == u2 && h2 != hash;
                            assert(0 <= jj < i + 1);
                        } else {
                            assert(keep_it);
                            assert(self.tokens@[i as int].hash == h2
                                && self.tokens@[i as int].user@ == u2 && h2 != hash);
                        }
                    }
                    if exists|j: int| 0 <= j < i + 1 && (#[trigger] self.tokens@[j]).hash == h2
                        && self.tokens@[j].user@ == u2 && h2 != hash {
                        let j = choose|j: int| 0 <= j < i + 1 && (#[trigger] self.tokens@[j]).hash == h2
                            && self.tokens@[j].user@ == u2 && h2 != hash;
                        if j < i {
                            assert(token_in(prevk, h2, u2));
                            let m = choose|m: int| 0 <= m < prevk.len() && (#[trigger] prevk[m]).hash == h2
                                && prevk[m].user@ == u2;
                            assert(news[m].hash == h2 && news[m].user@ == u2);
                        } else {
                            assert(keep_it);
                            assert(news[news.len() - 1].hash == h2 && news[news.len() - 1].user@ == u2);
                        }
                    }
                }
            }
            i += 1;
        }
        self.tokens = kept;
        proof {
            assert forall|h2: u64, u2: Seq<char>| final(self).token_stored(h2, u2)
                == (old(self).token_stored(h2, u2) && h2 != hash) by {
                if old(self).token_stored(h2, u2) && h2 != hash {
                    let j = choose|j: int| 0 <= j < old(self).tokens@.len()
                        && (#[trigger] old(self).tokens@[j]).hash == h2 && old(self).tokens@[j].user@ == u2;
                    assert(0 <= j < old(self).tokens@.len() && old(self).tokens@[j].hash == h2
                        && old(self).tokens@[j].user@ == u2 && h2 != hash);
                }
            }
            assert(forall|u: Seq<char>| #[trigger] final(self).blacklist_of(u)
                =~= old(self).blacklist_of(u));
        }
        Ok(())
    }

    fn blacklist_jwts(&self, user: &String) -> (r: Result<Vec<u64>, BackendError>)
        ensures
            r matches Ok(v) && v@.to_set() == self.blacklist_of(user@),
    {
        let mut out: Vec<u64> = Vec::new();
        let mut i: usize = 0;
        while i < self.jwt_hashes.len()
            invariant
                i <= self.jwt_hashes@.len(),
                forall|h2: u64| out@.contains(h2) <==> exists|j: int| 0 <= j < i
                    && (#[trigger] self.jwt_hashes@[j]).user@ == user@
                    && self.jwt_hashes@[j].hash == h2,
            decreases self.jwt_hashes@.len() - i,
        {
            let ghost prevo = out@;
            let matched = self.jwt_hashes[i].user.eq(user);
            if matched {
                out.push(self.jwt_hashes[i].hash);
            }
            proof {
                let news = out@;
                assert forall|h2: u64| news.contains(h2) <==> exists|j: int| 0 <= j < i + 1
                    && (#[trigger] self.jwt_hashes@[j]).user@ == user@
                    && self.jwt_hashes@[j].hash == h2 by {
                    if news.contains(h2) {
                        let m = choose|m: int| 0 <= m < news.len() && news[m] == h2;
                        if m < prevo.len() {
                            assert(prevo[m] == h2);
                            assert(prevo.contains(h2));
                            let jj = choose|j: int| 0 <= j < i
                                && (#[trigger] self.jwt_hashes@[j]).user@ == user@
                                && self.jwt_hashes@[j].hash == h2;
                            assert(0 <= jj < i + 1);
                        } else {
                            assert(matched);
                            assert(self.jwt_hashes@[i as int].user@ == user@
                                && self.jwt_hashes@[i as int].hash == h2);
                        }
                    }
                    if exists|j: int| 0 <= j < i + 1 && (#[trigger] self.jwt_hashes@[j]).user@ == user@
                        && self.jwt_hashes@[j].hash == h2 {
                        let j = choose|j: int| 0 <= j < i + 1
                            && (#[trigger] self.jwt_hashes@[j]).user@ == user@
                            && self.jwt_hashes@[j].hash == h2;
                        if j < i {
                            assert(prevo.contains(h2));
                            let m = choose|m: int| 0 <= m < prevo.len() && prevo[m] == h2;
                            assert(news[m] == h2);
                            assert(news.contains(h2));
                        } else {
                            assert(matched);
                            assert(news[news.len() - 1] == h2);
                            assert(news.contains(h2));
                        }
                    }
                }
            }
            i += 1;
        }
        proof {
            assert(out@.to_set() =~= self.blacklist_of(user@));
        }
        Ok(out)
    }
}

} // verus!
