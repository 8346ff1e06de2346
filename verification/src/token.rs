//! Token codec: tamper-evident encoding of an access-token claim set.
//!
//! A token is `payload.signature`: the payload serializes the claims
//! (issued-at, expiry, subject, group snapshot) with fixed-width
//! hexadecimal length fields, and the signature is the hexadecimal
//! HMAC-SHA512 digest of the payload under the process key. Claims are
//! immutable once minted; refreshing always mints a brand-new token.

use vstd::prelude::*;
use crate::hexnum::{
    hex_width, hex_of_bytes, hex_to_bytes, parse_hex16_at, all_hex, hex_seq_val,
    lemma_pow16_16, lemma_hex_width_val, lemma_hex_of_bytes_len, lemma_hex_bytes_round_trip,
    lemma_hex_bytes_canon,
    u64_to_hex16, hex16_at, hex_decode_range, append_hex_of_bytes,
};
use crate::sign::{hmac_sha512_of, hmac_sha512, hmac_sha512_verify};

verus! {

/// The claim set carried by an access token.
#[derive(Debug, PartialEq, Eq)]
pub struct Claims {
    pub user: String,
    pub iat: u64,
    pub exp: u64,
    pub groups: Vec<String>,
}

/// Mathematical model of a claim set.
pub struct ClaimsModel {
    pub user: Seq<char>,
    pub iat: u64,
    pub exp: u64,
    pub groups: Seq<Seq<char>>,
}

impl View for Claims {
    type V = ClaimsModel;

    open spec fn view(&self) -> ClaimsModel {
        ClaimsModel {
            user: self.user@,
            iat: self.iat,
            exp: self.exp,
            groups: self.groups.deep_view(),
        }
    }
}

/// Every length field of the claim set fits in one 64-bit word.
pub open spec fn wf_claims(c: ClaimsModel) -> bool {
    &&& c.user.len() < 0x10000000000000000
    &&& c.groups.len() < 0x10000000000000000
    &&& forall|i: int| 0 <= i < c.groups.len() ==> (#[trigger] c.groups[i]).len() < 0x10000000000000000
}

/// A length-prefixed string field: sixteen hexadecimal digits, then the text.
pub open spec fn ser_str(s: Seq<char>) -> Seq<char> {
    hex_width(s.len() as int, 16) + s
}

pub open spec fn ser_groups(gs: Seq<Seq<char>>) -> Seq<char>
    decreases gs.len(),
{
    if gs.len() == 0 {
        Seq::empty()
    } else {
        ser_str(gs.first()) + ser_groups(gs.drop_first())
    }
}

/// The token payload: issued-at, expiry, subject, group count, groups.
pub open spec fn ser_claims(c: ClaimsModel) -> Seq<char> {
    hex_width(c.iat as int, 16) + hex_width(c.exp as int, 16) + ser_str(c.user)
        + hex_width(c.groups.len() as int, 16) + ser_groups(c.groups)
}

/// Reads a length-prefixed string field at position `i`.
pub open spec fn parse_str_at(s: Seq<char>, i: int) -> Option<(Seq<char>, int)> {
    if i + 16 <= s.len() {
        match parse_hex16_at(s, i) {
            Some(len) => if i + 16 + len <= s.len() {
                Some((s.subrange(i + 16, i + 16 + len), i + 16 + len))
            } else {
                None
            },
            None => None,
        }
    } else {
        None
    }
}

pub open spec fn parse_groups_at(s: Seq<char>, i: int, n: u64) -> Option<(Seq<Seq<char>>, int)>
    decreases n,
{
    if n == 0 {
        Some((Seq::empty(), i))
    } else {
        match parse_str_at(s, i) {
            Some((g, j)) => match parse_groups_at(s, j, (n - 1) as u64) {
                Some((gs, end)) => Some((seq![g] + gs, end)),
                None => None,
            },
            None => None,
        }
    }
}

/// Reads a whole payload; `None` when the text is not a serialized claim set.
pub open spec fn parse_claims_seq(s: Seq<char>) -> Option<ClaimsModel> {
    if s.len() >= 48 {
        match (parse_hex16_at(s, 0), parse_hex16_at(s, 16)) {
            (Some(iat), Some(exp)) => match parse_str_at(s, 32) {
                Some((user, j)) => if j + 16 <= s.len() {
                    match parse_hex16_at(s, j) {
                        Some(n) => match parse_groups_at(s, j + 16, n) {
                            Some((gs, end)) => if end == s.len() {
                                Some(ClaimsModel { user, iat, exp, groups: gs })
                            } else {
                                None
                            },
                            None => None,
                        },
                        None => None,
                    }
                } else {
                    None
                },
                None => None,
            },
            _ => None,
        }
    } else {
        None
    }
}

/// The signed token text for a claim set under a key.
pub open spec fn token_chars(key: Seq<u8>, c: ClaimsModel) -> Seq<char> {
    ser_claims(c) + seq!['.'] + hex_of_bytes(hmac_sha512_of(key, ser_claims(c)))
}

/// The claim set a token text stands for under a key, if its signature
/// is the payload's digest and its payload is a serialized claim set.
pub open spec fn token_model(key: Seq<u8>, t: Seq<char>) -> Option<ClaimsModel> {
    if t.len() >= 129 && t[t.len() - 129] == '.' {
        let payload = t.subrange(0, t.len() - 129);
        let sig = t.subrange(t.len() - 128, t.len() as int);
        if hex_to_bytes(sig) == Some(hmac_sha512_of(key, payload)) {
            parse_claims_seq(payload)
        } else {
            None
        }
    } else {
        None
    }
}

pub proof fn lemma_ser_groups_push(gs: Seq<Seq<char>>, g: Seq<char>)
    ensures
        ser_groups(gs.push(g)) == ser_groups(gs) + ser_str(g),
    decreases gs.len(),
{
    if gs.len() == 0 {
        let p = gs.push(g);
        assert(p.first() == g);
        assert(p.drop_first() =~= Seq::<Seq<char>>::empty());
        assert(ser_groups(p.drop_first()) == Seq::<char>::empty());
        assert(ser_groups(p) == ser_str(g) + Seq::<char>::empty());
        assert(ser_groups(gs) == Seq::<char>::empty());
        assert(ser_str(g) + Seq::<char>::empty() =~= Seq::<char>::empty() + ser_str(g));
    } else {
        assert(gs.push(g).first() == gs.first());
        assert(gs.push(g).drop_first() =~= gs.drop_first().push(g));
        lemma_ser_groups_push(gs.drop_first(), g);
        assert(ser_groups(gs.push(g)) =~= ser_groups(gs) + ser_str(g));
    }
}

/// A sixteen-digit field reads back the word it was written from.
proof fn lemma_parse_hex16_prefix(s: Seq<char>, i: int, v: u64, rest: Seq<char>)
    requires
        0 <= i <= s.len(),
        s.subrange(i, s.len() as int) == hex_width(v as int, 16) + rest,
    ensures
        i + 16 <= s.len(),
        parse_hex16_at(s, i) == Some(v),
        s.subrange(i + 16, s.len() as int) == rest,
    decreases 0int,
{
    lemma_pow16_16();
    lemma_hex_width_val(v as int, 16);
    let tail = s.subrange(i, s.len() as int);
    assert(tail.len() == 16 + rest.len());
    assert(s.subrange(i, i + 16) =~= hex_width(v as int, 16)) by {
        assert(forall|k: int| 0 <= k < 16 ==> s.subrange(i, i + 16)[k] == #[trigger] tail[k]);
    }
    assert(hex_seq_val(s.subrange(i, i + 16)) == v);
    assert forall|k: int| 0 <= k < rest.len() implies s.subrange(i + 16, s.len() as int)[k]
        == rest[k] by {
        assert(s.subrange(i + 16, s.len() as int)[k] == s[i + 16 + k]);
        assert(tail[k + 16] == s[i + 16 + k]);
        assert(tail[k + 16] == rest[k]);
    }
    assert(s.subrange(i + 16, s.len() as int) =~= rest);
}

/// A length-prefixed field reads back the string it was written from.
proof fn lemma_parse_str_prefix(s: Seq<char>, i: int, g: Seq<char>, rest: Seq<char>)
    requires
        0 <= i <= s.len(),
        g.len() < 0x10000000000000000,
        s.subrange(i, s.len() as int) == ser_str(g) + rest,
    ensures
        parse_str_at(s, i) == Some((g, i + 16 + g.len())),
        i + 16 + g.len() <= s.len(),
        s.subrange(i + 16 + g.len(), s.len() as int) == rest,
{
    let tail = s.subrange(i, s.len() as int);
    assert(tail =~= hex_width(g.len() as int, 16) + (g + rest)) by {
        assert(ser_str(g) + rest =~= hex_width(g.len() as int, 16) + (g + rest));
    }
    lemma_parse_hex16_prefix(s, i, g.len() as u64, g + rest);
    let j = i + 16;
    let tail2 = s.subrange(j, s.len() as int);
    assert(s.subrange(j, j + g.len()) =~= g) by {
        assert(forall|k: int| 0 <= k < g.len() ==> s.subrange(j, j + g.len())[k] == #[trigger] tail2[k]);
    }
    assert forall|k: int| 0 <= k < rest.len() implies s.subrange(j + g.len(), s.len() as int)[k]
        == rest[k] by {
        assert(s.subrange(j + g.len(), s.len() as int)[k] == s[j + g.len() + k]);
        assert(tail2[k + g.len()] == s[j + g.len() + k]);
        assert(tail2[k + g.len()] == (g + rest)[k + g.len()]);
        assert((g + rest)[k + g.len()] == rest[k]);
    }
    assert(s.subrange(j + g.len(), s.len() as int) =~= rest);
}

/// A serialized group list reads back exactly, consuming its own length.
proof fn lemma_parse_groups_prefix(s: Seq<char>, i: int, gs: Seq<Seq<char>>, rest: Seq<char>)
    requires
        0 <= i <= s.len(),
        gs.len() < 0x10000000000000000,
        forall|k: int| 0 <= k < gs.len() ==> (#[trigger] gs[k]).len() < 0x10000000000000000,
        s.subrange(i, s.len() as int) == ser_groups(gs) + rest,
    ensures
        parse_groups_at(s, i, gs.len() as u64) == Some((gs, i + ser_groups(gs).len())),
        i + ser_groups(gs).len() <= s.len(),
        s.subrange(i + ser_groups(gs).len(), s.len() as int) == rest,
    decreases gs.len(),
{
    if gs.len() == 0 {
        assert(ser_groups(gs) =~= Seq::<char>::empty());
        assert(s.subrange(i, s.len() as int) =~= rest);
    } else {
        let g0 = gs.first();
        let gs1 = gs.drop_first();
        assert(ser_groups(gs) == ser_str(g0) + ser_groups(gs1));
        assert(s.subrange(i, s.len() as int) =~= ser_str(g0) + (ser_groups(gs1) + rest)) by {
            assert((ser_str(g0) + ser_groups(gs1)) + rest =~= ser_str(g0) + (ser_groups(gs1) + rest));
        }
        assert(g0.len() < 0x10000000000000000);
        lemma_parse_str_prefix(s, i, g0, ser_groups(gs1) + rest);
        let j = i + 16 + g0.len();
        assert(forall|k: int| 0 <= k < gs1.len() ==> (#[trigger] gs1[k]).len() < 0x10000000000000000)
            by {
            assert(forall|k: int| 0 <= k < gs1.len() ==> #[trigger] gs1[k] == gs[k + 1]);
        }
        lemma_parse_groups_prefix(s, j, gs1, rest);
        assert((gs.len() - 1) as u64 == gs1.len() as u64);
        assert(seq![g0] + gs1 =~= gs);
        assert(ser_groups(gs).len() == 16 + g0.len() + ser_groups(gs1).len());
    }
}

/// Serializing then parsing a well-formed claim set is the identity.
pub proof fn lemma_parse_of_ser(c: ClaimsModel)
    requires
        wf_claims(c),
    ensures
        ser_claims(c).len() >= 48,
        parse_claims_seq(ser_claims(c)) == Some(c),
{
    let s = ser_claims(c);
    let a = hex_width(c.iat as int, 16);
    let b = hex_width(c.exp as int, 16);
    let u = ser_str(c.user);
    let n = hex_width(c.groups.len() as int, 16);
    let g = ser_groups(c.groups);
    lemma_pow16_16();
    lemma_hex_width_val(c.iat as int, 16);
    lemma_hex_width_val(c.exp as int, 16);
    lemma_hex_width_val(c.groups.len() as int, 16);
    assert(s.subrange(0, s.len() as int) =~= a + (b + (u + (n + g))));
    lemma_parse_hex16_prefix(s, 0, c.iat, b + (u + (n + g)));
    lemma_parse_hex16_prefix(s, 16, c.exp, u + (n + g));
    lemma_parse_str_prefix(s, 32, c.user, n + g);
    let j = 32 + 16 + c.user.len() as int;
    lemma_parse_hex16_prefix(s, j, c.groups.len() as u64, g);
    lemma_parse_groups_prefix(s, j + 16, c.groups, Seq::empty());
    assert(j + 16 + ser_groups(c.groups).len() == s.len());
}

/// Round trip: the token text minted for a well-formed claim set stands
/// for exactly that claim set; no claim is lost or altered by encoding.
pub proof fn lemma_token_chars_model(key: Seq<u8>, c: ClaimsModel)
    requires
        wf_claims(c),
        hmac_sha512_of(key, ser_claims(c)).len() == 64,
    ensures
        token_model(key, token_chars(key, c)) == Some(c),
{
    let pl = ser_claims(c);
    let t = token_chars(key, c);
    lemma_hex_of_bytes_len(hmac_sha512_of(key, pl));
    assert(t.len() == pl.len() + 129);
    assert(t[t.len() - 129] == '.');
    assert(t.subrange(0, t.len() - 129) =~= pl);
    assert(t.subrange(t.len() - 128, t.len() as int) =~= hex_of_bytes(hmac_sha512_of(key, pl)));
    lemma_hex_bytes_round_trip(hmac_sha512_of(key, pl));
    lemma_parse_of_ser(c);
}

/// Tamper detection, signature side: altering any character of a token's
/// signature field, while keeping its payload, makes the token invalid.
/// (Altering the payload is caught by the digest check itself, which no
/// statement about the abstract digest can express; the tests exercise it.)
pub proof fn lemma_signature_tamper_detected(key: Seq<u8>, t1: Seq<char>, t2: Seq<char>)
    requires
        token_model(key, t1) is Some,
        t1.len() == t2.len(),
        t2.subrange(0, t2.len() - 129) == t1.subrange(0, t1.len() - 129),
        t2[t2.len() - 129] == '.',
        t2 != t1,
    ensures
        token_model(key, t2) is None,
{
    let n = t1.len() as int;
    let pl = t1.subrange(0, n - 129);
    let sig1 = t1.subrange(n - 128, n);
    let sig2 = t2.subrange(n - 128, n);
    let h = hmac_sha512_of(key, pl);
    assert(hex_to_bytes(sig1) == Some(h));
    if sig2 == sig1 {
        assert(t1.len() >= 129 && t1[n - 129] == '.');
        assert forall|k: int| 0 <= k < n implies t1[k] == t2[k] by {
            if k < n - 129 {
                assert(t2.subrange(0, n - 129)[k] == t2[k]);
                assert(t1.subrange(0, n - 129)[k] == t1[k]);
            } else if k == n - 129 {
                assert(t1[k] == '.' && t2[k] == '.');
            } else {
                assert(sig2[k - (n - 128)] == t2[k]);
                assert(sig1[k - (n - 128)] == t1[k]);
            }
        }
        assert(t2 =~= t1);
        assert(false);
    }
    if hex_to_bytes(sig2) == Some(h) {
        lemma_hex_bytes_canon(sig1, h);
        lemma_hex_bytes_canon(sig2, h);
        assert(false);
    }
}

#[derive(Debug, PartialEq, Eq, Structural)]
pub enum VerifyError {
    /// The token is not a validly signed claim set under the key.
    InvalidSignature,
}

/// Appends a length-prefixed string field to the payload being built.
fn append_str_field(acc: &mut String, s: &String)
    ensures
        final(acc)@ == old(acc)@ + ser_str(s@),
        s@.len() < 0x10000000000000000,
{
    let l: usize = s.as_str().unicode_len();
    acc.append(u64_to_hex16(l as u64).as_str());
    acc.append(s.as_str());
    proof {
        assert(acc@ =~= old(acc)@ + ser_str(s@));
    }
}

/// Mints a signed access token: claims are issued at `now`, expire one
/// day later, and carry the given subject and group snapshot.
pub fn mint(key: &Vec<u8>, user: &String, groups: &Vec<String>, now: u64) -> (r: String)
    requires
        now <= u64::MAX - crate::TOKEN_LIFETIME_SECONDS,
    ensures
        ({
            let c = ClaimsModel {
                user: user@,
                iat: now,
                exp: (now + crate::TOKEN_LIFETIME_SECONDS) as u64,
                groups: groups.deep_view(),
            };
            &&& wf_claims(c)
            &&& r@ == token_chars(key@, c)
            &&& token_model(key@, r@) == Some(c)
        }),
{
    let ghost c = ClaimsModel {
        user: user@,
        iat: now,
        exp: (now + crate::TOKEN_LIFETIME_SECONDS) as u64,
        groups: groups.deep_view(),
    };
    let mut payload = u64_to_hex16(now);
    payload.append(u64_to_hex16(now + crate::TOKEN_LIFETIME_SECONDS).as_str());
    append_str_field(&mut payload, user);
    let ng: usize = groups.len();
    payload.append(u64_to_hex16(ng as u64).as_str());
    let ghost pre = payload@;
    let mut i: usize = 0;
    proof {
        assert(c.groups.take(0) =~= Seq::<Seq<char>>::empty());
        assert(payload@ =~= pre + ser_groups(c.groups.take(0)));
    }
    while i < groups.len()
        invariant
            i <= groups.len(),
            c.groups == groups.deep_view(),
            c.groups.len() == groups.len(),
            payload@ == pre + ser_groups(c.groups.take(i as int)),
            forall|k: int| 0 <= k < i ==> (#[trigger] c.groups[k]).len() < 0x10000000000000000,
        decreases groups.len() - i,
    {
        append_str_field(&mut payload, &groups[i]);
        proof {
            assert(c.groups[i as int] == groups@[i as int]@);
            assert(c.groups[i as int].len() < 0x10000000000000000);
            assert(c.groups.take(i as int + 1) =~= c.groups.take(i as int).push(c.groups[i as int]));
            lemma_ser_groups_push(c.groups.take(i as int), c.groups[i as int]);
            assert(payload@ =~= pre + ser_groups(c.groups.take(i as int + 1)));
        }
        i += 1;
    }
    proof {
        assert(c.groups.take(c.groups.len() as int) =~= c.groups);
        assert(c.user.len() < 0x10000000000000000);
        assert(c.groups.len() == ng);
        assert(wf_claims(c));
        assert(payload@ =~= ser_claims(c));
    }
    let sig = hmac_sha512(key, payload.as_str());
    let mut token = payload;
    token.append(".");
    append_hex_of_bytes(&mut token, &sig);
    proof {
        reveal_strlit(".");
        assert("."@ =~= seq!['.']);
        assert(token@ =~= token_chars(key@, c));
        lemma_token_chars_model(key@, c);
    }
    token
}

/// Reads a length-prefixed string field of the payload.
fn parse_str_field(s: &str, n: usize, from: usize) -> (r: Option<(String, usize)>)
    requires
        n == s@.len(),
        from <= n,
    ensures
        match r {
            Some(p) => {
                &&& parse_str_at(s@, from as int) == Some((p.0@, p.1 as int))
                &&& from <= p.1 <= n
            },
            None => parse_str_at(s@, from as int) is None,
        },
{
    if n - from < 16 {
        return None;
    }
    let len64 = match hex16_at(s, from) {
        Some(v) => v,
        None => {
            return None;
        },
    };
    if len64 > (n - from - 16) as u64 {
        return None;
    }
    let len: usize = len64 as usize;
    let field = s.substring_char(from + 16, from + 16 + len);
    Some((field.to_owned(), from + 16 + len))
}

/// Reads `count` length-prefixed group names of the payload.
fn parse_groups_field(s: &str, n: usize, from: usize, count: u64) -> (r: Option<(Vec<String>, usize)>)
    requires
        n == s@.len(),
        from <= n,
    ensures
        match r {
            Some(p) => {
                &&& parse_groups_at(s@, from as int, count) == Some((p.0.deep_view(), p.1 as int))
                &&& from <= p.1 <= n
            },
            None => parse_groups_at(s@, from as int, count) is None,
        },
    decreases count,
{
    if count == 0 {
        let empty: Vec<String> = Vec::new();
        proof {
            assert(empty.deep_view() =~= Seq::<Seq<char>>::empty());
        }
        return Some((empty, from));
    }
    let (g, j) = match parse_str_field(s, n, from) {
        Some(p) => p,
        None => {
            return None;
        },
    };
    let (mut gs, end) = match parse_groups_field(s, n, j, count - 1) {
        Some(p) => p,
        None => {
            return None;
        },
    };
    let ghost tail_view = gs.deep_view();
    gs.insert(0, g);
    proof {
        assert(gs.deep_view() =~= seq![g@] + tail_view) by {
            assert(forall|k: int| 0 <= k < tail_view.len() ==> gs@[k + 1]@ == #[trigger] tail_view[k]);
        }
    }
    Some((gs, end))
}

/// Reads a whole payload back into a claim set.
fn parse_claims(s: &str) -> (r: Option<Claims>)
    ensures
        match r {
            Some(c) => parse_claims_seq(s@) == Some(c@),
            None => parse_claims_seq(s@) is None,
        },
{
    let n: usize = s.unicode_len();
    if n < 48 {
        return None;
    }
    let iat = match hex16_at(s, 0) {
        Some(v) => v,
        None => {
            return None;
        },
    };
    let exp = match hex16_at(s, 16) {
        Some(v) => v,
        None => {
            return None;
        },
    };
    let (user, j) = match parse_str_field(s, n, 32) {
        Some(p) => p,
        None => {
            return None;
        },
    };
    if n - j < 16 {
        return None;
    }
    let ng = match hex16_at(s, j) {
        Some(v) => v,
        None => {
            return None;
        },
    };
    let (groups, end) = match parse_groups_field(s, n, j + 16, ng) {
        Some(p) => p,
        None => {
            return None;
        },
    };
    if end != n {
        return None;
    }
    Some(Claims { user, iat, exp, groups })
}

/// Checks the signature of a token text and, only if it is the payload's
/// digest under the key, reads the claim set back out of the payload.
pub fn verify(key: &Vec<u8>, token: &str) -> (r: Result<Claims, VerifyError>)
    ensures
        match r {
            Ok(c) => token_model(key@, token@) == Some(c@),
            Err(e) => {
                &&& token_model(key@, token@) is None
                &&& e == VerifyError::InvalidSignature
            },
        },
{
    let n: usize = token.unicode_len();
    if n < 129 {
        return Err(VerifyError::InvalidSignature);
    }
    if token.get_char(n - 129) != '.' {
        return Err(VerifyError::InvalidSignature);
    }
    let tag = match hex_decode_range(token, n - 128, n) {
        Some(b) => b,
        None => {
            return Err(VerifyError::InvalidSignature);
        },
    };
    let payload = token.substring_char(0, n - 129);
    if !hmac_sha512_verify(key, payload, &tag) {
        return Err(VerifyError::InvalidSignature);
    }
    match parse_claims(payload) {
        Some(c) => Ok(c),
        None => Err(VerifyError::InvalidSignature),
    }
}

} // verus!
