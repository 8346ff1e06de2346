use auth_core::hashing::hash_token;
use auth_core::hexnum::u64_to_hex16;
use auth_core::memory::MemoryBackend;
use auth_core::pipeline::{
    cookie_to_header, handle_protected_request, token_validator, validate_bearer, CookieDecision,
    GuardError, RequestOutcome,
};
use auth_core::registry::RevocationRegistry;
use auth_core::session::{
    get_refresh, get_refresh_token_from_cookie, post_authorize, post_logout, AuthError,
    BackendError, BindRequest,
};
use auth_core::token::{mint, verify, VerifyError};
use auth_core::TOKEN_LIFETIME_SECONDS;

fn key() -> Vec<u8> {
    b"a process wide signing key for tests".to_vec()
}

fn admin_groups() -> Vec<String> {
    vec!["lldap_admin".to_string(), "users".to_string()]
}

fn backend_with(name: &str, password: &str, groups: Vec<String>) -> MemoryBackend {
    let mut b = MemoryBackend::new();
    b.add_user(name.to_string(), password.to_string());
    b.set_user_groups(name.to_string(), groups);
    b
}

fn bind(name: &str, password: &str) -> BindRequest {
    BindRequest { name: name.to_string(), password: password.to_string() }
}

#[test]
fn round_trip_full_window() {
    let key = key();
    let now: u64 = 1_700_000_000;
    let token = mint(&key, &"alice".to_string(), &admin_groups(), now);
    let claims = verify(&key, &token).expect("minted token verifies");
    assert_eq!(claims.user, "alice");
    assert_eq!(claims.iat, now);
    assert_eq!(claims.exp, now + TOKEN_LIFETIME_SECONDS);
    assert_eq!(claims.groups, admin_groups());
    let registry = RevocationRegistry::new();
    // Accepted at issuance, mid-window, and at the expiry instant itself.
    for t in [now, now + 43_200, now + TOKEN_LIFETIME_SECONDS] {
        let c = token_validator(&key, &registry, &token, t).expect("valid in window");
        assert_eq!(c.user, "alice");
    }
}

#[test]
fn round_trip_unicode_subject_and_groups() {
    let key = key();
    let now: u64 = 5_000;
    let groups = vec!["lldap_admin".to_string(), "grüppe+eins".to_string()];
    let token = mint(&key, &"bôb".to_string(), &groups, now);
    let claims = verify(&key, &token).expect("verifies");
    assert_eq!(claims.user, "bôb");
    assert_eq!(claims.groups, groups);
}

#[test]
fn tamper_any_character_detected() {
    let key = key();
    let token = mint(&key, &"alice".to_string(), &admin_groups(), 1_000);
    let chars: Vec<char> = token.chars().collect();
    for i in 0..chars.len() {
        let mut altered = chars.clone();
        altered[i] = if altered[i] == 'x' { 'y' } else { 'x' };
        let altered: String = altered.into_iter().collect();
        assert!(
            verify(&key, &altered).is_err(),
            "altered position {} must be rejected",
            i
        );
    }
}

#[test]
fn wrong_key_rejected() {
    let token = mint(&key(), &"alice".to_string(), &admin_groups(), 1_000);
    let other: Vec<u8> = b"another key".to_vec();
    assert!(verify(&other, &token).is_err());
}

#[test]
fn expired_token_rejected() {
    let key = key();
    let now: u64 = 1_000;
    let token = mint(&key, &"alice".to_string(), &admin_groups(), now);
    let registry = RevocationRegistry::new();
    let at = now + TOKEN_LIFETIME_SECONDS + 1;
    assert_eq!(token_validator(&key, &registry, &token, at), Err(GuardError::ExpiredJwt));
    // Signature is still fine: the same token a second earlier is accepted.
    assert!(token_validator(&key, &registry, &token, at - 1).is_ok());
}

#[test]
fn login_issues_token_and_cookie() {
    let key = key();
    let mut backend = backend_with("alice", "pw", admin_groups());
    let resp = post_authorize(&mut backend, &key, &bind("alice", "pw"), 1_000).expect("login");
    let claims = verify(&key, &resp.token).expect("token verifies");
    assert_eq!(claims.user, "alice");
    assert!(resp.refresh_cookie.contains('+'));
    assert!(resp.refresh_cookie.ends_with("+alice"));
    assert_eq!(resp.refresh_max_age, auth_core::REFRESH_LIFETIME_SECONDS);
}

#[test]
fn login_with_bad_credentials_fails() {
    let key = key();
    let mut backend = backend_with("alice", "pw", admin_groups());
    let r = post_authorize(&mut backend, &key, &bind("alice", "wrong"), 1_000);
    assert_eq!(
        r.err().map(|e| format!("{:?}", e)),
        Some(format!("{:?}", AuthError::Backend(BackendError::AuthenticationFailed)))
    );
}

#[test]
fn failed_login_persists_no_refresh_token() {
    let key = key();
    let mut backend = backend_with("alice", "pw", admin_groups());
    assert!(post_authorize(&mut backend, &key, &bind("alice", "wrong"), 1_000).is_err());
    assert!(post_authorize(&mut backend, &key, &bind("nobody", "pw"), 1_000).is_err());
    assert!(backend.tokens.is_empty());
}

#[test]
fn refresh_reflects_new_membership_old_token_keeps_snapshot() {
    let key = key();
    let mut backend = backend_with("alice", "pw", admin_groups());
    let resp = post_authorize(&mut backend, &key, &bind("alice", "pw"), 1_000).expect("login");
    let old_token = resp.token.clone();
    // Membership changes between login and refresh.
    backend.set_user_groups("alice".to_string(), vec!["users".to_string()]);
    let new_token =
        get_refresh(&backend, &key, Some(&resp.refresh_cookie), 2_000).expect("refresh");
    let new_claims = verify(&key, &new_token).expect("new token verifies");
    assert_eq!(new_claims.groups, vec!["users".to_string()]);
    assert_eq!(new_claims.iat, 2_000);
    // The pre-refresh token still carries the old snapshot, unchanged.
    let old_claims = verify(&key, &old_token).expect("old token verifies");
    assert_eq!(old_claims.groups, admin_groups());
}

#[test]
fn refresh_with_missing_or_malformed_cookie() {
    let key = key();
    let backend = backend_with("alice", "pw", admin_groups());
    assert_eq!(get_refresh(&backend, &key, None, 1_000), Err(AuthError::MissingRefreshToken));
    let no_plus = "justatokenwithoutdelimiter".to_string();
    assert_eq!(
        get_refresh(&backend, &key, Some(&no_plus), 1_000),
        Err(AuthError::InvalidRefreshToken)
    );
    let unknown = "deadbeef+alice".to_string();
    assert_eq!(
        get_refresh(&backend, &key, Some(&unknown), 1_000),
        Err(AuthError::InvalidRefreshToken)
    );
}

#[test]
fn refresh_token_is_scoped_to_its_user() {
    let key = key();
    let mut backend = backend_with("alice", "pw", admin_groups());
    backend.add_user("carol".to_string(), "pw2".to_string());
    let resp = post_authorize(&mut backend, &key, &bind("alice", "pw"), 1_000).expect("login");
    let raw = resp.refresh_cookie.split('+').next().unwrap();
    // The same opaque token presented under another user's name is
    // uniformly rejected, indistinguishable from an unknown token.
    let forged = format!("{}+carol", raw);
    assert_eq!(
        get_refresh(&backend, &key, Some(&forged), 2_000),
        Err(AuthError::InvalidRefreshToken)
    );
}

#[test]
fn verify_reports_invalid_signature() {
    let key = key();
    assert_eq!(verify(&key, "notatoken"), Err(VerifyError::InvalidSignature));
    let token = mint(&key, &"alice".to_string(), &admin_groups(), 1_000);
    let truncated: String = token.chars().take(token.chars().count() - 1).collect();
    assert_eq!(verify(&key, &truncated), Err(VerifyError::InvalidSignature));
}

#[test]
fn cookie_parse_splits_on_first_plus() {
    let cookie = "rawtoken+user+with+plus".to_string();
    let (h, user) = get_refresh_token_from_cookie(Some(&cookie)).expect("parses");
    assert_eq!(user, "user+with+plus");
    assert_eq!(h, hash_token("rawtoken"));
}

#[test]
fn logout_revokes_for_one_user_only() {
    let key = key();
    let mut backend = backend_with("alice", "pw", admin_groups());
    backend.add_user("carol".to_string(), "pw2".to_string());
    backend.set_user_groups("carol".to_string(), admin_groups());
    let alice = post_authorize(&mut backend, &key, &bind("alice", "pw"), 1_000).expect("login");
    let carol = post_authorize(&mut backend, &key, &bind("carol", "pw2"), 1_000).expect("login");
    backend.record_jwt("alice".to_string(), hash_token(&alice.token));
    backend.record_jwt("carol".to_string(), hash_token(&carol.token));
    let mut registry = RevocationRegistry::new();
    post_logout(&mut backend, &mut registry, Some(&alice.refresh_cookie)).expect("logout");
    assert_eq!(
        token_validator(&key, &registry, &alice.token, 2_000),
        Err(GuardError::LoggedOut)
    );
    // A different user's token stays valid.
    assert!(token_validator(&key, &registry, &carol.token, 2_000).is_ok());
}

#[test]
fn logout_twice_fails_cleanly_the_second_time() {
    let key = key();
    let mut backend = backend_with("alice", "pw", admin_groups());
    let resp = post_authorize(&mut backend, &key, &bind("alice", "pw"), 1_000).expect("login");
    backend.record_jwt("alice".to_string(), hash_token(&resp.token));
    let mut registry = RevocationRegistry::new();
    assert!(post_logout(&mut backend, &mut registry, Some(&resp.refresh_cookie)).is_ok());
    assert_eq!(
        post_logout(&mut backend, &mut registry, Some(&resp.refresh_cookie)),
        Err(AuthError::InvalidRefreshToken)
    );
    // The revoked refresh token no longer refreshes either.
    assert_eq!(
        get_refresh(&backend, &key, Some(&resp.refresh_cookie), 2_000),
        Err(AuthError::InvalidRefreshToken)
    );
}

#[test]
fn logout_with_missing_cookie() {
    let mut backend = backend_with("alice", "pw", admin_groups());
    let mut registry = RevocationRegistry::new();
    assert_eq!(
        post_logout(&mut backend, &mut registry, None),
        Err(AuthError::MissingRefreshToken)
    );
}

#[test]
fn stored_refresh_representation_differs_from_raw() {
    let key = key();
    let mut backend = backend_with("alice", "pw", admin_groups());
    let resp = post_authorize(&mut backend, &key, &bind("alice", "pw"), 1_000).expect("login");
    let raw = resp.refresh_cookie.split('+').next().unwrap().to_string();
    assert_eq!(backend.tokens.len(), 1);
    let stored = backend.tokens[0].hash;
    assert_eq!(stored, hash_token(&raw));
    // Neither the number nor any rendering of it is the raw secret.
    assert_ne!(u64_to_hex16(stored), raw);
    assert_ne!(format!("{}", stored), raw);
}

#[test]
fn admin_gating() {
    let key = key();
    let now: u64 = 1_000;
    let registry = RevocationRegistry::new();
    let plain = mint(&key, &"mallory".to_string(), &vec!["users".to_string()], now);
    // The bearer checks alone accept the token...
    assert!(validate_bearer(&key, &registry, &plain, now).is_ok());
    // ...but the admin-gated guard turns it away.
    assert_eq!(token_validator(&key, &registry, &plain, now), Err(GuardError::NotInGroup));
}

#[test]
fn cookie_adapter_decisions() {
    let good = "sometokenvalue".to_string();
    match cookie_to_header(Some(&good)) {
        CookieDecision::Header(h) => assert_eq!(h, "Bearer sometokenvalue"),
        _ => panic!("expected a header"),
    }
    let bad = "broken\u{7f}cookie".to_string();
    assert!(matches!(cookie_to_header(Some(&bad)), CookieDecision::BadCookie));
    assert!(matches!(cookie_to_header(None), CookieDecision::NoCookie));
}

#[test]
fn pipeline_bad_cookie_never_reaches_guard_missing_cookie_is_unauthorized() {
    let key = key();
    let registry = RevocationRegistry::new();
    let now: u64 = 1_000;
    let bad = "bad\ncookie".to_string();
    assert!(matches!(
        handle_protected_request(&key, &registry, Some(&bad), now),
        RequestOutcome::BadRequest
    ));
    assert!(matches!(
        handle_protected_request(&key, &registry, None, now),
        RequestOutcome::MissingBearer
    ));
    let token = mint(&key, &"alice".to_string(), &admin_groups(), now);
    match handle_protected_request(&key, &registry, Some(&token), now) {
        RequestOutcome::Allowed(c) => assert_eq!(c.user, "alice"),
        _ => panic!("expected the request to be allowed"),
    }
    let garbage = "notatoken".to_string();
    assert!(matches!(
        handle_protected_request(&key, &registry, Some(&garbage), now),
        RequestOutcome::Denied(GuardError::InvalidJwt)
    ));
}

#[test]
fn hash_token_known_values() {
    // FNV-1a 64-bit reference values.
    assert_eq!(hash_token(""), 0xcbf29ce484222325);
    assert_eq!(hash_token("a"), 0xaf63dc4c8601ec8c);
}

#[test]
fn hex_rendering_exact() {
    assert_eq!(u64_to_hex16(255), "00000000000000ff");
    assert_eq!(u64_to_hex16(0), "0000000000000000");
    assert_eq!(u64_to_hex16(u64::MAX), "ffffffffffffffff");
}

#[test]
fn registry_insert_is_idempotent() {
    let mut registry = RevocationRegistry::new();
    assert!(!registry.contains(7));
    registry.add(7);
    registry.add(7);
    assert!(registry.contains(7));
    assert!(!registry.contains(8));
}
