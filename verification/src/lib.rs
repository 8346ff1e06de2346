//! Authentication and session-management core for a directory service.
//!
//! Issues and validates signed access tokens, manages refresh tokens by
//! keyed hash, keeps an in-memory revocation registry consulted on every
//! authorization check, and drives the cookie-to-bearer request pipeline.

pub mod hashing;
pub mod hexnum;
pub mod memory;
pub mod pipeline;
pub mod registry;
pub mod session;
pub mod sign;
pub mod token;

use vstd::prelude::*;

verus! {

/// Number of seconds an access token stays valid after issuance.
pub const TOKEN_LIFETIME_SECONDS: u64 = 86400;

/// Validity window, in seconds, of a refresh token issued by the
/// in-memory backend; refresh tokens outlive access tokens.
pub const REFRESH_LIFETIME_SECONDS: u64 = 2592000;

} // verus!
