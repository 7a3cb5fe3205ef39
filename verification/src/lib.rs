//! A session layer with double-submit CSRF protection.
//!
//! The crate has two coupled subsystems: a session store that keeps opaque
//! session state under random 64-character keys with a time-to-live, and a
//! CSRF guard that issues and verifies authenticated token/cookie pairs whose
//! continuity survives token rotation. Cryptography and randomness come from
//! outside crates behind a small set of trusted wrappers; everything else is
//! verified.

pub mod api;
pub mod codec;
pub mod errors;
pub mod framing;
pub mod guard;
pub mod keys;
pub mod session;
pub mod store;
pub mod validate;
