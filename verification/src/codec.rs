//! The token codec: authenticated, encrypted CSRF token/cookie pairs.
//!
//! A pair is minted by an authenticated-encryption construction keyed by a
//! fixed 32-byte secret. Both halves carry the same opaque 64-byte value; a
//! cookie is valid only against a token carrying the same value. Minting may
//! take the previous token's value as continuity material, so that rotating
//! the token leaves cookies issued moments earlier verifiable against the
//! new token. The cryptography is the csrf crate's; what it computes is
//! named here and everything decided on the results is verified.
//!
//! Verification here is payload binding and nothing else: the minted cookie
//! also embeds an expiry computed from the validity window, but the crate
//! keeps it inside the parsed cookie with no accessor and reads it only
//! together with its own clock, so this library deliberately leaves it
//! unread — [`verify`] compares the carried values alone.

use vstd::prelude::*;

use crate::session::bytes_eq;
use csrf::{ChaCha20Poly1305CsrfProtection, CsrfProtection};

verus! {

/// The longest validity window a pair may be minted with, in seconds.
pub const MAX_TOKEN_TTL_SECONDS: i64 = 1000000000;

/// A codec failure: `Malformed` is input that is not a pair half (wrong
/// encoding, truncated, or failing authentication); `Internal` is the
/// cryptographic construction refusing to mint.
#[derive(Clone, Copy, Debug, PartialEq, Eq, Structural)]
pub enum CodecError {
    Malformed,
    Internal,
}

/// What base64 encoding makes of bytes, as ASCII bytes.
pub uninterp spec fn b64_of(data: Seq<u8>) -> Seq<u8>;

/// What base64 decoding makes of text: the decoded bytes for well-formed
/// base64, nothing otherwise.
pub uninterp spec fn b64_decode_of(text: Seq<u8>) -> Option<Seq<u8>>;

/// The value carried by an encrypted token under a key: authenticated
/// decryption, a function of key and bytes alone; `None` when the bytes are
/// not a token minted under the key.
pub uninterp spec fn token_value_of(key: Seq<u8>, token: Seq<u8>) -> Option<Seq<u8>>;

/// The value carried by an encrypted cookie under a key; `None` when the
/// bytes are not a cookie minted under the key.
pub uninterp spec fn cookie_value_of(key: Seq<u8>, cookie: Seq<u8>) -> Option<Seq<u8>>;

/// Relies on data-encoding's `BASE64.encode` (RFC 4648, with padding): the
/// encoding is a function of the input alone, and decoding it gives the
/// input back.
#[verifier::external_body]
pub fn b64_encode(data: &[u8]) -> (r: Vec<u8>)
    ensures
        r@ == b64_of(data@),
        b64_decode_of(r@) == Some(data@),
{
    data_encoding::BASE64.encode(data).into_bytes()
}

/// Relies on data-encoding's `BASE64.decode`: accepts exactly well-formed
/// base64; a function of the input alone.
#[verifier::external_body]
pub fn b64_decode(text: &[u8]) -> (r: Option<Vec<u8>>)
    ensures
        r is Some <==> b64_decode_of(text@) is Some,
        r matches Some(v) ==> b64_decode_of(text@) == Some(v@),
{
    data_encoding::BASE64.decode(text).ok()
}

/// Relies on the csrf crate's `ChaCha20Poly1305CsrfProtection::from_key` and
/// `generate_token_pair`: the minted token carries a 64-byte value — the
/// given previous value, or a fresh random one — and the minted cookie
/// carries the same value; parsing either half under the same key gives that
/// value back, the halves being authenticated encryptions of it. The
/// validity window is bounded because the cookie's expiry is built from a
/// calendar duration that only takes moderate spans.
#[verifier::external_body]
fn mint_pair_raw(key: &[u8; 32], previous: Option<&Vec<u8>>, ttl_seconds: i64) -> (r: Option<
    (Vec<u8>, Vec<u8>),
>)
    requires
        0 <= ttl_seconds <= MAX_TOKEN_TTL_SECONDS,
        previous matches Some(p) ==> p@.len() == 64,
    ensures
        r matches Some(pair) ==> {
            &&& token_value_of(key@, pair.0@) is Some
            &&& token_value_of(key@, pair.0@)->0.len() == 64
            &&& cookie_value_of(key@, pair.1@) == token_value_of(key@, pair.0@)
            &&& (previous matches Some(p) ==> token_value_of(key@, pair.0@) == Some(p@))
        },
{
    let p = ChaCha20Poly1305CsrfProtection::from_key(*key);
    let prev: Option<[u8; 64]> = previous.map(|v| v.as_slice().try_into().unwrap());
    match p.generate_token_pair(prev.as_ref(), ttl_seconds) {
        Ok((t, c)) => Some((t.value().to_vec(), c.value().to_vec())),
        Err(_) => None,
    }
}

/// Relies on `ChaCha20Poly1305CsrfProtection::from_key` and `parse_token`:
/// authenticated decryption of a token's bytes, deterministic in key and
/// bytes; a parsed token's value is 64 bytes.
#[verifier::external_body]
fn parse_token_raw(key: &[u8; 32], token: &[u8]) -> (r: Option<Vec<u8>>)
    ensures
        r is Some <==> token_value_of(key@, token@) is Some,
        r matches Some(v) ==> token_value_of(key@, token@) == Some(v@) && v@.len() == 64,
{
    let p = ChaCha20Poly1305CsrfProtection::from_key(*key);
    match p.parse_token(token) {
        Ok(t) => Some(t.value().to_vec()),
        Err(_) => None,
    }
}

/// Relies on `ChaCha20Poly1305CsrfProtection::from_key` and `parse_cookie`:
/// authenticated decryption of a cookie's bytes, deterministic in key and
/// bytes (it reads no clock); a parsed cookie's value is 64 bytes. The
/// expiry embedded beside the value stays inside the crate's parsed cookie,
/// which exposes no way to read it.
#[verifier::external_body]
fn parse_cookie_raw(key: &[u8; 32], cookie: &[u8]) -> (r: Option<Vec<u8>>)
    ensures
        r is Some <==> cookie_value_of(key@, cookie@) is Some,
        r matches Some(v) ==> cookie_value_of(key@, cookie@) == Some(v@) && v@.len() == 64,
{
    let p = ChaCha20Poly1305CsrfProtection::from_key(*key);
    match p.parse_cookie(cookie) {
        Ok(c) => Some(c.value().to_vec()),
        Err(_) => None,
    }
}

/// A token parsed and authenticated: the 64-byte value it carries.
#[derive(Debug)]
pub struct ParsedToken {
    value: Vec<u8>,
}

impl View for ParsedToken {
    type V = Seq<u8>;

    closed spec fn view(&self) -> Seq<u8> {
        self.value@
    }
}

impl ParsedToken {
    /// A parsed token's value is always 64 bytes.
    pub open spec fn wf(&self) -> bool {
        self@.len() == 64
    }

    /// The carried value.
    pub fn value(&self) -> (r: &Vec<u8>)
        ensures
            r@ == self@,
    {
        &self.value
    }
}

/// A cookie parsed and authenticated: the 64-byte value it carries.
#[derive(Debug)]
pub struct ParsedCookie {
    value: Vec<u8>,
}

impl View for ParsedCookie {
    type V = Seq<u8>;

    closed spec fn view(&self) -> Seq<u8> {
        self.value@
    }
}

impl ParsedCookie {
    /// A parsed cookie's value is always 64 bytes.
    pub open spec fn wf(&self) -> bool {
        self@.len() == 64
    }

    /// The carried value.
    pub fn value(&self) -> (r: &Vec<u8>)
        ensures
            r@ == self@,
    {
        &self.value
    }
}

/// A freshly minted pair: the server-held token and the client-held cookie,
/// both raw bytes ready to be base64-encoded for transport.
pub struct TokenPair {
    pub token: Vec<u8>,
    pub cookie: Vec<u8>,
}

/// Mint a token/cookie pair under `secret`. The validity window
/// `ttl_seconds` is embedded into the cookie; this library's verification
/// reads the carried values only, so the window matters to consumers that
/// check it, not to [`verify`]. With continuity material the new token
/// carries the previous token's value, so cookies issued against the
/// previous token still verify against the new one; without it the value is
/// fresh. Fails only when the cryptographic construction refuses.
pub fn generate_pair(secret: &[u8; 32], previous: Option<&ParsedToken>, ttl_seconds: i64) -> (r:
    Result<TokenPair, CodecError>)
    requires
        0 <= ttl_seconds <= MAX_TOKEN_TTL_SECONDS,
        previous matches Some(p) ==> p.wf(),
    ensures
        r matches Ok(pair) ==> {
            &&& token_value_of(secret@, pair.token@) is Some
            &&& token_value_of(secret@, pair.token@)->0.len() == 64
            &&& cookie_value_of(secret@, pair.cookie@) == token_value_of(secret@, pair.token@)
            &&& (previous matches Some(p) ==> token_value_of(secret@, pair.token@) == Some(p@))
        },
        r matches Err(e) ==> e == CodecError::Internal,
{
    let prev_value = match previous {
        Some(p) => Some(p.value()),
        None => None,
    };
    match mint_pair_raw(secret, prev_value, ttl_seconds) {
        Some((token, cookie)) => Ok(TokenPair { token, cookie }),
        None => Err(CodecError::Internal),
    }
}

/// Parse a token's raw bytes under `secret`: exactly the bytes carrying a
/// value under this key are accepted, anything else is `Malformed`.
pub fn parse_token(secret: &[u8; 32], bytes: &[u8]) -> (r: Result<ParsedToken, CodecError>)
    ensures
        r is Ok <==> token_value_of(secret@, bytes@) is Some,
        r matches Ok(t) ==> Some(t@) == token_value_of(secret@, bytes@) && t.wf(),
        r matches Err(e) ==> e == CodecError::Malformed,
{
    match parse_token_raw(secret, bytes) {
        Some(value) => Ok(ParsedToken { value }),
        None => Err(CodecError::Malformed),
    }
}

/// Parse a cookie's raw bytes under `secret`: exactly the bytes carrying a
/// value under this key are accepted, anything else is `Malformed`.
pub fn parse_cookie(secret: &[u8; 32], bytes: &[u8]) -> (r: Result<ParsedCookie, CodecError>)
    ensures
        r is Ok <==> cookie_value_of(secret@, bytes@) is Some,
        r matches Ok(c) ==> Some(c@) == cookie_value_of(secret@, bytes@) && c.wf(),
        r matches Err(e) ==> e == CodecError::Malformed,
{
    match parse_cookie_raw(secret, bytes) {
        Some(value) => Ok(ParsedCookie { value }),
        None => Err(CodecError::Malformed),
    }
}

/// Verify a parsed pair: true exactly when the cookie's authenticated value
/// is the token's. A cookie from an unrelated pair, or any tampering that
/// survives parsing, carries a different value and is refused. The expiry
/// embedded in the cookie at minting is deliberately not consulted:
/// verification is the cryptographic binding of the pair, and the window's
/// enforcement is left to the session entry's own lifetime.
pub fn verify(token: &ParsedToken, cookie: &ParsedCookie) -> (r: bool)
    ensures
        r == (token@ == cookie@),
{
    bytes_eq(token.value().as_slice(), cookie.value().as_slice())
}

/// A minted pair verifies against itself: the cookie carries exactly the
/// token's value, so parsing both halves under the minting key and comparing
/// the values succeeds.
pub proof fn lemma_fresh_pair_verifies(key: Seq<u8>, token: Seq<u8>, cookie: Seq<u8>)
    requires
        token_value_of(key, token) is Some,
        cookie_value_of(key, cookie) == token_value_of(key, token),
    ensures
        cookie_value_of(key, cookie) is Some,
        token_value_of(key, token)->0 == cookie_value_of(key, cookie)->0,
{
}

/// A cookie carrying a different value than a token never verifies against
/// it: swapping in the cookie of an unrelated pair is refused whenever the
/// two pairs carry different values.
pub proof fn lemma_foreign_cookie_fails(
    key: Seq<u8>,
    token: Seq<u8>,
    cookie: Seq<u8>,
    other_cookie: Seq<u8>,
)
    requires
        token_value_of(key, token) is Some,
        cookie_value_of(key, cookie) == token_value_of(key, token),
        cookie_value_of(key, other_cookie) is Some,
        cookie_value_of(key, other_cookie) != cookie_value_of(key, cookie),
    ensures
        cookie_value_of(key, other_cookie)->0 != token_value_of(key, token)->0,
{
}

/// Rotation with continuity: a pair minted from the previous token's value
/// carries that same value in both halves, so the new cookie verifies
/// against the new token, and a cookie issued against the previous token
/// still does.
pub proof fn lemma_rotation_preserves_continuity(
    key: Seq<u8>,
    token1: Seq<u8>,
    cookie1: Seq<u8>,
    token2: Seq<u8>,
    cookie2: Seq<u8>,
)
    requires
        token_value_of(key, token1) is Some,
        cookie_value_of(key, cookie1) == token_value_of(key, token1),
        // the second pair was minted with the first token's value as
        // continuity material
        token_value_of(key, token2) == Some(token_value_of(key, token1)->0),
        cookie_value_of(key, cookie2) == token_value_of(key, token2),
    ensures
        cookie_value_of(key, cookie2)->0 == token_value_of(key, token2)->0,
        cookie_value_of(key, cookie1)->0 == token_value_of(key, token2)->0,
{
}

} // verus!
