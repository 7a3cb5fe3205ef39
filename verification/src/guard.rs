//! The CSRF guard: per-request enforcement and token issuance.
//!
//! Mutating requests must present a header cookie whose authenticated value
//! matches the token held in the session; safe methods and the dedicated
//! issuance path are never checked. Issuance mints a pair, keeps continuity
//! with the token already in the session when it still parses, and stores
//! the new token back.

use vstd::prelude::*;

use crate::codec::{
    b64_decode, b64_decode_of, b64_encode, b64_of, cookie_value_of, generate_pair, parse_token,
    token_value_of, ParsedToken,
};
use crate::errors::{error_field, error_field_vec, ApiError};
use crate::session::{csrf_key, csrf_key_vec, Session, SessionStatus};

verus! {

/// The validity window of an issued pair, in seconds.
pub const TOKEN_TTL_SECONDS: i64 = 8600;

/// The HTTP methods a request can carry.
#[derive(Clone, Copy, Debug, PartialEq, Eq, Structural)]
pub enum Method {
    Get,
    Head,
    Options,
    Trace,
    Connect,
    Post,
    Put,
    Delete,
    Patch,
}

/// A guard rejection: no proof presented, or proof that does not hold up.
/// Both are answered 403 with a body naming the error.
#[derive(Clone, Copy, Debug, PartialEq, Eq, Structural)]
pub enum CsrfError {
    CsrfMissing,
    CsrfInvalid,
}

impl CsrfError {
    /// Every guard rejection is 403.
    pub fn status_code(&self) -> (r: u16)
        ensures
            r == 403u16,
    {
        403
    }

    /// The body a rejection is answered with: a JSON object naming the
    /// error under the field `error`.
    pub fn response_body(&self) -> (r: Vec<u8>)
        ensures
            r@ == crate::errors::json_object_body(error_field(), match self {
                CsrfError::CsrfMissing => csrf_missing_msg(),
                CsrfError::CsrfInvalid => csrf_invalid_msg(),
            }),
    {
        let field: Vec<u8> = error_field_vec();
        let msg: Vec<u8> = match self {
            CsrfError::CsrfMissing => vec![
                67, 83, 82, 70, 32, 116, 111, 107, 101, 110, 32, 105, 115, 32, 109, 105, 115,
                115, 105, 110, 103,
            ],
            CsrfError::CsrfInvalid => vec![
                67, 83, 82, 70, 32, 116, 111, 107, 101, 110, 32, 105, 115, 32, 105, 110, 118,
                97, 108, 105, 100,
            ],
        };
        proof {
            match self {
                CsrfError::CsrfMissing => {
                    assert(msg@ =~= csrf_missing_msg());
                },
                CsrfError::CsrfInvalid => {
                    assert(msg@ =~= csrf_invalid_msg());
                },
            }
        }
        crate::errors::json_field_body(field.as_slice(), msg.as_slice())
    }

    /// The message placed in the rejection's body.
    pub fn message_text(&self) -> (r: String)
        ensures
            r@ == match self {
                CsrfError::CsrfMissing => "CSRF token is missing"@,
                CsrfError::CsrfInvalid => "CSRF token is invalid"@,
            },
    {
        match self {
            CsrfError::CsrfMissing => String::from_str("CSRF token is missing"),
            CsrfError::CsrfInvalid => String::from_str("CSRF token is invalid"),
        }
    }
}

/// The field name of the issuance response: the bytes of `csrf`.
pub open spec fn csrf_field() -> Seq<u8> {
    seq![99u8, 115u8, 114u8, 102u8]
}

/// The body an issued cookie is answered with: a JSON object carrying the
/// base64 cookie under the field `csrf`.
pub fn csrf_response_body(cookie_b64: &[u8]) -> (r: Vec<u8>)
    ensures
        r@ == crate::errors::json_object_body(csrf_field(), cookie_b64@),
{
    let field: Vec<u8> = vec![99, 115, 114, 102];
    proof {
        assert(field@ =~= csrf_field());
    }
    crate::errors::json_field_body(field.as_slice(), cookie_b64)
}

/// The bytes of `CSRF token is missing`.
pub open spec fn csrf_missing_msg() -> Seq<u8> {
    seq![67u8, 83u8, 82u8, 70u8, 32u8, 116u8, 111u8, 107u8, 101u8, 110u8, 32u8, 105u8, 115u8,
        32u8, 109u8, 105u8, 115u8, 115u8, 105u8, 110u8, 103u8]
}

/// The bytes of `CSRF token is invalid`.
pub open spec fn csrf_invalid_msg() -> Seq<u8> {
    seq![67u8, 83u8, 82u8, 70u8, 32u8, 116u8, 111u8, 107u8, 101u8, 110u8, 32u8, 105u8, 115u8,
        32u8, 105u8, 110u8, 118u8, 97u8, 108u8, 105u8, 100u8]
}

/// What the guard does with a request.
#[derive(Clone, Copy, Debug, PartialEq, Eq, Structural)]
pub enum Verdict {
    Forward,
    Reject(CsrfError),
}

/// The path exempt from enforcement: the bytes of `/api/auth/csrf`, the one
/// endpoint whose purpose is to hand out a fresh cookie.
pub open spec fn exempt_path() -> Seq<u8> {
    seq![47u8, 97u8, 112u8, 105u8, 47u8, 97u8, 117u8, 116u8, 104u8, 47u8, 99u8, 115u8, 114u8,
        102u8]
}

/// The `/api/auth/csrf` path as a value.
pub fn exempt_path_vec() -> (r: Vec<u8>)
    ensures
        r@ == exempt_path(),
{
    let v: Vec<u8> = vec![47, 97, 112, 105, 47, 97, 117, 116, 104, 47, 99, 115, 114, 102];
    proof {
        assert(v@ =~= exempt_path());
    }
    v
}

/// The decision the guard takes, step by step in the order the checks run:
/// safe or exempt requests pass untouched; a missing header or a missing
/// session token is `CsrfMissing`; anything present but malformed — bad
/// base64, bytes that fail authenticated parsing — is `CsrfInvalid`; a
/// parsed pair carrying different values is `CsrfInvalid`; a matching pair
/// passes.
pub open spec fn guard_decision(
    secret: Seq<u8>,
    enforced: bool,
    exempt: bool,
    header: Option<Seq<u8>>,
    stored: Option<Seq<u8>>,
) -> Verdict {
    if !enforced || exempt {
        Verdict::Forward
    } else if header is None {
        Verdict::Reject(CsrfError::CsrfMissing)
    } else if b64_decode_of(header->0) is None {
        Verdict::Reject(CsrfError::CsrfInvalid)
    } else if stored is None {
        Verdict::Reject(CsrfError::CsrfMissing)
    } else if b64_decode_of(stored->0) is None {
        Verdict::Reject(CsrfError::CsrfInvalid)
    } else if cookie_value_of(secret, b64_decode_of(header->0)->0) is None {
        Verdict::Reject(CsrfError::CsrfInvalid)
    } else if token_value_of(secret, b64_decode_of(stored->0)->0) is None {
        Verdict::Reject(CsrfError::CsrfInvalid)
    } else if token_value_of(secret, b64_decode_of(stored->0)->0) != cookie_value_of(
        secret,
        b64_decode_of(header->0)->0,
    ) {
        Verdict::Reject(CsrfError::CsrfInvalid)
    } else {
        Verdict::Forward
    }
}

/// The guard's configuration: the shared secret, the exempt paths, and the
/// methods under enforcement.
pub struct CsrfMiddleware {
    secret: [u8; 32],
    exclude: Vec<Vec<u8>>,
    methods: Vec<Method>,
}

impl CsrfMiddleware {
    /// The shared 32-byte secret.
    pub closed spec fn secret_view(&self) -> Seq<u8> {
        self.secret@
    }

    /// Whether requests with this method are enforced.
    pub closed spec fn enforces(&self, m: Method) -> bool {
        self.methods@.contains(m)
    }

    /// Whether this path is exempt.
    pub closed spec fn exempts(&self, path: Seq<u8>) -> bool {
        exists|i: int| 0 <= i < self.exclude@.len() && (#[trigger] self.exclude@[i])@ == path
    }

    /// Configure the guard: enforcement on the mutating methods (POST, PUT,
    /// DELETE) only, with the issuance endpoint exempt.
    pub fn new(secret: &[u8; 32]) -> (r: CsrfMiddleware)
        ensures
            r.secret_view() == secret@,
            forall|m: Method|
                r.enforces(m) <==> (m == Method::Post || m == Method::Put || m == Method::Delete),
            forall|p: Seq<u8>| r.exempts(p) <==> p == exempt_path(),
    {
        let exclude: Vec<Vec<u8>> = vec![exempt_path_vec()];
        let methods: Vec<Method> = vec![Method::Post, Method::Put, Method::Delete];
        let r = CsrfMiddleware { secret: *secret, exclude, methods };
        proof {
            assert forall|m: Method| r.enforces(m) implies (m == Method::Post || m == Method::Put
                || m == Method::Delete) by {
                let i = choose|i: int| 0 <= i < r.methods@.len() && r.methods@[i] == m;
            }
            assert(r.methods@[0] == Method::Post);
            assert(r.methods@[1] == Method::Put);
            assert(r.methods@[2] == Method::Delete);
            assert forall|p: Seq<u8>| r.exempts(p) implies p == exempt_path() by {
                let i = choose|i: int|
                    0 <= i < r.exclude@.len() && (#[trigger] r.exclude@[i])@ == p;
            }
            assert((r.exclude@[0])@ == exempt_path());
        }
        r
    }

    fn method_enforced(&self, m: Method) -> (r: bool)
        ensures
            r == self.enforces(m),
    {
        let mut i: usize = 0;
        while i < self.methods.len()
            invariant
                i <= self.methods@.len(),
                forall|j: int| 0 <= j < i ==> self.methods@[j] != m,
            decreases self.methods@.len() - i,
        {
            if self.methods[i] == m {
                return true;
            }
            i = i + 1;
        }
        false
    }

    fn path_exempt(&self, path: &[u8]) -> (r: bool)
        ensures
            r == self.exempts(path@),
    {
        let mut i: usize = 0;
        while i < self.exclude.len()
            invariant
                i <= self.exclude@.len(),
                forall|j: int| 0 <= j < i ==> (#[trigger] self.exclude@[j])@ != path@,
            decreases self.exclude@.len() - i,
        {
            if crate::session::bytes_eq(self.exclude[i].as_slice(), path) {
                return true;
            }
            i = i + 1;
        }
        false
    }

    /// Run the guard on one request: the method, the path, the header
    /// carrying the client's cookie if any, and the session. The verdict is
    /// exactly `guard_decision` on what the request presents; nothing else
    /// is read and the session is not touched.
    pub fn check(&self, method: Method, path: &[u8], header: Option<&Vec<u8>>, session: &Session)
        -> (r: Verdict)
        requires
            session.wf(),
        ensures
            r == guard_decision(
                self.secret_view(),
                self.enforces(method),
                self.exempts(path@),
                match header {
                    Some(h) => Some(h@),
                    None => None,
                },
                if session.contents().contains_key(csrf_key()) {
                    Some(session.contents()[csrf_key()])
                } else {
                    None
                },
            ),
    {
        if !self.method_enforced(method) || self.path_exempt(path) {
            return Verdict::Forward;
        }
        let header_bytes = match header {
            Some(h) => h,
            None => {
                return Verdict::Reject(CsrfError::CsrfMissing);
            },
        };
        let cookie_raw = match b64_decode(header_bytes.as_slice()) {
            Some(v) => v,
            None => {
                return Verdict::Reject(CsrfError::CsrfInvalid);
            },
        };
        let ck = csrf_key_vec();
        let stored = match session.get(ck.as_slice()) {
            Some(v) => v,
            None => {
                return Verdict::Reject(CsrfError::CsrfMissing);
            },
        };
        let token_raw = match b64_decode(stored.as_slice()) {
            Some(v) => v,
            None => {
                return Verdict::Reject(CsrfError::CsrfInvalid);
            },
        };
        let parsed_cookie = match crate::codec::parse_cookie(&self.secret, cookie_raw.as_slice()) {
            Ok(c) => c,
            Err(_) => {
                return Verdict::Reject(CsrfError::CsrfInvalid);
            },
        };
        let parsed_token = match parse_token(&self.secret, token_raw.as_slice()) {
            Ok(t) => t,
            Err(_) => {
                return Verdict::Reject(CsrfError::CsrfInvalid);
            },
        };
        if !crate::codec::verify(&parsed_token, &parsed_cookie) {
            return Verdict::Reject(CsrfError::CsrfInvalid);
        }
        Verdict::Forward
    }
}

/// The continuity material the session offers: the value of the stored
/// token when the entry is present, base64-decodes, and parses under the
/// secret; nothing otherwise.
pub open spec fn prev_token_value(secret: Seq<u8>, m: Map<Seq<u8>, Seq<u8>>) -> Option<Seq<u8>> {
    if !m.contains_key(csrf_key()) {
        None
    } else {
        match b64_decode_of(m[csrf_key()]) {
            Some(raw) => token_value_of(secret, raw),
            None => None,
        }
    }
}

/// A session entry that is present but no longer parses — corrupt, or
/// minted under a rotated secret.
pub open spec fn stored_token_stale(secret: Seq<u8>, m: Map<Seq<u8>, Seq<u8>>) -> bool {
    m.contains_key(csrf_key()) && prev_token_value(secret, m) is None
}

/// The issuance surface handed to the dedicated endpoint: mints cookies
/// under the shared secret.
pub struct Csrf {
    secret: [u8; 32],
}

impl Csrf {
    /// The shared 32-byte secret.
    pub closed spec fn secret_view(&self) -> Seq<u8> {
        self.secret@
    }

    /// Attach the shared secret.
    pub fn new(secret: &[u8; 32]) -> (r: Csrf)
        ensures
            r.secret_view() == secret@,
    {
        Csrf { secret: *secret }
    }

    /// Issue a CSRF cookie for this session. The token already stored is
    /// used as continuity material when it still parses; a stale entry is
    /// discarded and a wholly fresh pair minted. The new token replaces the
    /// session entry and the cookie's base64 form is returned for the
    /// client. Idempotent in effect: calling it again reissues against the
    /// stored token. Fails only when minting fails, leaving no new token
    /// behind.
    pub fn get_token(&self, session: &mut Session) -> (r: Result<Vec<u8>, ApiError>)
        requires
            old(session).wf(),
        ensures
            final(session).wf(),
            r matches Ok(cookie_b64) ==> {
                let entry = final(session).contents()[csrf_key()];
                &&& final(session).contents() == old(session).contents().insert(
                    csrf_key(),
                    entry,
                )
                &&& b64_decode_of(entry) is Some
                &&& token_value_of(self.secret_view(), b64_decode_of(entry)->0) is Some
                &&& b64_decode_of(cookie_b64@) is Some
                &&& cookie_value_of(self.secret_view(), b64_decode_of(cookie_b64@)->0)
                    == token_value_of(self.secret_view(), b64_decode_of(entry)->0)
                &&& (prev_token_value(self.secret_view(), old(session).contents()) matches Some(v)
                    ==> token_value_of(self.secret_view(), b64_decode_of(entry)->0) == Some(v))
            },
            r matches Err(e) ==> {
                &&& e is Forbidden
                &&& final(session).contents() == if stored_token_stale(
                    self.secret_view(),
                    old(session).contents(),
                ) {
                    old(session).contents().remove(csrf_key())
                } else {
                    old(session).contents()
                }
            },
            // issuance touches the session exactly when it writes or drops
            // the token entry
            r is Ok || stored_token_stale(self.secret_view(), old(session).contents())
                ==> final(session).st() == (if old(session).st() == SessionStatus::Unchanged {
                SessionStatus::Changed
            } else {
                old(session).st()
            }),
            r is Err && !stored_token_stale(self.secret_view(), old(session).contents())
                ==> final(session).st() == old(session).st(),
    {
        let ck = csrf_key_vec();
        let stored: Option<Vec<u8>> = match session.get(ck.as_slice()) {
            Some(v) => Some(vstd::slice::slice_to_vec(v.as_slice())),
            None => None,
        };
        let prev: Option<ParsedToken> = match stored {
            None => None,
            Some(enc) => match b64_decode(enc.as_slice()) {
                None => {
                    session.remove(ck.as_slice());
                    None
                },
                Some(raw) => match parse_token(&self.secret, raw.as_slice()) {
                    Ok(t) => Some(t),
                    Err(_) => {
                        session.remove(ck.as_slice());
                        None
                    },
                },
            },
        };
        let prev_ref = match &prev {
            Some(t) => Some(t),
            None => None,
        };
        let pair = match generate_pair(&self.secret, prev_ref, TOKEN_TTL_SECONDS) {
            Ok(p) => p,
            Err(_) => {
                return Err(ApiError::Forbidden);
            },
        };
        let token_b64 = b64_encode(pair.token.as_slice());
        session.set(csrf_key_vec(), token_b64);
        let cookie_b64 = b64_encode(pair.cookie.as_slice());
        proof {
            assert(final(session).contents() =~= old(session).contents().insert(
                csrf_key(),
                final(session).contents()[csrf_key()],
            ));
        }
        Ok(cookie_b64)
    }
}

/// The enforcement boundary: a request with a safe (unenforced) method or an
/// exempt path is never rejected, whatever tokens are or are not present; an
/// enforced request without the header, or without a stored session token
/// while the header decodes, is rejected as missing, not invalid.
pub proof fn lemma_enforcement_boundary(
    secret: Seq<u8>,
    header: Option<Seq<u8>>,
    stored: Option<Seq<u8>>,
    exempt: bool,
    h: Seq<u8>,
)
    ensures
        guard_decision(secret, false, exempt, header, stored) == Verdict::Forward,
        guard_decision(secret, true, true, header, stored) == Verdict::Forward,
        guard_decision(secret, true, false, None, stored) == Verdict::Reject(
            CsrfError::CsrfMissing,
        ),
        b64_decode_of(h) is Some ==> guard_decision(secret, true, false, Some(h), None)
            == Verdict::Reject(CsrfError::CsrfMissing),
{
}

/// The issued pair passes the guard: when the session holds a token and the
/// client presents a cookie minted against it — both halves decode and
/// parse, carrying the same value — an enforced, non-exempt request is
/// forwarded.
pub proof fn lemma_issued_pair_forwards(secret: Seq<u8>, header: Seq<u8>, stored: Seq<u8>)
    requires
        b64_decode_of(stored) is Some,
        token_value_of(secret, b64_decode_of(stored)->0) is Some,
        b64_decode_of(header) is Some,
        cookie_value_of(secret, b64_decode_of(header)->0) == token_value_of(
            secret,
            b64_decode_of(stored)->0,
        ),
    ensures
        guard_decision(secret, true, false, Some(header), Some(stored)) == Verdict::Forward,
{
}

/// Rotating the stored token out of band invalidates old cookies: when the
/// session's token and the presented cookie parse to different values, the
/// request is rejected as invalid.
pub proof fn lemma_rotated_token_rejects_old_cookie(
    secret: Seq<u8>,
    header: Seq<u8>,
    stored: Seq<u8>,
)
    requires
        b64_decode_of(stored) is Some,
        token_value_of(secret, b64_decode_of(stored)->0) is Some,
        b64_decode_of(header) is Some,
        cookie_value_of(secret, b64_decode_of(header)->0) is Some,
        cookie_value_of(secret, b64_decode_of(header)->0) != token_value_of(
            secret,
            b64_decode_of(stored)->0,
        ),
    ensures
        guard_decision(secret, true, false, Some(header), Some(stored)) == Verdict::Reject(
            CsrfError::CsrfInvalid,
        ),
{
}

} // verus!
