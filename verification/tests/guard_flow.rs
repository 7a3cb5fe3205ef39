use session_guard::codec::{b64_decode, parse_cookie, parse_token, verify};
use session_guard::guard::{Csrf, CsrfError, CsrfMiddleware, Method, Verdict};
use session_guard::session::{csrf_key_vec, Session};

const SECRET: [u8; 32] = *b"an example very very secret key.";

fn post_path() -> Vec<u8> {
    b"/api/posts/create".to_vec()
}

#[test]
fn post_without_header_is_missing() {
    let guard = CsrfMiddleware::new(&SECRET);
    let session = Session::anonymous();
    let verdict = guard.check(Method::Post, &post_path(), None, &session);
    assert_eq!(verdict, Verdict::Reject(CsrfError::CsrfMissing));
}

#[test]
fn post_with_header_but_no_session_token_is_missing() {
    let guard = CsrfMiddleware::new(&SECRET);
    let session = Session::anonymous();
    // a well-formed base64 header, but nothing was ever issued
    let header = b"SGVsbG8gd29ybGQ=".to_vec();
    let verdict = guard.check(Method::Post, &post_path(), Some(&header), &session);
    assert_eq!(verdict, Verdict::Reject(CsrfError::CsrfMissing));
}

#[test]
fn safe_method_is_never_checked() {
    let guard = CsrfMiddleware::new(&SECRET);
    let session = Session::anonymous();
    assert_eq!(guard.check(Method::Get, &post_path(), None, &session), Verdict::Forward);
    let bad_header = b"!!!".to_vec();
    assert_eq!(
        guard.check(Method::Get, &post_path(), Some(&bad_header), &session),
        Verdict::Forward
    );
    assert_eq!(guard.check(Method::Head, &post_path(), None, &session), Verdict::Forward);
}

#[test]
fn exempt_path_is_never_checked() {
    let guard = CsrfMiddleware::new(&SECRET);
    let session = Session::anonymous();
    let verdict = guard.check(Method::Post, b"/api/auth/csrf", None, &session);
    assert_eq!(verdict, Verdict::Forward);
}

#[test]
fn malformed_header_is_invalid() {
    let guard = CsrfMiddleware::new(&SECRET);
    let mut session = Session::anonymous();
    let issuer = Csrf::new(&SECRET);
    issuer.get_token(&mut session).expect("issuance failed");

    let header = b"not base64 at all!".to_vec();
    let verdict = guard.check(Method::Post, &post_path(), Some(&header), &session);
    assert_eq!(verdict, Verdict::Reject(CsrfError::CsrfInvalid));
}

#[test]
fn malformed_session_entry_is_invalid() {
    let guard = CsrfMiddleware::new(&SECRET);
    let mut session = Session::anonymous();
    session.set(csrf_key_vec(), b"###".to_vec());
    // a structurally fine header
    let header = b"SGVsbG8gd29ybGQ=".to_vec();
    let verdict = guard.check(Method::Post, &post_path(), Some(&header), &session);
    assert_eq!(verdict, Verdict::Reject(CsrfError::CsrfInvalid));
}

#[test]
fn issued_pair_passes_the_guard_end_to_end() {
    let guard = CsrfMiddleware::new(&SECRET);
    let issuer = Csrf::new(&SECRET);
    let mut session = Session::anonymous();

    // issue: the cookie goes to the client, the token into the session
    let cookie_b64 = issuer.get_token(&mut session).expect("issuance failed");

    // the client POSTs the cookie back with the same session
    let verdict = guard.check(Method::Post, &post_path(), Some(&cookie_b64), &session);
    assert_eq!(verdict, Verdict::Forward);

    // enforcement covers PUT and DELETE the same way
    assert_eq!(
        guard.check(Method::Put, &post_path(), Some(&cookie_b64), &session),
        Verdict::Forward
    );
    assert_eq!(
        guard.check(Method::Delete, &post_path(), Some(&cookie_b64), &session),
        Verdict::Forward
    );
}

#[test]
fn rotating_the_stored_token_out_of_band_invalidates_old_cookie() {
    let guard = CsrfMiddleware::new(&SECRET);
    let issuer = Csrf::new(&SECRET);

    let mut session = Session::anonymous();
    let old_cookie = issuer.get_token(&mut session).expect("issuance failed");
    assert_eq!(
        guard.check(Method::Post, &post_path(), Some(&old_cookie), &session),
        Verdict::Forward
    );

    // an unrelated token replaces the session entry out of band
    let mut other_session = Session::anonymous();
    issuer.get_token(&mut other_session).expect("issuance failed");
    let foreign_entry = other_session.get(&csrf_key_vec()).unwrap().clone();
    session.set(csrf_key_vec(), foreign_entry);

    let verdict = guard.check(Method::Post, &post_path(), Some(&old_cookie), &session);
    assert_eq!(verdict, Verdict::Reject(CsrfError::CsrfInvalid));
}

#[test]
fn reissue_keeps_earlier_cookie_usable() {
    let issuer = Csrf::new(&SECRET);
    let guard = CsrfMiddleware::new(&SECRET);
    let mut session = Session::anonymous();

    let first_cookie = issuer.get_token(&mut session).expect("issuance failed");
    // issuing again against the same session rotates the token with
    // continuity
    let second_cookie = issuer.get_token(&mut session).expect("issuance failed");

    // both cookies pass against the rotated token
    assert_eq!(
        guard.check(Method::Post, &post_path(), Some(&second_cookie), &session),
        Verdict::Forward
    );
    assert_eq!(
        guard.check(Method::Post, &post_path(), Some(&first_cookie), &session),
        Verdict::Forward
    );
}

#[test]
fn stale_session_entry_is_discarded_and_reissued_fresh() {
    let issuer = Csrf::new(&SECRET);
    let guard = CsrfMiddleware::new(&SECRET);
    let mut session = Session::anonymous();
    // an entry that is not even base64: continuity cannot be read
    session.set(csrf_key_vec(), b"\xff\xfe".to_vec());

    let cookie = issuer.get_token(&mut session).expect("issuance failed");
    assert_eq!(
        guard.check(Method::Post, &post_path(), Some(&cookie), &session),
        Verdict::Forward
    );
}

#[test]
fn issued_parts_agree_with_the_codec() {
    let issuer = Csrf::new(&SECRET);
    let mut session = Session::anonymous();
    let cookie_b64 = issuer.get_token(&mut session).expect("issuance failed");

    let stored_b64 = session.get(&csrf_key_vec()).expect("no token stored").clone();
    let token_raw = b64_decode(&stored_b64).expect("stored token is not base64");
    let cookie_raw = b64_decode(&cookie_b64).expect("returned cookie is not base64");
    let token = parse_token(&SECRET, &token_raw).expect("stored token does not parse");
    let cookie = parse_cookie(&SECRET, &cookie_raw).expect("returned cookie does not parse");
    assert!(verify(&token, &cookie));
}

#[test]
fn csrf_rejections_are_403_with_named_bodies() {
    assert_eq!(CsrfError::CsrfMissing.status_code(), 403);
    assert_eq!(CsrfError::CsrfInvalid.status_code(), 403);
    assert_eq!(CsrfError::CsrfMissing.message_text(), "CSRF token is missing");
    assert_eq!(CsrfError::CsrfInvalid.message_text(), "CSRF token is invalid");
    assert_eq!(
        CsrfError::CsrfMissing.response_body(),
        b"{\"error\":\"CSRF token is missing\"}".to_vec()
    );
    assert_eq!(
        CsrfError::CsrfInvalid.response_body(),
        b"{\"error\":\"CSRF token is invalid\"}".to_vec()
    );
}

#[test]
fn issuance_response_carries_the_cookie_under_csrf() {
    let body = session_guard::guard::csrf_response_body(b"QUJD");
    assert_eq!(body, b"{\"csrf\":\"QUJD\"}".to_vec());
    // what the response carries is valid JSON with the expected field
    let parsed: serde_json::Value = serde_json::from_slice(&body).expect("body is not JSON");
    assert_eq!(parsed["csrf"], "QUJD");
}
