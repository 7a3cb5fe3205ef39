use session_guard::api::{
    already_logged_in, apply_password_change, authenticate_ruling, delete_post_ruling,
    login_ruling, LoginRuling, PostDeleteRuling,
};
use session_guard::errors::{ApiError, DbError, StoreError};
use session_guard::guard::Csrf;
use session_guard::session::{
    csrf_key_vec, get_session_user, parse_uuid_bytes, require_user, user_id_key_vec, Session,
    SessionData, SessionState, SessionStatus,
};
use session_guard::store::extract_user_id;

const UUID_TEXT: &[u8] = b"f47ac10b-58cc-4372-a567-0e02b2c3d479";

#[test]
fn state_set_get_remove() {
    let mut state = SessionState::new();
    assert!(state.get(b"k").is_none());

    state.set(b"k".to_vec(), b"v1".to_vec());
    assert_eq!(state.get(b"k").map(|v| v.clone()), Some(b"v1".to_vec()));

    state.set(b"k".to_vec(), b"v2".to_vec());
    assert_eq!(state.get(b"k").map(|v| v.clone()), Some(b"v2".to_vec()));
    assert_eq!(state.entries().len(), 1, "overwriting must not duplicate the key");

    state.remove(b"k");
    assert!(state.get(b"k").is_none());
    state.remove(b"k");
    assert!(state.get(b"k").is_none());
}

#[test]
fn state_from_entries_requires_unique_keys() {
    let ok = SessionState::from_entries(vec![
        (b"a".to_vec(), b"1".to_vec()),
        (b"b".to_vec(), b"2".to_vec()),
    ]);
    assert!(ok.is_some());

    let dup = SessionState::from_entries(vec![
        (b"a".to_vec(), b"1".to_vec()),
        (b"a".to_vec(), b"2".to_vec()),
    ]);
    assert!(dup.is_none());
}

#[test]
fn uuid_parsing_matches_the_uuid_crate() {
    let parsed = parse_uuid_bytes(UUID_TEXT).expect("well-formed UUID refused");
    let reference = uuid::Uuid::parse_str(std::str::from_utf8(UUID_TEXT).unwrap()).unwrap();
    assert_eq!(parsed, reference.as_u128());

    assert!(parse_uuid_bytes(b"not-a-uuid").is_none());
    assert!(parse_uuid_bytes(b"").is_none());
    assert!(parse_uuid_bytes(&[0xff, 0xfe]).is_none());
}

#[test]
fn session_user_lookup() {
    let session = Session::anonymous();
    assert_eq!(get_session_user(&session).unwrap(), None);
    assert!(matches!(require_user(&session), Err(ApiError::Forbidden)));

    let mut session = Session::anonymous();
    session.set(user_id_key_vec(), UUID_TEXT.to_vec());
    let expected = uuid::Uuid::parse_str(std::str::from_utf8(UUID_TEXT).unwrap())
        .unwrap()
        .as_u128();
    assert_eq!(get_session_user(&session).unwrap(), Some(expected));
    assert_eq!(require_user(&session).unwrap(), expected);

    let mut corrupt = Session::anonymous();
    corrupt.set(user_id_key_vec(), b"broken".to_vec());
    assert!(matches!(get_session_user(&corrupt), Err(ApiError::InternalServerError)));
    assert!(matches!(require_user(&corrupt), Err(ApiError::InternalServerError)));
}

#[test]
fn login_renews_and_clears_csrf() {
    let mut session = Session::anonymous();
    session.set(csrf_key_vec(), b"old-token".to_vec());
    session.set(b"theme".to_vec(), b"dark".to_vec());

    session.on_login(UUID_TEXT.to_vec());

    assert!(session.get(&csrf_key_vec()).is_none(), "login must clear the CSRF entry");
    assert_eq!(session.get(&user_id_key_vec()).map(|v| v.clone()), Some(UUID_TEXT.to_vec()));
    assert_eq!(session.get(b"theme").map(|v| v.clone()), Some(b"dark".to_vec()));
}

#[test]
fn logout_purges_everything() {
    let mut session = Session::anonymous();
    session.set(user_id_key_vec(), UUID_TEXT.to_vec());
    session.set(b"theme".to_vec(), b"dark".to_vec());

    session.on_logout();
    assert!(session.get(&user_id_key_vec()).is_none());
    assert!(session.get(b"theme").is_none());
}

#[test]
fn session_data_reads_the_csrf_entry() {
    let mut state = SessionState::new();
    assert!(SessionData::from_state(&state).is_none());
    state.set(csrf_key_vec(), b"token-b64".to_vec());
    let data = SessionData::from_state(&state).expect("csrf entry not found");
    assert_eq!(data.csrf(), &b"token-b64".to_vec());
}

#[test]
fn user_extraction_for_the_store() {
    let mut state = SessionState::new();
    assert_eq!(extract_user_id(&state).unwrap(), None);

    state.set(user_id_key_vec(), UUID_TEXT.to_vec());
    let expected = uuid::Uuid::parse_str(std::str::from_utf8(UUID_TEXT).unwrap())
        .unwrap()
        .as_u128();
    assert_eq!(extract_user_id(&state).unwrap(), Some(expected));

    state.set(user_id_key_vec(), b"###".to_vec());
    assert_eq!(extract_user_id(&state).unwrap_err(), StoreError::Serialize);
}

#[test]
fn session_status_transitions() {
    let mut session = Session::anonymous();
    assert_eq!(session.status(), SessionStatus::Unchanged);

    session.set(b"k".to_vec(), b"v".to_vec());
    assert_eq!(session.status(), SessionStatus::Changed);

    session.renew();
    assert_eq!(session.status(), SessionStatus::Renewed);
    // writes after a renewal do not demote the decision
    session.set(b"k2".to_vec(), b"v2".to_vec());
    assert_eq!(session.status(), SessionStatus::Renewed);

    session.purge();
    assert_eq!(session.status(), SessionStatus::Purged);

    let mut removed_only = Session::anonymous();
    removed_only.remove(b"absent");
    assert_eq!(removed_only.status(), SessionStatus::Changed);

    let mut logged = Session::anonymous();
    logged.on_login(UUID_TEXT.to_vec());
    assert_eq!(logged.status(), SessionStatus::Renewed);
}

#[test]
fn issuance_marks_the_session_changed() {
    let issuer = Csrf::new(b"an example very very secret key.");
    let mut session = Session::anonymous();
    issuer.get_token(&mut session).expect("issuance failed");
    assert_eq!(session.status(), SessionStatus::Changed);

    // issuance after a renewal keeps the renewal decision
    let mut renewed = Session::anonymous();
    renewed.renew();
    issuer.get_token(&mut renewed).expect("issuance failed");
    assert_eq!(renewed.status(), SessionStatus::Renewed);
}

#[test]
fn api_error_statuses_and_messages() {
    assert_eq!(ApiError::Unauthorized.status_code(), 401);
    assert_eq!(ApiError::Forbidden.status_code(), 403);
    assert_eq!(ApiError::InternalServerError.status_code(), 500);
    let custom = ApiError::WithMessage { message: "Invalid credentials".to_string(), status_code: 401 };
    assert_eq!(custom.status_code(), 401);

    assert_eq!(ApiError::Unauthorized.message_text(), "Unauthorized");
    assert_eq!(ApiError::Forbidden.message_text(), "Forbidden");
    assert_eq!(ApiError::InternalServerError.message_text(), "Internal server error");
    assert_eq!(custom.message_text(), "Invalid credentials");

    // the store and database taxonomies stay distinct values
    assert_ne!(DbError::InternalError, DbError::ConnectError);
    assert_ne!(StoreError::Serialize, StoreError::Deserialize);
}

#[test]
fn db_errors_answer_500_with_a_fixed_body() {
    for e in [DbError::InternalError, DbError::DuplicateError, DbError::ConnectError] {
        assert_eq!(e.status_code(), 500);
        assert_eq!(e.response_body(), b"{\"error\":\"Internal server error\"}".to_vec());
    }
    assert_eq!(DbError::InternalError.message_text(), "Internal server error");
    assert_eq!(DbError::DuplicateError.message_text(), "Entry already exists");
    assert_eq!(DbError::ConnectError.message_text(), "Failed to connect to db");
}

#[test]
fn handler_rulings() {
    assert_eq!(login_ruling(true, true), LoginRuling::AlreadyLoggedIn);
    assert_eq!(login_ruling(false, false), LoginRuling::BadCredentials);
    assert_eq!(login_ruling(false, true), LoginRuling::Proceed);

    assert_eq!(authenticate_ruling(false, false).unwrap(), false);
    assert_eq!(authenticate_ruling(true, true).unwrap(), true);
    assert!(matches!(authenticate_ruling(true, false), Err(ApiError::Unauthorized)));

    assert_eq!(delete_post_ruling(None), PostDeleteRuling::NotFound);
    assert_eq!(delete_post_ruling(Some(false)), PostDeleteRuling::NotOwner);
    assert_eq!(delete_post_ruling(Some(true)), PostDeleteRuling::Proceed);

    let session = Session::anonymous();
    assert_eq!(already_logged_in(&session).unwrap(), false);
    let mut logged = Session::anonymous();
    logged.set(user_id_key_vec(), UUID_TEXT.to_vec());
    assert_eq!(already_logged_in(&logged).unwrap(), true);

    let mut s = Session::anonymous();
    assert!(apply_password_change(&mut s, true));
    assert!(!apply_password_change(&mut s, false));
}
