//! Decisions the request handlers take, separated from their transport.
//!
//! Each ruling maps what the database and the session reported to what the
//! handler does next; the handlers only perform the I/O on either side.

use vstd::prelude::*;

use crate::errors::ApiError;
use crate::session::{get_session_user, user_of, Session};

verus! {

/// What the login handler does after its lookups.
#[derive(Clone, Copy, Debug, PartialEq, Eq, Structural)]
pub enum LoginRuling {
    AlreadyLoggedIn,
    BadCredentials,
    Proceed,
}

/// Decide a login attempt: a session that already carries a user is refused
/// before any credential check; failed credentials are refused; otherwise
/// the login proceeds to renew the session.
pub fn login_ruling(already_logged_in: bool, credentials_ok: bool) -> (r: LoginRuling)
    ensures
        r == if already_logged_in {
            LoginRuling::AlreadyLoggedIn
        } else if !credentials_ok {
            LoginRuling::BadCredentials
        } else {
            LoginRuling::Proceed
        },
{
    if already_logged_in {
        LoginRuling::AlreadyLoggedIn
    } else if !credentials_ok {
        LoginRuling::BadCredentials
    } else {
        LoginRuling::Proceed
    }
}

/// Whether the session already carries an authenticated user; a corrupt
/// user entry is an internal error, as everywhere.
pub fn already_logged_in(session: &Session) -> (r: Result<bool, ApiError>)
    requires
        session.wf(),
    ensures
        match user_of(session.contents()) {
            Some(u) => r is Ok && r->Ok_0 == (u is Some),
            None => r is Err && r->Err_0 is InternalServerError,
        },
{
    match get_session_user(session) {
        Ok(u) => Ok(u.is_some()),
        Err(e) => Err(e),
    }
}

/// What the authenticate endpoint answers: an anonymous session is an
/// anonymous answer; a session user whose account is gone is refused as
/// unauthorized; a found user is answered.
pub fn authenticate_ruling(has_session_user: bool, user_exists: bool) -> (r: Result<
    bool,
    ApiError,
>)
    ensures
        !has_session_user ==> r == Ok::<bool, ApiError>(false),
        has_session_user && user_exists ==> r == Ok::<bool, ApiError>(true),
        has_session_user && !user_exists ==> r is Err && r->Err_0 is Unauthorized,
{
    if !has_session_user {
        Ok(false)
    } else if user_exists {
        Ok(true)
    } else {
        Err(ApiError::Unauthorized)
    }
}

/// What the delete-post handler does with the ownership lookup.
#[derive(Clone, Copy, Debug, PartialEq, Eq, Structural)]
pub enum PostDeleteRuling {
    NotFound,
    NotOwner,
    Proceed,
}

/// Decide a post deletion from the ownership lookup: an absent post is not
/// found, a post of another user is refused, the owner's own post is
/// deleted.
pub fn delete_post_ruling(belongs_to_user: Option<bool>) -> (r: PostDeleteRuling)
    ensures
        r == match belongs_to_user {
            None => PostDeleteRuling::NotFound,
            Some(false) => PostDeleteRuling::NotOwner,
            Some(true) => PostDeleteRuling::Proceed,
        },
{
    match belongs_to_user {
        None => PostDeleteRuling::NotFound,
        Some(false) => PostDeleteRuling::NotOwner,
        Some(true) => PostDeleteRuling::Proceed,
    }
}

/// Apply the outcome of a password change to the session: a successful
/// change renews the session so the client continues under a fresh
/// identifier; a refused change leaves it untouched.
pub fn apply_password_change(session: &mut Session, changed: bool) -> (r: bool)
    requires
        old(session).wf(),
    ensures
        final(session).wf(),
        r == changed,
        changed ==> final(session).contents() == old(session).contents() && final(session).st()
            is Renewed,
        !changed ==> *final(session) == *old(session),
{
    if changed {
        session.renew();
    }
    changed
}

} // verus!
