//! Error taxonomy of the library, with the HTTP statuses each maps to.

use vstd::prelude::*;

verus! {

/// Failures of the durable session store.
///
/// `Unavailable` is a backend that cannot be reached or refuses a write;
/// `Serialize` is session state that cannot be put into persistent form
/// (a user-identifier entry that is not a UUID); `Deserialize` is a persisted
/// blob that cannot be decoded back, to be treated as a corrupted session.
#[derive(Clone, Copy, Debug, PartialEq, Eq, Structural)]
pub enum StoreError {
    Unavailable,
    Serialize,
    Deserialize,
}

/// The field name of an error body: the bytes of `error`.
pub open spec fn error_field() -> Seq<u8> {
    seq![101u8, 114u8, 114u8, 111u8, 114u8]
}

/// The `error` field name as a value.
pub fn error_field_vec() -> (r: Vec<u8>)
    ensures
        r@ == error_field(),
{
    let v: Vec<u8> = vec![101, 114, 114, 111, 114];
    proof {
        assert(v@ =~= error_field());
    }
    v
}

/// The bytes of `Internal server error`.
pub open spec fn internal_error_msg() -> Seq<u8> {
    seq![73u8, 110u8, 116u8, 101u8, 114u8, 110u8, 97u8, 108u8, 32u8, 115u8, 101u8, 114u8, 118u8,
        101u8, 114u8, 32u8, 101u8, 114u8, 114u8, 111u8, 114u8]
}

/// Database-layer failures surfaced to handlers.
#[derive(Clone, Copy, Debug, PartialEq, Eq, Structural)]
pub enum DbError {
    InternalError,
    DuplicateError,
    ConnectError,
}

impl DbError {
    /// Every database failure is answered 500: the cause stays in the logs,
    /// not in the response.
    pub fn status_code(&self) -> (r: u16)
        ensures
            r == 500u16,
    {
        500
    }

    /// The failure's own description, for the operator's log.
    pub fn message_text(&self) -> (r: String)
        ensures
            r@ == match self {
                DbError::InternalError => "Internal server error"@,
                DbError::DuplicateError => "Entry already exists"@,
                DbError::ConnectError => "Failed to connect to db"@,
            },
    {
        match self {
            DbError::InternalError => String::from_str("Internal server error"),
            DbError::DuplicateError => String::from_str("Entry already exists"),
            DbError::ConnectError => String::from_str("Failed to connect to db"),
        }
    }

    /// The body every database failure is answered with: a fixed JSON
    /// object, the same for each variant, so no internal detail leaks.
    pub fn response_body(&self) -> (r: Vec<u8>)
        ensures
            r@ == json_object_body(error_field(), internal_error_msg()),
    {
        let msg: Vec<u8> = vec![
            73, 110, 116, 101, 114, 110, 97, 108, 32, 115, 101, 114, 118, 101, 114, 32, 101, 114,
            114, 111, 114,
        ];
        proof {
            assert(msg@ =~= internal_error_msg());
        }
        json_field_body(error_field_vec().as_slice(), msg.as_slice())
    }
}

/// Failures of API handlers, each carrying its HTTP status.
#[derive(Clone, Debug)]
pub enum ApiError {
    Unauthorized,
    Forbidden,
    InternalServerError,
    WithMessage { message: String, status_code: u16 },
}

impl ApiError {
    /// The HTTP status the error is answered with.
    pub fn status_code(&self) -> (r: u16)
        ensures
            r == match self {
                ApiError::Unauthorized => 401u16,
                ApiError::Forbidden => 403u16,
                ApiError::InternalServerError => 500u16,
                ApiError::WithMessage { status_code, .. } => *status_code,
            },
    {
        match self {
            ApiError::Unauthorized => 401,
            ApiError::Forbidden => 403,
            ApiError::InternalServerError => 500,
            ApiError::WithMessage { status_code, .. } => *status_code,
        }
    }

    /// The message placed in the error response's body.
    pub fn message_text(&self) -> (r: String)
        ensures
            r@ == match self {
                ApiError::Unauthorized => "Unauthorized"@,
                ApiError::Forbidden => "Forbidden"@,
                ApiError::InternalServerError => "Internal server error"@,
                ApiError::WithMessage { message, .. } => message@,
            },
    {
        match self {
            ApiError::Unauthorized => String::from_str("Unauthorized"),
            ApiError::Forbidden => String::from_str("Forbidden"),
            ApiError::InternalServerError => String::from_str("Internal server error"),
            ApiError::WithMessage { message, .. } => message.clone(),
        }
    }
}

/// A byte string that can stand inside a JSON string literal unescaped:
/// printable ASCII with no quote and no backslash.
pub open spec fn json_plain(s: Seq<u8>) -> bool {
    forall|i: int| 0 <= i < s.len() ==> 32 <= #[trigger] s[i] < 127 && s[i] != 34 && s[i] != 92
}

/// A one-field JSON object, `{"<field>":"<value>"}`, as bytes. It is valid
/// JSON whenever field and value are plain.
pub open spec fn json_object_body(field: Seq<u8>, value: Seq<u8>) -> Seq<u8> {
    seq![123u8, 34u8] + field + seq![34u8, 58u8, 34u8] + value + seq![34u8, 125u8]
}

/// Build a one-field JSON object body.
pub fn json_field_body(field: &[u8], value: &[u8]) -> (r: Vec<u8>)
    ensures
        r@ == json_object_body(field@, value@),
{
    let mut out: Vec<u8> = Vec::new();
    out.push(123);
    out.push(34);
    push_all(&mut out, field);
    out.push(34);
    out.push(58);
    out.push(34);
    push_all(&mut out, value);
    out.push(34);
    out.push(125);
    proof {
        assert(out@ =~= json_object_body(field@, value@));
    }
    out
}

/// Append a byte string to a buffer.
fn push_all(out: &mut Vec<u8>, bytes: &[u8])
    ensures
        final(out)@ == old(out)@ + bytes@,
{
    let mut i: usize = 0;
    while i < bytes.len()
        invariant
            i <= bytes@.len(),
            out@ == old(out)@ + bytes@.subrange(0, i as int),
        decreases bytes@.len() - i,
    {
        out.push(bytes[i]);
        proof {
            assert(out@ =~= old(out)@ + bytes@.subrange(0, i + 1));
        }
        i = i + 1;
    }
    proof {
        assert(bytes@.subrange(0, bytes@.len() as int) =~= bytes@);
    }
}

} // verus!
