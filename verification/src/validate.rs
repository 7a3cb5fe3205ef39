//! Validation of request payloads, with the exact rule each field obeys.

use vstd::prelude::*;

use vstd::string::StrSliceExecFns;

verus! {

/// A character count within inclusive bounds.
pub open spec fn valid_length(s: Seq<char>, min: nat, max: nat) -> bool {
    min <= s.len() <= max
}

/// The acceptance rule for an email address: exactly one `@`, with at least
/// one character on each side of it.
pub open spec fn valid_email(s: Seq<char>) -> bool {
    exists|i: int|
        0 < i < s.len() - 1 && #[trigger] s[i] == '@' && (forall|j: int|
            0 <= j < s.len() && j != i ==> s[j] != '@')
}

/// Whether the character count of `s` lies in `min ..= max`.
pub fn check_length(s: &str, min: usize, max: usize) -> (r: bool)
    ensures
        r == valid_length(s@, min as nat, max as nat),
{
    let n = s.unicode_len();
    min <= n && n <= max
}

/// Whether `s` is accepted as an email address.
pub fn check_email(s: &str) -> (r: bool)
    ensures
        r == valid_email(s@),
{
    let n = s.unicode_len();
    let mut i: usize = 0;
    let mut at_count: usize = 0;
    let mut at_pos: usize = 0;
    while i < n
        invariant
            i <= n,
            n == s@.len(),
            at_count <= i,
            at_count == 0 ==> forall|j: int| 0 <= j < i ==> s@[j] != '@',
            at_count == 1 ==> at_pos < i && s@[at_pos as int] == '@' && (forall|j: int|
                0 <= j < i && j != at_pos ==> s@[j] != '@'),
            at_count >= 2 ==> exists|a: int, b: int|
                0 <= a < b < i && #[trigger] s@[a] == '@' && #[trigger] s@[b] == '@',
        decreases n - i,
    {
        if s.get_char(i) == '@' {
            if at_count == 1 {
                proof {
                    assert(s@[at_pos as int] == '@' && s@[i as int] == '@' && at_pos < i);
                }
            }
            if at_count < 2 {
                at_count = at_count + 1;
            }
            if at_count == 1 {
                at_pos = i;
            }
        }
        i = i + 1;
    }
    if at_count == 1 && 0 < at_pos && at_pos < n - 1 {
        proof {
            assert(0 < at_pos < s@.len() - 1 && s@[at_pos as int] == '@' && (forall|j: int|
                0 <= j < s@.len() && j != at_pos ==> s@[j] != '@'));
        }
        true
    } else {
        proof {
            if valid_email(s@) {
                let w = choose|w: int|
                    0 < w < s@.len() - 1 && #[trigger] s@[w] == '@' && (forall|j: int|
                        0 <= j < s@.len() && j != w ==> s@[j] != '@');
                if at_count >= 2 {
                    let (a, b) = choose|a: int, b: int|
                        0 <= a < b < s@.len() && #[trigger] s@[a] == '@' && #[trigger] s@[b]
                            == '@';
                    assert(a != w || b != w);
                } else if at_count == 1 {
                    assert(at_pos == w);
                }
            }
        }
        false
    }
}

/// Paging parameters for the post listing.
pub struct ListParams {
    pub limit: Option<i32>,
    pub offset: Option<i32>,
}

impl ListParams {
    /// The rule the parameters must obey: a limit within `0 ..= 50`, an
    /// offset within `0 ..= 1000`.
    pub open spec fn valid(&self) -> bool {
        &&& (self.limit matches Some(l) ==> 0 <= l <= 50)
        &&& (self.offset matches Some(o) ==> 0 <= o <= 1000)
    }

    /// Check the rule.
    pub fn validate(&self) -> (r: bool)
        ensures
            r == self.valid(),
    {
        let limit_ok = match self.limit {
            Some(l) => 0 <= l && l <= 50,
            None => true,
        };
        let offset_ok = match self.offset {
            Some(o) => 0 <= o && o <= 1000,
            None => true,
        };
        limit_ok && offset_ok
    }

    /// The limit a listing uses when none is given.
    pub fn limit_or_default(&self) -> (r: i32)
        ensures
            r == match self.limit {
                Some(l) => l,
                None => 10i32,
            },
    {
        match self.limit {
            Some(l) => l,
            None => 10,
        }
    }

    /// The offset a listing uses when none is given.
    pub fn offset_or_default(&self) -> (r: i32)
        ensures
            r == match self.offset {
                Some(o) => o,
                None => 0i32,
            },
    {
        match self.offset {
            Some(o) => o,
            None => 0,
        }
    }
}

/// The body of a post-creation request.
pub struct CreatePost {
    pub text: String,
}

impl CreatePost {
    /// Post text carries 1 to 2000 characters.
    pub open spec fn valid(&self) -> bool {
        valid_length(self.text@, 1, 2000)
    }

    /// Check the rule.
    pub fn validate(&self) -> (r: bool)
        ensures
            r == self.valid(),
    {
        check_length(self.text.as_str(), 1, 2000)
    }
}

/// The body of a password-change request. Passwords are capped at 72
/// characters, the most the hashing scheme reads.
pub struct ChangePasswordData {
    pub password: String,
    pub new_password: String,
}

impl ChangePasswordData {
    /// The current password carries 1 to 72 characters, the new one 8 to
    /// 72.
    pub open spec fn valid(&self) -> bool {
        valid_length(self.password@, 1, 72) && valid_length(self.new_password@, 8, 72)
    }

    /// Check the rule.
    pub fn validate(&self) -> (r: bool)
        ensures
            r == self.valid(),
    {
        check_length(self.password.as_str(), 1, 72) && check_length(
            self.new_password.as_str(),
            8,
            72,
        )
    }
}

/// The body of an account-creation request.
pub struct CreateAccountData {
    pub username: String,
    pub password: String,
    pub email: String,
}

impl CreateAccountData {
    /// A username of 1 to 32 characters, a password of 8 to 72, and an
    /// acceptable email address.
    pub open spec fn valid(&self) -> bool {
        &&& valid_length(self.username@, 1, 32)
        &&& valid_length(self.password@, 8, 72)
        &&& valid_email(self.email@)
    }

    /// Check the rule.
    pub fn validate(&self) -> (r: bool)
        ensures
            r == self.valid(),
    {
        check_length(self.username.as_str(), 1, 32) && check_length(self.password.as_str(), 8, 72)
            && check_email(self.email.as_str())
    }
}

/// The body of an account-deletion request.
pub struct DeleteAccountBody {
    pub password: String,
}

impl DeleteAccountBody {
    /// The confirming password carries 1 to 72 characters.
    pub open spec fn valid(&self) -> bool {
        valid_length(self.password@, 1, 72)
    }

    /// Check the rule.
    pub fn validate(&self) -> (r: bool)
        ensures
            r == self.valid(),
    {
        check_length(self.password.as_str(), 1, 72)
    }
}

/// One field's validation failures, named for the machine-readable error
/// body.
pub struct FieldError {
    pub field: String,
    pub messages: Vec<String>,
}

/// The machine-readable body a validation failure is answered with.
pub struct ValidationErrorJsonPayload {
    pub message: String,
    pub fields: Vec<FieldError>,
}

impl ValidationErrorJsonPayload {
    /// Assemble the error body: the fixed headline and one entry per failed
    /// field.
    pub fn from_field_errors(fields: Vec<FieldError>) -> (r: ValidationErrorJsonPayload)
        ensures
            r.message@ == "Validation error"@,
            r.fields@ == fields@,
    {
        ValidationErrorJsonPayload { message: String::from_str("Validation error"), fields }
    }
}

} // verus!
