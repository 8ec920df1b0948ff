//! Checks and normalization that the credential handlers apply to request
//! bodies before touching storage.
use vstd::prelude::*;
use vstd::string::StringExecFns;
use vstd::string::StrSliceExecFns;
use vstd::utf8::encode_utf8;
use crate::claims::{Principal, TokenKind, MAX_ISSUE_TIME};
use crate::dto::{CreateUserRequest, LoginRequest, LoginResponse, RegisterRequest, UserInfo};
use crate::payload::payload_of;
use crate::token::{issue, token_text};

verus! {

/// Characters with the Unicode `White_Space` property.
pub open spec fn white_space(c: char) -> bool {
    c == ' ' || ('\t' <= c <= '\r') || c == '\u{85}' || c == '\u{a0}' || c == '\u{1680}'
        || ('\u{2000}' <= c <= '\u{200a}') || c == '\u{2028}' || c == '\u{2029}'
        || c == '\u{202f}' || c == '\u{205f}' || c == '\u{3000}'
}

pub fn is_white_space(c: char) -> (r: bool)
    ensures
        r == white_space(c),
{
    c == ' ' || ('\t' <= c && c <= '\r') || c == '\u{85}' || c == '\u{a0}' || c == '\u{1680}'
        || ('\u{2000}' <= c && c <= '\u{200a}') || c == '\u{2028}' || c == '\u{2029}'
        || c == '\u{202f}' || c == '\u{205f}' || c == '\u{3000}'
}

/// How many white-space characters `s` starts with.
pub open spec fn leading_ws(s: Seq<char>) -> nat
    decreases s.len(),
{
    if s.len() > 0 && white_space(s[0]) {
        1 + leading_ws(s.drop_first())
    } else {
        0
    }
}

/// How many white-space characters `s` ends with.
pub open spec fn trailing_ws(s: Seq<char>) -> nat
    decreases s.len(),
{
    if s.len() > 0 && white_space(s.last()) {
        1 + trailing_ws(s.drop_last())
    } else {
        0
    }
}

/// `s` without its leading and trailing white space.
pub open spec fn trimmed(s: Seq<char>) -> Seq<char> {
    if leading_ws(s) >= s.len() {
        Seq::empty()
    } else {
        s.subrange(leading_ws(s) as int, s.len() - trailing_ws(s))
    }
}

/// Nothing but white space.
pub open spec fn blank(s: Seq<char>) -> bool {
    forall|i: int| 0 <= i < s.len() ==> white_space(#[trigger] s[i])
}

proof fn lemma_leading(s: Seq<char>, i: int)
    requires
        0 <= i <= s.len(),
        forall|k: int| 0 <= k < i ==> white_space(#[trigger] s[k]),
        i == s.len() || !white_space(s[i]),
    ensures
        leading_ws(s) == i,
    decreases i,
{
    if i > 0 {
        let t = s.drop_first();
        assert(forall|k: int| 0 <= k < i - 1 ==> t[k] == s[k + 1]);
        if i < s.len() {
            assert(t[i - 1] == s[i]);
        }
        lemma_leading(t, i - 1);
    }
}

proof fn lemma_trailing(s: Seq<char>, j: int)
    requires
        0 <= j <= s.len(),
        forall|k: int| j <= k < s.len() ==> white_space(#[trigger] s[k]),
        j == 0 || !white_space(s[j - 1]),
    ensures
        trailing_ws(s) == s.len() - j,
    decreases s.len() - j,
{
    if j < s.len() {
        let t = s.drop_last();
        assert(forall|k: int| j <= k < t.len() ==> t[k] == s[k]);
        if j > 0 {
            assert(t[j - 1] == s[j - 1]);
        }
        lemma_trailing(t, j);
    }
}

/// Whether `s` is nothing but white space.
pub fn is_blank(s: &str) -> (r: bool)
    ensures
        r == blank(s@),
{
    let n = s.unicode_len();
    let mut i: usize = 0;
    while i < n
        invariant
            n == s@.len(),
            i <= n,
            forall|k: int| 0 <= k < i ==> white_space(#[trigger] s@[k]),
        decreases n - i,
    {
        if !is_white_space(s.get_char(i)) {
            return false;
        }
        i = i + 1;
    }
    true
}

/// `s` without its leading and trailing white space.
pub fn trim_text(s: &str) -> (r: String)
    ensures
        r@ == trimmed(s@),
{
    let n = s.unicode_len();
    let mut i: usize = 0;
    while i < n && is_white_space(s.get_char(i))
        invariant
            n == s@.len(),
            i <= n,
            forall|k: int| 0 <= k < i ==> white_space(#[trigger] s@[k]),
        decreases n - i,
    {
        i = i + 1;
    }
    proof {
        lemma_leading(s@, i as int);
    }
    if i == n {
        return String::new();
    }
    let mut j: usize = n;
    while j > i && is_white_space(s.get_char(j - 1))
        invariant
            n == s@.len(),
            i < n,
            !white_space(s@[i as int]),
            i <= j <= n,
            forall|k: int| j <= k < n ==> white_space(#[trigger] s@[k]),
        decreases j,
    {
        j = j - 1;
    }
    proof {
        lemma_trailing(s@, j as int);
    }
    String::from_str(s.substring_char(i, j))
}

/// The lower-case form of a text, as Unicode case mapping gives it.
pub uninterp spec fn lower_of(s: Seq<char>) -> Seq<char>;

/// Relies on `str::to_lowercase`: the result depends on the characters alone,
/// and the empty text stays empty.
#[verifier::external_body]
fn lowercase(s: &str) -> (r: String)
    ensures
        r@ == lower_of(s@),
        s@.len() == 0 ==> r@.len() == 0,
{
    s.to_lowercase()
}

/// The form in which an email address is stored and looked up: trimmed,
/// then lower-cased.
pub fn normalized_email(email: &str) -> (r: String)
    ensures
        r@ == lower_of(trimmed(email@)),
{
    let t = trim_text(email);
    lowercase(t.as_str())
}

/// Whether `s` holds the character `c`.
pub fn has_char(s: &str, c: char) -> (r: bool)
    ensures
        r == s@.contains(c),
{
    let n = s.unicode_len();
    let mut i: usize = 0;
    while i < n
        invariant
            n == s@.len(),
            i <= n,
            forall|k: int| 0 <= k < i ==> s@[k] != c,
        decreases n - i,
    {
        if s.get_char(i) == c {
            return true;
        }
        i = i + 1;
    }
    false
}

/// A request body the credential handlers refuse.
#[derive(Clone, Copy, Debug, PartialEq, Eq, Structural)]
pub enum InputError {
    UsernameEmpty,
    NameEmpty,
    InvalidEmail,
    EmailEmpty,
    PasswordTooShort,
    PasswordEmpty,
}

/// Fewest bytes a new password may have.
pub const MIN_PASSWORD_BYTES: usize = 6;

/// A usable email address: not blank, and holding an `@`.
pub open spec fn email_ok(email: Seq<char>) -> bool {
    !blank(email) && email.contains('@')
}

impl InputError {
    /// The message answered for the refusal.
    pub fn message(&self) -> (r: String)
        ensures
            *self == InputError::UsernameEmpty ==> r@ == "Username cannot be empty"@,
            *self == InputError::NameEmpty ==> r@ == "Name cannot be empty"@,
            *self == InputError::InvalidEmail ==> r@ == "Invalid email format"@,
            *self == InputError::EmailEmpty ==> r@ == "Email cannot be empty"@,
            *self == InputError::PasswordTooShort ==> r@ == "Password must be at least 6 characters"@,
            *self == InputError::PasswordEmpty ==> r@ == "Password cannot be empty"@,
    {
        match self {
            InputError::UsernameEmpty => String::from_str("Username cannot be empty"),
            InputError::NameEmpty => String::from_str("Name cannot be empty"),
            InputError::InvalidEmail => String::from_str("Invalid email format"),
            InputError::EmailEmpty => String::from_str("Email cannot be empty"),
            InputError::PasswordTooShort => String::from_str("Password must be at least 6 characters"),
            InputError::PasswordEmpty => String::from_str("Password cannot be empty"),
        }
    }
}

fn check_email(email: &str) -> (r: Result<(), InputError>)
    ensures
        r == (if email_ok(email@) { Ok(()) } else { Err::<(), InputError>(InputError::InvalidEmail) }),
{
    if is_blank(email) || !has_char(email, '@') {
        Err(InputError::InvalidEmail)
    } else {
        Ok(())
    }
}

impl RegisterRequest {
    /// Refuses a blank username, then an unusable email, then a password of
    /// fewer than six bytes.
    pub fn validate(&self) -> (r: Result<(), InputError>)
        ensures
            r == (if blank(self.username@) {
                Err(InputError::UsernameEmpty)
            } else if !email_ok(self.email@) {
                Err(InputError::InvalidEmail)
            } else if encode_utf8(self.password@).len() < MIN_PASSWORD_BYTES {
                Err(InputError::PasswordTooShort)
            } else {
                Ok::<(), InputError>(())
            }),
    {
        if is_blank(self.username.as_str()) {
            return Err(InputError::UsernameEmpty);
        }
        check_email(self.email.as_str())?;
        if self.password.as_str().as_bytes().len() < MIN_PASSWORD_BYTES {
            return Err(InputError::PasswordTooShort);
        }
        Ok(())
    }
}

impl LoginRequest {
    /// Refuses a blank email, then an empty password.
    pub fn validate(&self) -> (r: Result<(), InputError>)
        ensures
            r == (if blank(self.email@) {
                Err(InputError::EmailEmpty)
            } else if self.password@.len() == 0 {
                Err(InputError::PasswordEmpty)
            } else {
                Ok::<(), InputError>(())
            }),
    {
        if is_blank(self.email.as_str()) {
            return Err(InputError::EmailEmpty);
        }
        if self.password.as_str().is_empty() {
            return Err(InputError::PasswordEmpty);
        }
        Ok(())
    }
}

impl CreateUserRequest {
    /// Refuses a blank name, then an unusable email.
    pub fn validate(&self) -> (r: Result<(), InputError>)
        ensures
            r == (if blank(self.name@) {
                Err(InputError::NameEmpty)
            } else if !email_ok(self.email@) {
                Err(InputError::InvalidEmail)
            } else {
                Ok::<(), InputError>(())
            }),
    {
        if is_blank(self.name.as_str()) {
            return Err(InputError::NameEmpty);
        }
        check_email(self.email.as_str())
    }
}


/// Why a login with a well-formed body did not succeed.
#[derive(Clone, Copy, Debug, PartialEq, Eq, Structural)]
pub enum LoginError {
    /// Unknown email, or a password that does not match.
    InvalidCredentials,
    /// The tokens could not be produced.
    TokenGeneration,
}

/// The principal a stored user stands for.
pub open spec fn principal_of(user: UserInfo) -> Principal {
    Principal { user_id: user.id, email: user.email, role: user.role }
}

/// Finishes a login for the stored `user` (or for none, when the email is
/// unknown), once the password has been checked against it: both tokens,
/// issued at `now`, and the answer that carries them.
pub fn complete_login(user: Option<UserInfo>, password_matches: bool, secret: &[u8], now: i64) -> (r: Result<LoginResponse, LoginError>)
    requires
        now <= MAX_ISSUE_TIME,
    ensures
        (user is None || !password_matches) <==> r == Err::<LoginResponse, LoginError>(LoginError::InvalidCredentials),
        r == Err::<LoginResponse, LoginError>(LoginError::TokenGeneration) <==> (user is Some && password_matches && (
            payload_of(principal_of(user->0).claims_at(TokenKind::Access, now)).len() > usize::MAX / 2
            || payload_of(principal_of(user->0).claims_at(TokenKind::Refresh, now)).len() > usize::MAX / 2)),
        r matches Ok(resp) ==> user is Some
            && resp.access_token@ == token_text(principal_of(user->0).claims_at(TokenKind::Access, now), secret@)
            && resp.refresh_token@ == token_text(principal_of(user->0).claims_at(TokenKind::Refresh, now), secret@)
            && resp.user == user->0
            && resp.token_type@ == "Bearer"@
            && resp.expires_in == crate::claims::ACCESS_TTL,
{
    let user = match user {
        Some(u) => u,
        None => return Err(LoginError::InvalidCredentials),
    };
    if !password_matches {
        return Err(LoginError::InvalidCredentials);
    }
    let p = Principal { user_id: user.id, email: user.email.clone(), role: user.role.clone() };
    let access = issue(&p, TokenKind::Access, now, secret);
    let refresh = issue(&p, TokenKind::Refresh, now, secret);
    match (access, refresh) {
        (Ok(a), Ok(f)) => Ok(LoginResponse::new(a, f, user)),
        _ => Err(LoginError::TokenGeneration),
    }
}


/// The user record that registration stores.
#[derive(Debug)]
pub struct NewUser {
    pub username: String,
    pub email: String,
    pub role: String,
}

/// The role a new user gets.
pub open spec fn default_role() -> Seq<char> {
    seq!['u', 's', 'e', 'r']
}

fn new_user_record(name: &str, email: &str) -> (r: NewUser)
    ensures
        r.username@ == trimmed(name@),
        r.email@ == lower_of(trimmed(email@)),
        r.role@ == default_role(),
{
    let role = "user";
    proof {
        reveal_strlit("user");
        assert(role@ =~= default_role());
    }
    NewUser { username: trim_text(name), email: normalized_email(email), role: String::from_str(role) }
}

impl RegisterRequest {
    /// The record to store for this registration: the trimmed username, the
    /// normalized email and the default role.
    pub fn new_user(&self) -> (r: NewUser)
        ensures
            r.username@ == trimmed(self.username@),
            r.email@ == lower_of(trimmed(self.email@)),
            r.role@ == default_role(),
    {
        new_user_record(self.username.as_str(), self.email.as_str())
    }
}

impl CreateUserRequest {
    /// The record to store for this request: the trimmed name, the normalized
    /// email and the default role.
    pub fn new_user(&self) -> (r: NewUser)
        ensures
            r.username@ == trimmed(self.name@),
            r.email@ == lower_of(trimmed(self.email@)),
            r.role@ == default_role(),
    {
        new_user_record(self.name.as_str(), self.email.as_str())
    }
}

} // verus!
