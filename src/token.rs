//! The token envelope: `header.payload.signature`, where the header names
//! HS256, the payload is the URL-safe base64 of the serialized claims, and the
//! signature is the HS256 signature of the first two segments. Tokens are
//! issued with a fixed header and the claims in their fixed form; verifying
//! also accepts any HS256 header and claims in the general object form.
use vstd::prelude::*;
use vstd::string::StringExecFns;
use vstd::string::StrSliceExecFns;
use vstd::utf8::is_ascii_chars;
use crate::claims::{claims_for, Claims, ClaimsView, Principal, TokenKind, MAX_ISSUE_TIME};
use crate::payload::{
    general_claims, header_json_accepted, header_json_ok, lemma_payload_injective, parse_general,
    parse_payload, payload_of, write_payload,
};

verus! {

#[verifier::external_type_specification]
#[verifier::external_body]
pub struct ExJwtError(jsonwebtoken::errors::Error);

/// The URL-safe, unpadded base64 text of some bytes.
pub uninterp spec fn b64url(b: Seq<u8>) -> Seq<char>;

/// The HS256 signature, as URL-safe unpadded base64, of a message under a secret.
pub uninterp spec fn hs256(secret: Seq<u8>, msg: Seq<char>) -> Seq<char>;

pub open spec fn url_safe(c: char) -> bool {
    ('A' <= c <= 'Z') || ('a' <= c <= 'z') || ('0' <= c <= '9') || c == '-' || c == '_'
}

pub open spec fn url_safe_text(s: Seq<char>) -> bool {
    forall|i: int| 0 <= i < s.len() ==> url_safe(#[trigger] s[i])
}

/// Relies on base64's `Engine::encode` with the `URL_SAFE_NO_PAD` engine: the
/// text uses the URL-safe alphabet without padding, and only `b` encodes to it.
/// It panics only when the encoded length overflows `usize`.
#[verifier::external_body]
fn encode_segment(b: &[u8]) -> (r: String)
    requires
        b@.len() <= usize::MAX / 2,
    ensures
        r@ == b64url(b@),
        url_safe_text(r@),
        forall|v: Seq<u8>| #[trigger] b64url(v) == r@ ==> v == b@,
{
    base64::Engine::encode(&base64::engine::general_purpose::URL_SAFE_NO_PAD, b)
}

/// Relies on base64's `Engine::decode` with the `URL_SAFE_NO_PAD` engine, which
/// refuses padding and non-zero trailing bits: it succeeds exactly on the
/// texts that `encode` produces, and gives back the bytes they encode.
#[verifier::external_body]
fn decode_segment(s: &str) -> (r: Option<Vec<u8>>)
    ensures
        forall|v: Seq<u8>| #[trigger] b64url(v) == s@ ==> (r is Some && r->0@ == v),
        r matches Some(x) ==> b64url(x@) == s@,
{
    base64::Engine::decode(&base64::engine::general_purpose::URL_SAFE_NO_PAD, s).ok()
}

/// Relies on `jsonwebtoken::crypto::sign` with `Algorithm::HS256` and a key from
/// `EncodingKey::from_secret`: for HMAC algorithms it always returns `Ok`, with
/// the URL-safe unpadded base64 of the HMAC-SHA256 of the message's bytes.
#[verifier::external_body]
fn sign_hs256(secret: &[u8], msg: &str) -> (r: Result<String, jsonwebtoken::errors::Error>)
    ensures
        r is Ok,
        r matches Ok(s) ==> s@ == hs256(secret@, msg@) && url_safe_text(s@),
{
    jsonwebtoken::crypto::sign(
        msg.as_bytes(),
        &jsonwebtoken::EncodingKey::from_secret(secret),
        jsonwebtoken::Algorithm::HS256,
    )
}

/// Why a presented token was not accepted.
#[derive(Clone, Copy, Debug, PartialEq, Eq, Structural)]
pub enum VerifyError {
    /// Not a three-segment ASCII token whose header names HS256 and whose
    /// payload reads as a claim set.
    Malformed,
    /// The signature does not match the first two segments.
    BadSignature,
    /// Well signed, but the expiry instant is not after the present one.
    Expired,
}

/// A token could not be produced.
#[derive(Clone, Copy, Debug, PartialEq, Eq, Structural)]
pub struct SigningError;

/// The header segment of issued tokens: the base64 of `{"typ":"JWT","alg":"HS256"}`.
pub open spec fn header_text() -> Seq<char> {
    seq![
        'e', 'y', 'J', '0', 'e', 'X', 'A', 'i', 'O', 'i', 'J', 'K', 'V', '1', 'Q', 'i', 'L', 'C',
        'J', 'h', 'b', 'G', 'c', 'i', 'O', 'i', 'J', 'I', 'U', 'z', 'I', '1', 'N', 'i', 'J', '9'
    ]
}

/// The signed part of the token for a claim set: header and payload segments.
pub open spec fn signing_input(c: ClaimsView) -> Seq<char> {
    header_text() + seq!['.'] + b64url(payload_of(c))
}

/// The token issued for a claim set under a secret.
pub open spec fn token_text(c: ClaimsView, secret: Seq<u8>) -> Seq<char> {
    signing_input(c) + seq!['.'] + hs256(secret, signing_input(c))
}

pub open spec fn dot_free(s: Seq<char>) -> bool {
    forall|i: int| 0 <= i < s.len() ==> s[i] != '.'
}

/// `t` has dots at `i` and `j` and nowhere else.
pub open spec fn splits_at(t: Seq<char>, i: int, j: int) -> bool {
    &&& 0 <= i < j < t.len()
    &&& t[i] == '.'
    &&& t[j] == '.'
    &&& dot_free(t.subrange(0, i))
    &&& dot_free(t.subrange(i + 1, j))
    &&& dot_free(t.subrange(j + 1, t.len() as int))
}

/// The three segments of a token with exactly two dots.
pub open spec fn segments(t: Seq<char>) -> Option<(Seq<char>, Seq<char>, Seq<char>)> {
    if exists|i: int, j: int| splits_at(t, i, j) {
        let (i, j) = choose|i: int, j: int| splits_at(t, i, j);
        Some((t.subrange(0, i), t.subrange(i + 1, j), t.subrange(j + 1, t.len() as int)))
    } else {
        None
    }
}

/// A header segment that is accepted: the fixed one, or the base64 of any JSON
/// object whose `alg` member is `"HS256"`.
pub open spec fn header_accepted(h: Seq<char>) -> bool {
    h == header_text() || ((exists|v: Seq<u8>| b64url(v) == h) && header_json_ok(
        choose|v: Seq<u8>| b64url(v) == h,
    ))
}

/// The claim set that payload bytes hold: read in the fixed form when they are
/// in it, else in the general form.
pub open spec fn claims_in(v: Seq<u8>) -> Option<ClaimsView> {
    if exists|c: ClaimsView| payload_of(c) == v {
        Some(choose|c: ClaimsView| payload_of(c) == v)
    } else {
        general_claims(v)
    }
}

/// What verifying `t` against `secret` at instant `now` yields: structure
/// first, then the signature, then expiry.
pub open spec fn verify_outcome(t: Seq<char>, secret: Seq<u8>, now: i64) -> Result<ClaimsView, VerifyError> {
    if !is_ascii_chars(t) {
        Err(VerifyError::Malformed)
    } else {
        match segments(t) {
            None => Err(VerifyError::Malformed),
            Some((h, p, s)) => {
                if !header_accepted(h) || !(exists|v: Seq<u8>| b64url(v) == p) {
                    Err(VerifyError::Malformed)
                } else {
                    match claims_in(choose|v: Seq<u8>| b64url(v) == p) {
                        None => Err(VerifyError::Malformed),
                        Some(c) => if s != hs256(secret, h + seq!['.'] + p) {
                            Err(VerifyError::BadSignature)
                        } else if c.exp <= now {
                            Err(VerifyError::Expired)
                        } else {
                            Ok(c)
                        },
                    }
                }
            },
        }
    }
}

proof fn lemma_dot_positions(t: Seq<char>, i: int, j: int, m: int)
    requires
        splits_at(t, i, j),
        0 <= m < t.len(),
        t[m] == '.',
    ensures
        m == i || m == j,
{
    if m < i {
        assert(t.subrange(0, i)[m] == t[m]);
    } else if i < m < j {
        assert(t.subrange(i + 1, j)[m - i - 1] == t[m]);
    } else if m > j {
        assert(t.subrange(j + 1, t.len() as int)[m - j - 1] == t[m]);
    }
}

proof fn lemma_segments_at(t: Seq<char>, i: int, j: int)
    requires
        splits_at(t, i, j),
    ensures
        segments(t) == Some((t.subrange(0, i), t.subrange(i + 1, j), t.subrange(j + 1, t.len() as int))),
{
    let (i2, j2) = choose|i2: int, j2: int| splits_at(t, i2, j2);
    lemma_dot_positions(t, i, j, i2);
    lemma_dot_positions(t, i, j, j2);
}

proof fn lemma_issued_outcome(c: ClaimsView, secret: Seq<u8>, now: i64)
    requires
        url_safe_text(b64url(payload_of(c))),
        url_safe_text(hs256(secret, signing_input(c))),
        forall|v: Seq<u8>| #[trigger] b64url(v) == b64url(payload_of(c)) ==> v == payload_of(c),
    ensures
        verify_outcome(token_text(c, secret), secret, now) == (if now < c.exp {
            Ok(c)
        } else {
            Err::<ClaimsView, VerifyError>(VerifyError::Expired)
        }),
{
    let h = header_text();
    let p = b64url(payload_of(c));
    let s = hs256(secret, signing_input(c));
    let t = token_text(c, secret);
    let i = h.len() as int;
    let j = i + 1 + p.len();
    assert(t =~= h + seq!['.'] + p + seq!['.'] + s);
    assert(t.subrange(0, i) =~= h);
    assert(t.subrange(i + 1, j) =~= p);
    assert(t.subrange(j + 1, t.len() as int) =~= s);
    assert(is_ascii_chars(t)) by {
        assert forall|k: int| 0 <= k < t.len() implies '\0' <= #[trigger] t[k] <= '\u{7f}' by {
            if k < i {
            } else if k == i || k == j {
            } else if k < j {
                assert(t[k] == p[k - i - 1]);
                assert(url_safe(p[k - i - 1]));
            } else {
                assert(t[k] == s[k - j - 1]);
                assert(url_safe(s[k - j - 1]));
            }
        }
    }
    assert(splits_at(t, i, j)) by {
        assert forall|k: int| 0 <= k < p.len() implies #[trigger] t.subrange(i + 1, j)[k] != '.' by {
            assert(url_safe(p[k]));
        }
        assert forall|k: int| 0 <= k < s.len() implies #[trigger] t.subrange(j + 1, t.len() as int)[k] != '.' by {
            assert(url_safe(s[k]));
        }
    }
    lemma_segments_at(t, i, j);
    assert(h + seq!['.'] + p =~= signing_input(c));
    let v = choose|v: Seq<u8>| b64url(v) == p;
    assert(b64url(payload_of(c)) == p);
    assert(v == payload_of(c));
    let c2 = choose|c2: ClaimsView| payload_of(c2) == v;
    assert(payload_of(c) == v);
    lemma_payload_injective(c, c2);
}

/// Produces the token for `claims` under `secret`.
pub fn sign_token(claims: &Claims, secret: &[u8]) -> (r: Result<String, SigningError>)
    ensures
        r is Ok <==> payload_of(claims@).len() <= usize::MAX / 2,
        r matches Ok(t) ==> t@ == token_text(claims@, secret@),
        r matches Ok(t) ==> forall|now: i64| #[trigger] verify_outcome(t@, secret@, now) == (if now < claims.exp {
            Ok(claims@)
        } else {
            Err::<ClaimsView, VerifyError>(VerifyError::Expired)
        }),
{
    let payload = write_payload(claims);
    if payload.len() > usize::MAX / 2 {
        return Err(SigningError);
    }
    let segment = encode_segment(payload.as_slice());
    let header = "eyJ0eXAiOiJKV1QiLCJhbGciOiJIUzI1NiJ9";
    proof {
        reveal_strlit("eyJ0eXAiOiJKV1QiLCJhbGciOiJIUzI1NiJ9");
        reveal_strlit(".");
        assert(header@ =~= header_text());
    }
    let mut input = String::from_str(header);
    input.append(".");
    input.append(segment.as_str());
    assert(input@ =~= signing_input(claims@));
    let signature = match sign_hs256(secret, input.as_str()) {
        Ok(s) => s,
        Err(_) => return Err(SigningError),
    };
    let mut token = input.clone();
    token.append(".");
    token.append(signature.as_str());
    assert(token@ =~= token_text(claims@, secret@));
    proof {
        assert forall|now: i64| #[trigger] verify_outcome(token@, secret@, now) == (if now < claims.exp {
            Ok(claims@)
        } else {
            Err::<ClaimsView, VerifyError>(VerifyError::Expired)
        }) by {
            lemma_issued_outcome(claims@, secret@, now);
        }
    }
    Ok(token)
}


pub(crate) fn same_text(a: &str, b: &str) -> (r: bool)
    ensures
        r == (a@ == b@),
{
    let n = a.unicode_len();
    if n != b.unicode_len() {
        return false;
    }
    let mut i: usize = 0;
    while i < n
        invariant
            n == a@.len(),
            a@.len() == b@.len(),
            i <= n,
            forall|k: int| 0 <= k < i ==> a@[k] == b@[k],
        decreases n - i,
    {
        if a.get_char(i) != b.get_char(i) {
            return false;
        }
        i = i + 1;
    }
    assert(a@ =~= b@);
    true
}

/// Compares two signatures, reading every character of equal-length texts
/// whatever they hold, so the time taken does not tell where they differ.
fn same_signature(a: &str, b: &str) -> (r: bool)
    ensures
        r == (a@ == b@),
{
    let n = a.unicode_len();
    if n != b.unicode_len() {
        return false;
    }
    let mut equal = true;
    let mut i: usize = 0;
    while i < n
        invariant
            n == a@.len(),
            a@.len() == b@.len(),
            i <= n,
            equal == (forall|k: int| 0 <= k < i ==> a@[k] == b@[k]),
        decreases n - i,
    {
        let same = a.get_char(i) == b.get_char(i);
        equal = equal && same;
        i = i + 1;
    }
    if equal {
        assert(a@ =~= b@);
    } else {
        assert(a@ != b@);
    }
    equal
}

/// Finds the two dots of a three-segment ASCII token.
fn find_dots(t: &str) -> (r: Option<(usize, usize)>)
    requires
        is_ascii_chars(t@),
    ensures
        match r {
            Some((i, j)) => splits_at(t@, i as int, j as int),
            None => !exists|i: int, j: int| splits_at(t@, i, j),
        },
{
    let bytes = t.as_bytes();
    proof {
        vstd::string::is_ascii_spec_bytes(t);
    }
    assert(bytes@.len() == t@.len());
    let mut d1: usize = 0;
    let mut d2: usize = 0;
    let mut n: usize = 0;
    let mut k: usize = 0;
    while k < bytes.len()
        invariant
            bytes@ == Seq::new(t@.len(), |i| t@[i] as u8),
            is_ascii_chars(t@),
            k <= t@.len(),
            n <= 2,
            n >= 1 ==> d1 < k && t@[d1 as int] == '.',
            n == 2 ==> d1 < d2 < k && t@[d2 as int] == '.',
            forall|m: int| 0 <= m < k && t@[m] == '.' ==> (n >= 1 && m == d1) || (n == 2 && m == d2),
        decreases bytes.len() - k,
    {
        let ghost ch = t@[k as int];
        assert(bytes@[k as int] == ch as u8);
        assert(('\0' <= ch <= '\u{7f}'));
        if bytes[k] == 46 {
            assert(ch == '.');
            if n == 2 {
                proof {
                    assert forall|i: int, j: int| !splits_at(t@, i, j) by {
                        if splits_at(t@, i, j) {
                            lemma_dot_positions(t@, i, j, d1 as int);
                            lemma_dot_positions(t@, i, j, d2 as int);
                            lemma_dot_positions(t@, i, j, k as int);
                        }
                    }
                }
                return None;
            } else if n == 1 {
                d2 = k;
            } else {
                d1 = k;
            }
            n = n + 1;
        } else {
            assert(ch != '.');
        }
        k = k + 1;
    }
    if n != 2 {
        proof {
            assert forall|i: int, j: int| !splits_at(t@, i, j) by {
                if splits_at(t@, i, j) {
                    assert(t@[i] == '.' && t@[j] == '.');
                }
            }
        }
        return None;
    }
    proof {
        let tt = t@;
        assert(dot_free(tt.subrange(0, d1 as int))) by {
            assert forall|m: int| 0 <= m < d1 implies #[trigger] tt.subrange(0, d1 as int)[m] != '.' by {
                assert(tt.subrange(0, d1 as int)[m] == tt[m]);
            }
        }
        assert(dot_free(tt.subrange(d1 + 1, d2 as int))) by {
            assert forall|m: int| 0 <= m < d2 - d1 - 1 implies #[trigger] tt.subrange(d1 + 1, d2 as int)[m] != '.' by {
                assert(tt.subrange(d1 + 1, d2 as int)[m] == tt[d1 + 1 + m]);
            }
        }
        assert(dot_free(tt.subrange(d2 + 1, tt.len() as int))) by {
            assert forall|m: int| 0 <= m < tt.len() - d2 - 1 implies #[trigger] tt.subrange(d2 + 1, tt.len() as int)[m] != '.' by {
                assert(tt.subrange(d2 + 1, tt.len() as int)[m] == tt[d2 + 1 + m]);
            }
        }
    }
    Some((d1, d2))
}

/// Verifies `token` against `secret` at instant `now`.
pub fn verify(token: &str, secret: &[u8], now: i64) -> (r: Result<Claims, VerifyError>)
    ensures
        match r {
            Ok(c) => verify_outcome(token@, secret@, now) == Ok::<ClaimsView, VerifyError>(c@),
            Err(e) => verify_outcome(token@, secret@, now) == Err::<ClaimsView, VerifyError>(e),
        },
{
    if !token.is_ascii() {
        return Err(VerifyError::Malformed);
    }
    let (d1, d2) = match find_dots(token) {
        Some(d) => d,
        None => return Err(VerifyError::Malformed),
    };
    proof {
        lemma_segments_at(token@, d1 as int, d2 as int);
    }
    let header = token.substring_ascii(0, d1);
    let expected = "eyJ0eXAiOiJKV1QiLCJhbGciOiJIUzI1NiJ9";
    proof {
        reveal_strlit("eyJ0eXAiOiJKV1QiLCJhbGciOiJIUzI1NiJ9");
        assert(expected@ =~= header_text());
    }
    if !same_text(header, expected) {
        let header_bytes = match decode_segment(header) {
            Some(b) => b,
            None => return Err(VerifyError::Malformed),
        };
        if !header_json_accepted(header_bytes.as_slice()) {
            return Err(VerifyError::Malformed);
        }
    }
    let segment = token.substring_ascii(d1 + 1, d2);
    let bytes = match decode_segment(segment) {
        Some(b) => b,
        None => return Err(VerifyError::Malformed),
    };
    let claims = match parse_payload(bytes.as_slice()) {
        Some(c) => c,
        None => match parse_general(bytes.as_slice()) {
            Some(c) => c,
            None => return Err(VerifyError::Malformed),
        },
    };
    let input = token.substring_ascii(0, d2);
    proof {
        assert(input@ =~= header@ + seq!['.'] + segment@);
    }
    let signature = match sign_hs256(secret, input) {
        Ok(s) => s,
        Err(_) => return Err(VerifyError::BadSignature),
    };
    let len = token.unicode_len();
    let presented = token.substring_ascii(d2 + 1, len);
    if !same_signature(signature.as_str(), presented) {
        return Err(VerifyError::BadSignature);
    }
    if claims.exp <= now {
        return Err(VerifyError::Expired);
    }
    Ok(claims)
}


/// Issues a token of kind `kind` for `p` at instant `now`, signed with `secret`.
/// Verifying it yields the claims built for `p` until they expire.
pub fn issue(p: &Principal, kind: TokenKind, now: i64, secret: &[u8]) -> (r: Result<String, SigningError>)
    requires
        now <= MAX_ISSUE_TIME,
    ensures
        r is Ok <==> payload_of(p.claims_at(kind, now)).len() <= usize::MAX / 2,
        r matches Ok(t) ==> t@ == token_text(p.claims_at(kind, now), secret@),
        r matches Ok(t) ==> forall|n: i64| #[trigger] verify_outcome(t@, secret@, n) == (if n < p.claims_at(kind, now).exp {
            Ok(p.claims_at(kind, now))
        } else {
            Err::<ClaimsView, VerifyError>(VerifyError::Expired)
        }),
{
    let claims = Claims::build(p, kind, now);
    sign_token(&claims, secret)
}

/// `r` is what issuing a token of kind `kind` for the given identity at
/// instant `now` under `secret` gives: a token exactly when the claims can be
/// built and their serialization fits, and that token then verifies to those
/// claims until they expire.
pub open spec fn issued_at(
    r: Result<String, SigningError>,
    user_id: i32,
    email: Seq<char>,
    role: Seq<char>,
    kind: TokenKind,
    now: i64,
    secret: Seq<u8>,
) -> bool {
    let c = claims_for(user_id, email, role, kind, now);
    &&& (r is Ok <==> (now <= MAX_ISSUE_TIME && payload_of(c).len() <= usize::MAX / 2))
    &&& (r matches Ok(t) ==> t@ == token_text(c, secret))
    &&& (r matches Ok(t) ==> forall|n: i64| #[trigger] verify_outcome(t@, secret, n) == (if n < c.exp {
        Ok(c)
    } else {
        Err::<ClaimsView, VerifyError>(VerifyError::Expired)
    }))
}

/// Issues a token of kind `kind` for the given identity at instant `now`.
pub fn issue_at(user_id: i32, email: String, role: String, kind: TokenKind, now: i64, secret: &[u8]) -> (r: Result<String, SigningError>)
    ensures
        issued_at(r, user_id, email@, role@, kind, now, secret@),
{
    let ghost e = email@;
    let ghost ro = role@;
    let claims = match Claims::at_time(user_id, email, role, kind, now) {
        Some(c) => c,
        None => return Err(SigningError),
    };
    sign_token(&claims, secret)
}

/// An access token for the given identity, issued at `now`.
pub fn generate_access_token(user_id: i32, email: String, role: String, secret: &[u8], now: i64) -> (r: Result<String, SigningError>)
    ensures
        issued_at(r, user_id, email@, role@, TokenKind::Access, now, secret@),
{
    issue_at(user_id, email, role, TokenKind::Access, now, secret)
}

/// A refresh token for the given identity, issued at `now`.
pub fn generate_refresh_token(user_id: i32, email: String, role: String, secret: &[u8], now: i64) -> (r: Result<String, SigningError>)
    ensures
        issued_at(r, user_id, email@, role@, TokenKind::Refresh, now, secret@),
{
    issue_at(user_id, email, role, TokenKind::Refresh, now, secret)
}

/// An access and a refresh token for the given identity, both issued at
/// `now`: they differ only in kind and expiry.
pub fn generate_token_pair(user_id: i32, email: String, role: String, secret: &[u8], now: i64) -> (r: (
    Result<String, SigningError>,
    Result<String, SigningError>,
))
    ensures
        issued_at(r.0, user_id, email@, role@, TokenKind::Access, now, secret@),
        issued_at(r.1, user_id, email@, role@, TokenKind::Refresh, now, secret@),
{
    let access = issue_at(user_id, email.clone(), role.clone(), TokenKind::Access, now, secret);
    let refresh = issue_at(user_id, email, role, TokenKind::Refresh, now, secret);
    (access, refresh)
}

/// Verifies `token` against `secret` at instant `now`, as `verify` does.
pub fn validate_token(token: &str, secret: &[u8], now: i64) -> (r: Result<Claims, VerifyError>)
    ensures
        match r {
            Ok(c) => verify_outcome(token@, secret@, now) == Ok::<ClaimsView, VerifyError>(c@),
            Err(e) => verify_outcome(token@, secret@, now) == Err::<ClaimsView, VerifyError>(e),
        },
{
    verify(token, secret, now)
}

/// Expiry: a token that verifies at some instant verifies to the same claims at
/// every instant before its expiry, and is `Expired` from the expiry instant on,
/// that instant included.
pub proof fn lemma_expiry(t: Seq<char>, secret: Seq<u8>, then: i64, now: i64)
    requires
        verify_outcome(t, secret, then) is Ok,
    ensures
        now < verify_outcome(t, secret, then)->Ok_0.exp ==> verify_outcome(t, secret, now) == verify_outcome(t, secret, then),
        now >= verify_outcome(t, secret, then)->Ok_0.exp ==> verify_outcome(t, secret, now) == Err::<ClaimsView, VerifyError>(VerifyError::Expired),
{
}

/// Tampering with the signature: changing one character of the signature
/// segment of a well-signed token, to any ASCII character but a dot, makes it
/// fail with `BadSignature`.
pub proof fn lemma_signature_tamper(t: Seq<char>, secret: Seq<u8>, now: i64, i: int, j: int, k: int, ch: char)
    requires
        verify_outcome(t, secret, now) is Ok || verify_outcome(t, secret, now) == Err::<ClaimsView, VerifyError>(VerifyError::Expired),
        splits_at(t, i, j),
        j < k < t.len(),
        ch != t[k],
        ch != '.',
        '\0' <= ch <= '\u{7f}',
    ensures
        verify_outcome(t.update(k, ch), secret, now) == Err::<ClaimsView, VerifyError>(VerifyError::BadSignature),
{
    let u = t.update(k, ch);
    lemma_segments_at(t, i, j);
    assert(u.subrange(0, i) =~= t.subrange(0, i));
    assert(u.subrange(i + 1, j) =~= t.subrange(i + 1, j));
    assert(dot_free(u.subrange(j + 1, u.len() as int))) by {
        assert forall|m: int| 0 <= m < u.len() - j - 1 implies #[trigger] u.subrange(j + 1, u.len() as int)[m] != '.' by {
            assert(u.subrange(j + 1, u.len() as int)[m] == u[j + 1 + m]);
            assert(t.subrange(j + 1, t.len() as int)[m] == t[j + 1 + m]);
        }
    }
    assert(splits_at(u, i, j));
    lemma_segments_at(u, i, j);
    assert(u.subrange(j + 1, u.len() as int)[k - j - 1] == ch);
    assert(t.subrange(j + 1, t.len() as int)[k - j - 1] == t[k]);
    assert(u.subrange(j + 1, u.len() as int) != t.subrange(j + 1, t.len() as int));
    assert(is_ascii_chars(u)) by {
        assert forall|m: int| 0 <= m < u.len() implies '\0' <= #[trigger] u[m] <= '\u{7f}' by {
            if m != k {
                assert(u[m] == t[m]);
            }
        }
    }
}

} // verus!
