//! The authentication middleware: finds the token a request carries, verifies it,
//! and either forwards the request with its claims or rejects it; and the
//! accessors that protected handlers use on the forwarded request.
use vstd::prelude::*;
use vstd::string::StringExecFns;
use vstd::string::StrSliceExecFns;
use crate::claims::{Claims, ClaimsView, TokenKind};
use crate::token::{same_text, verify, verify_outcome, VerifyError};

verus! {

/// What a request offers as a token: its `Authorization` header, and the
/// value of its `access_token` cookie.
pub struct RequestCredentials {
    pub authorization: Option<String>,
    pub access_cookie: Option<String>,
}

pub open spec fn opt_view(o: Option<String>) -> Option<Seq<char>> {
    match o {
        Some(s) => Some(s@),
        None => None,
    }
}

/// The prefix of an `Authorization` header that carries a bearer token.
pub open spec fn bearer_prefix() -> Seq<char> {
    seq!['B', 'e', 'a', 'r', 'e', 'r', ' ']
}

/// The token a request offers: the remainder of an `Authorization` header
/// that starts with `Bearer `, else the `access_token` cookie.
pub open spec fn extracted(authorization: Option<Seq<char>>, cookie: Option<Seq<char>>) -> Option<Seq<char>> {
    match authorization {
        Some(h) if h.len() >= 7 && h.subrange(0, 7) == bearer_prefix() => Some(h.subrange(7, h.len() as int)),
        _ => cookie,
    }
}

/// Why the middleware turned a request away.
#[derive(Clone, Copy, Debug, PartialEq, Eq, Structural)]
pub enum Rejection {
    /// Neither a bearer header nor an `access_token` cookie.
    MissingToken,
    /// The token did not verify.
    Invalid(VerifyError),
    /// A refresh token where an access token is required.
    WrongKind,
}

/// The middleware's decision on a request with the given credentials.
pub open spec fn admission(
    authorization: Option<Seq<char>>,
    cookie: Option<Seq<char>>,
    secret: Seq<u8>,
    now: i64,
) -> Result<ClaimsView, Rejection> {
    match extracted(authorization, cookie) {
        None => Err(Rejection::MissingToken),
        Some(t) => match verify_outcome(t, secret, now) {
            Err(e) => Err(Rejection::Invalid(e)),
            Ok(c) => if c.kind == TokenKind::Access {
                Ok(c)
            } else {
                Err(Rejection::WrongKind)
            },
        },
    }
}

/// The claims attached to one request once the middleware let it through.
pub struct RequestContext {
    pub claims: Option<Claims>,
}

/// The outcome of the middleware on one request.
pub enum AuthOutcome {
    /// Pass the request on, with this context.
    Forward(RequestContext),
    /// Answer at once; the protected handler never runs.
    Reject(Rejection),
}

impl Rejection {
    /// The message of the rejection response. It does not tell which check
    /// failed.
    pub fn message(&self) -> (r: String)
        ensures
            *self == Rejection::MissingToken ==> r@ == "Missing authorization token"@,
            *self != Rejection::MissingToken ==> r@ == "Invalid or expired token"@,
    {
        match self {
            Rejection::MissingToken => String::from_str("Missing authorization token"),
            _ => String::from_str("Invalid or expired token"),
        }
    }
}

fn copy_text(s: &str) -> (r: String)
    ensures
        r@ == s@,
{
    String::from_str(s)
}

/// Picks the token a request offers, as `extracted` says.
pub fn extract_token(creds: &RequestCredentials) -> (r: Option<String>)
    ensures
        opt_view(r) == extracted(opt_view(creds.authorization), opt_view(creds.access_cookie)),
{
    let prefix = "Bearer ";
    proof {
        reveal_strlit("Bearer ");
        assert(prefix@ =~= bearer_prefix());
    }
    match &creds.authorization {
        Some(h) => {
            let n = h.as_str().unicode_len();
            if n >= 7 {
                let head = h.as_str().substring_char(0, 7);
                if same_text(head, prefix) {
                    let rest = h.as_str().substring_char(7, n);
                    return Some(copy_text(rest));
                }
            }
        },
        None => {},
    }
    match &creds.access_cookie {
        Some(c) => Some(copy_text(c.as_str())),
        None => None,
    }
}

/// The middleware, configured with the signing secret.
pub struct JwtMiddleware {
    pub secret: Vec<u8>,
}

/// The middleware placed in front of a service.
pub struct JwtMiddlewareService<S> {
    pub service: S,
    pub secret: Vec<u8>,
}

impl JwtMiddleware {
    pub fn new(secret: Vec<u8>) -> (r: JwtMiddleware)
        ensures
            r.secret@ == secret@,
    {
        JwtMiddleware { secret }
    }

    /// Puts the middleware in front of `service`.
    pub fn new_transform<S>(&self, service: S) -> (r: JwtMiddlewareService<S>)
        ensures
            r.service == service,
            r.secret@ == self.secret@,
    {
        JwtMiddlewareService { service, secret: self.secret.clone() }
    }
}

impl<S> JwtMiddlewareService<S> {
    /// Decides on a request with the given credentials at instant `now`:
    /// forwarded with the verified claims attached, or rejected.
    pub fn call(&self, creds: &RequestCredentials, now: i64) -> (r: AuthOutcome)
        ensures
            match r {
                AuthOutcome::Forward(ctx) => ctx.claims matches Some(c) && admission(
                    opt_view(creds.authorization),
                    opt_view(creds.access_cookie),
                    self.secret@,
                    now,
                ) == Ok::<ClaimsView, Rejection>(c@),
                AuthOutcome::Reject(e) => admission(
                    opt_view(creds.authorization),
                    opt_view(creds.access_cookie),
                    self.secret@,
                    now,
                ) == Err::<ClaimsView, Rejection>(e),
            },
    {
        let token = match extract_token(creds) {
            Some(t) => t,
            None => return AuthOutcome::Reject(Rejection::MissingToken),
        };
        match verify(token.as_str(), self.secret.as_slice(), now) {
            Err(e) => AuthOutcome::Reject(Rejection::Invalid(e)),
            Ok(c) => {
                if c.token_type == TokenKind::Access {
                    AuthOutcome::Forward(RequestContext { claims: Some(c) })
                } else {
                    AuthOutcome::Reject(Rejection::WrongKind)
                }
            },
        }
    }
}

/// Why a handler refused a request.
#[derive(Clone, Copy, Debug, PartialEq, Eq, Structural)]
pub enum AccessError {
    /// No claims are attached to the request.
    Unauthorized,
    /// The claims do not carry the required role.
    Forbidden,
}

/// The claims attached to the request.
pub fn get_claims(ctx: &RequestContext) -> (r: Result<Claims, AccessError>)
    ensures
        match ctx.claims {
            Some(c) => r matches Ok(x) && x@ == c@,
            None => r == Err::<Claims, AccessError>(AccessError::Unauthorized),
        },
{
    match &ctx.claims {
        Some(c) => Ok(c.duplicate()),
        None => Err(AccessError::Unauthorized),
    }
}

/// The claims attached to the request, when they carry `role`.
pub fn require_role(ctx: &RequestContext, role: &str) -> (r: Result<Claims, AccessError>)
    ensures
        match ctx.claims {
            None => r == Err::<Claims, AccessError>(AccessError::Unauthorized),
            Some(c) => if c.role@ == role@ {
                r matches Ok(x) && x@ == c@
            } else {
                r == Err::<Claims, AccessError>(AccessError::Forbidden)
            },
        },
{
    let c = get_claims(ctx)?;
    if !same_text(c.role.as_str(), role) {
        return Err(AccessError::Forbidden);
    }
    Ok(c)
}

/// The claims attached to the request, when they carry the `admin` role.
pub fn require_admin(ctx: &RequestContext) -> (r: Result<Claims, AccessError>)
    ensures
        match ctx.claims {
            None => r == Err::<Claims, AccessError>(AccessError::Unauthorized),
            Some(c) => if c.role@ == "admin"@ {
                r matches Ok(x) && x@ == c@
            } else {
                r == Err::<Claims, AccessError>(AccessError::Forbidden)
            },
        },
{
    require_role(ctx, "admin")
}


/// Admission rules: a request with neither header nor cookie is rejected for a
/// missing token; a token offered as `Bearer <token>` or, without such a
/// header, as the cookie, is forwarded with its claims exactly when it
/// verifies as an access token, and is otherwise rejected (an expired one
/// included).
pub proof fn lemma_admissions(t: Seq<char>, cookie: Option<Seq<char>>, secret: Seq<u8>, now: i64)
    ensures
        admission(None, None, secret, now) == Err::<ClaimsView, Rejection>(Rejection::MissingToken),
        admission(Some(bearer_prefix() + t), cookie, secret, now) == admission(None, Some(t), secret, now),
        verify_outcome(t, secret, now) is Ok && verify_outcome(t, secret, now)->Ok_0.kind == TokenKind::Access
            ==> admission(None, Some(t), secret, now) == Ok::<ClaimsView, Rejection>(verify_outcome(t, secret, now)->Ok_0),
        verify_outcome(t, secret, now) == Err::<ClaimsView, VerifyError>(VerifyError::Expired)
            ==> admission(None, Some(t), secret, now) == Err::<ClaimsView, Rejection>(Rejection::Invalid(VerifyError::Expired)),
{
    let h = bearer_prefix() + t;
    assert(h.subrange(0, 7) =~= bearer_prefix());
    assert(h.subrange(7, h.len() as int) =~= t);
}

} // verus!
