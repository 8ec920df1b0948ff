//! The claim set carried by a token, and its construction from a principal.
use vstd::prelude::*;

verus! {

/// Seconds an access token stays valid.
pub const ACCESS_TTL: i64 = 3600;

/// Seconds a refresh token stays valid.
pub const REFRESH_TTL: i64 = 604800;

/// Largest issuance instant for which `now + ttl` cannot overflow.
pub const MAX_ISSUE_TIME: i64 = 9223372036854170000;

/// Which of the two token lifetimes a claim set belongs to.
#[derive(Clone, Copy, Debug, PartialEq, Eq, Structural)]
pub enum TokenKind {
    Access,
    Refresh,
}

/// Lifetime in seconds of a token of the given kind.
pub open spec fn ttl(kind: TokenKind) -> int {
    match kind {
        TokenKind::Access => ACCESS_TTL as int,
        TokenKind::Refresh => REFRESH_TTL as int,
    }
}

impl TokenKind {
    pub fn ttl_seconds(self) -> (r: i64)
        ensures
            r == ttl(self),
    {
        match self {
            TokenKind::Access => ACCESS_TTL,
            TokenKind::Refresh => REFRESH_TTL,
        }
    }
}

/// The authenticated identity a token is issued for.
#[derive(Clone, Debug)]
pub struct Principal {
    pub user_id: i32,
    pub email: String,
    pub role: String,
}

/// The signed facts about a principal embedded in a token.
#[derive(Clone, Debug)]
pub struct Claims {
    /// The principal's user id, in decimal.
    pub sub: String,
    pub email: String,
    pub role: String,
    /// Expiry instant, unix seconds.
    pub exp: i64,
    /// Issuance instant, unix seconds.
    pub iat: i64,
    pub token_type: TokenKind,
}

/// The mathematical value of a claim set.
pub ghost struct ClaimsView {
    pub sub: Seq<char>,
    pub email: Seq<char>,
    pub role: Seq<char>,
    pub exp: i64,
    pub iat: i64,
    pub kind: TokenKind,
}

impl View for Claims {
    type V = ClaimsView;

    open spec fn view(&self) -> ClaimsView {
        ClaimsView {
            sub: self.sub@,
            email: self.email@,
            role: self.role@,
            exp: self.exp,
            iat: self.iat,
            kind: self.token_type,
        }
    }
}

/// Decimal text of an integer, with a leading '-' when negative.
pub open spec fn decimal_text(n: int) -> Seq<char>
    decreases (if n < 0 { -n + 1 } else { n }),
{
    if n < 0 {
        seq!['-'] + decimal_text(-n)
    } else if n < 10 {
        seq![(48 + n) as char]
    } else {
        decimal_text(n / 10).push((48 + n % 10) as char)
    }
}

/// The claim set issued to `p` at instant `now` for a token of kind `kind`.
pub open spec fn claims_for(p_id: i32, p_email: Seq<char>, p_role: Seq<char>, kind: TokenKind, now: i64) -> ClaimsView
    recommends
        now <= MAX_ISSUE_TIME,
{
    ClaimsView {
        sub: decimal_text(p_id as int),
        email: p_email,
        role: p_role,
        exp: (now + ttl(kind)) as i64,
        iat: now,
        kind: kind,
    }
}

/// Relies on `<i32 as ToString>::to_string`: the decimal form of the integer.
#[verifier::external_body]
fn decimal_string(n: i32) -> (r: String)
    ensures
        r@ == decimal_text(n as int),
{
    n.to_string()
}

impl Principal {
    pub open spec fn claims_at(&self, kind: TokenKind, now: i64) -> ClaimsView {
        claims_for(self.user_id, self.email@, self.role@, kind, now)
    }
}

impl Claims {
    /// Builds the claim set for `p` at instant `now`: issued now, expiring
    /// after the lifetime of `kind`.
    pub fn build(p: &Principal, kind: TokenKind, now: i64) -> (r: Claims)
        requires
            now <= MAX_ISSUE_TIME,
        ensures
            r@ == p.claims_at(kind, now),
            r.exp > r.iat,
    {
        Claims {
            sub: decimal_string(p.user_id),
            email: p.email.clone(),
            role: p.role.clone(),
            exp: now + kind.ttl_seconds(),
            iat: now,
            token_type: kind,
        }
    }

    /// The claim set of kind `kind` for the given identity, issued at `now`;
    /// `None` when the expiry instant would not fit in an `i64`.
    pub fn at_time(user_id: i32, email: String, role: String, kind: TokenKind, now: i64) -> (r: Option<Claims>)
        ensures
            r is Some <==> now <= MAX_ISSUE_TIME,
            r matches Some(c) ==> c@ == claims_for(user_id, email@, role@, kind, now),
    {
        if now > MAX_ISSUE_TIME {
            return None;
        }
        let p = Principal { user_id, email, role };
        Some(Claims::build(&p, kind, now))
    }

    /// Access claims for the given identity, issued at `now`.
    pub fn new_access_token(user_id: i32, email: String, role: String, now: i64) -> (r: Option<Claims>)
        ensures
            r is Some <==> now <= MAX_ISSUE_TIME,
            r matches Some(c) ==> c@ == claims_for(user_id, email@, role@, TokenKind::Access, now),
    {
        Self::at_time(user_id, email, role, TokenKind::Access, now)
    }

    /// Refresh claims for the given identity, issued at `now`.
    pub fn new_refresh_token(user_id: i32, email: String, role: String, now: i64) -> (r: Option<Claims>)
        ensures
            r is Some <==> now <= MAX_ISSUE_TIME,
            r matches Some(c) ==> c@ == claims_for(user_id, email@, role@, TokenKind::Refresh, now),
    {
        Self::at_time(user_id, email, role, TokenKind::Refresh, now)
    }

    /// A copy of the claim set.
    pub fn duplicate(&self) -> (r: Claims)
        ensures
            r@ == self@,
    {
        Claims {
            sub: self.sub.clone(),
            email: self.email.clone(),
            role: self.role.clone(),
            exp: self.exp,
            iat: self.iat,
            token_type: self.token_type,
        }
    }

}

} // verus!
