use base64::Engine;
use jwt_auth::{
    extract_token, get_claims, issue, require_admin, require_role, AccessError, AuthOutcome,
    Rejection, JwtMiddleware, LoginResponse, Principal, RequestContext, RequestCredentials,
    TokenKind, UserInfo, VerifyError,
};

const SECRET: &[u8] = b"mw-secret";
const NOW: i64 = 1_700_000_000;

fn token(role: &str, kind: TokenKind) -> String {
    let p = Principal { user_id: 42, email: "a@b.com".to_string(), role: role.to_string() };
    issue(&p, kind, NOW, SECRET).unwrap()
}

fn creds(header: Option<String>, cookie: Option<String>) -> RequestCredentials {
    RequestCredentials { authorization: header, access_cookie: cookie }
}

fn middleware() -> jwt_auth::JwtMiddlewareService<()> {
    JwtMiddleware::new(SECRET.to_vec()).new_transform(())
}

#[test]
fn bearer_header_is_forwarded_with_claims() {
    let t = token("user", TokenKind::Access);
    match middleware().call(&creds(Some(format!("Bearer {}", t)), None), NOW) {
        AuthOutcome::Forward(ctx) => {
            let c = get_claims(&ctx).unwrap();
            assert_eq!(c.sub, "42");
            assert_eq!(c.email, "a@b.com");
        }
        AuthOutcome::Reject(e) => panic!("rejected: {:?}", e),
    }
}

#[test]
fn no_header_and_no_cookie_is_missing_token() {
    match middleware().call(&creds(None, None), NOW) {
        AuthOutcome::Reject(e) => assert_eq!(e, Rejection::MissingToken),
        AuthOutcome::Forward(_) => panic!("forwarded"),
    }
}

#[test]
fn expired_token_is_rejected() {
    let t = token("user", TokenKind::Access);
    match middleware().call(&creds(Some(format!("Bearer {}", t)), None), NOW + 3600) {
        AuthOutcome::Reject(e) => assert_eq!(e, Rejection::Invalid(VerifyError::Expired)),
        AuthOutcome::Forward(_) => panic!("forwarded"),
    }
}

#[test]
fn cookie_only_is_forwarded() {
    let t = token("user", TokenKind::Access);
    match middleware().call(&creds(None, Some(t)), NOW) {
        AuthOutcome::Forward(ctx) => assert_eq!(get_claims(&ctx).unwrap().role, "user"),
        AuthOutcome::Reject(e) => panic!("rejected: {:?}", e),
    }
}

#[test]
fn tampered_token_is_rejected() {
    let t = token("user", TokenKind::Access);
    let mut bytes = t.into_bytes();
    let last = bytes.len() - 1;
    bytes[last] = if bytes[last] == b'A' { b'B' } else { b'A' };
    let t = String::from_utf8(bytes).unwrap();
    match middleware().call(&creds(Some(format!("Bearer {}", t)), None), NOW) {
        AuthOutcome::Reject(e) => assert_eq!(e, Rejection::Invalid(VerifyError::BadSignature)),
        AuthOutcome::Forward(_) => panic!("forwarded"),
    }
}

#[test]
fn refresh_token_is_wrong_kind_at_the_middleware() {
    let t = token("user", TokenKind::Refresh);
    match middleware().call(&creds(Some(format!("Bearer {}", t)), None), NOW) {
        AuthOutcome::Reject(e) => assert_eq!(e, Rejection::WrongKind),
        AuthOutcome::Forward(_) => panic!("forwarded"),
    }
}

#[test]
fn header_takes_precedence_over_cookie() {
    let good = token("user", TokenKind::Access);
    match middleware().call(&creds(Some("Bearer junk".to_string()), Some(good)), NOW) {
        AuthOutcome::Reject(e) => assert_eq!(e, Rejection::Invalid(VerifyError::Malformed)),
        AuthOutcome::Forward(_) => panic!("forwarded"),
    }
}

#[test]
fn extraction_rules() {
    let c = creds(Some("Bearer abc".to_string()), Some("cookie".to_string()));
    assert_eq!(extract_token(&c), Some("abc".to_string()));
    let c = creds(Some("bearer abc".to_string()), Some("cookie".to_string()));
    assert_eq!(extract_token(&c), Some("cookie".to_string()));
    let c = creds(Some("Basic abc".to_string()), None);
    assert_eq!(extract_token(&c), None);
    let c = creds(Some("Bearer ".to_string()), None);
    assert_eq!(extract_token(&c), Some("".to_string()));
    let c = creds(Some("Béarer x".to_string()), None);
    assert_eq!(extract_token(&c), None);
    assert_eq!(extract_token(&creds(None, None)), None);
}

#[test]
fn rejection_messages_are_generic() {
    assert_eq!(Rejection::MissingToken.message(), "Missing authorization token");
    assert_eq!(Rejection::Invalid(VerifyError::Expired).message(), "Invalid or expired token");
    assert_eq!(Rejection::Invalid(VerifyError::BadSignature).message(), "Invalid or expired token");
    assert_eq!(Rejection::WrongKind.message(), "Invalid or expired token");
}

fn forwarded(role: &str) -> RequestContext {
    let t = token(role, TokenKind::Access);
    match middleware().call(&creds(Some(format!("Bearer {}", t)), None), NOW) {
        AuthOutcome::Forward(ctx) => ctx,
        AuthOutcome::Reject(e) => panic!("rejected: {:?}", e),
    }
}

#[test]
fn require_admin_denies_user_and_admits_admin() {
    assert_eq!(require_admin(&forwarded("user")).unwrap_err(), AccessError::Forbidden);
    assert_eq!(require_admin(&forwarded("admin")).unwrap().role, "admin");
    assert_eq!(require_admin(&forwarded("Admin")).unwrap_err(), AccessError::Forbidden);
}

#[test]
fn accessors_without_claims_are_unauthorized() {
    let ctx = RequestContext { claims: None };
    assert_eq!(get_claims(&ctx).unwrap_err(), AccessError::Unauthorized);
    assert_eq!(require_admin(&ctx).unwrap_err(), AccessError::Unauthorized);
    assert_eq!(require_role(&ctx, "user").unwrap_err(), AccessError::Unauthorized);
}

#[test]
fn require_role_checks_the_named_role() {
    assert_eq!(require_role(&forwarded("editor"), "editor").unwrap().role, "editor");
    assert_eq!(require_role(&forwarded("editor"), "admin").unwrap_err(), AccessError::Forbidden);
}

#[test]
fn login_response_is_bearer_for_an_hour() {
    let user = UserInfo { id: 1, username: "u".to_string(), email: "u@x".to_string(), role: "user".to_string() };
    let r = LoginResponse::new("a".to_string(), "r".to_string(), user);
    assert_eq!(r.token_type, "Bearer");
    assert_eq!(r.expires_in, 3600);
    assert_eq!(r.access_token, "a");
    assert_eq!(r.user.id, 1);
}

#[test]
fn tampered_payload_request_is_rejected() {
    let t = token("user", TokenKind::Access);
    let parts: Vec<&str> = t.split('.').collect();
    let forged = jwt_auth::Claims {
        sub: "42".to_string(),
        email: "a@b.com".to_string(),
        role: "admin".to_string(),
        exp: NOW + 3600,
        iat: NOW,
        token_type: TokenKind::Access,
    };
    let payload =
        base64::engine::general_purpose::URL_SAFE_NO_PAD.encode(jwt_auth::write_payload(&forged));
    let tampered = format!("{}.{}.{}", parts[0], payload, parts[2]);
    match middleware().call(&creds(Some(format!("Bearer {}", tampered)), None), NOW) {
        AuthOutcome::Reject(e) => assert_eq!(e, Rejection::Invalid(VerifyError::BadSignature)),
        AuthOutcome::Forward(_) => panic!("forwarded"),
    }
}
