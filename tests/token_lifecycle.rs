use base64::Engine;
use jwt_auth::claims::{ACCESS_TTL, REFRESH_TTL};
use jwt_auth::claims::MAX_ISSUE_TIME;
use jwt_auth::{
    generate_access_token, generate_refresh_token, generate_token_pair, issue, issue_at,
    sign_token, validate_token, verify, write_payload, Claims, Principal, TokenKind, VerifyError,
};

const SECRET: &[u8] = b"test-secret";
const NOW: i64 = 1_700_000_000;

fn principal(id: i32, email: &str, role: &str) -> Principal {
    Principal { user_id: id, email: email.to_string(), role: role.to_string() }
}

fn segments(t: &str) -> Vec<String> {
    t.split('.').map(|s| s.to_string()).collect()
}

#[test]
fn access_token_round_trip_for_user_42() {
    let p = principal(42, "a@b.com", "user");
    let t = issue(&p, TokenKind::Access, NOW, SECRET).unwrap();
    let c = verify(&t, SECRET, NOW).unwrap();
    assert_eq!(c.sub, "42");
    assert_eq!(c.email, "a@b.com");
    assert_eq!(c.role, "user");
    assert_eq!(c.iat, NOW);
    assert_eq!(c.exp - c.iat, 3600);
    assert_eq!(c.token_type, TokenKind::Access);
}

#[test]
fn refresh_token_round_trip() {
    let p = principal(7, "r@x.org", "admin");
    let t = issue(&p, TokenKind::Refresh, NOW, SECRET).unwrap();
    let c = verify(&t, SECRET, NOW).unwrap();
    assert_eq!(c.sub, "7");
    assert_eq!(c.role, "admin");
    assert_eq!(c.exp - c.iat, 604800);
    assert_eq!(c.token_type, TokenKind::Refresh);
}

#[test]
fn lifetimes_are_an_hour_and_a_week() {
    assert_eq!(ACCESS_TTL, 3600);
    assert_eq!(REFRESH_TTL, 7 * 24 * 3600);
    assert_eq!(TokenKind::Access.ttl_seconds(), 3600);
    assert_eq!(TokenKind::Refresh.ttl_seconds(), 604800);
}

#[test]
fn negative_user_id_round_trip() {
    let p = principal(-5, "n@x.org", "user");
    let t = issue(&p, TokenKind::Access, NOW, SECRET).unwrap();
    let c = verify(&t, SECRET, NOW).unwrap();
    assert_eq!(c.sub, "-5");
}

#[test]
fn unusual_strings_round_trip() {
    let p = principal(i32::MIN, "q\"uo\\te\n\u{1}é漢@x", "r\tole");
    let t = issue(&p, TokenKind::Access, 0, SECRET).unwrap();
    let c = verify(&t, SECRET, 0).unwrap();
    assert_eq!(c.sub, "-2147483648");
    assert_eq!(c.email, "q\"uo\\te\n\u{1}é漢@x");
    assert_eq!(c.role, "r\tole");
}

#[test]
fn expiry_boundary() {
    let p = principal(1, "e@x.org", "user");
    let t = issue(&p, TokenKind::Access, NOW, SECRET).unwrap();
    let exp = NOW + 3600;
    assert!(verify(&t, SECRET, exp - 1).is_ok());
    assert_eq!(verify(&t, SECRET, exp).unwrap_err(), VerifyError::Expired);
    assert_eq!(verify(&t, SECRET, exp + 1).unwrap_err(), VerifyError::Expired);
    assert_eq!(verify(&t, SECRET, i64::MAX).unwrap_err(), VerifyError::Expired);
    assert!(verify(&t, SECRET, i64::MIN).is_ok());
}

#[test]
fn altered_signature_fails_with_bad_signature() {
    let p = principal(42, "a@b.com", "user");
    let t = issue(&p, TokenKind::Access, NOW, SECRET).unwrap();
    let sig_start = t.rfind('.').unwrap() + 1;
    for k in sig_start..t.len() {
        let mut bytes = t.clone().into_bytes();
        bytes[k] = if bytes[k] == b'A' { b'B' } else { b'A' };
        let altered = String::from_utf8(bytes).unwrap();
        assert_eq!(verify(&altered, SECRET, NOW).unwrap_err(), VerifyError::BadSignature);
    }
}

#[test]
fn other_secret_fails_with_bad_signature() {
    let p = principal(42, "a@b.com", "user");
    let t = issue(&p, TokenKind::Access, NOW, SECRET).unwrap();
    assert_eq!(verify(&t, b"another", NOW).unwrap_err(), VerifyError::BadSignature);
}

#[test]
fn tampered_role_fails_with_bad_signature() {
    let p = principal(42, "a@b.com", "user");
    let t = issue(&p, TokenKind::Access, NOW, SECRET).unwrap();
    let parts = segments(&t);
    let forged = Claims {
        sub: "42".to_string(),
        email: "a@b.com".to_string(),
        role: "admin".to_string(),
        exp: NOW + 3600,
        iat: NOW,
        token_type: TokenKind::Access,
    };
    let payload = base64::engine::general_purpose::URL_SAFE_NO_PAD.encode(write_payload(&forged));
    let tampered = format!("{}.{}.{}", parts[0], payload, parts[2]);
    assert_eq!(verify(&tampered, SECRET, NOW).unwrap_err(), VerifyError::BadSignature);
}

#[test]
fn malformed_tokens() {
    let p = principal(42, "a@b.com", "user");
    let t = issue(&p, TokenKind::Access, NOW, SECRET).unwrap();
    let parts = segments(&t);
    for bad in [
        "".to_string(),
        "abc".to_string(),
        "a.b".to_string(),
        format!("{}.{}.{}.x", parts[0], parts[1], parts[2]),
        format!("{}é.{}.{}", parts[0], parts[1], parts[2]),
        format!("eyJhbGciOiJIUzUxMiJ9.{}.{}", parts[1], parts[2]),
        format!("{}.{}=.{}", parts[0], parts[1], parts[2]),
        format!("{}.e30.{}", parts[0], parts[2]),
    ] {
        assert_eq!(verify(&bad, SECRET, NOW).unwrap_err(), VerifyError::Malformed, "{}", bad);
    }
}

#[test]
fn token_has_fixed_header_and_encoded_payload() {
    let p = principal(42, "a@b.com", "user");
    let t = issue(&p, TokenKind::Access, NOW, SECRET).unwrap();
    let parts = segments(&t);
    assert_eq!(parts.len(), 3);
    assert_eq!(parts[0], "eyJ0eXAiOiJKV1QiLCJhbGciOiJIUzI1NiJ9");
    let payload = base64::engine::general_purpose::URL_SAFE_NO_PAD.decode(&parts[1]).unwrap();
    assert_eq!(
        String::from_utf8(payload).unwrap(),
        "{\"sub\":\"42\",\"email\":\"a@b.com\",\"role\":\"user\",\"exp\":1700003600,\"iat\":1700000000,\"token_type\":\"access\"}"
    );
}

#[test]
fn signature_is_hs256_of_first_two_segments() {
    let p = principal(42, "a@b.com", "user");
    let t = issue(&p, TokenKind::Access, NOW, SECRET).unwrap();
    let cut = t.rfind('.').unwrap();
    let ok = jsonwebtoken::crypto::verify(
        &t[cut + 1..],
        t[..cut].as_bytes(),
        &jsonwebtoken::DecodingKey::from_secret(SECRET),
        jsonwebtoken::Algorithm::HS256,
    )
    .unwrap();
    assert!(ok);
    assert_eq!(t.len() - cut - 1, 43);
}

#[test]
fn sign_token_matches_issue() {
    let p = principal(42, "a@b.com", "user");
    let c = Claims::build(&p, TokenKind::Access, NOW);
    assert_eq!(sign_token(&c, SECRET).unwrap(), issue(&p, TokenKind::Access, NOW, SECRET).unwrap());
}

#[test]
fn generated_tokens_validate() {
    let a = generate_access_token(3, "g@x.org".to_string(), "user".to_string(), SECRET, NOW).unwrap();
    let c = validate_token(&a, SECRET, NOW).unwrap();
    assert_eq!(c.sub, "3");
    assert_eq!(c.token_type, TokenKind::Access);
    assert_eq!(c.iat, NOW);
    assert_eq!(c.exp - c.iat, 3600);
    let r = generate_refresh_token(3, "g@x.org".to_string(), "user".to_string(), SECRET, NOW).unwrap();
    let c = validate_token(&r, SECRET, NOW).unwrap();
    assert_eq!(c.token_type, TokenKind::Refresh);
    assert_eq!(c.exp - c.iat, 604800);
    assert_eq!(validate_token(&a, b"wrong", NOW).unwrap_err(), VerifyError::BadSignature);
    assert_eq!(validate_token(&a, SECRET, NOW + 3600).unwrap_err(), VerifyError::Expired);
    assert!(generate_access_token(3, "g".to_string(), "u".to_string(), SECRET, MAX_ISSUE_TIME + 1).is_err());
}

#[test]
fn claims_constructors_take_the_instant() {
    let c = Claims::new_access_token(9, "c@x.org".to_string(), "user".to_string(), NOW).unwrap();
    assert_eq!(c.sub, "9");
    assert_eq!(c.iat, NOW);
    assert_eq!(c.exp, NOW + 3600);
    let r = Claims::new_refresh_token(9, "c@x.org".to_string(), "user".to_string(), NOW).unwrap();
    assert_eq!(r.exp, NOW + 604800);
    assert_eq!(r.token_type, TokenKind::Refresh);
    assert!(Claims::new_access_token(9, "c".to_string(), "u".to_string(), i64::MAX).is_none());
}

#[test]
fn header_segment_is_the_default_jwt_header() {
    let p = principal(42, "a@b.com", "user");
    let t = issue(&p, TokenKind::Access, NOW, SECRET).unwrap();
    let header = base64::engine::general_purpose::URL_SAFE_NO_PAD.decode(&segments(&t)[0]).unwrap();
    assert_eq!(String::from_utf8(header).unwrap(), "{\"typ\":\"JWT\",\"alg\":\"HS256\"}");
}

#[test]
fn signature_of_other_length_is_bad() {
    let p = principal(42, "a@b.com", "user");
    let t = issue(&p, TokenKind::Access, NOW, SECRET).unwrap();
    assert_eq!(verify(&format!("{}A", t), SECRET, NOW).unwrap_err(), VerifyError::BadSignature);
    assert_eq!(verify(&t[..t.len() - 1], SECRET, NOW).unwrap_err(), VerifyError::BadSignature);
}

fn signed(header_json: &str, payload_json: &str) -> String {
    let b64 = base64::engine::general_purpose::URL_SAFE_NO_PAD;
    let input = format!("{}.{}", b64.encode(header_json), b64.encode(payload_json));
    let sig = jsonwebtoken::crypto::sign(
        input.as_bytes(),
        &jsonwebtoken::EncodingKey::from_secret(SECRET),
        jsonwebtoken::Algorithm::HS256,
    )
    .unwrap();
    format!("{}.{}", input, sig)
}

#[test]
fn other_hs256_headers_and_claim_layouts_verify() {
    let t = signed(
        "{\"alg\":\"HS256\"}",
        "{ \"token_type\":\"access\", \"exp\":1700003600, \"iat\":1700000000, \"role\":\"user\", \"email\":\"a@b.com\", \"sub\":\"42\", \"aud_ok\":true }",
    );
    let c = verify(&t, SECRET, NOW).unwrap();
    assert_eq!(c.sub, "42");
    assert_eq!(c.role, "user");
    assert_eq!(c.exp, NOW + 3600);
    assert_eq!(verify(&t, SECRET, NOW + 3600).unwrap_err(), VerifyError::Expired);
    assert_eq!(verify(&t, b"other", NOW).unwrap_err(), VerifyError::BadSignature);
}

#[test]
fn headers_not_naming_hs256_are_malformed() {
    let payload = "{\"sub\":\"42\",\"email\":\"a@b.com\",\"role\":\"user\",\"exp\":1700003600,\"iat\":1700000000,\"token_type\":\"access\"}";
    for header in ["{\"alg\":\"HS512\"}", "{\"typ\":\"JWT\"}", "{\"alg\":\"HS256\",\"alg\":\"HS256\"}", "[]"] {
        let t = signed(header, payload);
        assert_eq!(verify(&t, SECRET, NOW).unwrap_err(), VerifyError::Malformed, "{}", header);
    }
    let t = signed("{\"typ\":\"JWT\",\"alg\":\"HS256\"}", payload);
    assert!(verify(&t, SECRET, NOW).is_ok());
}

#[test]
fn header_with_alg_only_but_wrong_signature() {
    let p = principal(42, "a@b.com", "user");
    let t = issue(&p, TokenKind::Access, NOW, SECRET).unwrap();
    let parts = segments(&t);
    let other = format!("eyJhbGciOiJIUzI1NiJ9.{}.{}", parts[1], parts[2]);
    assert_eq!(verify(&other, SECRET, NOW).unwrap_err(), VerifyError::BadSignature);
}

#[test]
fn claims_at_a_given_instant() {
    let c = Claims::at_time(42, "a@b.com".to_string(), "user".to_string(), TokenKind::Access, NOW).unwrap();
    assert_eq!(c.sub, "42");
    assert_eq!(c.iat, NOW);
    assert_eq!(c.exp, NOW + 3600);
    let r = Claims::at_time(42, "a@b.com".to_string(), "user".to_string(), TokenKind::Refresh, MAX_ISSUE_TIME).unwrap();
    assert_eq!(r.exp, MAX_ISSUE_TIME + 604800);
    assert!(Claims::at_time(1, "x".to_string(), "y".to_string(), TokenKind::Access, MAX_ISSUE_TIME + 1).is_none());
}

#[test]
fn issue_at_matches_issue_and_refuses_late_instants() {
    let p = principal(42, "a@b.com", "user");
    let t = issue_at(42, "a@b.com".to_string(), "user".to_string(), TokenKind::Access, NOW, SECRET).unwrap();
    assert_eq!(t, issue(&p, TokenKind::Access, NOW, SECRET).unwrap());
    assert!(issue_at(42, "a".to_string(), "u".to_string(), TokenKind::Access, i64::MAX, SECRET).is_err());
}

#[test]
fn token_pair_shares_the_instant() {
    let (a, r) = generate_token_pair(5, "p@x.org".to_string(), "user".to_string(), SECRET, NOW);
    let a = validate_token(&a.unwrap(), SECRET, NOW).unwrap();
    let r = validate_token(&r.unwrap(), SECRET, NOW).unwrap();
    assert_eq!(a.iat, NOW);
    assert_eq!(a.iat, r.iat);
    assert_eq!(a.sub, r.sub);
    assert_eq!(a.token_type, TokenKind::Access);
    assert_eq!(r.token_type, TokenKind::Refresh);
    assert_eq!(r.exp - a.exp, 604800 - 3600);
}
