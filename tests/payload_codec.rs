use jwt_auth::payload::parse_general;
use jwt_auth::{parse_payload, write_payload, Claims, TokenKind};

fn claims(sub: &str, email: &str, role: &str, exp: i64, iat: i64, kind: TokenKind) -> Claims {
    Claims {
        sub: sub.to_string(),
        email: email.to_string(),
        role: role.to_string(),
        exp,
        iat,
        token_type: kind,
    }
}

#[test]
fn payload_has_keys_in_order() {
    let c = claims("42", "a@b.com", "user", 3600, 0, TokenKind::Access);
    assert_eq!(
        String::from_utf8(write_payload(&c)).unwrap(),
        "{\"sub\":\"42\",\"email\":\"a@b.com\",\"role\":\"user\",\"exp\":3600,\"iat\":0,\"token_type\":\"access\"}"
    );
}

#[test]
fn payload_escapes_quotes_backslashes_and_controls() {
    let c = claims("1", "a\"b\\c\nd\u{1f}", "é", -1, i64::MIN, TokenKind::Refresh);
    assert_eq!(
        String::from_utf8(write_payload(&c)).unwrap(),
        "{\"sub\":\"1\",\"email\":\"a\\\"b\\\\c\\nd\\u001f\",\"role\":\"é\",\"exp\":-1,\"iat\":-9223372036854775808,\"token_type\":\"refresh\"}"
    );
}

#[test]
fn payload_round_trip() {
    for c in [
        claims("42", "a@b.com", "user", 3600, 0, TokenKind::Access),
        claims("", "", "", i64::MAX, i64::MIN, TokenKind::Refresh),
        claims("-7", "x\"\\\u{0}y", "漢字", 0, -10, TokenKind::Access),
    ] {
        let back = parse_payload(&write_payload(&c)).unwrap();
        assert_eq!(back.sub, c.sub);
        assert_eq!(back.email, c.email);
        assert_eq!(back.role, c.role);
        assert_eq!(back.exp, c.exp);
        assert_eq!(back.iat, c.iat);
        assert_eq!(back.token_type, c.token_type);
    }
}

#[test]
fn non_canonical_payloads_are_refused() {
    for text in [
        "",
        "{}",
        "{\"sub\":\"42\",\"email\":\"a@b.com\",\"role\":\"user\",\"exp\":3600,\"iat\":0,\"token_type\":\"access\"} ",
        "{ \"sub\":\"42\",\"email\":\"a@b.com\",\"role\":\"user\",\"exp\":3600,\"iat\":0,\"token_type\":\"access\"}",
        "{\"sub\":\"42\",\"email\":\"a@b.com\",\"role\":\"user\",\"exp\":03600,\"iat\":0,\"token_type\":\"access\"}",
        "{\"sub\":\"42\",\"email\":\"a@b.com\",\"role\":\"user\",\"exp\":-0,\"iat\":0,\"token_type\":\"access\"}",
        "{\"sub\":\"42\",\"email\":\"a@b.com\",\"role\":\"user\",\"exp\":9223372036854775808,\"iat\":0,\"token_type\":\"access\"}",
        "{\"sub\":\"42\",\"email\":\"a@b.com\",\"role\":\"user\",\"exp\":3600,\"iat\":0,\"token_type\":\"other\"}",
        "{\"email\":\"a@b.com\",\"sub\":\"42\",\"role\":\"user\",\"exp\":3600,\"iat\":0,\"token_type\":\"access\"}",
        "{\"sub\":\"4\\u0032\",\"email\":\"a@b.com\",\"role\":\"user\",\"exp\":3600,\"iat\":0,\"token_type\":\"access\"}",
    ] {
        assert!(parse_payload(text.as_bytes()).is_none(), "{}", text);
    }
}

#[test]
fn invalid_utf8_is_refused() {
    let mut bytes = b"{\"sub\":\"".to_vec();
    bytes.push(0xff);
    bytes.extend_from_slice(b"\",\"email\":\"a\",\"role\":\"u\",\"exp\":1,\"iat\":0,\"token_type\":\"access\"}");
    assert!(parse_payload(&bytes).is_none());
}

#[test]
fn short_escapes_match_serde_json() {
    let c = claims("1", "\u{8}\t\n\u{c}\r", "x", 1, 0, TokenKind::Access);
    let text = String::from_utf8(write_payload(&c)).unwrap();
    assert!(text.contains("\"email\":\"\\b\\t\\n\\f\\r\""), "{}", text);
    assert_eq!(parse_payload(text.as_bytes()).unwrap().email, "\u{8}\t\n\u{c}\r");
}

#[test]
fn general_form_reads_any_order_with_space_and_extras() {
    let text = " { \"iat\" : 5 , \"role\":\"user\",\"email\":\"a@b.com\",\"sub\":\"42\",\"admin\":false,\"jti\":\"x\",\"n\":null,\"nbf\":-3,\"token_type\":\"refresh\",\"exp\":99 } ";
    let c = parse_general(text.as_bytes()).unwrap();
    assert_eq!(c.sub, "42");
    assert_eq!(c.email, "a@b.com");
    assert_eq!(c.role, "user");
    assert_eq!(c.exp, 99);
    assert_eq!(c.iat, 5);
    assert_eq!(c.token_type, TokenKind::Refresh);
    assert!(parse_payload(text.as_bytes()).is_none());
}

#[test]
fn general_form_refusals() {
    for text in [
        "{\"sub\":\"42\",\"sub\":\"43\",\"email\":\"a\",\"role\":\"u\",\"exp\":1,\"iat\":0,\"token_type\":\"access\"}",
        "{\"email\":\"a\",\"role\":\"u\",\"exp\":1,\"iat\":0,\"token_type\":\"access\"}",
        "{\"sub\":\"42\",\"email\":\"a\",\"role\":\"u\",\"exp\":\"1\",\"iat\":0,\"token_type\":\"access\"}",
        "{\"sub\":\"42\",\"email\":\"a\",\"role\":\"u\",\"exp\":1,\"iat\":0,\"token_type\":\"other\"}",
        "{\"sub\":\"42\",\"email\":\"a\",\"role\":\"u\",\"exp\":1,\"iat\":0,\"token_type\":\"access\"} x",
        "{}",
        "",
    ] {
        assert!(parse_general(text.as_bytes()).is_none(), "{}", text);
    }
}

#[test]
fn general_form_reads_all_string_escapes() {
    let text = "{\"sub\":\"a\\/b\\u00E9\\u00e9\\u20AC\\ud83d\\ude00\",\"email\":\"e\",\"role\":\"r\",\"exp\":1,\"iat\":0,\"token_type\":\"access\"}";
    let c = parse_general(text.as_bytes()).unwrap();
    assert_eq!(c.sub, "a/béé€😀");
    for bad in ["\\ud83d", "\\ude00", "\\ud83dx", "\\u12", "\\x"] {
        let text = format!("{{\"sub\":\"{}\",\"email\":\"e\",\"role\":\"r\",\"exp\":1,\"iat\":0,\"token_type\":\"access\"}}", bad);
        assert!(parse_general(text.as_bytes()).is_none(), "{}", text);
    }
}

#[test]
fn general_form_passes_over_nested_and_fractional_members() {
    let text = "{\"aud\":[\"a\", [1, 2.5e-3], {\"k\": {\"z\": []}}, {}],\"score\":-0.5E+2,\"sub\":\"1\",\"email\":\"e\",\"role\":\"r\",\"exp\":1,\"iat\":0,\"token_type\":\"access\",\"x\":{}}";
    let c = parse_general(text.as_bytes()).unwrap();
    assert_eq!(c.sub, "1");
    for bad in ["[1,]", "[1 2]", "{\"a\" 1}", "01", "1.", "1e", "-", "[", "{\"a\":1,}"] {
        let text = format!("{{\"extra\":{},\"sub\":\"1\",\"email\":\"e\",\"role\":\"r\",\"exp\":1,\"iat\":0,\"token_type\":\"access\"}}", bad);
        assert!(parse_general(text.as_bytes()).is_none(), "{}", text);
    }
}
