use jwt_auth::{
    complete_login, normalized_email, trim_text, verify, CreateUserRequest, InputError,
    LoginError, LoginRequest, RegisterRequest, TokenKind, UserInfo,
};

fn register(username: &str, email: &str, password: &str) -> RegisterRequest {
    RegisterRequest {
        username: username.to_string(),
        email: email.to_string(),
        password: password.to_string(),
    }
}

#[test]
fn register_validation_order() {
    assert_eq!(register(" \t", "a@b", "secret").validate(), Err(InputError::UsernameEmpty));
    assert_eq!(register("bob", "  ", "secret").validate(), Err(InputError::InvalidEmail));
    assert_eq!(register("bob", "bob.example.com", "secret").validate(), Err(InputError::InvalidEmail));
    assert_eq!(register("bob", "bob@example.com", "12345").validate(), Err(InputError::PasswordTooShort));
    assert_eq!(register("bob", "bob@example.com", "123456").validate(), Ok(()));
    assert_eq!(register("bob", "bob@example.com", "ééé").validate(), Ok(()));
    assert_eq!(register("", "", "").validate(), Err(InputError::UsernameEmpty));
}

#[test]
fn login_validation() {
    let r = |e: &str, p: &str| LoginRequest { email: e.to_string(), password: p.to_string() };
    assert_eq!(r("\u{3000}", "x").validate(), Err(InputError::EmailEmpty));
    assert_eq!(r("a@b", "").validate(), Err(InputError::PasswordEmpty));
    assert_eq!(r("a@b", " ").validate(), Ok(()));
}

#[test]
fn create_user_validation() {
    let r = |n: &str, e: &str| CreateUserRequest { name: n.to_string(), email: e.to_string() };
    assert_eq!(r("", "a@b").validate(), Err(InputError::NameEmpty));
    assert_eq!(r("ann", "ann").validate(), Err(InputError::InvalidEmail));
    assert_eq!(r("ann", "ann@x").validate(), Ok(()));
}

#[test]
fn input_error_messages() {
    assert_eq!(InputError::UsernameEmpty.message(), "Username cannot be empty");
    assert_eq!(InputError::InvalidEmail.message(), "Invalid email format");
    assert_eq!(InputError::PasswordTooShort.message(), "Password must be at least 6 characters");
    assert_eq!(InputError::EmailEmpty.message(), "Email cannot be empty");
    assert_eq!(InputError::PasswordEmpty.message(), "Password cannot be empty");
    assert_eq!(InputError::NameEmpty.message(), "Name cannot be empty");
}

#[test]
fn trimming_and_normalized_email() {
    assert_eq!(trim_text("  a b \n"), "a b");
    assert_eq!(trim_text(" \u{a0}\t"), "");
    assert_eq!(trim_text(""), "");
    assert_eq!(trim_text("x"), "x");
    assert_eq!(normalized_email("  Alice@Example.COM \t"), "alice@example.com");
    assert_eq!(normalized_email("ÉMILE@X"), "émile@x");
}

fn user() -> UserInfo {
    UserInfo { id: 42, username: "ann".to_string(), email: "a@b.com".to_string(), role: "user".to_string() }
}

#[test]
fn login_completion() {
    let now = 1_700_000_000;
    let secret = b"login-secret";
    assert_eq!(complete_login(None, true, secret, now).unwrap_err(), LoginError::InvalidCredentials);
    assert_eq!(complete_login(Some(user()), false, secret, now).unwrap_err(), LoginError::InvalidCredentials);
    let resp = complete_login(Some(user()), true, secret, now).unwrap();
    assert_eq!(resp.token_type, "Bearer");
    assert_eq!(resp.expires_in, 3600);
    assert_eq!(resp.user.id, 42);
    let a = verify(&resp.access_token, secret, now).unwrap();
    assert_eq!(a.token_type, TokenKind::Access);
    assert_eq!(a.exp, now + 3600);
    let f = verify(&resp.refresh_token, secret, now).unwrap();
    assert_eq!(f.token_type, TokenKind::Refresh);
    assert_eq!(f.exp, now + 604800);
    assert_eq!(f.sub, "42");
}

#[test]
fn new_user_records() {
    let u = register("  bob  ", " Bob@Example.COM ", "secret").new_user();
    assert_eq!(u.username, "bob");
    assert_eq!(u.email, "bob@example.com");
    assert_eq!(u.role, "user");
    let c = CreateUserRequest { name: "\tAnn ".to_string(), email: "ANN@x".to_string() }.new_user();
    assert_eq!(c.username, "Ann");
    assert_eq!(c.email, "ann@x");
    assert_eq!(c.role, "user");
}
