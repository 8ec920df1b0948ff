//! Request and response bodies of the credential and user endpoints.
use vstd::prelude::*;
use vstd::string::StringExecFns;

verus! {

/// Body of a registration request.
#[derive(Debug)]
pub struct RegisterRequest {
    pub username: String,
    pub email: String,
    pub password: String,
}

/// Body of a login request.
#[derive(Debug)]
pub struct LoginRequest {
    pub email: String,
    pub password: String,
}

/// Answer to a successful registration: the new user, without tokens.
#[derive(Debug)]
pub struct RegisterResponse {
    pub user: UserInfo,
}

/// Answer to a successful login: both tokens and the user.
#[derive(Debug)]
pub struct LoginResponse {
    pub access_token: String,
    pub refresh_token: String,
    pub token_type: String,
    /// Seconds until the access token expires.
    pub expires_in: i64,
    pub user: UserInfo,
}

/// A user as the credential endpoints show it.
#[derive(Debug)]
pub struct UserInfo {
    pub id: i32,
    pub username: String,
    pub email: String,
    pub role: String,
}

/// Body of a user-creation request.
#[derive(Debug)]
pub struct CreateUserRequest {
    pub name: String,
    pub email: String,
}

/// A user as the user endpoints show it.
#[derive(Debug)]
pub struct UserResponse {
    pub id: i32,
    pub username: String,
    pub email: String,
}

/// Body of an error answer.
#[derive(Debug)]
pub struct ErrorResponse {
    pub error: String,
}

impl LoginResponse {
    /// The answer to a login that issued `access_token` and `refresh_token`
    /// for `user`: bearer tokens, the access one expiring after an hour.
    pub fn new(access_token: String, refresh_token: String, user: UserInfo) -> (r: LoginResponse)
        ensures
            r.access_token@ == access_token@,
            r.refresh_token@ == refresh_token@,
            r.token_type@ == "Bearer"@,
            r.expires_in == crate::claims::ACCESS_TTL,
            r.user == user,
    {
        LoginResponse {
            access_token,
            refresh_token,
            token_type: String::from_str("Bearer"),
            expires_in: crate::claims::ACCESS_TTL,
            user,
        }
    }
}

} // verus!
