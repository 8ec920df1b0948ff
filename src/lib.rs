//! Bearer-token issuance and request gating: claims, a signed three-segment
//! token envelope, its verifier, and the decisions of the authentication middleware.
use vstd::prelude::*;

pub mod claims;
pub mod credentials;
pub mod dto;
pub mod middleware;
pub mod payload;
pub mod token;

pub use claims::{Claims, ClaimsView, Principal, TokenKind};
pub use credentials::{complete_login, normalized_email, trim_text, InputError, LoginError, NewUser};
pub use dto::{
    CreateUserRequest, ErrorResponse, LoginRequest, LoginResponse, RegisterRequest,
    RegisterResponse, UserInfo, UserResponse,
};
pub use middleware::{
    extract_token, get_claims, require_admin, require_role, AccessError, AuthOutcome,
    Rejection, JwtMiddleware, JwtMiddlewareService, RequestContext, RequestCredentials,
};
pub use payload::{parse_payload, write_payload};
pub use token::{
    generate_access_token, generate_refresh_token, generate_token_pair, issue, issue_at, sign_token, validate_token, verify,
    SigningError, VerifyError,
};

verus! {

} // verus!
