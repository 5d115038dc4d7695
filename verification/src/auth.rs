//! Authentication: token claims, password hashing, the guard in front of the pages, and
//! the decisions of the login and password-change requests.
use vstd::prelude::*;
use crate::clock::{now_nanos, MAX_DATE_SECS};
use crate::error::AppError;
use crate::text::{push_str, seq_starts_with, str_eq, str_to_chars, starts_with};

verus! {

// ─── Tokens ──────────────────────────────────────────────────────────────────

/// The claims of a session token.
pub struct Claims {
    /// User name.
    pub sub: String,
    /// Expiry, in seconds since the epoch.
    pub exp: i64,
    /// Issue time, in seconds since the epoch.
    pub iat: i64,
    /// Role of the user; `viewer` in tokens that carry none.
    pub role: String,
}

/// The role assumed for a token that carries none.
pub fn default_role() -> (r: String)
    ensures
        r@ == "viewer"@,
{
    "viewer".to_owned()
}

/// Issues and checks session tokens signed with a shared secret.
pub struct JwtManager {
    pub secret: String,
    /// Lifetime of a token, in hours.
    pub token_lifetime_hours: i64,
}

/// `jsonwebtoken::errors::Error`, carried as it is.
#[verifier::external_type_specification]
#[verifier::external_body]
pub struct ExJwtError(jsonwebtoken::errors::Error);

/// The token that `jsonwebtoken::encode` gives for the claims `sub`, `exp`, `iat` and
/// `role` under the default header (HS256) and the secret.
pub uninterp spec fn spec_jwt_encode(sub: Seq<char>, exp: i64, iat: i64, role: Seq<char>, secret: Seq<char>) -> Seq<char>;

/// Calls `jsonwebtoken::encode` with the default header (HS256), the claims as a JSON
/// object (a `serde_json::Map`, which keeps the keys in the order `sub`, `exp`, `iat`,
/// `role` they are inserted in, since `preserve_order` is on) and the key
/// `EncodingKey::from_secret` of the secret's bytes. The token is a function of the
/// claims and the secret, named `spec_jwt_encode`. The source shows that this call
/// cannot fail: the key is an HMAC key as the header asks, an HMAC accepts a key of any
/// length, signing with it returns `Ok`, and the header and a JSON map always serialise.
#[verifier::external_body]
fn jwt_encode(claims: &Claims, secret: &str) -> (r: Result<String, jsonwebtoken::errors::Error>)
    ensures
        r is Ok,
        r matches Ok(t) ==> t@ == spec_jwt_encode(claims.sub@, claims.exp, claims.iat, claims.role@, secret@),
{
    let mut m = serde_json::Map::new();
    m.insert("sub".to_owned(), serde_json::Value::from(claims.sub.as_str()));
    m.insert("exp".to_owned(), serde_json::Value::from(claims.exp));
    m.insert("iat".to_owned(), serde_json::Value::from(claims.iat));
    m.insert("role".to_owned(), serde_json::Value::from(claims.role.as_str()));
    let key = jsonwebtoken::EncodingKey::from_secret(secret.as_bytes());
    jsonwebtoken::encode(&jsonwebtoken::Header::default(), &m, &key)
}

/// Calls `jsonwebtoken::decode` with the key `DecodingKey::from_secret` of the secret's
/// bytes and `Validation::default()`, and reads the claims `sub`, `exp`, `iat` and the
/// optional `role` out of the payload. It fails on a bad signature or format and on a
/// token whose `exp` lies more than a minute before the current time, so whether it
/// succeeds rests on the clock and is left unsaid. The source shows that a token that
/// `jsonwebtoken::encode` made with the same secret decodes to the claims it was made of.
#[verifier::external_body]
fn jwt_decode(token: &str, secret: &str) -> (r: Result<(String, i64, i64, Option<String>), jsonwebtoken::errors::Error>)
    ensures
        r matches Ok(c) ==> forall|sub: Seq<char>, exp: i64, iat: i64, role: Seq<char>|
            token@ == #[trigger] spec_jwt_encode(sub, exp, iat, role, secret@) ==> c.0@ == sub && c.1 == exp && c.2 == iat
                && (c.3 matches Some(x) && x@ == role),
{
    let key = jsonwebtoken::DecodingKey::from_secret(secret.as_bytes());
    let v = jsonwebtoken::decode::<serde_json::Value>(token, &key, &jsonwebtoken::Validation::default())?.claims;
    let parts = serde_json::Value::Array(vec![v["sub"].clone(), v["exp"].clone(), v["iat"].clone(), v["role"].clone()]);
    Ok(serde_json::from_value(parts)?)
}

/// The token issued at `now` (seconds since the epoch) by a manager with `secret` and
/// `hours` of lifetime, for a user and role.
pub open spec fn token_for(secret: Seq<char>, hours: i64, username: Seq<char>, role: Seq<char>, now: i64) -> Seq<char> {
    spec_jwt_encode(username, (now + 3600 * hours) as i64, now, role, secret)
}

/// A token's expiry stays within the dates the clock can write: issuing at `now` for
/// `hours` hours ends between the epoch and `MAX_DATE_SECS`.
pub open spec fn expiry_in_range(now: i64, hours: i64) -> bool {
    0 <= now <= MAX_DATE_SECS && 0 <= now + 3600 * hours <= MAX_DATE_SECS
}

/// A clock reading of `clock_secs` seconds lets a token be issued for `hours` hours:
/// the reading and the expiry both lie between the epoch and `MAX_DATE_SECS`.
pub open spec fn token_time_ok(clock_secs: u128, hours: i64) -> bool {
    clock_secs <= MAX_DATE_SECS && 0 <= clock_secs + 3600 * hours <= MAX_DATE_SECS
}

impl JwtManager {
    /// A token manager with a secret and a token lifetime in hours.
    pub fn new(secret: String, token_lifetime_hours: i64) -> (m: Self)
        ensures
            m.secret == secret,
            m.token_lifetime_hours == token_lifetime_hours,
    {
        JwtManager { secret, token_lifetime_hours }
    }

    /// The token for a user and role issued at `now` (seconds since the epoch): the
    /// claims `sub` = user, `iat` = `now`, `exp` = `now` plus the lifetime, and the role,
    /// signed with the secret.
    pub fn generate_token_at(&self, username: &str, role: &str, now: i64) -> (r: Result<String, AppError>)
        requires
            expiry_in_range(now, self.token_lifetime_hours),
        ensures
            r is Ok,
            r matches Ok(t) ==> t@ == token_for(self.secret@, self.token_lifetime_hours, username@, role@, now),
    {
        let exp: i64 = now + 3600 * self.token_lifetime_hours;
        let claims = Claims { sub: username.to_owned(), exp, iat: now, role: role.to_owned() };
        match jwt_encode(&claims, self.secret.as_str()) {
            Ok(t) => Ok(t),
            Err(_) => Err(AppError::AuthError("无法生成 JWT token".to_owned())),
        }
    }

    /// The token for a user and role when the clock reads `clock_secs` seconds since the
    /// epoch: refused with an `AuthError` exactly when that time or the expiry after the
    /// lifetime lies outside the dates the clock can write (see `token_time_ok`), else
    /// the token of `generate_token_at`.
    pub fn generate_token_at_clock(&self, username: &str, role: &str, clock_secs: u128) -> (r: Result<String, AppError>)
        ensures
            token_time_ok(clock_secs, self.token_lifetime_hours) <==> r is Ok,
            r matches Ok(t) ==> t@ == token_for(self.secret@, self.token_lifetime_hours, username@, role@, clock_secs as i64),
            r matches Err(e) ==> e is AuthError,
    {
        if clock_secs > MAX_DATE_SECS {
            return Err(AppError::AuthError("无法生成 JWT token".to_owned()));
        }
        let now = clock_secs as i64;
        let h = self.token_lifetime_hours;
        if h > MAX_DATE_SECS as i64 / 3600 || h < 0 - MAX_DATE_SECS as i64 / 3600 {
            return Err(AppError::AuthError("无法生成 JWT token".to_owned()));
        }
        let exp: i64 = now + 3600 * h;
        if exp < 0 || exp > MAX_DATE_SECS as i64 {
            return Err(AppError::AuthError("无法生成 JWT token".to_owned()));
        }
        self.generate_token_at(username, role, now)
    }

    /// The token for a user and role issued now: the system clock is read (whole
    /// seconds since the epoch) and handed to `generate_token_at_clock`, whose answer
    /// this is for that reading.
    pub fn generate_token(&self, username: &str, role: &str) -> (r: Result<String, AppError>)
        ensures
            exists|clock_secs: u128|
                (token_time_ok(clock_secs, self.token_lifetime_hours) <==> r is Ok) && (r matches Ok(t) ==> t@
                    == token_for(self.secret@, self.token_lifetime_hours, username@, role@, clock_secs as i64)),
            r matches Err(e) ==> e is AuthError,
    {
        let nanos = now_nanos();
        let secs: u128 = nanos / 1_000_000_000;
        self.generate_token_at_clock(username, role, secs)
    }

    /// The claims of a token signed with the secret, the role `viewer` where it carries
    /// none. A token made by `generate_token_at` with the same secret gives back the user,
    /// role and times it was made with. Whether a token is accepted also rests on the
    /// clock (an expired token is refused); a refused token gives an `AuthError`.
    pub fn verify_token(&self, token: &str) -> (r: Result<Claims, AppError>)
        ensures
            r matches Ok(c) ==> forall|sub: Seq<char>, exp: i64, iat: i64, role: Seq<char>|
                token@ == #[trigger] spec_jwt_encode(sub, exp, iat, role, self.secret@) ==> c.sub@ == sub && c.exp == exp
                    && c.iat == iat && c.role@ == role,
            r matches Err(e) ==> e is AuthError,
    {
        match jwt_decode(token, self.secret.as_str()) {
            Ok((sub, exp, iat, role)) => {
                let role = match role {
                    Some(x) => x,
                    None => default_role(),
                };
                Ok(Claims { sub, exp, iat, role })
            },
            Err(_) => Err(AppError::AuthError("无法验证 JWT token".to_owned())),
        }
    }
}

/// A token that `generate_token_at` issued is read back by `verify_token` with the same
/// manager as the user, role, issue time and expiry it was issued with, whenever it is
/// accepted.
pub proof fn lemma_token_round_trip(m: JwtManager, username: Seq<char>, role: Seq<char>, now: i64, token: Seq<char>, c: Claims)
    requires
        token == token_for(m.secret@, m.token_lifetime_hours, username, role, now),
        forall|sub: Seq<char>, exp: i64, iat: i64, ro: Seq<char>|
            token == #[trigger] spec_jwt_encode(sub, exp, iat, ro, m.secret@) ==> c.sub@ == sub && c.exp == exp
                && c.iat == iat && c.role@ == ro,
    ensures
        c.sub@ == username,
        c.role@ == role,
        c.iat == now,
        c.exp == (now + 3600 * m.token_lifetime_hours) as i64,
{
}

// ─── Passwords ───────────────────────────────────────────────────────────────

/// `bcrypt::BcryptError`, carried as it is.
#[verifier::external_type_specification]
#[verifier::external_body]
pub struct ExBcryptError(bcrypt::BcryptError);

/// Whether `bcrypt::verify` accepts a password for a hash (`None` when it fails: the
/// hash is malformed or has a cost out of range).
pub uninterp spec fn spec_bcrypt_verify(password: Seq<char>, hash: Seq<char>) -> Option<bool>;

/// Calls `bcrypt::hash` with `bcrypt::DEFAULT_COST` (12). The salt is random, so the hash
/// is not a function of the password; the source shows that `bcrypt::verify` recomputes
/// the hash with the cost and salt written in it, so it accepts the password for the hash
/// that was produced. The source also shows the form of the hash: `$2b$`, the cost in
/// two digits, `$`, then 22 characters of salt and 31 of hash, 60 characters in all.
#[verifier::external_body]
fn bcrypt_hash(password: &str) -> (r: Result<String, bcrypt::BcryptError>)
    ensures
        r matches Ok(h) ==> spec_bcrypt_verify(password@, h@) == Some(true),
        r matches Ok(h) ==> is_bcrypt_hash(h@),
{
    bcrypt::hash(password, bcrypt::DEFAULT_COST)
}

/// Calls `bcrypt::verify`; its result is a function of the password and the hash,
/// named `spec_bcrypt_verify`.
#[verifier::external_body]
fn bcrypt_verify(password: &str, hash: &str) -> (r: Result<bool, bcrypt::BcryptError>)
    ensures
        match r {
            Ok(b) => spec_bcrypt_verify(password@, hash@) == Some(b),
            Err(_) => spec_bcrypt_verify(password@, hash@) is None,
        },
{
    bcrypt::verify(password, hash)
}

/// A bcrypt hash as this library makes them: 60 characters, beginning with the version
/// `$2b$` and the cost `12$`.
pub open spec fn is_bcrypt_hash(h: Seq<char>) -> bool {
    h.len() == 60 && seq_starts_with(h, "$2b$12$"@)
}

/// Password hashing with bcrypt.
pub struct PasswordManager;

impl PasswordManager {
    /// Hashes a password with a fresh random salt. A hash that is returned accepts the
    /// password (see `verify_password`) and has the bcrypt form (see `is_bcrypt_hash`).
    pub fn hash_password(password: &str) -> (r: Result<String, AppError>)
        ensures
            r matches Ok(h) ==> spec_bcrypt_verify(password@, h@) == Some(true),
            r matches Ok(h) ==> is_bcrypt_hash(h@),
            r matches Err(e) ==> e is AuthError,
    {
        match bcrypt_hash(password) {
            Ok(h) => Ok(h),
            Err(_) => Err(AppError::AuthError("无法加密密码".to_owned())),
        }
    }

    /// Whether the password matches the hash; an error when the hash cannot be used.
    pub fn verify_password(password: &str, hash: &str) -> (r: Result<bool, AppError>)
        ensures
            match spec_bcrypt_verify(password@, hash@) {
                Some(b) => r == Ok::<bool, AppError>(b),
                None => r matches Err(e) && e is AuthError,
            },
    {
        match bcrypt_verify(password, hash) {
            Ok(b) => Ok(b),
            Err(_) => Err(AppError::AuthError("无法验证密码".to_owned())),
        }
    }
}

// ─── The guard ────────────────────────────────────────────────────────────────

/// The paths that need no token: exactly the login page and the login endpoint, and
/// everything under `/static/` and `/share/`. The exact match keeps paths that merely
/// begin like the login page (`/login-admin`, `/login/../doc`) behind the guard.
pub open spec fn is_public_path(path: Seq<char>) -> bool {
    path == "/login"@ || path == "/api/auth/login"@ || seq_starts_with(path, "/static/"@) || seq_starts_with(
        path,
        "/share/"@,
    )
}

/// The token of a request: the `auth_token` cookie if there is one, else what follows
/// `Bearer ` in the `Authorization` header.
pub open spec fn request_token(cookie: Option<Seq<char>>, authorization: Option<Seq<char>>) -> Option<Seq<char>> {
    match cookie {
        Some(c) => Some(c),
        None => match authorization {
            Some(h) => if seq_starts_with(h, "Bearer "@) {
                Some(h.skip(7))
            } else {
                None
            },
            None => None,
        },
    }
}

/// What the guard does with a request.
pub enum AccessDecision {
    /// Let it through without a user.
    Pass,
    /// Check this token; let the request through as its user if it is valid, redirect to
    /// the login page otherwise.
    Verify(String),
    /// Redirect to the login page.
    RedirectToLogin,
}

/// The guard in front of the pages.
pub struct AuthMiddleware {
    pub jwt_manager: JwtManager,
    pub enabled: bool,
}

impl AuthMiddleware {
    /// A guard checking tokens with `jwt_manager`, or letting everything through when not
    /// `enabled`.
    pub fn new(jwt_manager: JwtManager, enabled: bool) -> (m: Self)
        ensures
            m.jwt_manager == jwt_manager,
            m.enabled == enabled,
    {
        AuthMiddleware { jwt_manager, enabled }
    }
}

/// The guard around one service.
pub struct AuthMiddlewareService<S> {
    pub service: S,
    pub enabled: bool,
}

/// Whether `path` needs no token.
pub fn public_path(path: &str) -> (b: bool)
    ensures
        b == is_public_path(path@),
{
    let p = str_to_chars(path);
    str_eq(path, "/login") || str_eq(path, "/api/auth/login") || starts_with(&p, &str_to_chars("/static/"))
        || starts_with(&p, &str_to_chars("/share/"))
}

/// The token of a request (see `request_token`).
pub fn extract_token(cookie: Option<&str>, authorization: Option<&str>) -> (r: Option<String>)
    ensures
        match request_token(
            match cookie {
                Some(c) => Some(c@),
                None => None,
            },
            match authorization {
                Some(h) => Some(h@),
                None => None,
            },
        ) {
            Some(t) => r matches Some(s) && s@ == t,
            None => r is None,
        },
{
    match cookie {
        Some(c) => Some(c.to_owned()),
        None => match authorization {
            Some(h) => {
                let v = str_to_chars(h);
                if starts_with(&v, &str_to_chars("Bearer ")) {
                    proof {
                        reveal_strlit("Bearer ");
                    }
                    let t = crate::text::chars_to_string_range(&v, 7, v.len());
                    assert(v@.subrange(7, v@.len() as int) =~= h@.skip(7));
                    Some(t)
                } else {
                    None
                }
            },
            None => None,
        },
    }
}

impl<S> AuthMiddlewareService<S> {
    /// A guard around `service`.
    pub fn new(service: S, enabled: bool) -> (g: Self)
        ensures
            g.service == service,
            g.enabled == enabled,
    {
        AuthMiddlewareService { service, enabled }
    }

    /// What the guard does with a request for `path` with an `auth_token` cookie value and
    /// an `Authorization` header: everything passes when the guard is off, public paths
    /// pass, a request with a token has it checked, and any other is redirected.
    pub fn decide(&self, path: &str, cookie: Option<&str>, authorization: Option<&str>) -> (d: AccessDecision)
        ensures
            !self.enabled ==> d is Pass,
            self.enabled && is_public_path(path@) ==> d is Pass,
            self.enabled && !is_public_path(path@) ==> match request_token(
                match cookie {
                    Some(c) => Some(c@),
                    None => None,
                },
                match authorization {
                    Some(h) => Some(h@),
                    None => None,
                },
            ) {
                Some(t) => d matches AccessDecision::Verify(s) && s@ == t,
                None => d is RedirectToLogin,
            },
    {
        if !self.enabled || public_path(path) {
            return AccessDecision::Pass;
        }
        match extract_token(cookie, authorization) {
            Some(t) => AccessDecision::Verify(t),
            None => AccessDecision::RedirectToLogin,
        }
    }
}

// ─── Login and password change ───────────────────────────────────────────────

/// A login request.
pub struct LoginRequest {
    pub username: String,
    pub password: String,
    /// Keep the session cookie for 30 days instead of 24 hours.
    pub remember_me: Option<bool>,
}

/// The answer to a login request.
pub struct LoginResponse {
    pub success: bool,
    pub message: String,
    pub token: Option<String>,
}

/// A password change request.
pub struct ChangePasswordRequest {
    pub old_password: String,
    pub new_password: String,
}

/// A plain answer: success and message.
pub struct ApiResponse {
    pub success: bool,
    pub message: String,
}

/// A stored user, as the requests read it.
pub struct UserRecord {
    pub username: String,
    pub password_hash: String,
    pub enabled: bool,
}

/// What a login request has learnt so far.
pub enum LoginEvent {
    /// The request arrived.
    Received,
    /// The user was looked up.
    UserLookedUp(Result<Option<UserRecord>, AppError>),
}

/// What a login request does next.
pub enum LoginAction {
    LookUpUser(String),
    /// Answer with a status and body; on success set the session cookie and record the
    /// login of the user.
    Respond { status: u16, body: LoginResponse, cookie: Option<SessionCookie>, record_login: Option<String> },
}

/// The session cookie that a successful login sets.
pub struct SessionCookie {
    pub name: String,
    pub value: String,
    pub path: String,
    pub http_only: bool,
    /// The `SameSite` attribute.
    pub same_site: String,
    pub secure: bool,
    /// Lifetime in seconds.
    pub max_age: i64,
}

/// The session cookie of a login: `auth_token` holding the token, for the whole site
/// (`/`), hidden from scripts, `SameSite=Lax`, sent only over HTTPS when `secure`, and
/// living as long as `session_max_age` says.
pub open spec fn session_cookie_for(c: SessionCookie, token: Seq<char>, remember_me: Option<bool>, secure: bool) -> bool {
    &&& c.name@ == "auth_token"@
    &&& c.value@ == token
    &&& c.path@ == "/"@
    &&& c.http_only
    &&& c.same_site@ == "Lax"@
    &&& c.secure == secure
    &&& c.max_age == session_max_age(remember_me)
}

/// A failed login answer.
pub open spec fn login_failure(a: LoginAction, status: u16, message: Seq<char>) -> bool {
    a matches LoginAction::Respond { status: st, body, cookie, record_login } && st == status && !body.success
        && body.message@ == message && body.token is None && cookie is None && record_login is None
}

/// The cookie lifetime of a session: 30 days when the user asked to be remembered, 24
/// hours otherwise.
pub open spec fn session_max_age(remember_me: Option<bool>) -> i64 {
    if remember_me == Some(true) {
        2592000
    } else {
        86400
    }
}

fn login_fail(status: u16, message: &str) -> (a: LoginAction)
    ensures
        login_failure(a, status, message@),
{
    LoginAction::Respond {
        status,
        body: LoginResponse { success: false, message: message.to_owned(), token: None },
        cookie: None,
        record_login: None,
    }
}

/// The login answer for a user whose password was accepted: 200 with the token that
/// `jwt` issues for the user and the role `viewer` at some clock reading, the session
/// cookie, and the login recorded; or 500 where the token cannot be issued at that
/// reading.
pub open spec fn login_granted(
    a: LoginAction,
    req: LoginRequest,
    jwt: JwtManager,
    force_https_cookie: bool,
    user: UserRecord,
) -> bool {
    exists|clock_secs: u128|
        if token_time_ok(clock_secs, jwt.token_lifetime_hours) {
            a matches LoginAction::Respond { status, body, cookie, record_login } && status == 200 && body.success
                && body.message@ == "登录成功"@ && (body.token matches Some(t) && t@ == token_for(
                jwt.secret@,
                jwt.token_lifetime_hours,
                user.username@,
                "viewer"@,
                clock_secs as i64,
            ) && (cookie matches Some(c) && session_cookie_for(c, t@, req.remember_me, force_https_cookie)))
                && (record_login matches Some(n) && n@ == user.username@)
        } else {
            login_failure(a, 500, "服务器内部错误"@)
        }
}

/// The next step of a login: look the user up; refuse an unknown user (401, wrong name or
/// password) or a disabled one (403); check the password with bcrypt and refuse a wrong
/// one (401); issue a token with the default role and answer 200 with it and the session
/// cookie (see `session_cookie_for`; `force_https_cookie` is the configured Secure flag),
/// recording the login (see `login_granted`). A failed lookup, a hash that bcrypt cannot
/// use, or a token that cannot be issued answers 500.
pub fn login_step(req: &LoginRequest, jwt: &JwtManager, force_https_cookie: bool, ev: LoginEvent) -> (a: LoginAction)
    ensures
        match ev {
            LoginEvent::Received => a matches LoginAction::LookUpUser(u) && u@ == req.username@,
            LoginEvent::UserLookedUp(Err(_)) => login_failure(a, 500, "服务器内部错误"@),
            LoginEvent::UserLookedUp(Ok(None)) => login_failure(a, 401, "用户名或密码错误"@),
            LoginEvent::UserLookedUp(Ok(Some(user))) => if !user.enabled {
                login_failure(a, 403, "账户已被禁用"@)
            } else {
                match spec_bcrypt_verify(req.password@, user.password_hash@) {
                    None => login_failure(a, 500, "服务器内部错误"@),
                    Some(false) => login_failure(a, 401, "用户名或密码错误"@),
                    Some(true) => login_granted(a, *req, *jwt, force_https_cookie, user),
                }
            },
        },
{
    match ev {
        LoginEvent::Received => LoginAction::LookUpUser(req.username.clone()),
        LoginEvent::UserLookedUp(r) => match r {
            Err(_) => login_fail(500, "服务器内部错误"),
            Ok(None) => login_fail(401, "用户名或密码错误"),
            Ok(Some(user)) => {
                if !user.enabled {
                    return login_fail(403, "账户已被禁用");
                }
                match PasswordManager::verify_password(req.password.as_str(), user.password_hash.as_str()) {
                    Err(_) => login_fail(500, "服务器内部错误"),
                    Ok(false) => login_fail(401, "用户名或密码错误"),
                    Ok(true) => {
                        let role = default_role();
                        let issued = jwt.generate_token(user.username.as_str(), role.as_str());
                        let ghost witness = choose|clock_secs: u128|
                            (token_time_ok(clock_secs, jwt.token_lifetime_hours) <==> issued is Ok) && (
                            issued matches Ok(t) ==> t@ == token_for(
                                jwt.secret@,
                                jwt.token_lifetime_hours,
                                user.username@,
                                role@,
                                clock_secs as i64,
                            ));
                        match issued {
                            Ok(token) => {
                                let remember = match req.remember_me {
                                    Some(b) => b,
                                    None => false,
                                };
                                let max_age: i64 = if remember { 2592000 } else { 86400 };
                                let cookie = SessionCookie {
                                    name: "auth_token".to_owned(),
                                    value: token.clone(),
                                    path: "/".to_owned(),
                                    http_only: true,
                                    same_site: "Lax".to_owned(),
                                    secure: force_https_cookie,
                                    max_age,
                                };
                                let a = LoginAction::Respond {
                                    status: 200,
                                    body: LoginResponse {
                                        success: true,
                                        message: "登录成功".to_owned(),
                                        token: Some(token),
                                    },
                                    cookie: Some(cookie),
                                    record_login: Some(user.username.clone()),
                                };
                                proof {
                                    assert(token_time_ok(witness, jwt.token_lifetime_hours));
                                }
                                a
                            },
                            Err(_) => {
                                let a = login_fail(500, "服务器内部错误");
                                proof {
                                    assert(!token_time_ok(witness, jwt.token_lifetime_hours));
                                }
                                a
                            },
                        }
                    },
                }
            },
        },
    }
}

/// What a password change request has learnt so far.
#[allow(inconsistent_fields)]
pub enum PasswordEvent {
    /// The request arrived, from the signed-in user if there is one.
    Received { username: Option<String> },
    /// The user was looked up.
    UserLookedUp(Result<Option<UserRecord>, AppError>),
    /// The old password of `user` was checked.
    OldPasswordChecked { user: UserRecord, result: Result<bool, AppError> },
    /// The new password was hashed.
    NewPasswordHashed { username: String, result: Result<String, AppError> },
    /// The new hash was stored.
    PasswordStored(Result<(), AppError>),
}

/// What a password change request does next.
pub enum PasswordAction {
    LookUpUser(String),
    CheckOldPassword { user: UserRecord, password: String },
    HashNewPassword { username: String, password: String },
    StoreHash { username: String, hash: String },
    Respond { status: u16, body: ApiResponse },
}

/// An answer of a password change request.
pub open spec fn password_answer(a: PasswordAction, status: u16, success: bool, message: Seq<char>) -> bool {
    a matches PasswordAction::Respond { status: st, body } && st == status && body.success == success
        && body.message@ == message
}

fn password_answer_of(status: u16, success: bool, message: &str) -> (a: PasswordAction)
    ensures
        password_answer(a, status, success, message@),
{
    PasswordAction::Respond { status, body: ApiResponse { success, message: message.to_owned() } }
}

/// The next step of a password change: refuse a request without a signed-in user (401);
/// look the user up, answering 404 when it is gone; check the old password, refusing a
/// wrong one (401); hash the new password; store it and answer 200. Any failure of a step
/// answers 500.
pub fn change_password_step(req: &ChangePasswordRequest, ev: PasswordEvent) -> (a: PasswordAction)
    ensures
        match ev {
            PasswordEvent::Received { username } => match username {
                Some(u) => a matches PasswordAction::LookUpUser(n) && n == u,
                None => password_answer(a, 401, false, "未认证"@),
            },
            PasswordEvent::UserLookedUp(r) => match r {
                Err(_) => password_answer(a, 500, false, "服务器内部错误"@),
                Ok(None) => password_answer(a, 404, false, "用户不存在"@),
                Ok(Some(user)) => a matches PasswordAction::CheckOldPassword { user: u, password } && u == user
                    && password@ == req.old_password@,
            },
            PasswordEvent::OldPasswordChecked { user, result } => match result {
                Ok(true) => a matches PasswordAction::HashNewPassword { username, password } && username
                    == user.username && password@ == req.new_password@,
                Ok(false) => password_answer(a, 401, false, "旧密码错误"@),
                Err(_) => password_answer(a, 500, false, "服务器内部错误"@),
            },
            PasswordEvent::NewPasswordHashed { username, result } => match result {
                Ok(h) => a matches PasswordAction::StoreHash { username: u, hash } && u == username && hash == h,
                Err(_) => password_answer(a, 500, false, "服务器内部错误"@),
            },
            PasswordEvent::PasswordStored(r) => match r {
                Ok(_) => password_answer(a, 200, true, "密码修改成功"@),
                Err(_) => password_answer(a, 500, false, "服务器内部错误"@),
            },
        },
{
    match ev {
        PasswordEvent::Received { username } => match username {
            Some(u) => PasswordAction::LookUpUser(u),
            None => password_answer_of(401, false, "未认证"),
        },
        PasswordEvent::UserLookedUp(r) => match r {
            Err(_) => password_answer_of(500, false, "服务器内部错误"),
            Ok(None) => password_answer_of(404, false, "用户不存在"),
            Ok(Some(user)) => PasswordAction::CheckOldPassword { user, password: req.old_password.clone() },
        },
        PasswordEvent::OldPasswordChecked { user, result } => match result {
            Ok(true) => PasswordAction::HashNewPassword { username: user.username, password: req.new_password.clone() },
            Ok(false) => password_answer_of(401, false, "旧密码错误"),
            Err(_) => password_answer_of(500, false, "服务器内部错误"),
        },
        PasswordEvent::NewPasswordHashed { username, result } => match result {
            Ok(h) => PasswordAction::StoreHash { username, hash: h },
            Err(_) => password_answer_of(500, false, "服务器内部错误"),
        },
        PasswordEvent::PasswordStored(r) => match r {
            Ok(_) => password_answer_of(200, true, "密码修改成功"),
            Err(_) => password_answer_of(500, false, "服务器内部错误"),
        },
    }
}

} // verus!
