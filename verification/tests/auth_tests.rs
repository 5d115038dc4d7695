use obsidian_mirror::auth::{
    extract_token, login_step, public_path, JwtManager, LoginAction, LoginEvent, LoginRequest, PasswordManager, UserRecord,
};

#[test]
fn test_password_hashing_and_verification() {
    let password = "my_secure_password";

    let hash = PasswordManager::hash_password(password).unwrap();
    assert_ne!(hash, password);

    assert!(PasswordManager::verify_password(password, &hash).unwrap());
    assert!(!PasswordManager::verify_password("wrong_password", &hash).unwrap());
}

#[test]
fn malformed_hash_is_an_error() {
    assert!(PasswordManager::verify_password("x", "not a hash").is_err());
}

#[test]
fn login_and_static_paths_are_public() {
    assert!(public_path("/login"));
    assert!(public_path("/api/auth/login"));
    assert!(public_path("/static/app.css"));
    assert!(public_path("/share/abc"));
    assert!(!public_path("/doc/a.md"));
    assert!(!public_path("/login-admin"));
    assert!(!public_path("/login/../doc/secret.md"));
}

#[test]
fn token_from_cookie_or_bearer_header() {
    assert_eq!(extract_token(Some("abc"), None).as_deref(), Some("abc"));
    assert_eq!(extract_token(None, Some("Bearer xyz")).as_deref(), Some("xyz"));
    assert_eq!(extract_token(None, Some("Basic xyz")), None);
    assert_eq!(extract_token(None, None), None);
}

#[test]
fn test_jwt_generation_and_verification() {
    let jwt_manager = JwtManager::new("test_secret".to_string(), 24);

    let token = jwt_manager.generate_token("admin", "admin").unwrap();
    assert!(!token.is_empty());

    let claims = jwt_manager.verify_token(&token).unwrap();
    assert_eq!(claims.sub, "admin");
}

#[test]
fn token_claims_round_trip_and_secret_matters() {
    let m = JwtManager::new("s3".to_string(), 2);
    let now = 4_000_000_000i64;
    let t = m.generate_token_at("bob", "editor", now).unwrap();
    assert_eq!(t, m.generate_token_at("bob", "editor", now).unwrap());
    assert_ne!(t, m.generate_token_at("bob", "viewer", now).unwrap());
    let c = m.verify_token(&t).unwrap();
    assert_eq!((c.sub.as_str(), c.role.as_str(), c.iat, c.exp), ("bob", "editor", now, now + 7200));
    let other = JwtManager::new("other".to_string(), 2);
    assert!(other.verify_token(&t).is_err());
    assert!(m.verify_token("not.a.token").is_err());
}

#[test]
fn expired_token_is_refused() {
    let m = JwtManager::new("s3".to_string(), 1);
    let t = m.generate_token_at("bob", "admin", 1_000).unwrap();
    assert!(m.verify_token(&t).is_err());
}

#[test]
fn token_issuing_refuses_times_outside_the_calendar() {
    let m = JwtManager::new("s".to_string(), 24);
    let at = m.generate_token_at_clock("u", "viewer", 1_000).unwrap();
    assert_eq!(at, m.generate_token_at("u", "viewer", 1_000).unwrap());
    assert!(m.generate_token_at_clock("u", "viewer", 8_210_266_876_800).is_err());
    assert!(m.generate_token_at_clock("u", "viewer", 8_210_266_876_799 - 3600).is_err());
    let back = JwtManager::new("s".to_string(), -1);
    assert!(back.generate_token_at_clock("u", "viewer", 100).is_err());
    assert!(back.generate_token_at_clock("u", "viewer", 3600).is_ok());
}

#[test]
fn password_hashes_have_the_bcrypt_form() {
    let h = PasswordManager::hash_password("pw").unwrap();
    assert_eq!(h.len(), 60);
    assert!(h.starts_with("$2b$12$"));
}

#[test]
fn login_sets_the_session_cookie() {
    let hash = PasswordManager::hash_password("pw").unwrap();
    let user = |enabled: bool| UserRecord { username: "bob".to_string(), password_hash: hash.clone(), enabled };
    let jwt = JwtManager::new("s".to_string(), 24);
    let req = LoginRequest { username: "bob".to_string(), password: "pw".to_string(), remember_me: Some(true) };
    match login_step(&req, &jwt, true, LoginEvent::Received) {
        LoginAction::LookUpUser(name) => assert_eq!(name, "bob"),
        _ => panic!("expected a lookup"),
    }
    match login_step(&req, &jwt, true, LoginEvent::UserLookedUp(Ok(Some(user(true))))) {
        LoginAction::Respond { status, body, cookie, record_login } => {
            assert_eq!(status, 200);
            let token = body.token.unwrap();
            assert_eq!(jwt.verify_token(&token).unwrap().sub, "bob");
            let c = cookie.unwrap();
            assert_eq!((c.name.as_str(), c.value.as_str(), c.path.as_str(), c.same_site.as_str()), ("auth_token", token.as_str(), "/", "Lax"));
            assert!(c.http_only && c.secure);
            assert_eq!(c.max_age, 2_592_000);
            assert_eq!(record_login.as_deref(), Some("bob"));
        }
        _ => panic!("expected an answer"),
    }
    let wrong = LoginRequest { username: "bob".to_string(), password: "no".to_string(), remember_me: None };
    match login_step(&wrong, &jwt, false, LoginEvent::UserLookedUp(Ok(Some(user(true))))) {
        LoginAction::Respond { status, body, cookie, .. } => {
            assert_eq!(status, 401);
            assert!(body.token.is_none() && cookie.is_none());
        }
        _ => panic!("expected a refusal"),
    }
    let disabled = user(false);
    assert!(matches!(login_step(&req, &jwt, false, LoginEvent::UserLookedUp(Ok(Some(disabled)))), LoginAction::Respond { status: 403, .. }));
    assert!(matches!(login_step(&req, &jwt, false, LoginEvent::UserLookedUp(Ok(None))), LoginAction::Respond { status: 401, .. }));
    let broken = UserRecord { username: "bob".to_string(), password_hash: "x".to_string(), enabled: true };
    assert!(matches!(login_step(&req, &jwt, false, LoginEvent::UserLookedUp(Ok(Some(broken)))), LoginAction::Respond { status: 500, .. }));
}
