use obsidian_mirror::share::{share_access, share_url, ShareAccess, ShareLink};

#[test]
fn test_share_link_creation() {
    let share = ShareLink::new(
        "test/note.md".to_string(),
        "admin".to_string(),
        Some(3600),
        Some("password123".to_string()),
        Some(10),
    )
    .unwrap();

    assert!(!share.token.is_empty());
    assert_eq!(share.note_path, "test/note.md");
    assert_eq!(share.creator, "admin");
    assert_eq!(share.visit_count, 0);
    assert!(share.is_valid());
}

#[test]
fn test_share_link_validity() {
    let mut expired_share =
        ShareLink::new("test/note.md".to_string(), "admin".to_string(), Some(0), None, None).unwrap();

    // ten milliseconds after creation the link has expired
    let later = expired_share.created_at + 10_000_000;
    assert!(!expired_share.is_valid_at(later));

    expired_share.expires_at = None;
    expired_share.max_visits = Some(2);
    assert!(expired_share.is_valid());

    expired_share.increment_visit();
    assert!(expired_share.is_valid());

    expired_share.increment_visit();
    assert!(!expired_share.is_valid());
}

#[test]
fn test_password_verification() {
    let share_with_pwd = ShareLink::new(
        "test/note.md".to_string(),
        "admin".to_string(),
        None,
        Some("secret".to_string()),
        None,
    )
    .unwrap();

    assert!(share_with_pwd.password_hash.is_some(), "密码应被存储为哈希");
    let hash = share_with_pwd.password_hash.as_ref().unwrap();
    assert_ne!(hash.as_str(), "secret", "存储的不应是明文密码");
    assert!(hash.starts_with("$2"), "密码哈希应符合 bcrypt 格式（$2x$...）");

    assert!(share_with_pwd.verify_password(Some("secret")), "正确密码应验证成功");
    assert!(!share_with_pwd.verify_password(Some("wrong")), "错误密码应验证失败");
    assert!(!share_with_pwd.verify_password(None), "无密码时应验证失败");

    let share_without_pwd =
        ShareLink::new("test/note.md".to_string(), "admin".to_string(), None, None, None).unwrap();

    assert!(share_without_pwd.verify_password(None), "无密码保护时任何访问均应通过");
    assert!(share_without_pwd.verify_password(Some("anything")), "无密码保护时提供密码也应通过");
}

#[test]
fn expiry_is_inclusive_and_token_has_uuid_length() {
    let s = ShareLink::new("n.md".to_string(), "u".to_string(), Some(60), None, None).unwrap();
    assert_eq!(s.token.chars().count(), 36);
    let e = s.expires_at.unwrap();
    assert_eq!(e, s.created_at + 60_000_000_000);
    assert!(s.is_valid_at(e));
    assert!(!s.is_valid_at(e + 1));
}

#[test]
fn share_url_prefers_configured_base() {
    assert_eq!(share_url(Some("https://notes.example.com/"), "h:1", None, "t"), "https://notes.example.com/share/t");
    let u = share_url(None, "localhost:8080", Some("https"), "abc");
    assert!(u.ends_with("localhost:8080/share/abc"));
}

fn plain_link(expires_at: Option<u128>, max_visits: Option<u32>, visit_count: u32) -> ShareLink {
    ShareLink {
        token: "tok".to_string(),
        note_path: "a.md".to_string(),
        creator: "alice".to_string(),
        created_at: 0,
        expires_at,
        password_hash: None,
        max_visits,
        visit_count,
    }
}

#[test]
fn share_access_decides_in_order() {
    let link = plain_link(Some(100), Some(3), 1);
    match share_access(&link, None, 50) {
        ShareAccess::Grant(l) => {
            assert_eq!(l.visit_count, 2);
            assert_eq!((l.token.as_str(), l.note_path.as_str(), l.expires_at, l.max_visits), ("tok", "a.md", Some(100), Some(3)));
        }
        _ => panic!("expected the visit to be granted"),
    }
    assert!(matches!(share_access(&link, None, 101), ShareAccess::Gone));
    assert!(matches!(share_access(&plain_link(None, Some(1), 1), None, 0), ShareAccess::Gone));
    let hash = obsidian_mirror::auth::PasswordManager::hash_password("pw").unwrap();
    let mut locked = plain_link(None, None, 0);
    locked.password_hash = Some(hash);
    assert!(matches!(share_access(&locked, None, 0), ShareAccess::Forbidden));
    assert!(matches!(share_access(&locked, Some("bad"), 0), ShareAccess::Forbidden));
    assert!(matches!(share_access(&locked, Some("pw"), 0), ShareAccess::Grant(_)));
}
