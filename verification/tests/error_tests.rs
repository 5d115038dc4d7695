use obsidian_mirror::error::AppError;

#[test]
fn test_error_display() {
    let err = AppError::GitError("commit not found".to_string());
    assert_eq!(err.to_string(), "Git 错误: commit not found");

    let err = AppError::MarkdownError("invalid syntax".to_string());
    assert_eq!(err.to_string(), "Markdown 处理错误: invalid syntax");
}

#[test]
fn test_error_from_io() {
    let io_err = std::io::Error::new(std::io::ErrorKind::NotFound, "file not found");
    let app_err: AppError = io_err.into();

    assert!(matches!(app_err, AppError::IoError(_)));
}

#[test]
fn io_error_message_is_carried() {
    let io_err = std::io::Error::new(std::io::ErrorKind::NotFound, "file not found");
    let app_err: AppError = io_err.into();
    assert!(app_err.to_string().ends_with("file not found"));
}

#[test]
fn every_error_kind_has_its_prefix() {
    assert!(AppError::SearchError("x".to_string()).to_string().ends_with(": x"));
    assert!(AppError::PersistenceError("y".to_string()).to_string().ends_with(": y"));
    assert!(AppError::AuthError("z".to_string()).to_string().ends_with(": z"));
}
