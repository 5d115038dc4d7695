//! The error type of the mirror.
use vstd::prelude::*;
use vstd::std_specs::convert::FromSpecImpl;
use crate::text::push_str;

verus! {

/// `std::io::Error`, carried as it is.
#[verifier::external_type_specification]
#[verifier::external_body]
pub struct ExIoError(std::io::Error);

/// An error of the mirror.
#[derive(Debug)]
pub enum AppError {
    /// A git operation failed.
    GitError(String),
    /// A file system operation failed.
    IoError(std::io::Error),
    /// Markdown could not be processed.
    MarkdownError(String),
    /// The search engine failed.
    SearchError(String),
    /// The persisted indexes could not be read or written.
    PersistenceError(String),
    /// Authentication failed.
    AuthError(String),
    /// The configuration is invalid.
    ConfigError(String),
    /// An HTTP request failed.
    HttpError(String),
}

/// Calls the `Display` implementation of `std::io::Error`; what it writes depends on the
/// operating system's message for the error and is not stated.
#[verifier::external_body]
fn io_error_message(e: &std::io::Error) -> (s: String) {
    format!("{}", e)
}

/// The message of an error: its kind and its detail.
pub open spec fn app_error_message(e: AppError) -> Seq<char>
    recommends
        !(e is IoError),
{
    match e {
        AppError::GitError(m) => "Git 错误: "@ + m@,
        AppError::MarkdownError(m) => "Markdown 处理错误: "@ + m@,
        AppError::SearchError(m) => "搜索错误: "@ + m@,
        AppError::PersistenceError(m) => "持久化错误: "@ + m@,
        AppError::AuthError(m) => "认证错误: "@ + m@,
        AppError::ConfigError(m) => "配置错误: "@ + m@,
        AppError::HttpError(m) => "HTTP 错误: "@ + m@,
        AppError::IoError(_) => "IO 错误: "@,
    }
}

impl AppError {
    /// The message of the error (its `Display` form): the kind of error, a colon and the
    /// detail. For an I/O error the detail is the system's description of it.
    pub fn to_string(&self) -> (s: String)
        ensures
            !(*self is IoError) ==> s@ == app_error_message(*self),
            *self is IoError ==> s@.len() >= "IO 错误: "@.len() && s@.take("IO 错误: "@.len() as int) == "IO 错误: "@,
    {
        let mut s = String::new();
        match self {
            AppError::GitError(m) => {
                push_str(&mut s, "Git 错误: ");
                push_str(&mut s, m.as_str());
            },
            AppError::IoError(e) => {
                push_str(&mut s, "IO 错误: ");
                let d = io_error_message(e);
                let ghost prefix = s@;
                push_str(&mut s, d.as_str());
                assert(s@.take(prefix.len() as int) =~= prefix);
            },
            AppError::MarkdownError(m) => {
                push_str(&mut s, "Markdown 处理错误: ");
                push_str(&mut s, m.as_str());
            },
            AppError::SearchError(m) => {
                push_str(&mut s, "搜索错误: ");
                push_str(&mut s, m.as_str());
            },
            AppError::PersistenceError(m) => {
                push_str(&mut s, "持久化错误: ");
                push_str(&mut s, m.as_str());
            },
            AppError::AuthError(m) => {
                push_str(&mut s, "认证错误: ");
                push_str(&mut s, m.as_str());
            },
            AppError::ConfigError(m) => {
                push_str(&mut s, "配置错误: ");
                push_str(&mut s, m.as_str());
            },
            AppError::HttpError(m) => {
                push_str(&mut s, "HTTP 错误: ");
                push_str(&mut s, m.as_str());
            },
        }
        s
    }
}

impl From<std::io::Error> for AppError {
    fn from(err: std::io::Error) -> (r: Self) {
        AppError::IoError(err)
    }
}

impl FromSpecImpl<std::io::Error> for AppError {
    open spec fn obeys_from_spec() -> bool {
        true
    }

    open spec fn from_spec(err: std::io::Error) -> AppError {
        AppError::IoError(err)
    }
}

} // verus!
