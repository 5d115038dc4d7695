use obsidian_mirror::scanner::VaultScanner;
use obsidian_mirror::config::{
    safe_vault_name, search_index_dir_name, uses_global_index, vault_index_file_name, AppConfig, DatabaseConfig,
    RepoConfig, SecurityConfig, WebhookConfig,
};

fn make_single_vault_config() -> AppConfig {
    AppConfig {
        repo_url: "https://git.example.com/notes.git".to_string(),
        local_path: "./vault".to_string(),
        listen_addr: "127.0.0.1:8080".to_string(),
        workers: 4,
        ignore_patterns: vec![".obsidian".to_string()],
        database: DatabaseConfig::default(),
        security: SecurityConfig::default(),
        sync_interval_minutes: 0,
        webhook: WebhookConfig::default(),
        public_base_url: None,
        repos: vec![],
    }
}

#[test]
fn test_effective_repos_single_vault() {
    let config = make_single_vault_config();
    let repos = config.effective_repos();
    assert_eq!(repos.len(), 1);
    assert_eq!(repos[0].name, "default");
    assert_eq!(repos[0].repo_url, "https://git.example.com/notes.git");
    assert_eq!(repos[0].local_path, "./vault");
    assert_eq!(repos[0].ignore_patterns, vec![".obsidian"]);
}

#[test]
fn test_is_multi_vault_false_when_repos_empty() {
    let config = make_single_vault_config();
    assert!(!config.is_multi_vault());
}

#[test]
fn test_effective_repos_multi_vault() {
    let mut config = make_single_vault_config();
    config.repos = vec![
        RepoConfig {
            name: "personal".to_string(),
            repo_url: "https://git.example.com/personal.git".to_string(),
            local_path: "./personal".to_string(),
            ignore_patterns: vec![],
        },
        RepoConfig {
            name: "work".to_string(),
            repo_url: "https://git.example.com/work.git".to_string(),
            local_path: "./work".to_string(),
            ignore_patterns: vec!["drafts/".to_string()],
        },
    ];
    let repos = config.effective_repos();
    assert_eq!(repos.len(), 2);
    assert_eq!(repos[0].name, "personal");
    assert_eq!(repos[1].name, "work");
    assert!(config.is_multi_vault());
}

#[test]
fn test_effective_repos_multi_vault_ignores_top_level_fields() {
    let mut config = make_single_vault_config();
    config.repos = vec![RepoConfig {
        name: "vault1".to_string(),
        repo_url: "https://git.example.com/v1.git".to_string(),
        local_path: "./v1".to_string(),
        ignore_patterns: vec![],
    }];
    let repos = config.effective_repos();
    assert_eq!(repos.len(), 1);
    assert_eq!(repos[0].name, "vault1");
    assert_ne!(repos[0].repo_url, "https://git.example.com/notes.git");
}

#[test]
fn effective_repos_keep_every_vault_field() {
    let mut config = make_single_vault_config();
    config.repos = vec![RepoConfig {
        name: "work".to_string(),
        repo_url: "u".to_string(),
        local_path: "./w".to_string(),
        ignore_patterns: vec!["a/".to_string(), "b".to_string()],
    }];
    let repos = config.effective_repos();
    assert_eq!(repos[0].local_path, "./w");
    assert_eq!(repos[0].ignore_patterns, vec!["a/", "b"]);
}

#[test]
fn vault_file_names_are_safe() {
    assert_eq!(safe_vault_name("my vault/a:b\\c"), "my_vault_a_b_c");
    assert!(uses_global_index("work", false));
    assert!(uses_global_index("default", true));
    assert!(!uses_global_index("work", true));
    assert_eq!(vault_index_file_name("my vault"), "my_vault_index.db");
    assert_eq!(search_index_dir_name("default"), ".search_index");
    assert_eq!(search_index_dir_name("a/b"), ".search_index_a_b");
}

#[test]
fn scanner_accepts_only_markdown_files() {
    let scanner = VaultScanner::new(make_single_vault_config());
    let rel = Some(vec!["notes".to_string(), "a.md".to_string()]);
    assert!(scanner.accepts(false, &Some("md".to_string()), &rel));
    assert!(!scanner.accepts(false, &None, &Some(vec!["LICENSE".to_string()])));
    assert!(!scanner.accepts(false, &Some("txt".to_string()), &rel));
    assert!(!scanner.accepts(true, &Some("md".to_string()), &rel));
    assert!(!scanner.accepts(false, &Some("md".to_string()), &Some(vec![".obsidian".to_string(), "a.md".to_string()])));
}
