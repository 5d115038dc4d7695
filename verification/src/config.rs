//! Configuration of the mirror: vaults, databases, security and webhook settings.
use vstd::prelude::*;
use vstd::string::StringExecFns;

verus! {

/// One git repository (vault) to mirror.
pub struct RepoConfig {
    /// Unique name of the vault (URL prefix `/r/{name}/...`).
    pub name: String,
    /// Remote git URL.
    pub repo_url: String,
    /// Local checkout path.
    pub local_path: String,
    /// File and directory names to skip (compared without regard to ASCII case).
    pub ignore_patterns: Vec<String>,
}

/// The whole configuration file.
pub struct AppConfig {
    /// Single-vault field: git URL (unused when `repos` is not empty).
    pub repo_url: String,
    /// Single-vault field: local path (unused when `repos` is not empty).
    pub local_path: String,
    pub listen_addr: String,
    pub workers: usize,
    pub ignore_patterns: Vec<String>,
    pub database: DatabaseConfig,
    pub security: SecurityConfig,
    /// Automatic sync interval in minutes; 0 disables it.
    pub sync_interval_minutes: u32,
    pub webhook: WebhookConfig,
    /// Public base URL used to build share links.
    pub public_base_url: Option<String>,
    /// The vaults; when empty, the single-vault fields describe one vault named "default".
    pub repos: Vec<RepoConfig>,
}

/// Webhook-triggered sync.
pub struct WebhookConfig {
    pub enabled: bool,
    /// Shared secret used to check push signatures.
    pub secret: String,
}

/// Database file locations.
pub struct DatabaseConfig {
    pub index_db_path: String,
    pub auth_db_path: String,
    pub share_db_path: String,
    pub reading_progress_db_path: String,
}

/// Authentication settings.
pub struct SecurityConfig {
    pub auth_enabled: bool,
    pub jwt_secret: String,
    /// Token lifetime in hours.
    pub token_lifetime_hours: i64,
    pub default_admin_username: String,
    pub default_admin_password: String,
    /// Whether cookies carry the `Secure` flag.
    pub force_https_cookie: bool,
}

/// A copy of a vector of strings.
pub fn clone_strings(v: &Vec<String>) -> (r: Vec<String>)
    ensures
        r@ == v@,
{
    let mut r: Vec<String> = Vec::new();
    let mut i: usize = 0;
    while i < v.len()
        invariant
            i <= v.len(),
            r@ == v@.take(i as int),
        decreases v.len() - i,
    {
        r.push(v[i].clone());
        i += 1;
        assert(r@ =~= v@.take(i as int));
    }
    assert(v@.take(v@.len() as int) =~= v@);
    r
}

/// The views of a sequence of strings.
pub open spec fn views(s: Seq<String>) -> Seq<Seq<char>> {
    s.map_values(|x: String| x@)
}

/// Two repository configurations hold the same values.
pub open spec fn same_repo(a: RepoConfig, b: RepoConfig) -> bool {
    a.name == b.name && a.repo_url == b.repo_url && a.local_path == b.local_path
        && a.ignore_patterns@ == b.ignore_patterns@
}

impl RepoConfig {
    /// A copy of this repository configuration.
    pub fn duplicate(&self) -> (r: RepoConfig)
        ensures
            same_repo(r, *self),
    {
        RepoConfig {
            name: self.name.clone(),
            repo_url: self.repo_url.clone(),
            local_path: self.local_path.clone(),
            ignore_patterns: clone_strings(&self.ignore_patterns),
        }
    }
}

impl WebhookConfig {
    /// Webhooks disabled, empty secret.
    pub fn default() -> (c: WebhookConfig)
        ensures
            !c.enabled,
            c.secret@ == Seq::<char>::empty(),
    {
        WebhookConfig { enabled: false, secret: String::new() }
    }
}

impl DatabaseConfig {
    /// The default database locations.
    pub fn default() -> (c: DatabaseConfig)
        ensures
            c.index_db_path@ == "./index.db"@,
            c.auth_db_path@ == "./auth.db"@,
            c.share_db_path@ == "./share.db"@,
            c.reading_progress_db_path@ == "./reading_progress.db"@,
    {
        DatabaseConfig {
            index_db_path: default_index_db_path(),
            auth_db_path: default_auth_db_path(),
            share_db_path: default_share_db_path(),
            reading_progress_db_path: default_reading_progress_db_path(),
        }
    }

    /// A copy of this configuration.
    pub fn duplicate(&self) -> (r: DatabaseConfig)
        ensures
            r == *self,
    {
        DatabaseConfig {
            index_db_path: self.index_db_path.clone(),
            auth_db_path: self.auth_db_path.clone(),
            share_db_path: self.share_db_path.clone(),
            reading_progress_db_path: self.reading_progress_db_path.clone(),
        }
    }
}

impl SecurityConfig {
    /// Authentication off, with the default secret, lifetime and administrator.
    pub fn default() -> (c: SecurityConfig)
        ensures
            !c.auth_enabled,
            c.jwt_secret@ == "CHANGE_THIS_TO_A_RANDOM_SECRET_KEY"@,
            c.token_lifetime_hours == 24,
            c.default_admin_username@ == "admin"@,
            c.default_admin_password@ == "admin"@,
            !c.force_https_cookie,
    {
        SecurityConfig {
            auth_enabled: false,
            jwt_secret: default_jwt_secret(),
            token_lifetime_hours: default_token_lifetime(),
            default_admin_username: default_admin_username(),
            default_admin_password: default_admin_password(),
            force_https_cookie: false,
        }
    }
}

/// Default local path of the single vault.
pub fn default_local_path() -> (p: String)
    ensures
        p@ == "./vault_data"@,
{
    String::from_str("./vault_data")
}

/// Default search index database.
pub fn default_index_db_path() -> (p: String)
    ensures
        p@ == "./index.db"@,
{
    String::from_str("./index.db")
}

/// Default user database.
pub fn default_auth_db_path() -> (p: String)
    ensures
        p@ == "./auth.db"@,
{
    String::from_str("./auth.db")
}

/// Default share-link database.
pub fn default_share_db_path() -> (p: String)
    ensures
        p@ == "./share.db"@,
{
    String::from_str("./share.db")
}

/// Default reading-progress database.
pub fn default_reading_progress_db_path() -> (p: String)
    ensures
        p@ == "./reading_progress.db"@,
{
    String::from_str("./reading_progress.db")
}

/// Default JWT secret (to be replaced in production).
pub fn default_jwt_secret() -> (s: String)
    ensures
        s@ == "CHANGE_THIS_TO_A_RANDOM_SECRET_KEY"@,
{
    String::from_str("CHANGE_THIS_TO_A_RANDOM_SECRET_KEY")
}

/// Default token lifetime: 24 hours.
pub fn default_token_lifetime() -> (h: i64)
    ensures
        h == 24,
{
    24
}

/// Default administrator name.
pub fn default_admin_username() -> (s: String)
    ensures
        s@ == "admin"@,
{
    String::from_str("admin")
}

/// Default administrator password (first start only).
pub fn default_admin_password() -> (s: String)
    ensures
        s@ == "admin"@,
{
    String::from_str("admin")
}

impl AppConfig {
    /// The vaults to mirror: `repos` when it is not empty, otherwise one vault named
    /// "default" built from the single-vault fields.
    pub fn effective_repos(&self) -> (r: Vec<RepoConfig>)
        ensures
            self.repos@.len() > 0 ==> r@.len() == self.repos@.len() && forall|i: int|
                0 <= i < r@.len() ==> same_repo(#[trigger] r@[i], self.repos@[i]),
            self.repos@.len() == 0 ==> r@.len() == 1 && r@[0].name@ == "default"@
                && r@[0].repo_url == self.repo_url && r@[0].local_path == self.local_path
                && r@[0].ignore_patterns@ == self.ignore_patterns@,
    {
        if self.repos.len() > 0 {
            let mut r: Vec<RepoConfig> = Vec::new();
            let mut i: usize = 0;
            while i < self.repos.len()
                invariant
                    i <= self.repos.len(),
                    r@.len() == i,
                    forall|j: int| 0 <= j < i ==> same_repo(#[trigger] r@[j], self.repos@[j]),
                decreases self.repos.len() - i,
            {
                r.push(self.repos[i].duplicate());
                i += 1;
            }
            return r;
        }
        let mut r: Vec<RepoConfig> = Vec::new();
        r.push(
            RepoConfig {
                name: String::from_str("default"),
                repo_url: self.repo_url.clone(),
                local_path: self.local_path.clone(),
                ignore_patterns: clone_strings(&self.ignore_patterns),
            },
        );
        r
    }

    /// Whether several vaults are configured (`repos` is not empty).
    pub fn is_multi_vault(&self) -> (b: bool)
        ensures
            b == (self.repos@.len() > 0),
    {
        self.repos.len() > 0
    }
}


/// A vault name made safe for a file name: `/`, `\`, spaces and `:` become `_`.
pub open spec fn safe_name_spec(name: Seq<char>) -> Seq<char> {
    name.map_values(|c: char| if c == '/' || c == '\\' || c == ' ' || c == ':' { '_' } else { c })
}

/// The vault name made safe for a file name (see `safe_name_spec`).
pub fn safe_vault_name(name: &str) -> (r: String)
    ensures
        r@ == safe_name_spec(name@),
{
    let v = crate::text::str_to_chars(name);
    let mut r = String::new();
    let mut i: usize = 0;
    while i < v.len()
        invariant
            i <= v@.len(),
            v@ == name@,
            r@ == safe_name_spec(v@.take(i as int)),
        decreases v@.len() - i,
    {
        let c = v[i];
        if c == '/' || c == '\\' || c == ' ' || c == ':' {
            r.push('_');
        } else {
            r.push(c);
        }
        i += 1;
        assert(r@ =~= safe_name_spec(v@.take(i as int)));
    }
    assert(v@.take(v@.len() as int) =~= v@);
    r
}

/// Whether a vault keeps the global index files: in single-vault mode, and for the vault
/// named `default`.
pub fn uses_global_index(vault_name: &str, is_multi: bool) -> (r: bool)
    ensures
        r == (!is_multi || vault_name@ == "default"@),
{
    !is_multi || crate::text::str_eq(vault_name, "default")
}

/// The file name of a further vault's index database, beside the global one:
/// `{safe name}_index.db`.
pub fn vault_index_file_name(vault_name: &str) -> (r: String)
    ensures
        r@ == safe_name_spec(vault_name@) + "_index.db"@,
{
    let mut r = safe_vault_name(vault_name);
    crate::text::push_str(&mut r, "_index.db");
    r
}

/// The directory name of a vault's search index: `.search_index` for the vault named
/// `default`, `.search_index_{safe name}` for the others.
pub fn search_index_dir_name(vault_name: &str) -> (r: String)
    ensures
        r@ == (if vault_name@ == "default"@ {
            ".search_index"@
        } else {
            ".search_index_"@ + safe_name_spec(vault_name@)
        }),
{
    if crate::text::str_eq(vault_name, "default") {
        ".search_index".to_string()
    } else {
        let mut r = ".search_index_".to_string();
        crate::text::push_str(&mut r, safe_vault_name(vault_name).as_str());
        r
    }
}
} // verus!
