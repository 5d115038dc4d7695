//! Share links: a note made readable without an account, possibly until a time, for a
//! number of visits, or behind a password.
use vstd::prelude::*;
use crate::auth::{is_bcrypt_hash, spec_bcrypt_verify, PasswordManager};
use crate::clock::{max_duration_nanos, now_nanos, rfc3339, rfc3339_text, MAX_DATE_SECS};
use crate::error::AppError;
use crate::text::{contains_text, find_text, push_str, seq_starts_with, str_to_chars, trim_char_end, starts_with};

verus! {

/// A share link.
pub struct ShareLink {
    /// The token in the link.
    pub token: String,
    pub note_path: String,
    pub creator: String,
    /// Creation time, in nanoseconds since the epoch.
    pub created_at: u128,
    /// Expiry, in nanoseconds since the epoch; `None` for a link that never expires.
    pub expires_at: Option<u128>,
    /// The bcrypt hash of the access password; `None` for a link without password.
    pub password_hash: Option<String>,
    /// The number of visits allowed; `None` for no limit.
    pub max_visits: Option<u32>,
    pub visit_count: u32,
}

/// Calls `uuid::Uuid::new_v4` and formats the identifier (`to_string`, the hyphenated form
/// of 36 characters). The identifier is random and otherwise not stated.
#[verifier::external_body]
fn random_token() -> (t: String)
    ensures
        t@.len() == 36,
{
    uuid::Uuid::new_v4().to_string()
}

/// A link is usable at time `now` (nanoseconds since the epoch): not past its expiry, and
/// with visits left.
pub open spec fn valid_at(link: ShareLink, now: u128) -> bool {
    (match link.expires_at {
        Some(e) => now <= e,
        None => true,
    }) && (match link.max_visits {
        Some(m) => link.visit_count < m,
        None => true,
    })
}

/// A password opens a link: the link has none, or one was given and bcrypt accepts it for
/// the stored hash.
pub open spec fn password_opens(link: ShareLink, password: Option<Seq<char>>) -> bool {
    match link.password_hash {
        None => true,
        Some(h) => match password {
            Some(p) => spec_bcrypt_verify(p, h@) == Some(true),
            None => false,
        },
    }
}

impl ShareLink {
    /// A new link to `note_path` created now by `creator`, expiring after `expires_in_secs`
    /// seconds if given, protected by the bcrypt hash of `password` if given, and limited
    /// to `max_visits` visits if given. Fails when the password cannot be hashed.
    pub fn new(
        note_path: String,
        creator: String,
        expires_in_secs: Option<u64>,
        password: Option<String>,
        max_visits: Option<u32>,
    ) -> (r: Result<Self, AppError>)
        ensures
            password is None ==> r is Ok,
            r matches Err(e) ==> password is Some && e is AuthError,
            r matches Ok(link) ==> link.created_at <= max_duration_nanos(),
            r matches Ok(link) ==> {
                &&& link.token@.len() == 36
                &&& link.note_path == note_path
                &&& link.creator == creator
                &&& link.max_visits == max_visits
                &&& link.visit_count == 0
                &&& match expires_in_secs {
                    Some(s) => link.expires_at == Some((link.created_at + s * 1_000_000_000) as u128),
                    None => link.expires_at is None,
                }
                &&& match password {
                    Some(p) => link.password_hash matches Some(h) && spec_bcrypt_verify(p@, h@) == Some(true)
                        && is_bcrypt_hash(h@),
                    None => link.password_hash is None,
                }
            },
    {
        let token = random_token();
        let created_at = now_nanos();
        let expires_at = match expires_in_secs {
            Some(s) => {
                assert(created_at + s * 1_000_000_000 <= u128::MAX);
                Some(created_at + (s as u128) * 1_000_000_000)
            },
            None => None,
        };
        let password_hash = match password {
            Some(p) => match PasswordManager::hash_password(p.as_str()) {
                Ok(h) => Some(h),
                Err(e) => {
                    return Err(e);
                },
            },
            None => None,
        };
        Ok(ShareLink {
            token,
            note_path,
            creator,
            created_at,
            expires_at,
            password_hash,
            max_visits,
            visit_count: 0,
        })
    }

    /// Whether the link is usable at time `now` (see `valid_at`).
    pub fn is_valid_at(&self, now: u128) -> (b: bool)
        ensures
            b == valid_at(*self, now),
    {
        match self.expires_at {
            Some(e) => {
                if now > e {
                    return false;
                }
            },
            None => {},
        }
        match self.max_visits {
            Some(m) => self.visit_count < m,
            None => true,
        }
    }

    /// Whether the link is usable now.
    pub fn is_valid(&self) -> (b: bool)
        ensures
            exists|now: u128| b == valid_at(*self, now),
    {
        let now = now_nanos();
        self.is_valid_at(now)
    }

    /// Whether `password` opens the link (see `password_opens`); a hash that bcrypt cannot
    /// use opens nothing.
    pub fn verify_password(&self, password: Option<&str>) -> (b: bool)
        ensures
            b == password_opens(
                *self,
                match password {
                    Some(p) => Some(p@),
                    None => None,
                },
            ),
    {
        match &self.password_hash {
            None => true,
            Some(h) => match password {
                Some(p) => match PasswordManager::verify_password(p, h.as_str()) {
                    Ok(b) => b,
                    Err(_) => false,
                },
                None => false,
            },
        }
    }

    /// Counts one visit.
    pub fn increment_visit(&mut self)
        requires
            old(self).visit_count < u32::MAX,
        ensures
            final(self).visit_count == old(self).visit_count + 1,
            final(self).token == old(self).token,
            final(self).note_path == old(self).note_path,
            final(self).creator == old(self).creator,
            final(self).created_at == old(self).created_at,
            final(self).expires_at == old(self).expires_at,
            final(self).password_hash == old(self).password_hash,
            final(self).max_visits == old(self).max_visits,
    {
        self.visit_count = self.visit_count + 1;
    }
}

/// What a request for a shared note at time `now` is answered.
pub enum ShareAccess {
    /// The link is expired or has no visits left.
    Gone,
    /// The link needs a password that was not given or is wrong.
    Forbidden,
    /// The note is shown; the link, with this visit counted, is to be saved.
    Grant(ShareLink),
}

/// The password of a request, taken by its view.
pub open spec fn password_view(password: Option<&str>) -> Option<Seq<char>> {
    match password {
        Some(p) => Some(p@),
        None => None,
    }
}

/// Decides a request for a shared note at time `now` (nanoseconds since the epoch): an
/// unusable link is gone; then a password that does not open the link is refused; else
/// the visit is granted and counted. A link without a visit limit that has been visited
/// `u32::MAX` times cannot count another visit and is left out.
pub fn share_access(link: &ShareLink, password: Option<&str>, now: u128) -> (d: ShareAccess)
    requires
        valid_at(*link, now) && link.max_visits is None ==> link.visit_count < u32::MAX,
    ensures
        !valid_at(*link, now) ==> d is Gone,
        valid_at(*link, now) && !password_opens(*link, password_view(password)) ==> d is Forbidden,
        valid_at(*link, now) && password_opens(*link, password_view(password)) ==> d == ShareAccess::Grant(
            ShareLink { visit_count: (link.visit_count + 1) as u32, ..*link },
        ),
{
    if !link.is_valid_at(now) {
        return ShareAccess::Gone;
    }
    if !link.verify_password(password) {
        return ShareAccess::Forbidden;
    }
    let password_hash = match &link.password_hash {
        Some(h) => Some(h.clone()),
        None => None,
    };
    ShareAccess::Grant(
        ShareLink {
            token: link.token.clone(),
            note_path: link.note_path.clone(),
            creator: link.creator.clone(),
            created_at: link.created_at,
            expires_at: link.expires_at,
            password_hash,
            max_visits: link.max_visits,
            visit_count: link.visit_count + 1,
        },
    )
}

/// Once a link has been visited as often as it allows, it is unusable at any time.
pub proof fn lemma_exhausted_link_invalid(link: ShareLink, now: u128)
    requires
        link.max_visits matches Some(m) && link.visit_count >= m,
    ensures
        !valid_at(link, now),
{
}

/// The URL of a share link: under the configured public base URL (without its trailing
/// `/`), or else under the request's host with the forwarded scheme, or `http` for a local
/// host and `https` otherwise.
pub open spec fn share_url_spec(
    public_base_url: Option<Seq<char>>,
    host: Seq<char>,
    forwarded_proto: Option<Seq<char>>,
    token: Seq<char>,
) -> Seq<char> {
    match public_base_url {
        Some(b) => trim_char_end(b, '/') + "/share/"@ + token,
        None => {
            let scheme = match forwarded_proto {
                Some(p) => p,
                None => if contains_text(host, "localhost"@) || seq_starts_with(host, "127."@) {
                    "http"@
                } else {
                    "https"@
                },
            };
            scheme + "://"@ + host + "/share/"@ + token
        },
    }
}


/// The URL of a share link (see `share_url_spec`).
pub fn share_url(public_base_url: Option<&str>, host: &str, forwarded_proto: Option<&str>, token: &str) -> (u: String)
    ensures
        u@ == share_url_spec(
            match public_base_url {
                Some(b) => Some(b@),
                None => None,
            },
            host@,
            match forwarded_proto {
                Some(p) => Some(p@),
                None => None,
            },
            token@,
        ),
{
    let mut u = String::new();
    match public_base_url {
        Some(b) => {
            let v = str_to_chars(b);
            let mut n = v.len();
            assert(v@.take(n as int) =~= v@);
            while n > 0 && v[n - 1] == '/'
                invariant
                    n <= v@.len(),
                    trim_char_end(v@, '/') == trim_char_end(v@.take(n as int), '/'),
                decreases n,
            {
                assert(v@.take(n as int).drop_last() =~= v@.take(n - 1));
                n -= 1;
            }
            assert(trim_char_end(v@.take(n as int), '/') == v@.take(n as int));
            let base = crate::text::chars_to_string_range(&v, 0, n);
            assert(v@.subrange(0, n as int) =~= v@.take(n as int));
            push_str(&mut u, base.as_str());
            push_str(&mut u, "/share/");
            push_str(&mut u, token);
        },
        None => {
            match forwarded_proto {
                Some(p) => push_str(&mut u, p),
                None => {
                    let hv = str_to_chars(host);
                    if find_text(&hv, &str_to_chars("localhost")) || starts_with(&hv, &str_to_chars("127.")) {
                        push_str(&mut u, "http");
                    } else {
                        push_str(&mut u, "https");
                    }
                },
            }
            push_str(&mut u, "://");
            push_str(&mut u, host);
            push_str(&mut u, "/share/");
            push_str(&mut u, token);
        },
    }
    u
}


// ─── Requests and answers of the share API ──────────────────────────────────

/// A request to share a note.
pub struct CreateShareRequest {
    pub note_path: String,
    /// Seconds until the link expires; `None` for a link that never expires.
    pub expires_in_seconds: Option<u64>,
    pub password: Option<String>,
    pub max_visits: Option<u32>,
}

/// A request to open a shared note.
pub struct AccessShareRequest {
    pub password: Option<String>,
}

/// The answer to a share request.
pub struct CreateShareResponse {
    pub token: String,
    pub share_url: String,
    /// Creation time in RFC 3339.
    pub created_at: String,
    /// Expiry in RFC 3339; `None` for a link that never expires.
    pub expires_at: Option<String>,
}

/// The times of a link lie within the range that chrono can date.
pub open spec fn datable(link: ShareLink) -> bool {
    &&& link.created_at / 1_000_000_000 <= MAX_DATE_SECS
    &&& match link.expires_at {
        Some(e) => e / 1_000_000_000 <= MAX_DATE_SECS,
        None => true,
    }
}

/// The expiry of a link in RFC 3339.
pub open spec fn expiry_text(link: ShareLink) -> Option<Seq<char>> {
    match link.expires_at {
        Some(e) => Some(rfc3339_text(e)),
        None => None,
    }
}

/// An optional string as an optional text.
pub open spec fn opt_string(o: Option<String>) -> Option<Seq<char>> {
    match o {
        Some(s) => Some(s@),
        None => None,
    }
}

/// The expiry in RFC 3339.
fn expiry_string(link: &ShareLink) -> (r: Option<String>)
    requires
        datable(*link),
    ensures
        opt_string(r) == expiry_text(*link),
{
    match link.expires_at {
        Some(e) => Some(rfc3339(e)),
        None => None,
    }
}

impl CreateShareResponse {
    /// The answer for a new link reachable at `share_url`.
    pub fn from_link(link: &ShareLink, share_url: String) -> (r: Self)
        requires
            datable(*link),
        ensures
            r.token@ == link.token@,
            r.share_url == share_url,
            r.created_at@ == rfc3339_text(link.created_at),
            opt_string(r.expires_at) == expiry_text(*link),
    {
        CreateShareResponse {
            token: link.token.clone(),
            share_url,
            created_at: rfc3339(link.created_at),
            expires_at: expiry_string(link),
        }
    }
}

/// What the list of a user's links shows of one link.
pub struct ShareInfoResponse {
    pub token: String,
    pub note_path: String,
    pub creator: String,
    /// Creation time in RFC 3339.
    pub created_at: String,
    /// Expiry in RFC 3339; `None` for a link that never expires.
    pub expires_at: Option<String>,
    pub has_password: bool,
    pub max_visits: Option<u32>,
    pub visit_count: u32,
    pub is_valid: bool,
}

/// The information shown of `link` when it is seen at time `now`.
pub open spec fn info_ok(r: ShareInfoResponse, link: ShareLink, now: u128) -> bool {
    &&& r.token@ == link.token@
    &&& r.note_path@ == link.note_path@
    &&& r.creator@ == link.creator@
    &&& r.created_at@ == rfc3339_text(link.created_at)
    &&& opt_string(r.expires_at) == expiry_text(link)
    &&& r.has_password == (link.password_hash is Some)
    &&& r.max_visits == link.max_visits
    &&& r.visit_count == link.visit_count
    &&& r.is_valid == valid_at(link, now)
}

impl ShareInfoResponse {
    /// The information shown of `link` at time `now` (nanoseconds since the epoch).
    pub fn from_link_at(link: &ShareLink, now: u128) -> (r: Self)
        requires
            datable(*link),
        ensures
            info_ok(r, *link, now),
    {
        ShareInfoResponse {
            token: link.token.clone(),
            note_path: link.note_path.clone(),
            creator: link.creator.clone(),
            created_at: rfc3339(link.created_at),
            expires_at: expiry_string(link),
            has_password: link.password_hash.is_some(),
            max_visits: link.max_visits,
            visit_count: link.visit_count,
            is_valid: link.is_valid_at(now),
        }
    }

    /// The information shown of `link` now.
    pub fn from_link(link: &ShareLink) -> (r: Self)
        requires
            datable(*link),
        ensures
            exists|now: u128| info_ok(r, *link, now),
    {
        let now = now_nanos();
        Self::from_link_at(link, now)
    }
}

/// Only the creator of a link may revoke it.
pub fn may_revoke(link: &ShareLink, username: &str) -> (b: bool)
    ensures
        b == (link.creator@ == username@),
{
    crate::text::str_eq(link.creator.as_str(), username)
}

} // verus!
