//! Configuration consumed by the library.
use vstd::prelude::*;

use crate::error::{Error, Result};
use crate::text::{text_of, text_starts_with};

verus! {

/// Application configuration. Paths are held as text.
#[derive(Debug, Clone)]
pub struct Config {
    pub host: String,
    pub port: u16,
    pub base_url: String,
    pub session_secret: String,
    pub library_path: String,
    pub db_path: String,
    pub queue_db_path: String,
    pub scan_interval_minutes: u32,
    pub thumbnail_generation_interval_hours: u32,
    pub log_level: String,
    pub upload_path: String,
    pub plugin_path: String,
    pub download_timeout_seconds: u64,
    pub library_cache_path: String,
    pub cache_enabled: bool,
    pub cache_size_mbs: usize,
    pub cache_log_enabled: bool,
    pub disable_login: bool,
    pub default_username: Option<String>,
    pub auth_proxy_header_name: Option<String>,
    pub plugin_update_interval_hours: u32,
}

/// Relies on `dirs::home_dir`: the user's home directory as text, where one
/// is known and is valid Unicode.
#[verifier::external_body]
fn home_dir_text() -> (r: Option<String>) {
    dirs::home_dir().and_then(|p| p.to_str().map(|s| s.to_string()))
}

/// `base` and `rest` joined as paths: an absolute `rest` stands alone,
/// otherwise one `/` separates the two.
pub open spec fn join_path(base: Seq<char>, rest: Seq<char>) -> Seq<char> {
    if rest.len() > 0 && rest[0] == '/' {
        rest
    } else if base.len() == 0 || base.last() == '/' {
        base + rest
    } else {
        base + seq!['/'] + rest
    }
}

/// `~/x` under `home` becomes `home` joined with `x`; anything else stays.
pub open spec fn expanded(path: Seq<char>, home: Option<Seq<char>>) -> Seq<char> {
    if path.len() >= 2 && path[0] == '~' && path[1] == '/' && home is Some {
        join_path(home.unwrap(), path.subrange(2, path.len() as int))
    } else {
        path
    }
}

/// Expand a leading `~/` against a given home directory.
pub fn expand_home_with(path: &str, home: Option<&str>) -> (r: String)
    ensures
        r@ == expanded(path@, match home {
            Some(h) => Some(h@),
            None => None,
        }),
{
    proof {
        reveal_strlit("~/");
        reveal_strlit("/");
        assert("~/"@ =~= seq!['~', '/']);
        assert("/"@ =~= seq!['/']);
    }
    let n = path.unicode_len();
    if n >= 2 && text_starts_with(path, "~/") {
        assert(path@[0] == path@.subrange(0, 2)[0]);
        assert(path@[1] == path@.subrange(0, 2)[1]);
        match home {
            Some(h) => {
                let rest = path.substring_char(2, n);
                assert(rest@ == path@.subrange(2, n as int));
                if rest.unicode_len() > 0 && rest.get_char(0) == '/' {
                    return text_of(rest);
                }
                let mut out = text_of(h);
                let hn = h.unicode_len();
                if hn > 0 && h.get_char(hn - 1) != '/' {
                    out.append("/");
                }
                out.append(rest);
                assert(out@ =~= join_path(h@, rest@));
                out
            },
            None => text_of(path),
        }
    } else {
        proof {
            if n >= 2 && path@[0] == '~' && path@[1] == '/' {
                assert(path@.subrange(0, 2) =~= "~/"@);
            }
        }
        text_of(path)
    }
}

/// Expand a leading `~/` against the user's home directory.
pub fn expand_home(path: &str) -> (r: String)
    ensures
        exists|home: Option<Seq<char>>| r@ == expanded(path@, home),
        !(path@.len() >= 2 && path@[0] == '~' && path@[1] == '/') ==> r@ == path@,
{
    let home = home_dir_text();
    match home {
        Some(h) => {
            let r = expand_home_with(path, Some(h.as_str()));
            assert(r@ == expanded(path@, Some(h@)));
            r
        },
        None => {
            let r = expand_home_with(path, None);
            assert(r@ == expanded(path@, None));
            r
        },
    }
}

/// Expand a leading `~/` in a configured path.
pub fn expand_home_path(path: &String) -> (r: String)
    ensures
        exists|home: Option<Seq<char>>| r@ == expanded(path@, home),
        !(path@.len() >= 2 && path@[0] == '~' && path@[1] == '/') ==> r@ == path@,
{
    expand_home(path.as_str())
}

pub fn default_host() -> (r: String)
    ensures
        r@ == "0.0.0.0"@,
{
    text_of("0.0.0.0")
}

pub fn default_port() -> (r: u16)
    ensures
        r == 9000,
{
    9000
}

pub fn default_base_url() -> (r: String)
    ensures
        r@ == "/"@,
{
    text_of("/")
}

pub fn default_session_secret() -> (r: String)
    ensures
        r@ == "mango-session-secret"@,
{
    text_of("mango-session-secret")
}

pub fn default_library_path() -> (r: String)
    ensures
        exists|home: Option<Seq<char>>| r@ == expanded("~/mango/library"@, home),
{
    expand_home("~/mango/library")
}

pub fn default_db_path() -> (r: String)
    ensures
        exists|home: Option<Seq<char>>| r@ == expanded("~/mango/mango.db"@, home),
{
    expand_home("~/mango/mango.db")
}

pub fn default_queue_db_path() -> (r: String)
    ensures
        exists|home: Option<Seq<char>>| r@ == expanded("~/mango/queue.db"@, home),
{
    expand_home("~/mango/queue.db")
}

pub fn default_scan_interval() -> (r: u32)
    ensures
        r == 5,
{
    5
}

pub fn default_thumbnail_interval() -> (r: u32)
    ensures
        r == 24,
{
    24
}

pub fn default_log_level() -> (r: String)
    ensures
        r@ == "info"@,
{
    text_of("info")
}

pub fn default_upload_path() -> (r: String)
    ensures
        exists|home: Option<Seq<char>>| r@ == expanded("~/mango/uploads"@, home),
{
    expand_home("~/mango/uploads")
}

pub fn default_plugin_path() -> (r: String)
    ensures
        exists|home: Option<Seq<char>>| r@ == expanded("~/mango/plugins"@, home),
{
    expand_home("~/mango/plugins")
}

pub fn default_download_timeout() -> (r: u64)
    ensures
        r == 30,
{
    30
}

pub fn default_library_cache_path() -> (r: String)
    ensures
        exists|home: Option<Seq<char>>| r@ == expanded("~/mango/library.yml.gz"@, home),
{
    expand_home("~/mango/library.yml.gz")
}

pub fn default_true() -> (r: bool)
    ensures
        r,
{
    true
}

pub fn default_cache_size() -> (r: usize)
    ensures
        r == 50,
{
    50
}

pub fn default_plugin_update_interval() -> (r: u32)
    ensures
        r == 24,
{
    24
}

/// Whether a configuration is acceptable: the base URL starts with `/`, and
/// a default user is named where login is disabled.
pub open spec fn config_valid(base_url: Seq<char>, disable_login: bool, has_default_user: bool) -> bool {
    &&& base_url.len() > 0 && base_url[0] == '/'
    &&& (disable_login ==> has_default_user)
}

impl Config {
    /// The built-in defaults.
    pub fn default_config() -> (r: Config)
        ensures
            r.port == 9000,
            r.base_url@ == "/"@,
            r.cache_enabled,
            r.cache_size_mbs == 50,
            !r.disable_login,
            r.default_username is None,
    {
        Config {
            host: default_host(),
            port: default_port(),
            base_url: default_base_url(),
            session_secret: default_session_secret(),
            library_path: default_library_path(),
            db_path: default_db_path(),
            queue_db_path: default_queue_db_path(),
            scan_interval_minutes: default_scan_interval(),
            thumbnail_generation_interval_hours: default_thumbnail_interval(),
            log_level: default_log_level(),
            upload_path: default_upload_path(),
            plugin_path: default_plugin_path(),
            download_timeout_seconds: default_download_timeout(),
            library_cache_path: default_library_cache_path(),
            cache_enabled: default_true(),
            cache_size_mbs: default_cache_size(),
            cache_log_enabled: default_true(),
            disable_login: false,
            default_username: None,
            auth_proxy_header_name: None,
            plugin_update_interval_hours: default_plugin_update_interval(),
        }
    }

    /// Expand `~/` in every path field.
    pub fn expand_paths(&mut self)
        ensures
            final(self).base_url == old(self).base_url,
            final(self).host == old(self).host,
            final(self).port == old(self).port,
            final(self).session_secret == old(self).session_secret,
            final(self).scan_interval_minutes == old(self).scan_interval_minutes,
            final(self).thumbnail_generation_interval_hours == old(self).thumbnail_generation_interval_hours,
            final(self).log_level == old(self).log_level,
            final(self).download_timeout_seconds == old(self).download_timeout_seconds,
            final(self).cache_log_enabled == old(self).cache_log_enabled,
            final(self).auth_proxy_header_name == old(self).auth_proxy_header_name,
            final(self).plugin_update_interval_hours == old(self).plugin_update_interval_hours,
            final(self).disable_login == old(self).disable_login,
            final(self).default_username == old(self).default_username,
            final(self).cache_enabled == old(self).cache_enabled,
            final(self).cache_size_mbs == old(self).cache_size_mbs,
            exists|h: Option<Seq<char>>| final(self).library_path@ == expanded(old(self).library_path@, h),
            exists|h: Option<Seq<char>>| final(self).db_path@ == expanded(old(self).db_path@, h),
            exists|h: Option<Seq<char>>| final(self).queue_db_path@ == expanded(old(self).queue_db_path@, h),
            exists|h: Option<Seq<char>>| final(self).upload_path@ == expanded(old(self).upload_path@, h),
            exists|h: Option<Seq<char>>| final(self).plugin_path@ == expanded(old(self).plugin_path@, h),
            exists|h: Option<Seq<char>>| final(self).library_cache_path@ == expanded(
                old(self).library_cache_path@,
                h,
            ),
    {
        self.library_path = expand_home_path(&self.library_path);
        self.db_path = expand_home_path(&self.db_path);
        self.queue_db_path = expand_home_path(&self.queue_db_path);
        self.upload_path = expand_home_path(&self.upload_path);
        self.plugin_path = expand_home_path(&self.plugin_path);
        self.library_cache_path = expand_home_path(&self.library_cache_path);
    }

    /// Check the configuration; the error says which rule failed.
    pub fn validate(&self) -> (r: Result<()>)
        ensures
            r is Ok <==> config_valid(
                self.base_url@,
                self.disable_login,
                self.default_username is Some,
            ),
            r matches Err(e) ==> e is Config,
    {
        proof {
            reveal_strlit("/");
            assert("/"@ =~= seq!['/']);
            if self.base_url@.len() > 0 {
                assert(self.base_url@.subrange(0, 1)[0] == self.base_url@[0]);
                if self.base_url@[0] == '/' {
                    assert(self.base_url@.subrange(0, 1) =~= seq!['/']);
                }
            }
        }
        if !text_starts_with(self.base_url.as_str(), "/") {
            let mut msg = text_of("base_url must start with '/', got: ");
            msg.append(self.base_url.as_str());
            return Err(Error::Config(msg));
        }
        if self.disable_login && self.default_username.is_none() {
            return Err(
                Error::Config(text_of("disable_login is true but default_username is not set")),
            );
        }
        Ok(())
    }

    /// The database URL: `sqlite://` followed by the database path.
    pub fn database_url(&self) -> (r: String)
        ensures
            r@ == "sqlite://"@ + self.db_path@,
    {
        let mut url = text_of("sqlite://");
        url.append(self.db_path.as_str());
        url
    }
}

} // verus!
