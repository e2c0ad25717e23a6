//! Client configuration from environment variables.
//!
//! Preferred variables: `MKD_GCM_URL` (or `MKD_GCM_HOST` + `MKD_GCM_PORT`);
//! optional `MKD_GCM_USER` / `MKD_GCM_PASS` / `MKD_GCM_FROM` / `MKD_GCM_ROOT`.
//! Legacy `MKD_NNTP_*` names remain accepted. The environment is handed in
//! as a list of `(name, value)` pairs.

use vstd::prelude::*;

use crate::error::{Error, Result};
use crate::nntp::{NntpMemoryStore, url_endpoint, default_mailbox};
use crate::text::{CharClass, chars_of, chars_eq_str, extend_str, string_of, trim, trim_chars};
use crate::types::{entry_view, opt_view};

verus! {

/// Resolved memory configuration.
#[derive(Debug, Clone)]
pub struct MemoryConfig {
    /// Server URL from `MKD_GCM_URL` / `MKD_GCM_HOST`+`MKD_GCM_PORT` (or legacy `MKD_NNTP_*`).
    pub nntp_url: Option<String>,
    pub nntp_user: Option<String>,
    pub nntp_pass: Option<String>,
    pub default_from: Option<String>,
    pub mkd_nntp_root: Option<String>,
}

/// The view of an environment.
pub open spec fn env_view(env: Seq<(String, String)>) -> Seq<(Seq<char>, Seq<char>)> {
    env.map_values(|e: (String, String)| entry_view(e))
}

/// The value of the first variable named `key`.
pub open spec fn env_lookup(env: Seq<(Seq<char>, Seq<char>)>, key: Seq<char>) -> Option<Seq<char>>
    decreases env.len(),
{
    if env.len() == 0 {
        None
    } else if env[0].0 == key {
        Some(env[0].1)
    } else {
        env_lookup(env.drop_first(), key)
    }
}

/// The value of `key` when set and non-empty.
pub open spec fn env_nonempty(env: Seq<(Seq<char>, Seq<char>)>, key: Seq<char>) -> Option<Seq<char>> {
    match env_lookup(env, key) {
        Some(v) => if v.len() > 0 {
            Some(v)
        } else {
            None
        },
        None => None,
    }
}

/// `a`, else `b`.
pub open spec fn or_else(a: Option<Seq<char>>, b: Option<Seq<char>>) -> Option<Seq<char>> {
    if a is Some {
        a
    } else {
        b
    }
}

/// The preferred variable, else the legacy one.
pub open spec fn env_pair(env: Seq<(Seq<char>, Seq<char>)>, gcm: Seq<char>, nntp: Seq<char>) -> Option<Seq<char>> {
    or_else(env_nonempty(env, gcm), env_nonempty(env, nntp))
}

/// The server URL: a URL variable, else `host:port` from the host and port
/// variables (port 1119, host 127.0.0.1 by default when one of them is set).
pub open spec fn config_url(env: Seq<(Seq<char>, Seq<char>)>) -> Option<Seq<char>> {
    let url = env_pair(env, "MKD_GCM_URL"@, "MKD_NNTP_URL"@);
    if url is Some {
        url
    } else {
        let host = env_pair(env, "MKD_GCM_HOST"@, "MKD_NNTP_HOST"@);
        let port = env_pair(env, "MKD_GCM_PORT"@, "MKD_NNTP_PORT"@);
        match (host, port) {
            (Some(h), Some(p)) => Some(h + ":"@ + p),
            (Some(h), None) => Some(h + ":1119"@),
            (None, Some(p)) => Some("127.0.0.1:"@ + p),
            (None, None) => None,
        }
    }
}

/// What `memory_config_from_env` reads from `env`.
pub open spec fn config_matches(c: MemoryConfig, env: Seq<(Seq<char>, Seq<char>)>) -> bool {
    &&& opt_view(c.nntp_url) == config_url(env)
    &&& opt_view(c.nntp_user) == env_pair(env, "MKD_GCM_USER"@, "MKD_NNTP_USER"@)
    &&& opt_view(c.nntp_pass) == env_pair(env, "MKD_GCM_PASS"@, "MKD_NNTP_PASS"@)
    &&& opt_view(c.default_from) == env_pair(env, "MKD_GCM_FROM"@, "MKD_NNTP_FROM"@)
    &&& opt_view(c.mkd_nntp_root) == env_pair(env, "MKD_GCM_ROOT"@, "MKD_NNTP_ROOT"@)
}

/// The value of the first variable named `key`.
fn lookup(env: &Vec<(String, String)>, key: &str) -> (r: Option<String>)
    ensures
        opt_view(r) == env_lookup(env_view(env@), key@),
{
    let ghost ev = env_view(env@);
    let mut i: usize = 0;
    proof {
        assert(ev.skip(0) =~= ev);
    }
    while i < env.len()
        invariant
            i <= env.len(),
            ev == env_view(env@),
            env_lookup(ev, key@) == env_lookup(ev.skip(i as int), key@),
        decreases env.len() - i,
    {
        proof {
            assert(ev.skip(i as int).drop_first() =~= ev.skip(i + 1));
            assert(ev.skip(i as int)[0] == entry_view(env@[i as int]));
        }
        if chars_eq_str(&chars_of(env[i].0.as_str()), key) {
            return Some(env[i].1.clone());
        }
        i += 1;
    }
    None
}

fn nonempty(env: &Vec<(String, String)>, key: &str) -> (r: Option<String>)
    ensures
        opt_view(r) == env_nonempty(env_view(env@), key@),
{
    match lookup(env, key) {
        Some(v) => if v.as_str().is_empty() {
            None
        } else {
            Some(v)
        },
        None => None,
    }
}

fn pair(env: &Vec<(String, String)>, gcm: &str, nntp: &str) -> (r: Option<String>)
    ensures
        opt_view(r) == env_pair(env_view(env@), gcm@, nntp@),
{
    match nonempty(env, gcm) {
        Some(v) => Some(v),
        None => nonempty(env, nntp),
    }
}

/// Load [`MemoryConfig`] from an environment given as `(name, value)` pairs.
pub fn memory_config_from_env(env: &Vec<(String, String)>) -> (res: MemoryConfig)
    ensures
        config_matches(res, env_view(env@)),
{
    let url = match pair(env, "MKD_GCM_URL", "MKD_NNTP_URL") {
        Some(u) => Some(u),
        None => {
            let host = pair(env, "MKD_GCM_HOST", "MKD_NNTP_HOST");
            let port = pair(env, "MKD_GCM_PORT", "MKD_NNTP_PORT");
            match (host, port) {
                (Some(h), Some(p)) => {
                    let mut v = chars_of(h.as_str());
                    extend_str(&mut v, ":");
                    extend_str(&mut v, p.as_str());
                    Some(string_of(&v))
                },
                (Some(h), None) => {
                    let mut v = chars_of(h.as_str());
                    extend_str(&mut v, ":1119");
                    Some(string_of(&v))
                },
                (None, Some(p)) => {
                    let mut v = chars_of("127.0.0.1:");
                    extend_str(&mut v, p.as_str());
                    Some(string_of(&v))
                },
                (None, None) => None,
            }
        },
    };
    MemoryConfig {
        nntp_url: url,
        nntp_user: pair(env, "MKD_GCM_USER", "MKD_NNTP_USER"),
        nntp_pass: pair(env, "MKD_GCM_PASS", "MKD_NNTP_PASS"),
        default_from: pair(env, "MKD_GCM_FROM", "MKD_NNTP_FROM"),
        mkd_nntp_root: pair(env, "MKD_GCM_ROOT", "MKD_NNTP_ROOT"),
    }
}

impl MemoryConfig {
    /// See [`memory_config_from_env`].
    pub fn from_env(env: &Vec<(String, String)>) -> (res: MemoryConfig)
        ensures
            config_matches(res, env_view(env@)),
    {
        memory_config_from_env(env)
    }
}

/// The client a configuration describes: `Ok(None)` without a URL, an error
/// when the URL does not parse; credentials are used only when both user
/// and password are set.
pub fn build_memory_store(cfg: &MemoryConfig) -> (res: Result<Option<NntpMemoryStore>>)
    ensures
        match opt_view(cfg.nntp_url) {
            None => res matches Ok(None),
            Some(u) => match url_endpoint(u) {
                Err(msg) => res matches Err(e) && e is Config && e.text() == msg,
                Ok((h, p)) => res matches Ok(Some(s)) && s.host_name() == h && s.port_number() == p
                    && s.token() is None && s.authzid() is None
                    && s.user_name() == (if cfg.nntp_user is Some && cfg.nntp_pass is Some {
                        opt_view(cfg.nntp_user)
                    } else {
                        None
                    })
                    && s.password() == (if cfg.nntp_user is Some && cfg.nntp_pass is Some {
                        opt_view(cfg.nntp_pass)
                    } else {
                        None
                    })
                    && s.from_mailbox() == match opt_view(cfg.default_from) {
                        Some(f) => f,
                        None => default_mailbox(),
                    },
            },
        },
{
    let url = match &cfg.nntp_url {
        Some(u) => u,
        None => return Ok(None),
    };
    let mut store = NntpMemoryStore::from_url(url.as_str())?;
    match (&cfg.nntp_user, &cfg.nntp_pass) {
        (Some(u), Some(p)) => {
            store = store.with_auth(u.as_str(), p.as_str());
        },
        _ => {},
    }
    match &cfg.default_from {
        Some(f) => {
            store = store.with_default_from(f.as_str());
        },
        None => {},
    }
    Ok(Some(store))
}

/// The client that the environment `env` configures (see
/// [`memory_config_from_env`] and [`build_memory_store`]).
pub fn memory_store_from_env(env: &Vec<(String, String)>) -> (res: Result<Option<NntpMemoryStore>>)
    ensures
        match config_url(env_view(env@)) {
            None => res matches Ok(None),
            Some(u) => match url_endpoint(u) {
                Err(msg) => res matches Err(e) && e is Config && e.text() == msg,
                Ok((h, p)) => res matches Ok(Some(s)) && s.host_name() == h && s.port_number() == p
                    && s.token() is None && s.authzid() is None
                    && s.user_name() == (if env_pair(env_view(env@), "MKD_GCM_USER"@, "MKD_NNTP_USER"@) is Some
                        && env_pair(env_view(env@), "MKD_GCM_PASS"@, "MKD_NNTP_PASS"@) is Some {
                        env_pair(env_view(env@), "MKD_GCM_USER"@, "MKD_NNTP_USER"@)
                    } else {
                        None
                    })
                    && s.password() == (if env_pair(env_view(env@), "MKD_GCM_USER"@, "MKD_NNTP_USER"@) is Some
                        && env_pair(env_view(env@), "MKD_GCM_PASS"@, "MKD_NNTP_PASS"@) is Some {
                        env_pair(env_view(env@), "MKD_GCM_PASS"@, "MKD_NNTP_PASS"@)
                    } else {
                        None
                    })
                    && s.from_mailbox() == match env_pair(env_view(env@), "MKD_GCM_FROM"@, "MKD_NNTP_FROM"@) {
                        Some(f) => f,
                        None => default_mailbox(),
                    },
            },
        },
{
    let cfg = memory_config_from_env(env);
    build_memory_store(&cfg)
}

/// The variables of the removed dual-backend mode.
pub open spec fn legacy_vars() -> Seq<Seq<char>> {
    seq!["MKD_MEMORY_BACKEND"@, "MKD_MEMORY_READ_PRIMARY"@, "MKD_MEMORY_NNTP_SOFT"@, "MKD_MEMORY_SOFT_SECONDARY"@]
}

/// The first removed variable that is set to a non-blank value.
pub open spec fn first_legacy(env: Seq<(Seq<char>, Seq<char>)>, vars: Seq<Seq<char>>) -> Option<(Seq<char>, Seq<char>)>
    decreases vars.len(),
{
    if vars.len() == 0 {
        None
    } else {
        match env_lookup(env, vars[0]) {
            Some(v) => if trim(v, CharClass::Whitespace).len() > 0 {
                Some((vars[0], v))
            } else {
                first_legacy(env, vars.drop_first())
            },
            None => first_legacy(env, vars.drop_first()),
        }
    }
}

/// Rejects the removed dual-backend variables when set to a non-blank value.
pub fn _assert_no_legacy_env(env: &Vec<(String, String)>) -> (res: Result<()>)
    ensures
        match first_legacy(env_view(env@), legacy_vars()) {
            None => res is Ok,
            Some((k, v)) => res matches Err(e) && e is Config && e.text() == k + "="@ + v
                + " is no longer supported; use MKD_GCM_URL"@,
        },
{
    let vars: Vec<&str> = vec![
        "MKD_MEMORY_BACKEND",
        "MKD_MEMORY_READ_PRIMARY",
        "MKD_MEMORY_NNTP_SOFT",
        "MKD_MEMORY_SOFT_SECONDARY",
    ];
    let ghost all = vars@.map_values(|s: &str| s@);
    proof {
        assert(all =~= legacy_vars());
        assert(all.skip(0) =~= all);
    }
    let mut i: usize = 0;
    while i < vars.len()
        invariant
            i <= vars.len(),
            all == vars@.map_values(|s: &str| s@),
            all == legacy_vars(),
            first_legacy(env_view(env@), all) == first_legacy(env_view(env@), all.skip(i as int)),
        decreases vars.len() - i,
    {
        proof {
            assert(all.skip(i as int).drop_first() =~= all.skip(i + 1));
            assert(all.skip(i as int)[0] == vars@[i as int]@);
        }
        match lookup(env, vars[i]) {
            Some(v) => {
                let t = trim_chars(&chars_of(v.as_str()), CharClass::Whitespace);
                if t.len() > 0 {
                    let mut m = chars_of(vars[i]);
                    extend_str(&mut m, "=");
                    extend_str(&mut m, v.as_str());
                    extend_str(&mut m, " is no longer supported; use MKD_GCM_URL");
                    return Err(Error::Config(string_of(&m)));
                }
            },
            None => {},
        }
        i += 1;
    }
    proof {
        assert(all.skip(i as int) =~= Seq::<Seq<char>>::empty());
    }
    Ok(())
}

} // verus!
