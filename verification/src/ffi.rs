//! The client handle behind the C ABI: the checks and settings each C entry
//! point applies before it hands work to the client.

use vstd::prelude::*;

use crate::nntp::{NntpMemoryStore, default_mailbox, url_endpoint};
use crate::text::{ascii_lower, char_ascii_lower, chars_of, contains, contains_str, string_of};
use crate::types::{PostHeaders, insert_entry};

verus! {

/// Opaque client handle.
#[derive(Debug)]
pub struct MkdGcmClient {
    store: NntpMemoryStore,
}

/// `str::to_ascii_lowercase`.
pub open spec fn ascii_lowercase(s: Seq<char>) -> Seq<char> {
    s.map_values(|c: char| ascii_lower(c))
}

/// The headers of a generic post: Subject, and Content-Type when given
/// (non-empty); a content type that mentions `json` (ignoring ASCII case)
/// also sets `X-Mkd-Format: json`.
pub open spec fn generic_post_headers(subject: Seq<char>, content_type: Option<Seq<char>>) -> Seq<(Seq<char>, Seq<char>)> {
    let h = insert_entry(Seq::empty(), "Subject"@, subject);
    match content_type {
        Some(ct) => if ct.len() > 0 {
            let h2 = insert_entry(h, "Content-Type"@, ct);
            if contains(ascii_lowercase(ct), "json"@) {
                insert_entry(h2, "X-Mkd-Format"@, "json"@)
            } else {
                h2
            }
        } else {
            h
        },
        None => h,
    }
}

impl MkdGcmClient {
    pub closed spec fn settings(&self) -> NntpMemoryStore {
        self.store
    }

    /// A client for `host:port`; port 0 means 1119. An empty host is refused.
    pub fn create(host: &str, port: u16) -> (res: Result<MkdGcmClient, String>)
        ensures
            match res {
                Ok(c) => host@.len() > 0 && c.settings().host_name() == host@ && c.settings().port_number() == (
                if port == 0 {
                    1119
                } else {
                    port
                }) && c.settings().user_name() is None && c.settings().password() is None
                    && c.settings().token() is None && c.settings().authzid() is None
                    && c.settings().from_mailbox() == default_mailbox(),
                Err(m) => host@.len() == 0 && m@ == "host is empty"@,
            },
    {
        if host.is_empty() {
            return Err(string_of(&chars_of("host is empty")));
        }
        let store = NntpMemoryStore::new(host, if port == 0 { 1119 } else { port });
        Ok(MkdGcmClient { store })
    }

    /// A client from a URL (`host:port`, `nntp://host:port`); a URL that does
    /// not parse gives the error's message.
    pub fn create_url(url: &str) -> (res: Result<MkdGcmClient, String>)
        ensures
            match url_endpoint(url@) {
                Ok((h, p)) => res matches Ok(c) && c.settings().host_name() == h && c.settings().port_number() == p
                    && c.settings().user_name() is None && c.settings().password() is None
                    && c.settings().token() is None && c.settings().authzid() is None
                    && c.settings().from_mailbox() == default_mailbox(),
                Err(msg) => res matches Err(m) && m@ == "Configuration error: "@ + msg,
            },
    {
        match NntpMemoryStore::from_url(url) {
            Ok(store) => Ok(MkdGcmClient { store }),
            Err(e) => Err(e.describe()),
        }
    }

    /// The client settings.
    pub fn store(&self) -> (r: &NntpMemoryStore)
        ensures
            *r == self.settings(),
    {
        &self.store
    }

    /// Sets USER/PASS credentials.
    pub fn set_user_pass(&mut self, user: &str, pass: &str)
        ensures
            final(self).settings().user_name() == Some(user@),
            final(self).settings().password() == Some(pass@),
            final(self).settings().token() == old(self).settings().token(),
            final(self).settings().authzid() == old(self).settings().authzid(),
            final(self).settings().host_name() == old(self).settings().host_name(),
            final(self).settings().port_number() == old(self).settings().port_number(),
            final(self).settings().from_mailbox() == old(self).settings().from_mailbox(),
            final(self).settings().timeout_value() == old(self).settings().timeout_value(),
    {
        let s = self.store.duplicate();
        self.store = s.with_auth(user, pass);
    }

    /// Sets the OAUTHBEARER token, and the authzid when given and non-empty.
    /// An empty token is refused and changes nothing.
    pub fn set_bearer(&mut self, token: &str, authzid: Option<&str>) -> (res: Result<(), String>)
        ensures
            match res {
                Ok(()) => token@.len() > 0 && final(self).settings().token() == Some(token@)
                    && final(self).settings().authzid() == match authzid {
                        Some(a) => if a@.len() > 0 {
                            Some(a@)
                        } else {
                            old(self).settings().authzid()
                        },
                        None => old(self).settings().authzid(),
                    } && final(self).settings().host_name() == old(self).settings().host_name()
                    && final(self).settings().port_number() == old(self).settings().port_number()
                    && final(self).settings().user_name() == old(self).settings().user_name()
                    && final(self).settings().password() == old(self).settings().password()
                    && final(self).settings().from_mailbox() == old(self).settings().from_mailbox()
                    && final(self).settings().timeout_value() == old(self).settings().timeout_value(),
                Err(m) => token@.len() == 0 && m@ == "token is empty"@ && *final(self) == *old(self),
            },
    {
        if token.is_empty() {
            return Err(string_of(&chars_of("token is empty")));
        }
        let mut store = self.store.duplicate().with_bearer_token(token);
        match authzid {
            Some(a) => {
                if !a.is_empty() {
                    store = store.with_bearer_authzid(a);
                }
            },
            None => {},
        }
        self.store = store;
        Ok(())
    }

    /// Sets the default From: mailbox.
    pub fn set_from(&mut self, from: &str)
        ensures
            final(self).settings().from_mailbox() == from@,
            final(self).settings().host_name() == old(self).settings().host_name(),
            final(self).settings().port_number() == old(self).settings().port_number(),
            final(self).settings().user_name() == old(self).settings().user_name(),
            final(self).settings().password() == old(self).settings().password(),
            final(self).settings().token() == old(self).settings().token(),
            final(self).settings().authzid() == old(self).settings().authzid(),
            final(self).settings().timeout_value() == old(self).settings().timeout_value(),
    {
        let s = self.store.duplicate();
        self.store = s.with_default_from(from);
    }

    /// The headers of a generic post (see [`generic_post_headers`]).
    pub fn post_headers(subject: &str, content_type: Option<&str>) -> (res: PostHeaders)
        ensures
            res@ == generic_post_headers(subject@, crate::nntp::opt_str(content_type)),
    {
        let mut h = PostHeaders::new().with("Subject", subject);
        match content_type {
            Some(ct) => {
                if !ct.is_empty() {
                    h.set("Content-Type", ct);
                    let cv = chars_of(ct);
                    let mut lower: Vec<char> = Vec::new();
                    let mut i: usize = 0;
                    while i < cv.len()
                        invariant
                            i <= cv.len(),
                            lower@ == cv@.take(i as int).map_values(|c: char| ascii_lower(c)),
                        decreases cv.len() - i,
                    {
                        lower.push(char_ascii_lower(cv[i]));
                        proof {
                            assert(cv@.take(i + 1).map_values(|c: char| ascii_lower(c)) =~= cv@.take(i as int).map_values(|c: char| ascii_lower(c)).push(ascii_lower(cv@[i as int])));
                        }
                        i += 1;
                    }
                    proof {
                        assert(cv@.take(cv.len() as int) =~= cv@);
                    }
                    if contains_str(&lower, "json") {
                        h.set("X-Mkd-Format", "json");
                    }
                }
            },
            None => {},
        }
        h
    }
}

} // verus!
