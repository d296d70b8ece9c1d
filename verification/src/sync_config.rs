//! The remote endpoint configuration consumed by the sync engine.

use vstd::prelude::*;

verus! {

/// WebDAV endpoint and credentials. The embedding application reads and
/// writes this as `webdav.json`.
#[derive(Debug, PartialEq)]
pub struct WebDavConfig {
    pub url: String,
    pub username: String,
    pub password: String,
    pub enabled: bool,
    pub remote_path: String,
}

impl Clone for WebDavConfig {
    fn clone(&self) -> (r: Self)
        ensures
            r == *self,
    {
        WebDavConfig {
            url: self.url.clone(),
            username: self.username.clone(),
            password: self.password.clone(),
            enabled: self.enabled,
            remote_path: self.remote_path.clone(),
        }
    }
}

impl Default for WebDavConfig {
    /// A blank, disabled configuration pointing at the stock remote path.
    fn default() -> (r: Self)
        ensures
            r.url@.len() == 0,
            r.username@.len() == 0,
            r.password@.len() == 0,
            !r.enabled,
            r.remote_path@ == "/fish_reader/"@,
    {
        WebDavConfig {
            url: String::new(),
            username: String::new(),
            password: String::new(),
            enabled: false,
            remote_path: String::from_str("/fish_reader/"),
        }
    }
}

impl WebDavConfig {
    /// A sync may run only when the endpoint is enabled and has a URL.
    pub fn is_configured(&self) -> (r: bool)
        ensures
            r == (self.enabled && self.url@.len() > 0),
    {
        self.enabled && !self.url.as_str().is_empty()
    }
}

} // verus!
