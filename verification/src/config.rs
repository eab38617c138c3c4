//! The service's configuration: a plain value struct. Loading it from files
//! and the environment is the bootstrap's concern; the defaults live here.

use vstd::prelude::*;
use vstd::string::*;

verus! {

/// The configuration surface: every field optional, absent fields falling
/// back to [`AppConfig::default`].
pub struct AppConfig {
    /// The storage directory for persisted clipboards.
    pub dir: Option<String>,
    /// The address the HTTP adapter binds.
    pub http_addr: Option<String>,
    /// The port the HTTP adapter binds.
    pub http_port: Option<u16>,
    /// The time to live, in seconds, applied to every new entry.
    pub timeout: Option<u64>,
}

impl core::default::Default for AppConfig {
    /// The built-in defaults: `./drop`, `127.0.0.1`, port 8080, 15 seconds.
    fn default() -> (r: Self)
        ensures
            r.dir matches Some(d) && d@ == "./drop"@,
            r.http_addr matches Some(a) && a@ == "127.0.0.1"@,
            r.http_port == Some(8080u16),
            r.timeout == Some(15u64),
    {
        AppConfig {
            dir: Some(String::from_str("./drop")),
            http_addr: Some(String::from_str("127.0.0.1")),
            http_port: Some(8080),
            timeout: Some(15),
        }
    }
}

} // verus!
