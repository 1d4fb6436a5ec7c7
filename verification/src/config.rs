//! The settings of the proxy: where it listens and which server it
//! fronts.

use vstd::prelude::*;
use vstd::string::StringExecFns;

verus! {

/// Where the proxy listens, and the server behind it.
#[derive(Clone, Debug)]
pub struct Config {
    pub host: String,
    pub port: usize,
    pub redis_config: RedisConfig,
}

/// The server behind the proxy.
#[derive(Clone, Debug)]
pub struct RedisConfig {
    pub port: usize,
    pub host: String,
    pub version: Option<String>,
}

/// The host that is used where none is given.
pub open spec fn default_host() -> Seq<char> {
    "127.0.0.1"@
}

/// The settings that are used where none are given.
pub open spec fn is_default(c: Config) -> bool {
    &&& c.host@ == default_host()
    &&& c.port == 6379
    &&& c.redis_config.host@ == default_host()
    &&& c.redis_config.port == 16379
    &&& c.redis_config.version.is_none()
}

impl Config {
    /// The settings with the given port and host; the defaults for what
    /// is not given, and for the server behind the proxy.
    pub fn new(port: Option<usize>, host: Option<String>) -> (r: Config)
        ensures
            r.port == match port {
                Some(p) => p,
                None => 6379,
            },
            r.host@ == match host {
                Some(h) => h@,
                None => default_host(),
            },
            r.redis_config.host@ == default_host(),
            r.redis_config.port == 16379,
            r.redis_config.version.is_none(),
    {
        let port: usize = match port {
            Some(p) => p,
            None => 6379,
        };
        let host = match host {
            Some(h) => h,
            None => String::from_str("127.0.0.1"),
        };
        let base = Config::default();
        Config { port: port, host: host, redis_config: base.redis_config }
    }
}

impl Default for Config {
    fn default() -> (r: Config)
        ensures
            is_default(r),
    {
        let redis_config = RedisConfig {
            port: 16379,
            version: None,
            host: String::from_str("127.0.0.1"),
        };
        Config { redis_config: redis_config, port: 6379, host: String::from_str("127.0.0.1") }
    }
}

} // verus!
