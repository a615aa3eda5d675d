//! The configuration of the server.
use vstd::prelude::*;

use crate::table::TextMap;

verus! {

/// The limit on the body of an upload where the configuration sets none: ten mebibytes.
pub const DEFAULT_BODY_LIMIT: usize = 10_485_760;

/// A value among the settings of a server. Only whole numbers are read.
#[derive(Debug, PartialEq, Eq, Copy, Clone, Structural)]
pub enum SettingValue {
    Integer(i64),
    Other,
}

impl View for SettingValue {
    type V = SettingValue;

    open spec fn view(&self) -> SettingValue {
        *self
    }
}

/// The whole configuration.
pub struct Config {
    pub global: Option<GlobalConfig>,
    pub servers: Vec<ServerConfig>,
    pub errors: Option<TextMap<String>>,
}

/// What holds for all servers.
pub struct GlobalConfig {
    pub client_max_body_size: Option<usize>,
    pub error_pages: Option<String>,
}

/// One server.
pub struct ServerConfig {
    pub server_name: Option<String>,
    pub server_address: Option<String>,
    pub ports: Option<Vec<u16>>,
    pub settings: Option<TextMap<SettingValue>>,
    pub routes: Vec<RouteConfig>,
    pub routes_redirects: Vec<RedirectConfig>,
}

/// One route of a server.
pub struct RouteConfig {
    pub path: String,
    pub methods: Option<Vec<String>>,
    pub root: Option<String>,
    pub index: Option<String>,
    pub autoindex: Option<bool>,
    pub cgi: Vec<CgiConfig>,
}

/// The command that runs the scripts with a given extension.
pub struct CgiConfig {
    pub extension: String,
    pub command: String,
}

/// A redirection.
pub struct RedirectConfig {
    pub from: String,
    pub to: String,
    pub status: Option<u16>,
}

/// The limit on the body of an upload that holds for all servers.
pub open spec fn global_limit(config: &Config) -> usize {
    match config.global {
        Some(global) => match global.client_max_body_size {
            Some(n) => n,
            None => DEFAULT_BODY_LIMIT,
        },
        None => DEFAULT_BODY_LIMIT,
    }
}

/// The limit on the body of an upload to one server: the whole number among its settings,
/// taken as a `usize`, or else the limit for all servers.
pub open spec fn upload_limit(config: &Config, server_idx: int) -> usize {
    if 0 <= server_idx < config.servers@.len() {
        match config.servers@[server_idx].settings {
            Some(settings) => if settings@.contains_key("client_max_body_size"@) {
                match settings@["client_max_body_size"@] {
                    SettingValue::Integer(n) => n as usize,
                    SettingValue::Other => global_limit(config),
                }
            } else {
                global_limit(config)
            },
            None => global_limit(config),
        }
    } else {
        global_limit(config)
    }
}

impl Config {
    /// The limit on the body of an upload to one server.
    pub fn body_limit(&self, server_idx: usize) -> (n: usize)
        ensures
            n == upload_limit(self, server_idx as int),
    {
        let global: usize = match &self.global {
            Some(global) => match global.client_max_body_size {
                Some(n) => n,
                None => DEFAULT_BODY_LIMIT,
            },
            None => DEFAULT_BODY_LIMIT,
        };
        if server_idx < self.servers.len() {
            if let Some(settings) = &self.servers[server_idx].settings {
                if let Some(SettingValue::Integer(n)) = settings.get("client_max_body_size") {
                    return *n as usize;
                }
            }
        }
        global
    }
}

} // verus!
