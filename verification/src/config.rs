//! The settings a gateway is started with.

use vstd::prelude::*;
use vstd::string::StringExecFns;

verus! {

/// The settings themselves.
#[derive(Debug, Clone, PartialEq)]
pub struct ConfigInner {
    /// The gateway secret that clients present.
    pub api_key: String,
    /// The upstream secrets to rotate among.
    pub keys: Vec<String>,
    /// The address to listen on.
    pub host: String,
    /// The port to listen on.
    pub port: u16,
}

impl Default for ConfigInner {
    /// The settings of a gateway that has not been configured yet: a
    /// placeholder gateway secret, no upstream secret, every interface,
    /// port 8080.
    fn default() -> (made: ConfigInner)
        ensures
            made.api_key@ == "password"@,
            made.keys@.len() == 0,
            made.host@ == "0.0.0.0"@,
            made.port == 8080,
    {
        ConfigInner {
            api_key: String::from_str("password"),
            keys: Vec::new(),
            host: String::from_str("0.0.0.0"),
            port: 8080,
        }
    }
}

/// The settings as they stand in a settings file: under one table.
#[derive(Debug, Clone, PartialEq)]
pub struct Config {
    pub config: ConfigInner,
}

impl Default for Config {
    /// A file that holds the default settings.
    fn default() -> (made: Config)
        ensures
            made.config.api_key@ == "password"@,
            made.config.keys@.len() == 0,
            made.config.host@ == "0.0.0.0"@,
            made.config.port == 8080,
    {
        Config { config: ConfigInner::default() }
    }
}

} // verus!
