//! The errors of the configuration layer.

use vstd::prelude::*;
use vstd::string::StringExecFns;

verus! {

/// What can go wrong while configuration is put together. Each variant carries
/// the detail as text.
#[derive(Debug)]
pub enum ConfigError {
    /// A variable of the environment could not be used.
    EnvError(String),
    /// A value could not be read as the type asked for.
    ParseError(String),
    /// A configuration file could not be read or written.
    FileError(String),
}

impl ConfigError {
    /// The text that `message` puts before the detail.
    pub open spec fn prefix(self) -> Seq<char> {
        match self {
            ConfigError::EnvError(_) => "Environment variable error: "@,
            ConfigError::ParseError(_) => "Parse error: "@,
            ConfigError::FileError(_) => "Configuration file error: "@,
        }
    }

    /// The detail that the error carries.
    pub open spec fn detail(self) -> Seq<char> {
        match self {
            ConfigError::EnvError(d) => d@,
            ConfigError::ParseError(d) => d@,
            ConfigError::FileError(d) => d@,
        }
    }

    /// The error as one line of text: what kind of error it is, then the
    /// detail.
    pub fn message(&self) -> (r: String)
        ensures
            r@ == self.prefix() + self.detail(),
    {
        match self {
            ConfigError::EnvError(d) => String::from_str("Environment variable error: ").concat(
                d.as_str(),
            ),
            ConfigError::ParseError(d) => String::from_str("Parse error: ").concat(d.as_str()),
            ConfigError::FileError(d) => String::from_str("Configuration file error: ").concat(
                d.as_str(),
            ),
        }
    }
}

} // verus!
