//! The caller-facing parameter and error types of the loader.

use vstd::prelude::*;

verus! {

/// Describes the environment-variable source: a variable-name prefix and an
/// optional key separator. When no separator is given, `"__"` is used.
#[derive(Debug)]
pub struct EnvConfig {
    pub name: String,
    pub separator: Option<String>,
}

/// The separator in effect for an `EnvConfig`: the chosen one, or `"__"`.
pub open spec fn spec_separator(c: EnvConfig) -> Seq<char> {
    match c.separator {
        Some(s) => s@,
        None => "__"@,
    }
}

impl EnvConfig {
    pub fn new(name: String, separator: Option<String>) -> (r: Self)
        ensures
            r.name == name,
            r.separator == separator,
    {
        EnvConfig { name, separator }
    }

    pub fn get_separator(&self) -> (r: &str)
        ensures
            r@ == spec_separator(*self),
    {
        match &self.separator {
            Some(s) => s.as_str(),
            None => "__",
        }
    }
}

/// Where to load a configuration from: a file path, an environment-variable
/// prefix, or both. At least one of the two must be present.
#[derive(Debug)]
pub struct LoadingParam {
    pub file: Option<String>,
    pub env_prefix: Option<EnvConfig>,
}

/// Configuration loading errors.
#[derive(Debug, PartialEq)]
pub enum ConfigError {
    /// A downstream parse or deserialization failure, with its diagnostic text.
    Config(String),
    /// The declared configuration file does not exist.
    FileNotFound(String),
    /// The declared prefix matched no environment variable at all.
    EnvPrefixNotFound(String),
    /// Neither a file nor an environment prefix was given.
    InvalidLoadingParam,
    /// The environment prefix contains the separator, which would make
    /// prefix stripping ambiguous.
    InvalidEnvConfig { prefix: String, separator: String },
}

/// What the caller found at the declared file path: nothing, the file's
/// text, or a read failure with its diagnostic text.
#[derive(Debug)]
pub enum FileInput {
    Absent,
    Read(String),
    Failed(String),
}

} // verus!
