//! The configuration record of the tool: where the tracked directory lies.

use vstd::prelude::*;

use crate::json::json_field;
use crate::json::json_string_field;
use crate::json::json_tame;
use crate::json::spec_json_tame;

verus! {

/// The configuration: the path of the tracked font directory.
pub struct Config {
    pub path: String,
}

/// The failure of reading a configuration: the text does not parse into an
/// object with a string `path` field.
#[derive(Debug)]
pub enum ConfigError {
    Malformed,
}

impl Config {
    /// Parses the configuration text, a JSON object with a string `path`
    /// field; any other text is malformed, as is text too wild for the
    /// parser (see [`crate::json::spec_json_tame`]).
    pub fn load(content: &str) -> (r: Result<Config, ConfigError>)
        ensures
            match r {
                Ok(c) => spec_json_tame(content@) && json_field(content@, "path"@) == Some(
                    c.path@,
                ),
                Err(e) => (!spec_json_tame(content@) || json_field(content@, "path"@) is None)
                    && e == ConfigError::Malformed,
            },
    {
        if !json_tame(content) {
            return Err(ConfigError::Malformed);
        }
        match json_string_field(content, "path") {
            Some(path) => Ok(Config { path }),
            None => Err(ConfigError::Malformed),
        }
    }
}

} // verus!
