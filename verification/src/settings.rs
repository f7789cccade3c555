//! The cacher's settings.
//!
//! Loading the configuration file is left to the caller, through the
//! `config` crate; the settings are then read from the loaded configuration.

use config::{Config, ConfigError};
use vstd::prelude::*;

verus! {

#[verifier::external_type_specification]
#[verifier::external_body]
pub struct ExConfig(config::Config);

#[verifier::external_type_specification]
#[verifier::external_body]
pub struct ExConfigError(config::ConfigError);

/// The settings of `config` that `Config::get_string` reads as text: each
/// key for which it gives text, with that text.
pub uninterp spec fn config_strings(config: Config) -> Map<Seq<char>, Seq<char>>;

/// The settings of `config` that `Config::get_bool` reads as flags: each key
/// for which it gives a flag, with that flag.
pub uninterp spec fn config_bools(config: Config) -> Map<Seq<char>, bool>;

/// The text that the configuration gives for `key`, where it gives text.
pub open spec fn config_string(config: Config, key: Seq<char>) -> Option<Seq<char>> {
    if config_strings(config).contains_key(key) {
        Some(config_strings(config)[key])
    } else {
        None
    }
}

/// The flag that the configuration gives for `key`, where it gives a flag.
pub open spec fn config_bool(config: Config, key: Seq<char>) -> Option<bool> {
    if config_bools(config).contains_key(key) {
        Some(config_bools(config)[key])
    } else {
        None
    }
}

/// Reads the setting at `key` as text.
///
/// Trusted: calls `config::Config::get_string`. Claimed: the outcome depends
/// on the configuration and the key alone (`config_strings`); which error is
/// reported is left unsaid.
#[verifier::external_body]
fn get_string_setting(config: &Config, key: &str) -> (r: Result<String, ConfigError>)
    ensures
        match r {
            Ok(s) => config_strings(*config).contains_key(key@) && config_strings(*config)[key@] == s@,
            Err(_) => !config_strings(*config).contains_key(key@),
        },
{
    config.get_string(key)
}

/// Reads the setting at `key` as a flag.
///
/// Trusted: calls `config::Config::get_bool`. Claimed: the outcome depends
/// on the configuration and the key alone (`config_bools`); which error is
/// reported is left unsaid.
#[verifier::external_body]
fn get_bool_setting(config: &Config, key: &str) -> (r: Result<bool, ConfigError>)
    ensures
        match r {
            Ok(b) => config_bools(*config).contains_key(key@) && config_bools(*config)[key@] == b,
            Err(_) => !config_bools(*config).contains_key(key@),
        },
{
    config.get_bool(key)
}

/// The name under which the configuration gives the cache file's path.
pub open spec fn cache_file_key() -> Seq<char> {
    "cacheFile"@
}

/// The name under which the configuration says whether to build the cache on start.
pub open spec fn init_cache_on_start_key() -> Seq<char> {
    "initCacheOnStart"@
}

/// The cacher's settings.
#[derive(Debug)]
pub struct CacherConfig {
    /// Path of the cache file.
    pub cache_file: String,
    /// Whether to build or refresh the cache when the cacher starts.
    pub init_cache_on_start: bool,
}

impl Default for CacherConfig {
    fn default() -> (r: CacherConfig)
        ensures
            r.cache_file@ == Seq::<char>::empty(),
            !r.init_cache_on_start,
    {
        CacherConfig { cache_file: String::new(), init_cache_on_start: false }
    }
}

impl CacherConfig {
    /// Reads the settings from a loaded configuration: the cache file's path
    /// under `cacheFile` and whether to build the cache on start under
    /// `initCacheOnStart`. Where a setting is missing or does not fit, the
    /// error of the first such one is given.
    pub fn new(source: &Config) -> (r: Result<CacherConfig, ConfigError>)
        ensures
            match r {
                Ok(c) => config_string(*source, cache_file_key()) == Some(c.cache_file@)
                    && config_bool(*source, init_cache_on_start_key()) == Some(
                    c.init_cache_on_start,
                ),
                Err(_) => config_string(*source, cache_file_key()) is None || config_bool(
                    *source,
                    init_cache_on_start_key(),
                ) is None,
            },
    {
        let cache_file = match get_string_setting(source, "cacheFile") {
            Ok(s) => s,
            Err(e) => {
                return Err(e);
            },
        };
        let init_cache_on_start = match get_bool_setting(source, "initCacheOnStart") {
            Ok(b) => b,
            Err(e) => {
                return Err(e);
            },
        };
        Ok(CacherConfig { cache_file, init_cache_on_start })
    }
}

} // verus!
