use config::{Config, File, FileFormat};
use drm_beatsaver_cacher::settings::CacherConfig;

fn load(json: &str) -> Config {
    Config::builder().add_source(File::from_str(json, FileFormat::Json)).build().unwrap()
}

#[test]
fn settings_are_read_from_camel_case_keys() {
    let config = CacherConfig::new(&load(
        r#"{ "cacheFile": "cache/maps.proto.gz", "initCacheOnStart": true }"#,
    ))
    .unwrap();
    assert_eq!(config.cache_file, "cache/maps.proto.gz");
    assert!(config.init_cache_on_start);
}

#[test]
fn settings_ignore_other_keys() {
    let config = CacherConfig::new(&load(
        r#"{ "port": 5000, "cacheFile": "a.gz", "initCacheOnStart": false }"#,
    ))
    .unwrap();
    assert_eq!(config.cache_file, "a.gz");
    assert!(!config.init_cache_on_start);
}

#[test]
fn a_missing_cache_file_is_reported() {
    let err = CacherConfig::new(&load(r#"{ "initCacheOnStart": true }"#)).unwrap_err();
    assert!(err.to_string().contains("cacheFile"));
    let err = CacherConfig::new(&load(r#"{ "cache_file": "a.gz", "initCacheOnStart": true }"#))
        .unwrap_err();
    assert!(err.to_string().contains("cacheFile"));
}

#[test]
fn a_flag_that_is_no_flag_is_reported() {
    let err = CacherConfig::new(&load(r#"{ "cacheFile": "a.gz", "initCacheOnStart": "maybe" }"#))
        .unwrap_err();
    assert!(err.to_string().contains("initCacheOnStart"));
    let err = CacherConfig::new(&load(r#"{ "cacheFile": "a.gz" }"#)).unwrap_err();
    assert!(err.to_string().contains("initCacheOnStart"));
}

#[test]
fn default_settings_are_empty() {
    let config = CacherConfig::default();
    assert_eq!(config.cache_file, "");
    assert!(!config.init_cache_on_start);
}
