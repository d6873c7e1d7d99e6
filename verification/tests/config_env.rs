//! Configuration loading from raw environment values.

use metal_calendar::config::{config, web_config, Config, WebConfig};
use metal_calendar::error::Error;

#[test]
fn config_cleans_quoted_values() {
    let c = config(
        Some(String::from("\"https://example.org\"")),
        Some(String::from("postgres://db")),
        Some(String::from("\"true\"")),
    );
    assert_eq!(c.BASE_URL, "https://example.org");
    assert_eq!(c.DATABASE_URL, "postgres://db");
    assert!(c.IS_PROD);
}

#[test]
fn config_is_prod_false_for_other_values() {
    let c = config(
        Some(String::from("https://example.org")),
        Some(String::from("postgres://db")),
        Some(String::from("no")),
    );
    assert!(!c.IS_PROD);
}

#[test]
fn load_from_env_reports_missing_value() {
    let r = Config::load_from_env(
        None,
        Some(String::from("postgres://db")),
        Some(String::from("true")),
    );
    assert!(matches!(r, Err(Error::MissingEnv)));
}

#[test]
fn web_config_cleans_value() {
    let c = web_config(Some(String::from("\"web-folder/\"")));
    assert_eq!(c.WEB_FOLDER, "web-folder/");
}

#[test]
fn web_config_reports_missing_value() {
    assert!(matches!(
        WebConfig::load_from_env(None),
        Err(Error::MissingEnv)
    ));
}
