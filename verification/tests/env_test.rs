use req::env::EnvVars;
use req::parser::{load_env_vars, substitute};

#[test]
fn loads_development_env() {
    let base = r#"{
            "development": {
                "host": "localhost",
                "id-value": 12345
            }
        }"#;

    let vars = load_env_vars(Some(base), None, "development", false);

    assert_eq!(vars.get("host").unwrap(), "localhost");
    assert_eq!(vars.get("id-value").unwrap(), "12345");
}

#[test]
fn loads_production_env() {
    let base = r#"{
            "development": { "host": "localhost" },
            "production": { "host": "example.com" }
        }"#;

    let vars = load_env_vars(Some(base), None, "production", false);

    assert_eq!(vars.get("host").unwrap(), "example.com");
}

#[test]
fn returns_empty_for_missing_env() {
    let base = r#"{ "development": { "host": "localhost" } }"#;

    let vars = load_env_vars(Some(base), None, "staging", false);

    assert!(vars.is_empty());
}

#[test]
fn returns_empty_when_no_env_file() {
    let vars = load_env_vars(None, None, "development", false);

    assert!(vars.is_empty());
}

#[test]
fn private_overrides_base() {
    let base = r#"{
            "development": {
                "host": "localhost",
                "my-var": "base-value"
            }
        }"#;
    let private = r#"{
            "development": {
                "host": "private-host",
                "password": "secret123"
            }
        }"#;

    let vars = load_env_vars(Some(base), Some(private), "development", true);

    assert_eq!(vars.get("host").unwrap(), "private-host"); // overridden
    assert_eq!(vars.get("my-var").unwrap(), "base-value"); // kept from base
    assert_eq!(vars.get("password").unwrap(), "secret123"); // added from private
}

#[test]
fn private_not_loaded_when_flag_is_false() {
    let base = r#"{ "development": { "host": "localhost" } }"#;
    let private = r#"{ "development": { "host": "private-host" } }"#;

    let vars = load_env_vars(Some(base), Some(private), "development", false);

    assert_eq!(vars.get("host").unwrap(), "localhost");
}

#[test]
fn env_file_that_does_not_parse_gives_no_variables() {
    let vars = load_env_vars(Some("{ not json"), None, "development", false);
    assert!(vars.is_empty());
    let vars = load_env_vars(Some(r#"{ "development": "x" }"#), None, "development", false);
    assert!(vars.is_empty());
}

#[test]
fn env_values_that_are_not_strings_keep_their_json_text() {
    let base = r#"{ "dev": { "flag": true, "n": 1.5, "list": [1, 2], "none": null } }"#;
    let vars = load_env_vars(Some(base), None, "dev", false);
    assert_eq!(vars.get("flag").unwrap(), "true");
    assert_eq!(vars.get("n").unwrap(), "1.5");
    assert_eq!(vars.get("list").unwrap(), "[1,2]");
    assert_eq!(vars.get("none").unwrap(), "null");
}

#[test]
fn bad_private_file_leaves_base_variables() {
    let base = r#"{ "dev": { "host": "localhost" } }"#;
    let vars = load_env_vars(Some(base), Some("oops"), "dev", true);
    assert_eq!(vars.get("host").unwrap(), "localhost");
}

#[test]
fn substitute_replaces_variables() {
    let mut vars = EnvVars::new();
    vars.insert("host".to_string(), "localhost".to_string());
    vars.insert("id-value".to_string(), "12345".to_string());

    let result = substitute("http://{{host}}/api?id={{id-value}}", &vars);

    assert_eq!(result, "http://localhost/api?id=12345");
}

#[test]
fn substitute_leaves_unknown_variables() {
    let vars = EnvVars::new();

    let result = substitute("http://{{host}}/api", &vars);

    assert_eq!(result, "http://{{host}}/api");
}

#[test]
fn substitute_handles_spaces_in_braces() {
    let mut vars = EnvVars::new();
    vars.insert("host".to_string(), "localhost".to_string());

    let result = substitute("http://{{ host }}/api", &vars);

    assert_eq!(result, "http://localhost/api");
}

#[test]
fn substitute_no_placeholders() {
    let vars = EnvVars::new();

    let result = substitute("http://localhost/api", &vars);

    assert_eq!(result, "http://localhost/api");
}
