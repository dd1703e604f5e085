use dumbo_config::filesource::{get_file_format, FileKind};
use dumbo_config::loading::resolve_config;
use dumbo_config::models::{ConfigError, EnvConfig, FileInput, LoadingParam};
use dumbo_config::value::ConfigValue;

fn no_vars() -> Vec<(String, String)> {
    Vec::new()
}

fn env_param(prefix: &str) -> LoadingParam {
    LoadingParam {
        file: None,
        env_prefix: Some(EnvConfig::new(prefix.to_string(), None)),
    }
}

fn entry(k: &str, v: ConfigValue) -> (String, ConfigValue) {
    (k.to_string(), v)
}

#[test]
fn test_round_trip_yaml_file_only() {
    let param = LoadingParam {
        file: Some("config.yml".to_string()),
        env_prefix: None,
    };
    let input = FileInput::Read("\nname: test\nvalue: 42\n".to_string());
    let result = resolve_config(&param, &input, &no_vars()).unwrap();
    // parsed file keys come back in sorted order
    let expected = ConfigValue::Table(vec![
        entry("name", ConfigValue::Str("test".to_string())),
        entry("value", ConfigValue::Int(42)),
    ]);
    assert_eq!(result, expected);
}

#[test]
fn test_precedence_env_overrides_file() {
    let param = LoadingParam {
        file: Some("config.yml".to_string()),
        env_prefix: Some(EnvConfig::new("PREFIX".to_string(), None)),
    };
    let input = FileInput::Read("value: 1\nother: 7\n".to_string());
    let vars = vec![("PREFIX__VALUE".to_string(), "2".to_string())];
    let result = resolve_config(&param, &input, &vars).unwrap();
    let expected = ConfigValue::Table(vec![
        entry("other", ConfigValue::Int(7)),
        entry("value", ConfigValue::Int(2)),
    ]);
    assert_eq!(result, expected);
}

#[test]
fn test_format_inference_json_and_yml_agree() {
    let json_param = LoadingParam {
        file: Some("cfg.json".to_string()),
        env_prefix: None,
    };
    let yml_param = LoadingParam {
        file: Some("cfg.yml".to_string()),
        env_prefix: None,
    };
    let from_json =
        resolve_config(&json_param, &FileInput::Read("{\"value\":5}".to_string()), &no_vars())
            .unwrap();
    let from_yml =
        resolve_config(&yml_param, &FileInput::Read("value: 5".to_string()), &no_vars()).unwrap();
    assert_eq!(from_json, from_yml);
    assert_eq!(from_json, ConfigValue::Table(vec![entry("value", ConfigValue::Int(5))]));
}

#[test]
fn test_format_inference_by_extension() {
    assert_eq!(get_file_format("cfg.json"), FileKind::Json);
    assert_eq!(get_file_format("cfg.yaml"), FileKind::Yaml);
    assert_eq!(get_file_format("cfg.yml"), FileKind::Yaml);
    assert_eq!(get_file_format("cfg.toml"), FileKind::Toml);
    assert_eq!(get_file_format("cfg.ini"), FileKind::Ini);
    // unknown or missing extensions default to YAML; the match is
    // case-sensitive
    assert_eq!(get_file_format("cfg.conf"), FileKind::Yaml);
    assert_eq!(get_file_format("cfg"), FileKind::Yaml);
    assert_eq!(get_file_format("cfg.JSON"), FileKind::Yaml);
    assert_eq!(get_file_format("dir.json/cfg"), FileKind::Yaml);
    assert_eq!(get_file_format(".hidden"), FileKind::Yaml);
}

#[test]
fn test_toml_file() {
    let param = LoadingParam {
        file: Some("cfg.toml".to_string()),
        env_prefix: None,
    };
    let result = resolve_config(&param, &FileInput::Read("value = 5".to_string()), &no_vars())
        .unwrap();
    assert_eq!(result, ConfigValue::Table(vec![entry("value", ConfigValue::Int(5))]));
}

#[test]
fn test_dotted_file_key_expands() {
    let param = LoadingParam {
        file: Some("cfg.yml".to_string()),
        env_prefix: None,
    };
    let result =
        resolve_config(&param, &FileInput::Read("a.b: 1\n".to_string()), &no_vars()).unwrap();
    let expected = ConfigValue::Table(vec![entry(
        "a",
        ConfigValue::Table(vec![entry("b", ConfigValue::Int(1))]),
    )]);
    assert_eq!(result, expected);
}

#[test]
fn test_dotted_key_and_nested_table_resolve_in_key_order() {
    // the top-level keys are taken in sorted order: the nested table under
    // "a" is written first, the dotted key "a.b" second and wins
    let param = LoadingParam {
        file: Some("cfg.json".to_string()),
        env_prefix: None,
    };
    let text = "{\"a.b\": 1, \"a\": {\"b\": 2, \"c\": 3}}".to_string();
    let result = resolve_config(&param, &FileInput::Read(text), &no_vars()).unwrap();
    let expected = ConfigValue::Table(vec![entry(
        "a",
        ConfigValue::Table(vec![
            entry("b", ConfigValue::Int(1)),
            entry("c", ConfigValue::Int(3)),
        ]),
    )]);
    assert_eq!(result, expected);
}

#[test]
fn test_float_word_spellings_coerce() {
    let param = env_param("TEST");
    let vars = vec![
        ("TEST__A".to_string(), "inf".to_string()),
        ("TEST__B".to_string(), "-Infinity".to_string()),
        ("TEST__C".to_string(), "NaN".to_string()),
        ("TEST__D".to_string(), "infra".to_string()),
    ];
    let result = resolve_config(&param, &FileInput::Absent, &vars).unwrap();
    let expected = ConfigValue::Table(vec![
        entry("a", ConfigValue::Num("inf".to_string())),
        entry("b", ConfigValue::Num("-Infinity".to_string())),
        entry("c", ConfigValue::Num("NaN".to_string())),
        entry("d", ConfigValue::Str("infra".to_string())),
    ]);
    assert_eq!(result, expected);
}

#[test]
fn test_ini_file_values_stay_strings() {
    let param = LoadingParam {
        file: Some("cfg.ini".to_string()),
        env_prefix: None,
    };
    let result = resolve_config(&param, &FileInput::Read("value=5\n".to_string()), &no_vars())
        .unwrap();
    assert_eq!(result, ConfigValue::Table(vec![entry("value", ConfigValue::Str("5".to_string()))]));
}

#[test]
fn test_custom_separator_path() {
    let param = LoadingParam {
        file: None,
        env_prefix: Some(EnvConfig::new("TEST".to_string(), Some("-".to_string()))),
    };
    let vars = vec![("TEST-DB-HOST".to_string(), "h".to_string())];
    let result = resolve_config(&param, &FileInput::Absent, &vars).unwrap();
    let expected = ConfigValue::Table(vec![entry(
        "db",
        ConfigValue::Table(vec![entry("host", ConfigValue::Str("h".to_string()))]),
    )]);
    assert_eq!(result, expected);
}

#[test]
fn test_odd_key_stays_one_segment() {
    // a stripped name with a character outside the identifier set is kept
    // as one single key instead of a dotted path
    let param = env_param("TEST");
    let vars = vec![("TEST__WEIRD KEY".to_string(), "1".to_string())];
    let result = resolve_config(&param, &FileInput::Absent, &vars).unwrap();
    assert_eq!(
        result,
        ConfigValue::Table(vec![entry("weird key", ConfigValue::Int(1))])
    );
}

#[test]
fn test_file_not_found() {
    let param = LoadingParam {
        file: Some("missing.yml".to_string()),
        env_prefix: None,
    };
    let result = resolve_config(&param, &FileInput::Absent, &no_vars());
    match result {
        Err(ConfigError::FileNotFound(p)) => assert_eq!(p, "missing.yml"),
        other => panic!("expected FileNotFound, got {:?}", other),
    }
}

#[test]
fn test_env_prefix_not_found() {
    let param = env_param("NONEXISTENT_PREFIX_12345");
    let vars = vec![("OTHER".to_string(), "1".to_string())];
    let result = resolve_config(&param, &FileInput::Absent, &vars);
    match result {
        Err(ConfigError::EnvPrefixNotFound(p)) => assert_eq!(p, "NONEXISTENT_PREFIX_12345"),
        other => panic!("expected EnvPrefixNotFound, got {:?}", other),
    }
}

#[test]
fn test_parse_error_is_wrapped() {
    let param = LoadingParam {
        file: Some("cfg.json".to_string()),
        env_prefix: None,
    };
    let result = resolve_config(&param, &FileInput::Read("{not json".to_string()), &no_vars());
    assert!(matches!(result, Err(ConfigError::Config(_))));
}

#[test]
fn test_unreadable_file_is_wrapped() {
    let param = LoadingParam {
        file: Some("cfg.yml".to_string()),
        env_prefix: None,
    };
    let result =
        resolve_config(&param, &FileInput::Failed("permission denied".to_string()), &no_vars());
    match result {
        Err(ConfigError::Config(m)) => assert_eq!(m, "permission denied"),
        other => panic!("expected Config, got {:?}", other),
    }
}

#[test]
fn test_env_coercion_ladder() {
    let param = env_param("TEST");
    let vars = vec![
        ("TEST__A".to_string(), "true".to_string()),
        ("TEST__B".to_string(), "5432".to_string()),
        ("TEST__C".to_string(), "3.5".to_string()),
        ("TEST__D".to_string(), "hello".to_string()),
        ("TEST__E".to_string(), "TRUE".to_string()),
        ("TEST__F".to_string(), "".to_string()),
    ];
    let result = resolve_config(&param, &FileInput::Absent, &vars).unwrap();
    let expected = ConfigValue::Table(vec![
        entry("a", ConfigValue::Bool(true)),
        entry("b", ConfigValue::Int(5432)),
        entry("c", ConfigValue::Num("3.5".to_string())),
        entry("d", ConfigValue::Str("hello".to_string())),
        entry("e", ConfigValue::Bool(true)),
        entry("f", ConfigValue::Str("".to_string())),
    ]);
    assert_eq!(result, expected);
}

#[test]
fn test_integer_range_boundaries() {
    let param = env_param("TEST");
    let vars = vec![
        ("TEST__MAX".to_string(), "9223372036854775807".to_string()),
        ("TEST__TOOBIG".to_string(), "9223372036854775808".to_string()),
        ("TEST__MIN".to_string(), "-9223372036854775808".to_string()),
    ];
    let result = resolve_config(&param, &FileInput::Absent, &vars).unwrap();
    let expected = ConfigValue::Table(vec![
        entry("max", ConfigValue::Int(i64::MAX)),
        // past the integer range the digits still read as a number
        entry("toobig", ConfigValue::Num("9223372036854775808".to_string())),
        entry("min", ConfigValue::Int(i64::MIN)),
    ]);
    assert_eq!(result, expected);
}

#[test]
fn test_nested_env_path() {
    let param = env_param("TEST");
    let vars = vec![
        ("TEST__DB__HOST".to_string(), "localhost".to_string()),
        ("TEST__DB__PORT".to_string(), "5432".to_string()),
    ];
    let result = resolve_config(&param, &FileInput::Absent, &vars).unwrap();
    let expected = ConfigValue::Table(vec![entry(
        "db",
        ConfigValue::Table(vec![
            entry("host", ConfigValue::Str("localhost".to_string())),
            entry("port", ConfigValue::Int(5432)),
        ]),
    )]);
    assert_eq!(result, expected);
}

#[test]
fn test_nested_env_overrides_only_its_key() {
    let param = LoadingParam {
        file: Some("config.yml".to_string()),
        env_prefix: Some(EnvConfig::new("APP".to_string(), None)),
    };
    let input = FileInput::Read("db:\n  host: filehost\n  port: 1111\n".to_string());
    let vars = vec![("APP__DB__HOST".to_string(), "envhost".to_string())];
    let result = resolve_config(&param, &input, &vars).unwrap();
    let expected = ConfigValue::Table(vec![entry(
        "db",
        ConfigValue::Table(vec![
            entry("host", ConfigValue::Str("envhost".to_string())),
            entry("port", ConfigValue::Int(1111)),
        ]),
    )]);
    assert_eq!(result, expected);
}

#[test]
fn test_integration_env_only_snapshot() {
    let param = env_param("TEST");
    let vars = vec![
        (
            "TEST__DATABASE_URL".to_string(),
            "postgresql://localhost/test".to_string(),
        ),
        ("TEST__PORT".to_string(), "5432".to_string()),
        ("TEST__DEBUG".to_string(), "true".to_string()),
        ("TEST__SHOW_SETTINGS".to_string(), "true".to_string()),
    ];
    let result = resolve_config(&param, &FileInput::Absent, &vars).unwrap();
    let expected = ConfigValue::Table(vec![
        entry(
            "database_url",
            ConfigValue::Str("postgresql://localhost/test".to_string()),
        ),
        entry("port", ConfigValue::Int(5432)),
        entry("debug", ConfigValue::Bool(true)),
        entry("show_settings", ConfigValue::Bool(true)),
    ]);
    assert_eq!(result, expected);
}

#[test]
fn test_legacy_environment_file_contents() {
    // the environment-qualified file of the convenience loader, parsed as
    // its YAML contents
    let param = LoadingParam {
        file: Some("config.prod.yml".to_string()),
        env_prefix: None,
    };
    let input = FileInput::Read("\nname: prod\nvalue: 100\n".to_string());
    let result = resolve_config(&param, &input, &no_vars()).unwrap();
    let expected = ConfigValue::Table(vec![
        entry("name", ConfigValue::Str("prod".to_string())),
        entry("value", ConfigValue::Int(100)),
    ]);
    assert_eq!(result, expected);
}
