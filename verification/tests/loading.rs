use dumbo_config::loading::{
    config_file_candidates, resolve_config, test_should_show_settings, validate_loading_params,
};
use dumbo_config::models::{ConfigError, EnvConfig, FileInput, LoadingParam};

fn no_vars() -> Vec<(String, String)> {
    Vec::new()
}

#[test]
fn test_invalid_loading_param_both_none() {
    let param = LoadingParam {
        file: None,
        env_prefix: None,
    };

    let result = resolve_config(&param, &FileInput::Absent, &no_vars());
    assert!(matches!(result, Err(ConfigError::InvalidLoadingParam)));
}

#[test]
fn test_invalid_env_config_prefix_contains_separator() {
    let param = LoadingParam {
        file: None,
        env_prefix: Some(EnvConfig::new(
            "TEST_CONFIG".to_string(),
            Some("_".to_string()),
        )),
    };

    let result = resolve_config(&param, &FileInput::Absent, &no_vars());
    assert!(matches!(result, Err(ConfigError::InvalidEnvConfig { .. })));
}

#[test]
fn test_valid_env_config() {
    let param = LoadingParam {
        file: None,
        env_prefix: Some(EnvConfig::new("TEST".to_string(), Some("_".to_string()))),
    };

    let result = validate_loading_params(&param);
    assert!(result.is_ok());
}

#[test]
fn test_env_config_default_separator() {
    let env_config = EnvConfig::new("TEST".to_string(), None);
    assert_eq!(env_config.get_separator(), "__");
}

#[test]
fn test_env_config_custom_separator() {
    let env_config = EnvConfig::new("TEST".to_string(), Some("-".to_string()));
    assert_eq!(env_config.get_separator(), "-");
}

#[test]
fn test_should_show_settings_no_env_prefix() {
    let param = LoadingParam {
        file: Some("dummy.yaml".to_string()),
        env_prefix: None,
    };

    // even with the flag set, a file-only load never emits diagnostics
    let vars = vec![("TEST__SHOW_SETTINGS".to_string(), "true".to_string())];
    let result = test_should_show_settings(&param, &vars);
    assert_eq!(result, false);
}

#[test]
fn test_should_show_settings_with_env_prefix_and_show_settings_true() {
    let param = LoadingParam {
        file: None,
        env_prefix: Some(EnvConfig::new("TEST".to_string(), Some("__".to_string()))),
    };

    let truthy_values = vec![
        "true", "TRUE", "True", "1", "yes", "YES", "Yes", "on", "ON", "On",
    ];

    for value in truthy_values {
        let vars = vec![("TEST__SHOW_SETTINGS".to_string(), value.to_string())];
        let result = test_should_show_settings(&param, &vars);
        assert_eq!(result, true, "Failed for SHOW_SETTINGS value: {}", value);
    }
}

#[test]
fn test_should_show_settings_with_env_prefix_and_show_settings_false() {
    let param = LoadingParam {
        file: None,
        env_prefix: Some(EnvConfig::new("TEST".to_string(), Some("__".to_string()))),
    };

    let falsy_values = vec![
        "false", "FALSE", "False", "0", "no", "NO", "No", "off", "OFF", "Off", "invalid",
    ];

    for value in falsy_values {
        let vars = vec![("TEST__SHOW_SETTINGS".to_string(), value.to_string())];
        let result = test_should_show_settings(&param, &vars);
        assert_eq!(result, false, "Failed for SHOW_SETTINGS value: {}", value);
    }

    // not set at all
    let result = test_should_show_settings(&param, &no_vars());
    assert_eq!(result, false);
}

#[test]
fn test_should_show_settings_both_file_and_env_prefix() {
    let param = LoadingParam {
        file: Some("dummy.yaml".to_string()),
        env_prefix: Some(EnvConfig::new("TEST".to_string(), Some("__".to_string()))),
    };

    let vars = vec![("TEST__SHOW_SETTINGS".to_string(), "true".to_string())];
    assert_eq!(test_should_show_settings(&param, &vars), true);

    let vars = vec![("TEST__SHOW_SETTINGS".to_string(), "false".to_string())];
    assert_eq!(test_should_show_settings(&param, &vars), false);
}

#[test]
fn test_candidates_with_environment_name() {
    let names = config_file_candidates(&Some("prod".to_string()));
    assert_eq!(names, vec!["config.prod.yml".to_string(), "config.prod.yaml".to_string()]);
}

#[test]
fn test_candidates_without_environment_name() {
    let names = config_file_candidates(&None);
    assert_eq!(names, vec!["config.yml".to_string(), "config.yaml".to_string()]);

    let names = config_file_candidates(&Some("".to_string()));
    assert_eq!(names, vec!["config.yml".to_string(), "config.yaml".to_string()]);
}
