use bft::config::{default_completion_sep, Config, EnvSettings, ProviderConfig, SelectorType};

fn unset() -> EnvSettings {
    EnvSettings {
        selector_height: None,
        auto_common_prefix: None,
        auto_common_prefix_part: None,
        prompt: None,
        no_empty_cmd_completion: None,
        selector: None,
    }
}

#[test]
fn default_config() {
    let config = Config::default();
    assert_eq!(config.selector_height, Some("40%".to_string()));
    assert!(config.auto_common_prefix);
    assert!(!config.auto_common_prefix_part);
    assert_eq!(config.prompt, "> ");
    assert_eq!(config.completion_sep, "\x01");
    assert!(!config.no_empty_cmd_completion);
    assert_eq!(config.selector_type, SelectorType::Dialoguer);
    assert_eq!(
        config.providers,
        vec![
            ProviderConfig::Bash,
            ProviderConfig::History { limit: Some(20) },
            ProviderConfig::Carapace,
            ProviderConfig::EnvVar,
        ]
    );
    assert_eq!(default_completion_sep(), "\x01");
}

#[test]
fn config_from_empty_environment() {
    let config = Config::from_env(&unset());
    assert_eq!(config.selector_height, None);
    assert!(config.auto_common_prefix);
    assert!(!config.auto_common_prefix_part);
    assert_eq!(config.prompt, "> ");
    assert_eq!(config.completion_sep, "\x01");
    assert!(!config.no_empty_cmd_completion);
    assert_eq!(config.providers.len(), 4);
}

#[test]
fn config_from_environment_values() {
    let env = EnvSettings {
        selector_height: Some("60%".to_string()),
        auto_common_prefix: Some("false".to_string()),
        auto_common_prefix_part: Some("1".to_string()),
        prompt: Some("$ ".to_string()),
        no_empty_cmd_completion: Some("true".to_string()),
        selector: Some("other".to_string()),
    };
    let config = Config::from_env(&env);
    assert_eq!(config.selector_height, Some("60%".to_string()));
    assert!(!config.auto_common_prefix);
    assert!(config.auto_common_prefix_part);
    assert_eq!(config.prompt, "$ ");
    assert!(config.no_empty_cmd_completion);
    assert_eq!(config.selector_type, SelectorType::Dialoguer);
}

#[test]
fn config_switch_values() {
    for (value, expected) in [("true", true), ("1", true), ("yes", false), ("TRUE", false), ("0", false), ("", false)] {
        let env = EnvSettings { auto_common_prefix: Some(value.to_string()), ..unset() };
        assert_eq!(Config::from_env(&env).auto_common_prefix, expected);
    }
}

#[test]
fn config_load_prefers_the_file() {
    let mut file = Config::default();
    file.prompt = "file> ".to_string();
    file.providers = vec![ProviderConfig::Bash];
    let env = EnvSettings { prompt: Some("env> ".to_string()), ..unset() };
    let loaded = Config::load(Some(file), &env);
    assert_eq!(loaded.prompt, "file> ");
    assert_eq!(loaded.providers, vec![ProviderConfig::Bash]);
    let loaded = Config::load(None, &env);
    assert_eq!(loaded.prompt, "env> ");
    assert_eq!(loaded.providers.len(), 4);
}
