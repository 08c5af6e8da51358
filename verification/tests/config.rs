use qtcloud_code_cli::config::{is_excluded, resolve_enabled_rules, CodeConfig, ContractConfig};

#[test]
fn test_cli_rules_take_precedence() {
    let cli = Some(vec!["rule-a".to_string()]);
    let config = Some(ContractConfig {
        code: Some(CodeConfig {
            rules: Some(vec!["rule-b".to_string()]),
            exclude: None,
        }),
    });
    let all = &["rule-a", "rule-b", "rule-c"];
    let result = resolve_enabled_rules(&cli, &config, all);
    assert_eq!(result, vec!["rule-a"]);
}

#[test]
fn test_config_rules_when_no_cli() {
    let cli: Option<Vec<String>> = None;
    let config = Some(ContractConfig {
        code: Some(CodeConfig {
            rules: Some(vec!["rule-b".to_string()]),
            exclude: None,
        }),
    });
    let all = &["rule-a", "rule-b", "rule-c"];
    let result = resolve_enabled_rules(&cli, &config, all);
    assert_eq!(result, vec!["rule-b"]);
}

#[test]
fn test_default_all_rules() {
    let cli: Option<Vec<String>> = None;
    let config: Option<ContractConfig> = None;
    let all = &["rule-a", "rule-b"];
    let result = resolve_enabled_rules(&cli, &config, all);
    assert_eq!(result, vec!["rule-a", "rule-b"]);
}

#[test]
fn test_config_without_rules_field() {
    let cli: Option<Vec<String>> = None;
    let config = Some(ContractConfig { code: None });
    let all = &["rule-a"];
    let result = resolve_enabled_rules(&cli, &config, all);
    assert_eq!(result, vec!["rule-a"]);
}

#[test]
fn config_code_without_rules_falls_back_to_all() {
    let config = Some(ContractConfig {
        code: Some(CodeConfig { rules: None, exclude: None }),
    });
    let result = resolve_enabled_rules(&None, &config, &["rule-a", "rule-b"]);
    assert_eq!(result, vec!["rule-a", "rule-b"]);
}

#[test]
fn config_no_exclusions_excludes_nothing() {
    assert!(!is_excluded("src/main.rs", &None));
    let config = Some(ContractConfig { code: Some(CodeConfig { rules: None, exclude: None }) });
    assert!(!is_excluded("src/main.rs", &config));
}

#[test]
fn config_exclusion_patterns() {
    let config = Some(ContractConfig {
        code: Some(CodeConfig {
            rules: None,
            exclude: Some(vec!["target/".to_string(), "**/gen.rs".to_string(), "lib.rs".to_string()]),
        }),
    });
    assert!(is_excluded("target/debug/x.rs", &config));
    assert!(is_excluded("src/deep/gen.rs", &config));
    assert!(is_excluded("lib.rs", &config));
    assert!(is_excluded("src/lib.rs", &config));
    assert!(!is_excluded("src/mylib.rs", &config));
    assert!(!is_excluded("src/main.rs", &config));
}
