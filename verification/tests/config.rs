use site_encrypt::config::{
    default_class_name, default_extensions, default_feed_paths, default_feed_placeholder,
    default_iterations, default_noscript_text, default_password_id_attribute,
    default_password_label, default_submit_label, unreadable_config_message, validate_config,
    Config, ConfigError, EncryptionConfig, FeedsConfig, OutputConfig, Rule, ScannerConfig,
    UiStrings,
};
use site_encrypt::secrets::{Passwords, Secret};

fn rule() -> Rule {
    Rule {
        selector: "#box".to_string(),
        password_id_attribute: "data-password-key".to_string(),
        hint_attribute: None,
        content_selector: None,
    }
}

fn config(aliases: &[(&str, &str)]) -> Config {
    let mut passwords = Passwords::new();
    for (alias, password) in aliases {
        passwords.insert(alias.to_string(), Secret::new(password.to_string()));
    }
    Config {
        scanner: ScannerConfig {
            extensions: vec!["html".to_string()],
            exclude: vec![],
            rules: vec![rule()],
        },
        encryption: EncryptionConfig { iterations: 100_000 },
        output: OutputConfig {
            class_name: "site-encrypt".to_string(),
            ui: UiStrings::default(),
        },
        feeds: FeedsConfig::default(),
        passwords,
    }
}

#[test]
fn deprecated_base_url_still_feeds_prefix() {
    let cfg = FeedsConfig {
        enabled: true,
        paths: default_feed_paths(),
        strip_prefix: String::new(),
        base_url: "https://example.com/site".to_string(),
        placeholder: default_feed_placeholder(),
    };
    assert_eq!(cfg.effective_prefix(), "site");
    let cfg2 = FeedsConfig {
        strip_prefix: "/docs".to_string(),
        ..FeedsConfig::default()
    };
    assert_eq!(cfg2.effective_prefix(), "docs");
    assert_eq!(FeedsConfig::default().effective_prefix(), "");
}

#[test]
fn missing_config_error_guides() {
    let msg = unreadable_config_message("definitely-not-here-12345.toml");
    assert!(msg.contains("--config"), "{msg}");
    assert!(msg.contains("definitely-not-here-12345.toml"), "{msg}");
}

#[test]
fn secret_never_prints() {
    assert_eq!(Secret::new("hunter2".to_string()).describe(), "***");
    let config = config(&[("k", "hunter2")]);
    assert!(!config.describe().contains("hunter2"));
}

#[test]
fn description_shows_aliases_alone() {
    let one = config(&[("k", "hunter2"), ("l", "x")]);
    let two = config(&[("k", "other"), ("l", "y")]);
    assert_eq!(
        one.describe(),
        "rules: 1; iterations: 100000; class_name: site-encrypt; feeds: off; passwords: k = ***, l = ***"
    );
    assert_eq!(one.describe(), two.describe());
}

#[test]
fn defaults() {
    assert_eq!(default_extensions(), vec!["html".to_string()]);
    assert_eq!(default_iterations(), 600_000);
    assert_eq!(default_class_name(), "site-encrypt");
    assert_eq!(default_password_id_attribute(), "data-password-key");
    assert_eq!(default_password_label(), "Password");
    assert_eq!(default_submit_label(), "Unlock");
    assert_eq!(default_noscript_text(), "JavaScript is required to decrypt this content.");
    assert_eq!(
        default_feed_paths(),
        vec!["**/atom.xml", "**/rss.xml", "**/feed.xml", "**/index.xml"]
    );
    assert_eq!(
        default_feed_placeholder(),
        "This post is encrypted; open the original page to unlock it."
    );
    assert_eq!(EncryptionConfig::default().iterations, 600_000);
    assert_eq!(OutputConfig::default().class_name, "site-encrypt");
    assert_eq!(OutputConfig::default().ui.submit_label, "Unlock");
    assert!(!FeedsConfig::default().enabled);
}

#[test]
fn valid_config_is_accepted() {
    assert_eq!(validate_config(&config(&[])), Ok(()));
    let mut c = config(&[]);
    c.feeds.enabled = true;
    assert_eq!(validate_config(&c), Ok(()));
}

#[test]
fn each_fault_of_a_config() {
    let mut c = config(&[]);
    c.scanner.rules.clear();
    c.encryption.iterations = 1;
    assert_eq!(validate_config(&c), Err(ConfigError::NoRules));

    let mut c = config(&[]);
    c.encryption.iterations = 99_999;
    assert_eq!(validate_config(&c), Err(ConfigError::FewIterations));

    let mut c = config(&[]);
    c.output.class_name = " \t".to_string();
    assert_eq!(validate_config(&c), Err(ConfigError::EmptyClassName));

    let mut c = config(&[]);
    c.scanner.rules.push(Rule { selector: " ".to_string(), ..rule() });
    assert_eq!(validate_config(&c), Err(ConfigError::EmptySelector));

    let mut c = config(&[]);
    c.scanner.rules[0].password_id_attribute = String::new();
    assert_eq!(validate_config(&c), Err(ConfigError::EmptyPasswordAttribute));

    let mut c = config(&[]);
    c.feeds.enabled = true;
    c.feeds.paths.clear();
    assert_eq!(validate_config(&c), Err(ConfigError::NoFeedPaths));

    let mut c = config(&[]);
    c.feeds.enabled = true;
    c.feeds.placeholder = "\n".to_string();
    assert_eq!(validate_config(&c), Err(ConfigError::EmptyPlaceholder));
}

#[test]
fn faults_of_feeds_count_only_where_feeds_are_on() {
    let mut c = config(&[]);
    c.feeds.paths.clear();
    c.feeds.placeholder = String::new();
    assert_eq!(validate_config(&c), Ok(()));
}

#[test]
fn config_error_texts() {
    assert_eq!(
        ConfigError::NoRules.message(),
        "scanner.rules must contain at least one rule"
    );
    assert_eq!(
        ConfigError::FewIterations.message(),
        "PBKDF2 iterations must be at least 100000"
    );
    assert_eq!(ConfigError::EmptyClassName.message(), "output.class_name cannot be empty");
    assert_eq!(ConfigError::EmptySelector.message(), "rule selector cannot be empty");
    assert_eq!(
        ConfigError::EmptyPasswordAttribute.message(),
        "rule password_id_attribute cannot be empty"
    );
    assert_eq!(
        ConfigError::NoFeedPaths.message(),
        "feeds.paths cannot be empty when feeds.enabled"
    );
    assert_eq!(
        ConfigError::EmptyPlaceholder.message(),
        "feeds.placeholder cannot be empty when feeds.enabled"
    );
}

#[test]
fn passwords_by_alias() {
    let mut passwords = Passwords::new();
    assert!(passwords.is_empty());
    passwords.insert("a".to_string(), Secret::new("1".to_string()));
    passwords.insert("b".to_string(), Secret::new("2".to_string()));
    passwords.insert("a".to_string(), Secret::new("3".to_string()));
    assert_eq!(passwords.len(), 2);
    assert_eq!(passwords.get("a").unwrap().expose(), "3");
    assert_eq!(passwords.get("b").unwrap().expose(), "2");
    assert!(passwords.get("c").is_none());
    assert_eq!(passwords.alias(0), "a");
    assert_eq!(passwords.alias(1), "b");
    assert!(!passwords.is_empty());
}
