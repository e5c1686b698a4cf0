use site_encrypt::config::{
    Config, EncryptionConfig, FeedsConfig, OutputConfig, ScannerConfig, UiStrings,
};
use site_encrypt::env::{apply_env_overrides, apply_overrides, env_name_for_alias, EnvError};
use site_encrypt::secrets::{Passwords, Secret};

fn config_with(aliases: &[(&str, &str)]) -> Config {
    let mut passwords = Passwords::new();
    for (alias, password) in aliases {
        passwords.insert(alias.to_string(), Secret::new(password.to_string()));
    }
    Config {
        scanner: ScannerConfig {
            extensions: vec!["html".to_string()],
            exclude: vec![],
            rules: vec![],
        },
        encryption: EncryptionConfig { iterations: 100_000 },
        output: OutputConfig {
            class_name: "site-encrypt".to_string(),
            ui: UiStrings::default(),
        },
        feeds: FeedsConfig::default(),
        passwords,
    }
}

fn vars(pairs: &[(&str, &str)]) -> Vec<(String, String)> {
    pairs.iter().map(|(k, v)| (k.to_string(), v.to_string())).collect()
}

fn password<'a>(config: &'a Config, alias: &str) -> &'a str {
    config.passwords.get(alias).unwrap().expose()
}

#[test]
fn env_name_mapping() {
    assert_eq!(env_name_for_alias("blog"), "SITE_ENCRYPT_PASSWORDS_BLOG");
    assert_eq!(env_name_for_alias("my-blog"), "SITE_ENCRYPT_PASSWORDS_MY_BLOG");
    assert_eq!(env_name_for_alias("team.a"), "SITE_ENCRYPT_PASSWORDS_TEAM_A");
}

#[test]
fn env_password_overrides_toml() {
    let env = vars(&[("SITE_ENCRYPT_PASSWORDS_ENVTEST1", "from-env")]);
    let mut config = config_with(&[("envtest1", "from-toml")]);
    apply_env_overrides(&mut config, &env).unwrap();
    assert_eq!(password(&config, "envtest1"), "from-env");
}

#[test]
fn env_password_provides_missing_alias() {
    let env = vars(&[("SITE_ENCRYPT_PASSWORDS_ENVTEST2", "only-env")]);
    let mut config = config_with(&[]);
    assert!(config.passwords.is_empty());
    apply_env_overrides(&mut config, &env).unwrap();
    assert_eq!(password(&config, "envtest2"), "only-env");
}

#[test]
fn empty_env_value_is_ignored() {
    let env = vars(&[("SITE_ENCRYPT_PASSWORDS_ENVTEST3", "   ")]);
    let mut config = config_with(&[("envtest3", "keep-me")]);
    apply_env_overrides(&mut config, &env).unwrap();
    assert_eq!(config.passwords.len(), 1);
    assert_eq!(password(&config, "envtest3"), "keep-me");
}

#[test]
fn env_overrides_scalars() {
    let env = vars(&[
        ("SITE_ENCRYPT_ITERATIONS", "100000"),
        ("SITE_ENCRYPT_FEED_PLACEHOLDER", "locked!"),
    ]);
    let mut config = config_with(&[]);
    config.encryption.iterations = 600_000;
    apply_env_overrides(&mut config, &env).unwrap();
    assert_eq!(config.encryption.iterations, 100_000);
    assert_eq!(config.feeds.placeholder, "locked!");
}

#[test]
fn env_bulk_passwords() {
    let env = vars(&[(
        "SITE_ENCRYPT_PASSWORDS",
        "bulktest1 = \"pw1\"\nbulktest2 = \"pw2\"\n\"bulk-test3\" = \"pw3\"\n",
    )]);
    let mut config = config_with(&[]);
    apply_env_overrides(&mut config, &env).unwrap();
    assert_eq!(password(&config, "bulktest1"), "pw1");
    assert_eq!(password(&config, "bulktest2"), "pw2");
    assert_eq!(password(&config, "bulk-test3"), "pw3");
}

#[test]
fn env_password_precedence_single_over_bulk_over_file() {
    let env = vars(&[
        ("SITE_ENCRYPT_PASSWORDS", "envtest4 = \"from-bulk\"\n"),
        ("SITE_ENCRYPT_PASSWORDS_ENVTEST4", "from-single"),
    ]);
    let mut config = config_with(&[("envtest4", "from-toml")]);
    apply_env_overrides(&mut config, &env).unwrap();
    assert_eq!(password(&config, "envtest4"), "from-single");

    let env = vars(&[("SITE_ENCRYPT_PASSWORDS", "envtest4 = \"from-bulk\"\n")]);
    let mut config = config_with(&[("envtest4", "from-toml")]);
    apply_env_overrides(&mut config, &env).unwrap();
    assert_eq!(password(&config, "envtest4"), "from-bulk");
}

#[test]
fn invalid_env_bulk_is_an_error() {
    let env = vars(&[("SITE_ENCRYPT_PASSWORDS", "not valid toml [[[")]);
    let mut config = config_with(&[]);
    let err = apply_env_overrides(&mut config, &env).unwrap_err();
    assert_eq!(err, EnvError::Passwords);
    assert!(err.message().contains("SITE_ENCRYPT_PASSWORDS"));
}

#[test]
fn invalid_env_iterations_is_an_error() {
    let env = vars(&[("SITE_ENCRYPT_ITERATIONS", "not-a-number")]);
    let mut config = config_with(&[]);
    let err = apply_env_overrides(&mut config, &env).unwrap_err();
    assert_eq!(err, EnvError::Iterations);
    assert!(err.message().contains("SITE_ENCRYPT_ITERATIONS"));
}

#[test]
fn error_leaves_the_config_alone() {
    let env = vars(&[
        ("SITE_ENCRYPT_PASSWORDS_A", "new"),
        ("SITE_ENCRYPT_SUBMIT_LABEL", "Go"),
        ("SITE_ENCRYPT_ITERATIONS", "4294967296"),
    ]);
    let mut config = config_with(&[("a", "old")]);
    assert_eq!(apply_env_overrides(&mut config, &env), Err(EnvError::Iterations));
    assert_eq!(password(&config, "a"), "old");
    assert_eq!(config.output.ui.submit_label, "Unlock");
}

#[test]
fn error_does_not_show_the_value() {
    let env = vars(&[("SITE_ENCRYPT_PASSWORDS", "hunter2 = [[[")]);
    let mut config = config_with(&[]);
    let err = apply_env_overrides(&mut config, &env).unwrap_err();
    assert!(!err.message().contains("hunter2"));
}

#[test]
fn labels_of_the_form() {
    let env = vars(&[
        ("SITE_ENCRYPT_PASSWORD_LABEL", "Passwort"),
        ("SITE_ENCRYPT_SUBMIT_LABEL", "Auf"),
        ("SITE_ENCRYPT_NOSCRIPT_TEXT", "Skript"),
    ]);
    let mut config = config_with(&[]);
    apply_env_overrides(&mut config, &env).unwrap();
    assert_eq!(config.output.ui.password_label, "Passwort");
    assert_eq!(config.output.ui.submit_label, "Auf");
    assert_eq!(config.output.ui.noscript_text, "Skript");
    assert!(config.passwords.is_empty());
}

#[test]
fn one_variable_serves_every_alias_that_maps_to_it() {
    let env = vars(&[("SITE_ENCRYPT_PASSWORDS_MY_BLOG", "pw")]);
    let mut config = config_with(&[("my-blog", "a"), ("my.blog", "b"), ("other", "c")]);
    apply_env_overrides(&mut config, &env).unwrap();
    assert_eq!(password(&config, "my-blog"), "pw");
    assert_eq!(password(&config, "my.blog"), "pw");
    assert_eq!(password(&config, "my_blog"), "pw");
    assert_eq!(password(&config, "other"), "c");
    assert_eq!(config.passwords.len(), 4);
}

#[test]
fn names_in_other_forms_bring_in_nothing() {
    let env = vars(&[
        ("SITE_ENCRYPT_PASSWORDS_", "a"),
        ("SITE_ENCRYPT_PASSWORDS_blog", "b"),
        ("SITE_ENCRYPT_PASSWORDS_A-B", "c"),
        ("OTHER", "d"),
    ]);
    let mut config = config_with(&[]);
    apply_env_overrides(&mut config, &env).unwrap();
    assert!(config.passwords.is_empty());
}

#[test]
fn applying_twice_is_applying_once() {
    let env = vars(&[
        ("SITE_ENCRYPT_PASSWORDS", "x = \"1\"\ny = \"2\"\n"),
        ("SITE_ENCRYPT_PASSWORDS_X", "3"),
    ]);
    let mut config = config_with(&[("y", "0"), ("z", "9")]);
    for _ in 0..2 {
        apply_env_overrides(&mut config, &env).unwrap();
        assert_eq!(password(&config, "x"), "3");
        assert_eq!(password(&config, "y"), "2");
        assert_eq!(password(&config, "z"), "9");
        assert_eq!(config.passwords.len(), 3);
    }
}

#[test]
fn parsed_bulk_passwords_are_applied() {
    let mut config = config_with(&[("a", "0")]);
    let bulk = Some(vars(&[("a", "1"), ("b", "2"), ("b", "3")]));
    apply_overrides(&mut config, &vec![], &bulk).unwrap();
    assert_eq!(password(&config, "a"), "1");
    assert_eq!(password(&config, "b"), "3");
    assert_eq!(apply_overrides(&mut config, &vec![], &None), Err(EnvError::Passwords));
}

#[test]
fn spaces_around_the_number_do_not_count() {
    let env = vars(&[("SITE_ENCRYPT_ITERATIONS", " 700000\n")]);
    let mut config = config_with(&[]);
    apply_env_overrides(&mut config, &env).unwrap();
    assert_eq!(config.encryption.iterations, 700_000);
}
