//! What a run is told to do: where to look, what to encrypt and how.

use vstd::prelude::*;
use vstd::string::*;

use crate::secrets;
use crate::secrets::Passwords;
use crate::text;
use crate::text::{decimal, is_blank_str, trim, Strip};
use crate::url;
use crate::url::url_path;

verus! {

/// The fewest PBKDF2 iterations that a configuration may ask for.
pub const MIN_ITERATIONS: u32 = 100_000;

pub struct Config {
    pub scanner: ScannerConfig,
    pub encryption: EncryptionConfig,
    pub output: OutputConfig,
    pub feeds: FeedsConfig,
    pub passwords: Passwords,
}

pub struct ScannerConfig {
    pub extensions: Vec<String>,
    /// Relative paths, with forward slashes, to skip. Supports `*`, `?`, `**`.
    pub exclude: Vec<String>,
    pub rules: Vec<Rule>,
}

pub struct Rule {
    /// CSS selector of the node that carries the password id.
    pub selector: String,
    /// Attribute of the matched node that holds the password id.
    pub password_id_attribute: String,
    /// Attribute of the matched node that holds a hint at the password.
    pub hint_attribute: Option<String>,
    /// CSS selector of the node whose children are encrypted in place of the
    /// matched node's own. The page then brings its own unlock form.
    pub content_selector: Option<String>,
}

pub struct EncryptionConfig {
    pub iterations: u32,
}

pub struct OutputConfig {
    pub class_name: String,
    /// Copy for the injected unlock form.
    pub ui: UiStrings,
}

/// Display strings of the injected unlock form.
pub struct UiStrings {
    pub password_label: String,
    pub submit_label: String,
    pub noscript_text: String,
}

/// Feed redaction: entries that link to encrypted pages have their body
/// replaced by a placeholder. Titles stay public.
pub struct FeedsConfig {
    pub enabled: bool,
    pub paths: Vec<String>,
    /// Subpath the site lives under. Where it is empty, any subpath does.
    pub strip_prefix: String,
    /// Older form of `strip_prefix`: an address whose path is the subpath.
    pub base_url: String,
    pub placeholder: String,
}

// ---------------------------------------------------------------------------
// Defaults
// ---------------------------------------------------------------------------

pub fn default_extensions() -> (r: Vec<String>)
    ensures
        r@.len() == 1,
        r@[0]@ == "html"@,
{
    vec!["html".to_string()]
}

pub fn default_iterations() -> (r: u32)
    ensures
        r == 600_000,
{
    600_000
}

pub fn default_class_name() -> (r: String)
    ensures
        r@ == "site-encrypt"@,
{
    "site-encrypt".to_string()
}

pub fn default_password_id_attribute() -> (r: String)
    ensures
        r@ == "data-password-key"@,
{
    "data-password-key".to_string()
}

pub fn default_password_label() -> (r: String)
    ensures
        r@ == "Password"@,
{
    "Password".to_string()
}

pub fn default_submit_label() -> (r: String)
    ensures
        r@ == "Unlock"@,
{
    "Unlock".to_string()
}

pub fn default_noscript_text() -> (r: String)
    ensures
        r@ == "JavaScript is required to decrypt this content."@,
{
    "JavaScript is required to decrypt this content.".to_string()
}

/// The patterns by which feeds are found when none are given.
pub open spec fn usual_feed_paths(paths: Seq<String>) -> bool {
    &&& paths.len() == 4
    &&& paths[0]@ == "**/atom.xml"@
    &&& paths[1]@ == "**/rss.xml"@
    &&& paths[2]@ == "**/feed.xml"@
    &&& paths[3]@ == "**/index.xml"@
}

pub fn default_feed_paths() -> (r: Vec<String>)
    ensures
        usual_feed_paths(r@),
{
    vec![
        "**/atom.xml".to_string(),
        "**/rss.xml".to_string(),
        "**/feed.xml".to_string(),
        "**/index.xml".to_string(),
    ]
}

pub fn default_feed_placeholder() -> (r: String)
    ensures
        r@ == "This post is encrypted; open the original page to unlock it."@,
{
    "This post is encrypted; open the original page to unlock it.".to_string()
}

impl Default for EncryptionConfig {
    fn default() -> (r: EncryptionConfig)
        ensures
            r.iterations == 600_000,
    {
        EncryptionConfig { iterations: default_iterations() }
    }
}

impl Default for OutputConfig {
    fn default() -> (r: OutputConfig)
        ensures
            r.class_name@ == "site-encrypt"@,
            r.ui.password_label@ == "Password"@,
            r.ui.submit_label@ == "Unlock"@,
            r.ui.noscript_text@ == "JavaScript is required to decrypt this content."@,
    {
        OutputConfig { class_name: default_class_name(), ui: UiStrings::default() }
    }
}

impl Default for UiStrings {
    fn default() -> (r: UiStrings)
        ensures
            r.password_label@ == "Password"@,
            r.submit_label@ == "Unlock"@,
            r.noscript_text@ == "JavaScript is required to decrypt this content."@,
    {
        UiStrings {
            password_label: default_password_label(),
            submit_label: default_submit_label(),
            noscript_text: default_noscript_text(),
        }
    }
}

impl Default for FeedsConfig {
    fn default() -> (r: FeedsConfig)
        ensures
            !r.enabled,
            usual_feed_paths(r.paths@),
            r.strip_prefix@ == Seq::<char>::empty(),
            r.base_url@ == Seq::<char>::empty(),
            r.placeholder@ == "This post is encrypted; open the original page to unlock it."@,
    {
        FeedsConfig {
            enabled: false,
            paths: default_feed_paths(),
            strip_prefix: String::new(),
            base_url: String::new(),
            placeholder: default_feed_placeholder(),
        }
    }
}

// ---------------------------------------------------------------------------
// Feeds
// ---------------------------------------------------------------------------

impl FeedsConfig {
    /// The subpath that the configuration asks to strip: `strip_prefix`, or
    /// else the path of `base_url`, without slashes at its ends.
    pub open spec fn prefix(self) -> Seq<char> {
        let direct = text::trimmed(self.strip_prefix@, Strip::Only('/'));
        if direct.len() > 0 {
            direct
        } else {
            text::trimmed(url::address_path(self.base_url@), Strip::Only('/'))
        }
    }

    pub fn effective_prefix(&self) -> (r: String)
        ensures
            r@ == self.prefix(),
    {
        let direct = trim(self.strip_prefix.as_str(), Strip::Only('/'));
        if !direct.is_empty() {
            return direct.to_string();
        }
        trim(url_path(self.base_url.as_str()), Strip::Only('/')).to_string()
    }
}

// ---------------------------------------------------------------------------
// Validation
// ---------------------------------------------------------------------------

/// Why a configuration is not accepted.
#[derive(Debug, Clone, Copy, PartialEq, Eq, Structural)]
pub enum ConfigError {
    NoRules,
    FewIterations,
    EmptyClassName,
    EmptySelector,
    EmptyPasswordAttribute,
    NoFeedPaths,
    EmptyPlaceholder,
}

impl ConfigError {
    pub open spec fn text(self) -> Seq<char> {
        match self {
            ConfigError::NoRules => "scanner.rules must contain at least one rule"@,
            ConfigError::FewIterations => "PBKDF2 iterations must be at least 100000"@,
            ConfigError::EmptyClassName => "output.class_name cannot be empty"@,
            ConfigError::EmptySelector => "rule selector cannot be empty"@,
            ConfigError::EmptyPasswordAttribute => "rule password_id_attribute cannot be empty"@,
            ConfigError::NoFeedPaths => "feeds.paths cannot be empty when feeds.enabled"@,
            ConfigError::EmptyPlaceholder => "feeds.placeholder cannot be empty when feeds.enabled"@,
        }
    }

    pub fn message(&self) -> (s: String)
        ensures
            s@ == self.text(),
    {
        match self {
            ConfigError::NoRules => "scanner.rules must contain at least one rule".to_string(),
            ConfigError::FewIterations => "PBKDF2 iterations must be at least 100000".to_string(),
            ConfigError::EmptyClassName => "output.class_name cannot be empty".to_string(),
            ConfigError::EmptySelector => "rule selector cannot be empty".to_string(),
            ConfigError::EmptyPasswordAttribute => {
                "rule password_id_attribute cannot be empty".to_string()
            },
            ConfigError::NoFeedPaths => {
                "feeds.paths cannot be empty when feeds.enabled".to_string()
            },
            ConfigError::EmptyPlaceholder => {
                "feeds.placeholder cannot be empty when feeds.enabled".to_string()
            },
        }
    }
}

pub open spec fn rule_fault(rule: Rule) -> Option<ConfigError> {
    if text::is_blank(rule.selector@) {
        Some(ConfigError::EmptySelector)
    } else if text::is_blank(rule.password_id_attribute@) {
        Some(ConfigError::EmptyPasswordAttribute)
    } else {
        None
    }
}

/// What is wrong with the first rule that something is wrong with.
pub open spec fn rules_fault(rules: Seq<Rule>) -> Option<ConfigError>
    decreases rules.len(),
{
    if rules.len() == 0 {
        None
    } else if rule_fault(rules[0]) is Some {
        rule_fault(rules[0])
    } else {
        rules_fault(rules.drop_first())
    }
}

pub open spec fn feeds_fault(feeds: FeedsConfig) -> Option<ConfigError> {
    if !feeds.enabled {
        None
    } else if feeds.paths@.len() == 0 {
        Some(ConfigError::NoFeedPaths)
    } else if text::is_blank(feeds.placeholder@) {
        Some(ConfigError::EmptyPlaceholder)
    } else {
        None
    }
}

/// What is wrong with a configuration, the first thing found.
pub open spec fn config_fault(config: Config) -> Option<ConfigError> {
    if config.scanner.rules@.len() == 0 {
        Some(ConfigError::NoRules)
    } else if config.encryption.iterations < MIN_ITERATIONS {
        Some(ConfigError::FewIterations)
    } else if text::is_blank(config.output.class_name@) {
        Some(ConfigError::EmptyClassName)
    } else if rules_fault(config.scanner.rules@) is Some {
        rules_fault(config.scanner.rules@)
    } else {
        feeds_fault(config.feeds)
    }
}

pub fn validate_config(config: &Config) -> (r: Result<(), ConfigError>)
    ensures
        match config_fault(*config) {
            Some(error) => r == Err::<(), ConfigError>(error),
            None => r is Ok,
        },
{
    if config.scanner.rules.len() == 0 {
        return Err(ConfigError::NoRules);
    }
    if config.encryption.iterations < MIN_ITERATIONS {
        return Err(ConfigError::FewIterations);
    }
    if is_blank_str(config.output.class_name.as_str()) {
        return Err(ConfigError::EmptyClassName);
    }
    let ghost rules = config.scanner.rules@;
    proof {
        assert(rules.skip(0) == rules);
    }
    for i in 0..config.scanner.rules.len()
        invariant
            rules == config.scanner.rules@,
            rules.len() > 0,
            config.encryption.iterations >= MIN_ITERATIONS,
            !text::is_blank(config.output.class_name@),
            rules_fault(rules) == rules_fault(rules.skip(i as int)),
    {
        let rule = &config.scanner.rules[i];
        proof {
            assert(rules.skip(i as int)[0] == rules[i as int]);
            assert(rules.skip(i as int).drop_first() == rules.skip(i + 1));
        }
        if is_blank_str(rule.selector.as_str()) {
            return Err(ConfigError::EmptySelector);
        }
        if is_blank_str(rule.password_id_attribute.as_str()) {
            return Err(ConfigError::EmptyPasswordAttribute);
        }
    }
    if config.feeds.enabled {
        if config.feeds.paths.len() == 0 {
            return Err(ConfigError::NoFeedPaths);
        }
        if is_blank_str(config.feeds.placeholder.as_str()) {
            return Err(ConfigError::EmptyPlaceholder);
        }
    }
    Ok(())
}

/// An accepted configuration has a rule, and every rule of it names a selector
/// and an attribute; it asks for enough iterations.
pub proof fn law_accepted_config(config: Config)
    requires
        config_fault(config) is None,
    ensures
        config.scanner.rules@.len() > 0,
        config.encryption.iterations >= MIN_ITERATIONS,
        !text::is_blank(config.output.class_name@),
        forall|i: int|
            0 <= i < config.scanner.rules@.len() ==> {
                &&& !text::is_blank((#[trigger] config.scanner.rules@[i]).selector@)
                &&& !text::is_blank(config.scanner.rules@[i].password_id_attribute@)
            },
        config.feeds.enabled ==> config.feeds.paths@.len() > 0 && !text::is_blank(
            config.feeds.placeholder@,
        ),
{
    lemma_rules_without_fault(config.scanner.rules@);
}

proof fn lemma_rules_without_fault(rules: Seq<Rule>)
    requires
        rules_fault(rules) is None,
    ensures
        forall|i: int| 0 <= i < rules.len() ==> rule_fault(#[trigger] rules[i]) is None,
    decreases rules.len(),
{
    if rules.len() > 0 {
        lemma_rules_without_fault(rules.drop_first());
        assert forall|i: int| 0 <= i < rules.len() implies rule_fault(
            #[trigger] rules[i],
        ) is None by {
            if i > 0 {
                assert(rules.drop_first()[i - 1] == rules[i]);
            }
        }
    }
}

// ---------------------------------------------------------------------------
// Texts
// ---------------------------------------------------------------------------

/// What is said when the configuration file cannot be read.
pub fn unreadable_config_message(path: &str) -> (s: String)
    ensures
        s@ == "read config '"@ + path@ + "'; pass --config <FILE> to use another file"@,
{
    let mut s = "read config '".to_string();
    s.append(path);
    s.append("'; pass --config <FILE> to use another file");
    s
}

/// A configuration as it may be shown.
pub open spec fn described(config: Config) -> Seq<char> {
    "rules: "@ + text::decimal_of(config.scanner.rules@.len()) + "; iterations: "@
        + text::decimal_of(config.encryption.iterations as nat) + "; class_name: "@
        + config.output.class_name@ + "; feeds: "@ + (if config.feeds.enabled {
        "on"@
    } else {
        "off"@
    }) + "; passwords: "@ + secrets::masked(config.passwords.aliases())
}

impl Config {
    /// The configuration as it may be shown: of the passwords, the aliases
    /// alone.
    pub fn describe(&self) -> (s: String)
        ensures
            s@ == described(*self),
    {
        let mut s = "rules: ".to_string();
        s.append(decimal(self.scanner.rules.len() as u64).as_str());
        s.append("; iterations: ");
        s.append(decimal(self.encryption.iterations as u64).as_str());
        s.append("; class_name: ");
        s.append(self.output.class_name.as_str());
        s.append("; feeds: ");
        s.append(
            if self.feeds.enabled {
                "on"
            } else {
                "off"
            },
        );
        s.append("; passwords: ");
        s.append(self.passwords.describe().as_str());
        s
    }
}

// ---------------------------------------------------------------------------
// Laws
// ---------------------------------------------------------------------------

/// A rule with a selector and an attribute that are not blank.
pub open spec fn is_complete(rule: Rule) -> bool {
    !text::is_blank(rule.selector@) && !text::is_blank(rule.password_id_attribute@)
}

/// All of these rules are.
pub open spec fn rules_are_complete(rules: Seq<Rule>) -> bool {
    forall|i: int| 0 <= i < rules.len() ==> is_complete(#[trigger] rules[i])
}

proof fn lemma_first_rule_fault(rules: Seq<Rule>)
    ensures
        match rules_fault(rules) {
            Some(error) => exists|i: int|
                {
                    &&& 0 <= i < rules.len()
                    &&& !is_complete(#[trigger] rules[i])
                    &&& forall|j: int| 0 <= j < i ==> is_complete(#[trigger] rules[j])
                    &&& error == (if text::is_blank(rules[i].selector@) {
                        ConfigError::EmptySelector
                    } else {
                        ConfigError::EmptyPasswordAttribute
                    })
                },
            None => forall|i: int| 0 <= i < rules.len() ==> is_complete(#[trigger] rules[i]),
        },
    decreases rules.len(),
{
    if rules.len() > 0 {
        let rest = rules.drop_first();
        lemma_first_rule_fault(rest);
        assert forall|i: int| 0 < i < rules.len() implies #[trigger] rules[i] == rest[i - 1] by {}
        if is_complete(rules[0]) && rules_fault(rest) is Some {
            let i = choose|i: int|
                {
                    &&& 0 <= i < rest.len()
                    &&& !is_complete(#[trigger] rest[i])
                    &&& forall|j: int| 0 <= j < i ==> is_complete(#[trigger] rest[j])
                    &&& rules_fault(rest)->0 == (if text::is_blank(rest[i].selector@) {
                        ConfigError::EmptySelector
                    } else {
                        ConfigError::EmptyPasswordAttribute
                    })
                };
            assert(rules[i + 1] == rest[i]);
            assert forall|j: int| 0 <= j < i + 1 implies is_complete(#[trigger] rules[j]) by {
                if j > 0 {
                    assert(rest[j - 1] == rules[j]);
                }
            }
        }
    }
}

/// A configuration is accepted exactly where it has a rule, asks for 100 000
/// iterations or more, and where its class name, the selectors and attributes
/// of its rules, and, with feeds on, the patterns and the placeholder are
/// given.
pub proof fn law_which_configs_are_accepted(config: Config)
    ensures
        config_fault(config) is None <==> {
            &&& config.scanner.rules@.len() > 0
            &&& config.encryption.iterations >= 100_000
            &&& !text::is_blank(config.output.class_name@)
            &&& forall|i: int|
                0 <= i < config.scanner.rules@.len() ==> {
                    &&& !text::is_blank((#[trigger] config.scanner.rules@[i]).selector@)
                    &&& !text::is_blank(config.scanner.rules@[i].password_id_attribute@)
                }
            &&& config.feeds.enabled ==> config.feeds.paths@.len() > 0 && !text::is_blank(
                config.feeds.placeholder@,
            )
        },
{
    let rules = config.scanner.rules@;
    lemma_first_rule_fault(rules);
    if forall|i: int|
        0 <= i < rules.len() ==> {
            &&& !text::is_blank((#[trigger] rules[i]).selector@)
            &&& !text::is_blank(rules[i].password_id_attribute@)
        } {
        assert forall|i: int| 0 <= i < rules.len() implies is_complete(#[trigger] rules[i]) by {}
    }
    if config_fault(config) is None {
        assert forall|i: int| 0 <= i < rules.len() implies {
            &&& !text::is_blank((#[trigger] rules[i]).selector@)
            &&& !text::is_blank(rules[i].password_id_attribute@)
        } by {
            assert(is_complete(rules[i]));
        }
    }
}

/// An error says what is wrong first: each one comes where its own complaint
/// holds and nothing before it is wrong, rule by rule.
pub proof fn law_config_errors_are_true(config: Config)
    ensures
        config_fault(config) == Some(ConfigError::NoRules) <==> config.scanner.rules@.len() == 0,
        config_fault(config) == Some(ConfigError::FewIterations) <==> config.scanner.rules@.len()
            > 0 && config.encryption.iterations < 100_000,
        config_fault(config) == Some(ConfigError::EmptyClassName) <==> config.scanner.rules@.len()
            > 0 && config.encryption.iterations >= 100_000 && text::is_blank(
            config.output.class_name@,
        ),
        config_fault(config) == Some(ConfigError::EmptySelector) ==> exists|i: int|
            0 <= i < config.scanner.rules@.len() && text::is_blank(
                (#[trigger] config.scanner.rules@[i]).selector@,
            ) && rules_are_complete(config.scanner.rules@.take(i)),
        config_fault(config) == Some(ConfigError::EmptyPasswordAttribute) ==> exists|i: int|
            {
                &&& 0 <= i < config.scanner.rules@.len()
                &&& !text::is_blank((#[trigger] config.scanner.rules@[i]).selector@)
                &&& text::is_blank(config.scanner.rules@[i].password_id_attribute@)
                &&& rules_are_complete(config.scanner.rules@.take(i))
            },
        config_fault(config) == Some(ConfigError::NoFeedPaths) <==> {
            &&& config.scanner.rules@.len() > 0 && rules_are_complete(config.scanner.rules@)
            &&& config.encryption.iterations >= 100_000
            &&& !text::is_blank(config.output.class_name@)
            &&& config.feeds.enabled && config.feeds.paths@.len() == 0
        },
        config_fault(config) == Some(ConfigError::EmptyPlaceholder) <==> {
            &&& config.scanner.rules@.len() > 0 && rules_are_complete(config.scanner.rules@)
            &&& config.encryption.iterations >= 100_000
            &&& !text::is_blank(config.output.class_name@)
            &&& config.feeds.enabled && config.feeds.paths@.len() > 0
            &&& text::is_blank(config.feeds.placeholder@)
        },
{
    let rules = config.scanner.rules@;
    lemma_first_rule_fault(rules);
    assert forall|i: int|
        0 <= i < rules.len() && (forall|j: int|
            0 <= j < i ==> is_complete(#[trigger] rules[j])) implies rules_are_complete(
        #[trigger] rules.take(i),
    ) by {
        let some = rules.take(i);
        assert forall|j: int| 0 <= j < some.len() implies is_complete(#[trigger] some[j]) by {
            assert(some[j] == rules[j]);
        }
    }
    match rules_fault(rules) {
        Some(error) => {
            let i = choose|i: int|
                {
                    &&& 0 <= i < rules.len()
                    &&& !is_complete(#[trigger] rules[i])
                    &&& forall|j: int| 0 <= j < i ==> is_complete(#[trigger] rules[j])
                    &&& error == (if text::is_blank(rules[i].selector@) {
                        ConfigError::EmptySelector
                    } else {
                        ConfigError::EmptyPasswordAttribute
                    })
                };
            assert(rules_are_complete(rules.take(i)));
            assert(!is_complete(rules[i]));
        },
        None => {},
    }
}

/// The prefix is what `strip_prefix` holds between its slashes, and only where
/// nothing is there, what the path of `base_url` holds between its own.
pub proof fn law_prefix(feeds: FeedsConfig)
    ensures
        (exists|i: int| 0 <= i < feeds.strip_prefix@.len() && feeds.strip_prefix@[i] != '/')
            ==> feeds.prefix() == text::trimmed(feeds.strip_prefix@, Strip::Only('/'))
            && feeds.prefix().len() > 0,
        (forall|i: int| 0 <= i < feeds.strip_prefix@.len() ==> feeds.strip_prefix@[i] == '/')
            ==> feeds.prefix() == text::trimmed(
            url::address_path(feeds.base_url@),
            Strip::Only('/'),
        ),
        feeds.prefix().len() > 0 ==> feeds.prefix()[0] != '/' && feeds.prefix().last() != '/',
{
    text::law_trimmed(feeds.strip_prefix@, Strip::Only('/'));
    text::law_trimmed(url::address_path(feeds.base_url@), Strip::Only('/'));
    let s = feeds.strip_prefix@;
    let (a, c) = text::lemma_trimmed_ends(s, Strip::Only('/'));
    assert(s.subrange(a, c) == text::trimmed(s, Strip::Only('/')));
    if a < c {
        assert(s[a] != '/');
    }
}

/// What checking a configuration says is what is so: it passes where there is
/// nothing to complain of, and otherwise the complaint is one that holds.
pub proof fn law_checking_a_config(config: &Config, r: Result<(), ConfigError>)
    requires
        call_ensures(validate_config, (config,), r),
    ensures
        r is Ok <==> {
            &&& config.scanner.rules@.len() > 0
            &&& config.encryption.iterations >= 100_000
            &&& !text::is_blank(config.output.class_name@)
            &&& forall|i: int|
                0 <= i < config.scanner.rules@.len() ==> {
                    &&& !text::is_blank((#[trigger] config.scanner.rules@[i]).selector@)
                    &&& !text::is_blank(config.scanner.rules@[i].password_id_attribute@)
                }
            &&& config.feeds.enabled ==> config.feeds.paths@.len() > 0 && !text::is_blank(
                config.feeds.placeholder@,
            )
        },
        r matches Err(error) ==> config_fault(*config) == Some(error),
        r == Err::<(), ConfigError>(ConfigError::FewIterations) ==> config.encryption.iterations
            < 100_000,
{
    law_which_configs_are_accepted(*config);
    law_config_errors_are_true(*config);
}

/// The prefix in effect is the one that the configuration asks for.
pub proof fn law_prefix_in_effect(feeds: &FeedsConfig, r: String)
    requires
        call_ensures(FeedsConfig::effective_prefix, (feeds,), r),
    ensures
        r@ == feeds.prefix(),
{
}

/// Errors are told apart.
pub proof fn law_errors_are_told_apart(a: ConfigError, b: ConfigError)
    ensures
        a.text() == b.text() ==> a == b,
{
    reveal_strlit("scanner.rules must contain at least one rule");
    reveal_strlit("PBKDF2 iterations must be at least 100000");
    reveal_strlit("output.class_name cannot be empty");
    reveal_strlit("rule selector cannot be empty");
    reveal_strlit("rule password_id_attribute cannot be empty");
    reveal_strlit("feeds.paths cannot be empty when feeds.enabled");
    reveal_strlit("feeds.placeholder cannot be empty when feeds.enabled");
    assert("scanner.rules must contain at least one rule"@.len() == 44);
    assert("PBKDF2 iterations must be at least 100000"@.len() == 41);
    assert("output.class_name cannot be empty"@.len() == 33);
    assert("rule selector cannot be empty"@.len() == 29);
    assert("rule password_id_attribute cannot be empty"@.len() == 42);
    assert("feeds.paths cannot be empty when feeds.enabled"@.len() == 46);
    assert("feeds.placeholder cannot be empty when feeds.enabled"@.len() == 52);
}

/// What is shown of a configuration tells how many rules it has, how many
/// iterations it asks for, its class name, whether feeds are redacted, and of
/// the passwords the aliases.
pub proof fn law_what_a_config_shows(config: &Config, s: String)
    requires
        call_ensures(Config::describe, (config,), s),
    ensures
        s@ == "rules: "@ + text::decimal_of(config.scanner.rules@.len()) + "; iterations: "@
            + text::decimal_of(config.encryption.iterations as nat) + "; class_name: "@
            + config.output.class_name@ + "; feeds: "@ + (if config.feeds.enabled {
            "on"@
        } else {
            "off"@
        }) + "; passwords: "@ + secrets::masked(config.passwords.aliases()),
{
}

} // verus!
