//! Settings from environment variables, which win over the configuration file.

use vstd::prelude::*;
use vstd::string::*;

use crate::config::Config;
use crate::secrets::{Passwords, Secret};
use crate::text;
use crate::text::{chars_of, is_blank_str, parse_u32, same, string_of, trim, Strip};

verus! {

// ---------------------------------------------------------------------------
// Names
// ---------------------------------------------------------------------------

/// The variable that holds many passwords, as TOML `alias = "password"` lines.
pub open spec fn bulk_name() -> Seq<char> {
    "SITE_ENCRYPT_PASSWORDS"@
}

/// What the name of a variable for one password begins with.
pub open spec fn single_prefix() -> Seq<char> {
    "SITE_ENCRYPT_PASSWORDS_"@
}

/// A character of an alias as it stands in the name of a variable.
pub open spec fn env_char(c: char) -> char {
    if 'a' <= c <= 'z' {
        (c as int - 32) as char
    } else if 'A' <= c <= 'Z' || '0' <= c <= '9' {
        c
    } else {
        '_'
    }
}

/// The name of the variable for the password of an alias.
pub open spec fn env_name(alias: Seq<char>) -> Seq<char> {
    single_prefix() + alias.map_values(|c: char| env_char(c))
}

/// A character of an alias that a variable alone can bring in.
pub open spec fn is_settable_char(c: char) -> bool {
    'a' <= c <= 'z' || '0' <= c <= '9' || c == '_'
}

/// An alias that a variable alone can bring in.
pub open spec fn is_settable(alias: Seq<char>) -> bool {
    &&& alias.len() > 0
    &&& forall|i: int| 0 <= i < alias.len() ==> is_settable_char(#[trigger] alias[i])
}

fn to_env_char(c: char) -> (r: char)
    ensures
        r == env_char(c),
{
    if 'a' <= c && c <= 'z' {
        (c as u8 - 32) as char
    } else if ('A' <= c && c <= 'Z') || ('0' <= c && c <= '9') {
        c
    } else {
        '_'
    }
}

/// The name of the variable for the password of an alias.
pub fn env_name_for_alias(alias: &str) -> (name: String)
    ensures
        name@ == env_name(alias@),
{
    let chars = chars_of(alias);
    let mut name = "SITE_ENCRYPT_PASSWORDS_".to_string();
    for i in 0..chars.len()
        invariant
            chars@ == alias@,
            name@ == env_name(alias@.take(i as int)),
    {
        proof {
            assert(env_name(alias@.take(i + 1)) =~= env_name(alias@.take(i as int)).push(
                env_char(alias@[i as int]),
            ));
        }
        name.push(to_env_char(chars[i]));
    }
    proof {
        assert(alias@.take(alias@.len() as int) =~= alias@);
    }
    name
}

/// Two aliases that variables alone can bring in have variables of their own.
pub proof fn law_settable_aliases_have_their_own_variable(a: Seq<char>, b: Seq<char>)
    requires
        is_settable(a),
        is_settable(b),
        env_name(a) == env_name(b),
    ensures
        a == b,
{
    let p = single_prefix().len() as int;
    assert(env_name(a).len() == p + a.len());
    assert(env_name(b).len() == p + b.len());
    assert forall|i: int| 0 <= i < a.len() implies #[trigger] a[i] == b[i] by {
        assert(env_name(a)[p + i] == env_char(a[i]));
        assert(env_name(b)[p + i] == env_char(b[i]));
        assert(is_settable_char(a[i]));
        assert(is_settable_char(b[i]));
    }
}

/// The alias that the name of a variable brings in.
fn alias_from_name(name: &str) -> (r: Option<String>)
    ensures
        match r {
            Some(alias) => is_settable(alias@) && env_name(alias@) == name@,
            None => forall|alias: Seq<char>| is_settable(alias) ==> #[trigger] env_name(alias)
                != name@,
        },
{
    let chars = chars_of(name);
    let prefix = chars_of("SITE_ENCRYPT_PASSWORDS_");
    let n: usize = prefix.len();
    if chars.len() <= n {
        proof {
            assert forall|alias: Seq<char>| is_settable(alias) implies #[trigger] env_name(alias)
                != name@ by {
                assert(env_name(alias).len() == n + alias.len());
            }
        }
        return None;
    }
    for i in 0..n
        invariant
            chars@ == name@,
            prefix@ == single_prefix(),
            n == prefix@.len(),
            n < chars@.len(),
            forall|j: int| 0 <= j < i ==> #[trigger] name@[j] == single_prefix()[j],
    {
        if chars[i] != prefix[i] {
            proof {
                assert forall|alias: Seq<char>| is_settable(alias) implies #[trigger] env_name(
                    alias,
                ) != name@ by {
                    assert(env_name(alias)[i as int] == single_prefix()[i as int]);
                }
            }
            return None;
        }
    }
    let mut alias: Vec<char> = Vec::new();
    for i in n..chars.len()
        invariant
            chars@ == name@,
            n == single_prefix().len(),
            n <= i,
            alias@.len() == i - n,
            forall|j: int| 0 <= j < alias@.len() ==> is_settable_char(#[trigger] alias@[j]),
            forall|j: int|
                0 <= j < alias@.len() ==> env_char(#[trigger] alias@[j]) == name@[n + j],
    {
        let c: char = chars[i];
        if 'A' <= c && c <= 'Z' {
            alias.push((c as u8 + 32) as char);
        } else if ('0' <= c && c <= '9') || c == '_' {
            alias.push(c);
        } else {
            proof {
                assert forall|other: Seq<char>| is_settable(other) implies #[trigger] env_name(
                    other,
                ) != name@ by {
                    if env_name(other) == name@ {
                        assert(env_name(other).len() == n + other.len());
                        assert(env_name(other)[i as int] == env_char(other[i - n]));
                        assert(is_settable_char(other[i - n]));
                    }
                }
            }
            return None;
        }
    }
    let alias = string_of(alias.as_slice());
    proof {
        assert(env_name(alias@) =~= name@);
    }
    Some(alias)
}

// ---------------------------------------------------------------------------
// Values
// ---------------------------------------------------------------------------

/// The value that a variable is set to. A blank value counts as none.
pub open spec fn value_of(vars: Seq<(String, String)>, name: Seq<char>) -> Option<Seq<char>>
    decreases vars.len(),
{
    if vars.len() == 0 {
        None
    } else if vars[0].0@ == name && !text::is_blank(vars[0].1@) {
        Some(vars[0].1@)
    } else {
        value_of(vars.drop_first(), name)
    }
}

proof fn lemma_value_of(vars: Seq<(String, String)>, name: Seq<char>)
    ensures
        value_of(vars, name) is Some <==> exists|i: int|
            0 <= i < vars.len() && (#[trigger] vars[i]).0@ == name && !text::is_blank(vars[i].1@),
    decreases vars.len(),
{
    if vars.len() > 0 {
        let rest = vars.drop_first();
        lemma_value_of(rest, name);
        if value_of(vars, name) is Some && !(vars[0].0@ == name && !text::is_blank(vars[0].1@)) {
            let i = choose|i: int|
                0 <= i < rest.len() && (#[trigger] rest[i]).0@ == name && !text::is_blank(
                    rest[i].1@,
                );
            assert(vars[i + 1] == rest[i]);
        }
        if exists|i: int|
            0 <= i < vars.len() && (#[trigger] vars[i]).0@ == name && !text::is_blank(vars[i].1@) {
            let i = choose|i: int|
                0 <= i < vars.len() && (#[trigger] vars[i]).0@ == name && !text::is_blank(
                    vars[i].1@,
                );
            if i > 0 {
                assert(rest[i - 1] == vars[i]);
            }
        }
    }
}

fn lookup<'a>(vars: &'a Vec<(String, String)>, name: &str) -> (r: Option<&'a str>)
    ensures
        r is Some <==> value_of(vars@, name@) is Some,
        r is Some ==> Some(r->0@) == value_of(vars@, name@),
{
    proof {
        assert(vars@.skip(0) =~= vars@);
    }
    for i in 0..vars.len()
        invariant
            value_of(vars@, name@) == value_of(vars@.skip(i as int), name@),
    {
        proof {
            assert(vars@.skip(i as int)[0] == vars@[i as int]);
            assert(vars@.skip(i as int).drop_first() =~= vars@.skip(i + 1));
        }
        if same(vars[i].0.as_str(), name) && !is_blank_str(vars[i].1.as_str()) {
            return Some(vars[i].1.as_str());
        }
    }
    None
}

// ---------------------------------------------------------------------------
// Passwords
// ---------------------------------------------------------------------------

/// The string table that a TOML text is, where it is one.
pub uninterp spec fn toml_strings(toml: Seq<char>) -> Option<Map<Seq<char>, Seq<char>>>;

/// Pairs as a map, in which later pairs win.
pub open spec fn as_map(pairs: Seq<(String, String)>) -> Map<Seq<char>, Seq<char>>
    decreases pairs.len(),
{
    if pairs.len() == 0 {
        Map::empty()
    } else {
        as_map(pairs.drop_last()).insert(pairs.last().0@, pairs.last().1@)
    }
}

/// `toml::from_str`, into a map from strings to strings. Whether the text is
/// such a table, and which, depends on the text alone.
#[verifier::external_body]
fn parse_strings(toml: &str) -> (r: Option<Vec<(String, String)>>)
    ensures
        r is Some <==> toml_strings(toml@) is Some,
        r is Some ==> as_map(r->0@) == toml_strings(toml@)->0,
{
    let table: std::collections::BTreeMap<String, String> = toml::from_str(toml).ok()?;
    Some(table.into_iter().collect())
}

/// The passwords of the file and of the bulk variable, with those of the
/// variables for single aliases: such a variable wins, and brings in an alias
/// that is in neither.
pub open spec fn overridden(
    base: Map<Seq<char>, Seq<char>>,
    vars: Seq<(String, String)>,
) -> Map<Seq<char>, Seq<char>> {
    Map::new(
        |alias: Seq<char>|
            base.contains_key(alias) || (is_settable(alias) && value_of(
                vars,
                env_name(alias),
            ) is Some),
        |alias: Seq<char>|
            match value_of(vars, env_name(alias)) {
                Some(value) => value,
                None => base[alias],
            },
    )
}

fn insert_all(passwords: &mut Passwords, pairs: &Vec<(String, String)>)
    ensures
        final(passwords)@ == old(passwords)@.union_prefer_right(as_map(pairs@)),
{
    let ghost base = passwords@;
    proof {
        assert(base.union_prefer_right(as_map(pairs@.take(0))) =~= base);
    }
    for i in 0..pairs.len()
        invariant
            passwords@ == base.union_prefer_right(as_map(pairs@.take(i as int))),
    {
        proof {
            assert(pairs@.take(i + 1).drop_last() =~= pairs@.take(i as int));
            assert(base.union_prefer_right(as_map(pairs@.take(i + 1)))
                =~= base.union_prefer_right(as_map(pairs@.take(i as int))).insert(
                pairs@[i as int].0@,
                pairs@[i as int].1@,
            ));
        }
        passwords.insert(
            pairs[i].0.as_str().to_string(),
            Secret::new(pairs[i].1.as_str().to_string()),
        );
    }
    proof {
        assert(pairs@.take(pairs@.len() as int) =~= pairs@);
    }
}

/// Brings in the aliases that variables alone bring in.
fn insert_settable(passwords: &mut Passwords, vars: &Vec<(String, String)>)
    ensures
        forall|alias: Seq<char>| #[trigger]
            final(passwords)@.contains_key(alias) <==> old(passwords)@.contains_key(alias) || (
            is_settable(alias) && value_of(vars@, env_name(alias)) is Some),
        forall|alias: Seq<char>|
            old(passwords)@.contains_key(alias) && value_of(vars@, env_name(alias)) is None
                ==> #[trigger] final(passwords)@[alias] == old(passwords)@[alias],
{
    let ghost base = passwords@;
    for i in 0..vars.len()
        invariant
            base == old(passwords)@,
            forall|alias: Seq<char>| base.contains_key(alias) ==> #[trigger]
                passwords@.contains_key(alias),
            forall|alias: Seq<char>| #[trigger]
                passwords@.contains_key(alias) ==> base.contains_key(alias) || (is_settable(alias)
                    && value_of(vars@, env_name(alias)) is Some),
            forall|alias: Seq<char>|
                base.contains_key(alias) && value_of(vars@, env_name(alias)) is None
                    ==> #[trigger] passwords@[alias] == base[alias],
            forall|alias: Seq<char>, j: int|
                #![trigger is_settable(alias), vars@[j]]
                0 <= j < i && is_settable(alias) && vars@[j].0@ == env_name(alias)
                    && !text::is_blank(vars@[j].1@) ==> passwords@.contains_key(alias),
    {
        let ghost before = passwords@;
        if !is_blank_str(vars[i].1.as_str()) {
            match alias_from_name(vars[i].0.as_str()) {
                Some(alias) => {
                    proof {
                        lemma_value_of(vars@, env_name(alias@));
                        assert(vars@[i as int].0@ == env_name(alias@));
                        assert forall|other: Seq<char>|
                            is_settable(other) && vars@[i as int].0@ == #[trigger] env_name(
                                other,
                            ) implies other == alias@ by {
                            law_settable_aliases_have_their_own_variable(other, alias@);
                        }
                    }
                    passwords.insert(alias, Secret::new(vars[i].1.as_str().to_string()));
                },
                None => {},
            }
        }
        proof {
            assert forall|alias: Seq<char>, j: int|
                #![trigger is_settable(alias), vars@[j]]
                0 <= j < i + 1 && is_settable(alias) && vars@[j].0@ == env_name(alias)
                    && !text::is_blank(vars@[j].1@) implies passwords@.contains_key(alias) by {
                if j < i {
                    assert(before.contains_key(alias));
                } else {
                    assert(vars@[i as int].0@ == env_name(alias));
                }
            }
        }
    }
    proof {
        assert forall|alias: Seq<char>|
            is_settable(alias) && value_of(vars@, env_name(alias)) is Some implies #[trigger]
        passwords@.contains_key(alias) by {
            lemma_value_of(vars@, env_name(alias));
            let j = choose|j: int|
                0 <= j < vars@.len() && (#[trigger] vars@[j]).0@ == env_name(alias)
                    && !text::is_blank(vars@[j].1@);
            assert(is_settable(alias) && vars@[j].0@ == env_name(alias));
        }
    }
}

/// Gives each alias the value of its variable.
fn override_each(passwords: &mut Passwords, vars: &Vec<(String, String)>)
    ensures
        forall|alias: Seq<char>| #[trigger]
            final(passwords)@.contains_key(alias) <==> old(passwords)@.contains_key(alias),
        forall|alias: Seq<char>|
            old(passwords)@.contains_key(alias) ==> #[trigger] final(passwords)@[alias] == (
            match value_of(vars@, env_name(alias)) {
                Some(value) => value,
                None => old(passwords)@[alias],
            }),
{
    let ghost base = passwords@;
    let ghost aliases = passwords.aliases();
    let n: usize = passwords.len();
    for i in 0..n
        invariant
            passwords.aliases() == aliases,
            n == aliases.len(),
            aliases.no_duplicates(),
            forall|alias: Seq<char>| #[trigger]
                aliases.contains(alias) <==> base.contains_key(alias),
            forall|alias: Seq<char>| #[trigger]
                passwords@.contains_key(alias) <==> base.contains_key(alias),
            forall|j: int|
                i <= j < aliases.len() ==> passwords@[#[trigger] aliases[j]] == base[aliases[j]],
            forall|j: int|
                0 <= j < i ==> passwords@[#[trigger] aliases[j]] == (match value_of(
                    vars@,
                    env_name(aliases[j]),
                ) {
                    Some(value) => value,
                    None => base[aliases[j]],
                }),
    {
        let alias = passwords.alias(i).to_string();
        proof {
            assert(alias@ == aliases[i as int]);
            assert(aliases.contains(alias@));
        }
        match lookup(vars, env_name_for_alias(alias.as_str()).as_str()) {
            Some(value) => {
                passwords.insert(alias, Secret::new(value.to_string()));
            },
            None => {},
        }
    }
    proof {
        assert forall|alias: Seq<char>| base.contains_key(alias) implies #[trigger]
        passwords@[alias] == (match value_of(vars@, env_name(alias)) {
            Some(value) => value,
            None => base[alias],
        }) by {
            assert(aliases.contains(alias));
            let j = choose|j: int| 0 <= j < aliases.len() && aliases[j] == alias;
            assert(passwords@[aliases[j]] == passwords@[alias]);
        }
    }
}

/// Gives the passwords of the variables for single aliases.
fn override_passwords(passwords: &mut Passwords, vars: &Vec<(String, String)>)
    ensures
        final(passwords)@ == overridden(old(passwords)@, vars@),
{
    let ghost base = passwords@;
    insert_settable(passwords, vars);
    let ghost between = passwords@;
    override_each(passwords, vars);
    proof {
        assert forall|alias: Seq<char>| overridden(base, vars@).contains_key(alias) implies
            #[trigger] passwords@[alias] == overridden(base, vars@)[alias] by {
            assert(between.contains_key(alias));
            if value_of(vars@, env_name(alias)) is None {
                assert(between[alias] == base[alias]);
            }
        }
        assert forall|alias: Seq<char>| #[trigger]
            passwords@.contains_key(alias) <==> overridden(base, vars@).contains_key(alias) by {
            assert(between.contains_key(alias) == passwords@.contains_key(alias));
        }
        assert(passwords@ =~= overridden(base, vars@));
    }
}

// ---------------------------------------------------------------------------
// The whole configuration
// ---------------------------------------------------------------------------

/// Why the variables are not accepted.
#[derive(Debug, Clone, Copy, PartialEq, Eq, Structural)]
pub enum EnvError {
    /// The bulk variable is no TOML table of strings.
    Passwords,
    /// The number of iterations is no number of 32 bits.
    Iterations,
}

impl EnvError {
    pub open spec fn text(self) -> Seq<char> {
        match self {
            EnvError::Passwords => {
                "SITE_ENCRYPT_PASSWORDS must hold TOML lines of the form alias = \"password\""@
            },
            EnvError::Iterations => "SITE_ENCRYPT_ITERATIONS must be a whole number"@,
        }
    }

    /// What is said of the error. It shows nothing of the variables' values.
    pub fn message(&self) -> (s: String)
        ensures
            s@ == self.text(),
    {
        match self {
            EnvError::Passwords => {
                "SITE_ENCRYPT_PASSWORDS must hold TOML lines of the form alias = \"password\"".to_string()
            },
            EnvError::Iterations => "SITE_ENCRYPT_ITERATIONS must be a whole number".to_string(),
        }
    }
}

/// The value of a variable, or else what the file says.
pub open spec fn setting(
    vars: Seq<(String, String)>,
    name: Seq<char>,
    file: Seq<char>,
) -> Seq<char> {
    match value_of(vars, name) {
        Some(value) => value,
        None => file,
    }
}

/// The number of iterations that the variables and the file ask for, where the
/// variable holds a number of 32 bits.
pub open spec fn iterations_setting(vars: Seq<(String, String)>, file: u32) -> Option<nat> {
    match value_of(vars, "SITE_ENCRYPT_ITERATIONS"@) {
        Some(value) => match text::number_in(text::trimmed(value, Strip::White)) {
            Some(n) => if n <= u32::MAX {
                Some(n)
            } else {
                None
            },
            None => None,
        },
        None => Some(file as nat),
    }
}

/// The passwords of the bulk variable, where its value is a TOML table of
/// strings.
pub open spec fn bulk_setting(vars: Seq<(String, String)>) -> Option<Map<Seq<char>, Seq<char>>> {
    match value_of(vars, bulk_name()) {
        Some(value) => toml_strings(value),
        None => Some(Map::empty()),
    }
}

/// What is wrong with the variables, given what the bulk variable holds.
pub open spec fn env_fault(
    vars: Seq<(String, String)>,
    bulk: Option<Map<Seq<char>, Seq<char>>>,
    file: u32,
) -> Option<EnvError> {
    if bulk is None {
        Some(EnvError::Passwords)
    } else if iterations_setting(vars, file) is None {
        Some(EnvError::Iterations)
    } else {
        None
    }
}

/// A configuration after the variables were applied to it.
pub open spec fn is_overridden(
    before: Config,
    after: Config,
    vars: Seq<(String, String)>,
    bulk: Map<Seq<char>, Seq<char>>,
) -> bool {
    &&& after.passwords@ == overridden(before.passwords@.union_prefer_right(bulk), vars)
    &&& Some(after.encryption.iterations as nat) == iterations_setting(
        vars,
        before.encryption.iterations,
    )
    &&& after.feeds.placeholder@ == setting(
        vars,
        "SITE_ENCRYPT_FEED_PLACEHOLDER"@,
        before.feeds.placeholder@,
    )
    &&& after.output.ui.password_label@ == setting(
        vars,
        "SITE_ENCRYPT_PASSWORD_LABEL"@,
        before.output.ui.password_label@,
    )
    &&& after.output.ui.submit_label@ == setting(
        vars,
        "SITE_ENCRYPT_SUBMIT_LABEL"@,
        before.output.ui.submit_label@,
    )
    &&& after.output.ui.noscript_text@ == setting(
        vars,
        "SITE_ENCRYPT_NOSCRIPT_TEXT"@,
        before.output.ui.noscript_text@,
    )
    &&& after.scanner == before.scanner
    &&& after.output.class_name == before.output.class_name
    &&& after.feeds.enabled == before.feeds.enabled
    &&& after.feeds.paths == before.feeds.paths
    &&& after.feeds.strip_prefix == before.feeds.strip_prefix
    &&& after.feeds.base_url == before.feeds.base_url
}

fn apply_setting(vars: &Vec<(String, String)>, name: &str, target: &mut String)
    ensures
        final(target)@ == setting(vars@, name@, old(target)@),
{
    match lookup(vars, name) {
        Some(value) => {
            *target = value.to_string();
        },
        None => {},
    }
}

fn iterations_from(vars: &Vec<(String, String)>, file: u32) -> (r: Option<u32>)
    ensures
        r is Some <==> iterations_setting(vars@, file) is Some,
        r is Some ==> Some(r->0 as nat) == iterations_setting(vars@, file),
{
    match lookup(vars, "SITE_ENCRYPT_ITERATIONS") {
        Some(value) => parse_u32(trim(value, Strip::White)),
        None => Some(file),
    }
}

/// What the bulk variable holds, as pairs.
pub open spec fn bulk_view(bulk: Option<Vec<(String, String)>>) -> Option<
    Map<Seq<char>, Seq<char>>,
> {
    match bulk {
        Some(pairs) => Some(as_map(pairs@)),
        None => None,
    }
}

/// Applies the variables, given what the bulk variable holds: nothing if it
/// is not set, and `None` if its value is no TOML table of strings.
pub fn apply_overrides(
    config: &mut Config,
    vars: &Vec<(String, String)>,
    bulk: &Option<Vec<(String, String)>>,
) -> (r: Result<(), EnvError>)
    ensures
        match env_fault(vars@, bulk_view(*bulk), old(config).encryption.iterations) {
            Some(error) => r == Err::<(), EnvError>(error) && *final(config) == *old(config),
            None => r is Ok && is_overridden(
                *old(config),
                *final(config),
                vars@,
                bulk_view(*bulk)->0,
            ),
        },
{
    let pairs = match bulk {
        Some(pairs) => pairs,
        None => {
            return Err(EnvError::Passwords);
        },
    };
    let iterations: u32 = match iterations_from(vars, config.encryption.iterations) {
        Some(n) => n,
        None => {
            return Err(EnvError::Iterations);
        },
    };
    insert_all(&mut config.passwords, pairs);
    override_passwords(&mut config.passwords, vars);
    config.encryption.iterations = iterations;
    apply_setting(vars, "SITE_ENCRYPT_FEED_PLACEHOLDER", &mut config.feeds.placeholder);
    apply_setting(vars, "SITE_ENCRYPT_PASSWORD_LABEL", &mut config.output.ui.password_label);
    apply_setting(vars, "SITE_ENCRYPT_SUBMIT_LABEL", &mut config.output.ui.submit_label);
    apply_setting(vars, "SITE_ENCRYPT_NOSCRIPT_TEXT", &mut config.output.ui.noscript_text);
    Ok(())
}

/// Applies the variables to a configuration. Where they are not accepted, the
/// configuration stays as it is.
pub fn apply_env_overrides(config: &mut Config, vars: &Vec<(String, String)>) -> (r: Result<
    (),
    EnvError,
>)
    ensures
        match env_fault(vars@, bulk_setting(vars@), old(config).encryption.iterations) {
            Some(error) => r == Err::<(), EnvError>(error) && *final(config) == *old(config),
            None => r is Ok && is_overridden(
                *old(config),
                *final(config),
                vars@,
                bulk_setting(vars@)->0,
            ),
        },
{
    let bulk = match lookup(vars, "SITE_ENCRYPT_PASSWORDS") {
        Some(value) => parse_strings(value),
        None => Some(Vec::new()),
    };
    apply_overrides(config, vars, &bulk)
}

// ---------------------------------------------------------------------------
// Laws
// ---------------------------------------------------------------------------

/// The variable of an alias wins over the bulk variable, which wins over the
/// file.
pub proof fn law_precedence(
    file: Map<Seq<char>, Seq<char>>,
    bulk: Map<Seq<char>, Seq<char>>,
    vars: Seq<(String, String)>,
    alias: Seq<char>,
)
    requires
        file.contains_key(alias) || bulk.contains_key(alias) || is_settable(alias),
    ensures
        ({
            let all = overridden(file.union_prefer_right(bulk), vars);
            match value_of(vars, env_name(alias)) {
                Some(value) => all.contains_key(alias) && all[alias] == value,
                None => {
                    &&& all.contains_key(alias) == (file.contains_key(alias) || bulk.contains_key(
                        alias,
                    ))
                    &&& bulk.contains_key(alias) ==> all[alias] == bulk[alias]
                    &&& !bulk.contains_key(alias) && file.contains_key(alias) ==> all[alias]
                        == file[alias]
                },
            }
        }),
{
}

/// Variables that are blank change nothing.
pub proof fn law_blank_variables_are_ignored(
    before: Config,
    after: Config,
    vars: Seq<(String, String)>,
)
    requires
        forall|i: int| 0 <= i < vars.len() ==> text::is_blank((#[trigger] vars[i]).1@),
        is_overridden(before, after, vars, bulk_setting(vars)->0),
    ensures
        env_fault(vars, bulk_setting(vars), before.encryption.iterations) is None,
        after.passwords@ == before.passwords@,
        after.encryption.iterations == before.encryption.iterations,
        after.feeds.placeholder@ == before.feeds.placeholder@,
        after.output.ui.password_label@ == before.output.ui.password_label@,
        after.output.ui.submit_label@ == before.output.ui.submit_label@,
        after.output.ui.noscript_text@ == before.output.ui.noscript_text@,
{
    assert forall|name: Seq<char>| #[trigger] value_of(vars, name) is None by {
        lemma_value_of(vars, name);
    }
    assert(after.passwords@ =~= before.passwords@);
}

/// Applying the same variables once more changes nothing.
pub proof fn law_overriding_twice(
    file: Map<Seq<char>, Seq<char>>,
    bulk: Map<Seq<char>, Seq<char>>,
    vars: Seq<(String, String)>,
)
    ensures
        ({
            let once = overridden(file.union_prefer_right(bulk), vars);
            overridden(once.union_prefer_right(bulk), vars) == once
        }),
{
    let once = overridden(file.union_prefer_right(bulk), vars);
    let twice = overridden(once.union_prefer_right(bulk), vars);
    assert(twice =~= once);
}

/// The name of the variable of an alias is a fixed beginning and the alias, with
/// its lower-case letters in upper case, and `_` for what is neither a letter
/// nor a digit of ASCII.
pub proof fn law_env_name(alias: Seq<char>, i: int)
    ensures
        env_name(alias).len() == 23 + alias.len(),
        env_name(alias).take(23) == "SITE_ENCRYPT_PASSWORDS_"@,
        0 <= i < alias.len() ==> {
            let c = alias[i];
            let d = env_name(alias)[23 + i];
            &&& 'a' <= c <= 'z' ==> d as int == c as int - 32
            &&& 'A' <= c <= 'Z' || '0' <= c <= '9' ==> d == c
            &&& !('a' <= c <= 'z' || 'A' <= c <= 'Z' || '0' <= c <= '9') ==> d == '_'
        },
{
    reveal_strlit("SITE_ENCRYPT_PASSWORDS_");
    assert("SITE_ENCRYPT_PASSWORDS_"@.len() == 23);
    assert(env_name(alias).take(23) =~= "SITE_ENCRYPT_PASSWORDS_"@);
}

/// The name that is told for an alias is the one that is looked for.
pub proof fn law_told_name(alias: &str, name: String)
    requires
        call_ensures(env_name_for_alias, (alias,), name),
    ensures
        name@ == env_name(alias@),
{
}

/// A variable alone can bring in an alias of lower-case letters, digits and
/// `_`, and no other.
pub proof fn law_settable(alias: Seq<char>)
    ensures
        is_settable(alias) <==> alias.len() > 0 && forall|i: int|
            0 <= i < alias.len() ==> 'a' <= #[trigger] alias[i] <= 'z' || '0' <= alias[i] <= '9'
                || alias[i] == '_',
{
    if is_settable(alias) {
        assert forall|i: int| 0 <= i < alias.len() implies 'a' <= #[trigger] alias[i] <= 'z' || '0'
            <= alias[i] <= '9' || alias[i] == '_' by {
            assert(is_settable_char(alias[i]));
        }
    }
}

/// A variable counts as set exactly where its value is not blank. Of several
/// with one name, the first that is set counts.
pub proof fn law_value_of(vars: Seq<(String, String)>, name: Seq<char>)
    ensures
        match value_of(vars, name) {
            Some(value) => exists|i: int|
                {
                    &&& 0 <= i < vars.len()
                    &&& (#[trigger] vars[i]).0@ == name
                    &&& vars[i].1@ == value
                    &&& !text::is_blank(value)
                    &&& forall|j: int|
                        0 <= j < i && (#[trigger] vars[j]).0@ == name ==> text::is_blank(vars[j].1@)
                },
            None => forall|i: int|
                0 <= i < vars.len() && (#[trigger] vars[i]).0@ == name ==> text::is_blank(
                    vars[i].1@,
                ),
        },
    decreases vars.len(),
{
    if vars.len() > 0 {
        let rest = vars.drop_first();
        law_value_of(rest, name);
        assert forall|i: int| 0 < i < vars.len() implies #[trigger] vars[i] == rest[i - 1] by {}
        if vars[0].0@ == name && !text::is_blank(vars[0].1@) {
            assert(vars[0].1@ == value_of(vars, name)->0);
        } else if value_of(vars, name) is Some {
            let value = value_of(vars, name)->0;
            let i = choose|i: int|
                {
                    &&& 0 <= i < rest.len()
                    &&& (#[trigger] rest[i]).0@ == name
                    &&& rest[i].1@ == value
                    &&& !text::is_blank(value)
                    &&& forall|j: int|
                        0 <= j < i && (#[trigger] rest[j]).0@ == name ==> text::is_blank(rest[j].1@)
                };
            assert(vars[i + 1] == rest[i]);
            assert forall|j: int| 0 <= j < i + 1 && (#[trigger] vars[j]).0@
                == name implies text::is_blank(vars[j].1@) by {
                if j > 0 {
                    assert(rest[j - 1] == vars[j]);
                }
            }
        } else {
            assert forall|i: int| 0 <= i < vars.len() && (#[trigger] vars[i]).0@
                == name implies text::is_blank(vars[i].1@) by {
                if i > 0 {
                    assert(rest[i - 1] == vars[i]);
                }
            }
        }
    }
}

/// Which aliases have a password afterwards, and which one: those of the file
/// and of the bulk variable, and those that a variable alone brings in. An alias
/// that a variable cannot bring in is not brought in by one.
pub proof fn law_passwords_afterwards(
    before: Config,
    after: Config,
    vars: Seq<(String, String)>,
    bulk: Map<Seq<char>, Seq<char>>,
    alias: Seq<char>,
)
    requires
        is_overridden(before, after, vars, bulk),
    ensures
        after.passwords@.contains_key(alias) <==> before.passwords@.contains_key(alias)
            || bulk.contains_key(alias) || (is_settable(alias) && value_of(
            vars,
            env_name(alias),
        ) is Some),
        after.passwords@.contains_key(alias) ==> after.passwords@[alias] == (match value_of(
            vars,
            env_name(alias),
        ) {
            Some(value) => value,
            None => if bulk.contains_key(alias) {
                bulk[alias]
            } else {
                before.passwords@[alias]
            },
        }),
{
}

/// A setting is the value of its variable where that is set, and else what the
/// file says; what has no variable stays as it is.
pub proof fn law_settings_afterwards(
    before: Config,
    after: Config,
    vars: Seq<(String, String)>,
    bulk: Map<Seq<char>, Seq<char>>,
)
    requires
        is_overridden(before, after, vars, bulk),
    ensures
        value_of(vars, "SITE_ENCRYPT_FEED_PLACEHOLDER"@) matches Some(value)
            ==> after.feeds.placeholder@ == value,
        value_of(vars, "SITE_ENCRYPT_FEED_PLACEHOLDER"@) is None ==> after.feeds.placeholder@
            == before.feeds.placeholder@,
        value_of(vars, "SITE_ENCRYPT_PASSWORD_LABEL"@) matches Some(value)
            ==> after.output.ui.password_label@ == value,
        value_of(vars, "SITE_ENCRYPT_PASSWORD_LABEL"@) is None ==> after.output.ui.password_label@
            == before.output.ui.password_label@,
        value_of(vars, "SITE_ENCRYPT_SUBMIT_LABEL"@) matches Some(value)
            ==> after.output.ui.submit_label@ == value,
        value_of(vars, "SITE_ENCRYPT_SUBMIT_LABEL"@) is None ==> after.output.ui.submit_label@
            == before.output.ui.submit_label@,
        value_of(vars, "SITE_ENCRYPT_NOSCRIPT_TEXT"@) matches Some(value)
            ==> after.output.ui.noscript_text@ == value,
        value_of(vars, "SITE_ENCRYPT_NOSCRIPT_TEXT"@) is None ==> after.output.ui.noscript_text@
            == before.output.ui.noscript_text@,
        value_of(vars, "SITE_ENCRYPT_ITERATIONS"@) is None ==> after.encryption.iterations
            == before.encryption.iterations,
        value_of(vars, "SITE_ENCRYPT_ITERATIONS"@) matches Some(value) ==> text::number_in(
            text::trimmed(value, Strip::White),
        ) == Some(after.encryption.iterations as nat),
        after.scanner == before.scanner,
        after.output.class_name == before.output.class_name,
        after.feeds.enabled == before.feeds.enabled,
        after.feeds.paths == before.feeds.paths,
        after.feeds.strip_prefix == before.feeds.strip_prefix,
        after.feeds.base_url == before.feeds.base_url,
{
}

/// The variables are refused exactly where the bulk variable is set and no
/// table of strings, or that of the iterations is set and no number of 32 bits.
/// The first of the two is told.
pub proof fn law_refused_variables(vars: Seq<(String, String)>, file: u32)
    ensures
        env_fault(vars, bulk_setting(vars), file) == Some(EnvError::Passwords) <==> (value_of(
            vars,
            "SITE_ENCRYPT_PASSWORDS"@,
        ) matches Some(value) && toml_strings(value) is None),
        env_fault(vars, bulk_setting(vars), file) == Some(EnvError::Iterations) <==> {
            &&& value_of(vars, "SITE_ENCRYPT_PASSWORDS"@) matches Some(value) ==> toml_strings(
                value,
            ) is Some
            &&& value_of(vars, "SITE_ENCRYPT_ITERATIONS"@) matches Some(value)
            &&& text::number_in(text::trimmed(value, Strip::White)) matches Some(n) ==> n
                > 0xffff_ffff
        },
        value_of(vars, "SITE_ENCRYPT_PASSWORDS"@) is None ==> bulk_setting(vars) == Some(
            Map::<Seq<char>, Seq<char>>::empty(),
        ),
        value_of(vars, "SITE_ENCRYPT_PASSWORDS"@) matches Some(value) ==> bulk_setting(vars)
            == toml_strings(value),
{
}

/// Of several pairs with one key, the last one counts.
pub proof fn law_later_pairs_win(pairs: Seq<(String, String)>, pair: (String, String))
    ensures
        as_map(Seq::empty()) == Map::<Seq<char>, Seq<char>>::empty(),
        as_map(pairs.push(pair)).contains_key(pair.0@),
        as_map(pairs.push(pair))[pair.0@] == pair.1@,
        forall|key: Seq<char>|
            key != pair.0@ ==> (#[trigger] as_map(pairs.push(pair)).contains_key(key) <==> as_map(
                pairs,
            ).contains_key(key)) && (as_map(pairs).contains_key(key) ==> as_map(
                pairs.push(pair),
            )[key] == as_map(pairs)[key]),
{
    assert(pairs.push(pair).drop_last() =~= pairs);
}

/// Applying the variables to a configuration: where they are refused, the error
/// says which of them is, and nothing changes; otherwise each setting is that of
/// its variable where it is set, and the passwords are those of the file, under
/// those of the bulk variable, under those of the single ones.
pub proof fn law_applying_variables(
    config: &mut Config,
    vars: &Vec<(String, String)>,
    r: Result<(), EnvError>,
)
    requires
        call_ensures(apply_env_overrides, (config, vars), r),
    ensures
        r == Err::<(), EnvError>(EnvError::Passwords) <==> (value_of(
            vars@,
            "SITE_ENCRYPT_PASSWORDS"@,
        ) matches Some(value) && toml_strings(value) is None),
        r == Err::<(), EnvError>(EnvError::Iterations) <==> {
            &&& value_of(vars@, "SITE_ENCRYPT_PASSWORDS"@) matches Some(value) ==> toml_strings(
                value,
            ) is Some
            &&& value_of(vars@, "SITE_ENCRYPT_ITERATIONS"@) matches Some(value)
            &&& text::number_in(text::trimmed(value, Strip::White)) matches Some(n) ==> n
                > 0xffff_ffff
        },
        r is Err ==> *final(config) == *old(config),
        r is Ok ==> {
            let bulk = match value_of(vars@, "SITE_ENCRYPT_PASSWORDS"@) {
                Some(value) => toml_strings(value)->0,
                None => Map::empty(),
            };
            &&& is_overridden(*old(config), *final(config), vars@, bulk)
            &&& forall|alias: Seq<char>|
                {
                    &&& #[trigger] final(config).passwords@.contains_key(alias) <==> old(config).passwords@.contains_key(alias) || bulk.contains_key(alias) || (is_settable(
                        alias,
                    ) && value_of(vars@, env_name(alias)) is Some)
                    &&& final(config).passwords@.contains_key(alias) ==> final(config).passwords@[alias] == (match value_of(vars@, env_name(alias)) {
                        Some(value) => value,
                        None => if bulk.contains_key(alias) {
                            bulk[alias]
                        } else {
                            old(config).passwords@[alias]
                        },
                    })
                }
        },
{
    law_refused_variables(vars@, old(config).encryption.iterations);
}

/// The same, where what the bulk variable holds is given as pairs.
pub proof fn law_applying_given_pairs(
    config: &mut Config,
    vars: &Vec<(String, String)>,
    bulk: &Option<Vec<(String, String)>>,
    r: Result<(), EnvError>,
)
    requires
        call_ensures(apply_overrides, (config, vars, bulk), r),
    ensures
        r == Err::<(), EnvError>(EnvError::Passwords) <==> bulk is None,
        r is Err ==> *final(config) == *old(config),
        r is Ok ==> is_overridden(*old(config), *final(config), vars@, as_map(bulk->0@)),
        bulk is Some ==> (r == Err::<(), EnvError>(EnvError::Iterations) <==> {
            &&& value_of(vars@, "SITE_ENCRYPT_ITERATIONS"@) matches Some(value)
            &&& text::number_in(text::trimmed(value, Strip::White)) matches Some(n) ==> n
                > 0xffff_ffff
        }),
{
}

} // verus!
