use aes_gcm::aead::{Aead, KeyInit};
use aes_gcm::{Aes256Gcm, Nonce};
use base64::engine::general_purpose::URL_SAFE_NO_PAD;
use base64::Engine;
use site_encrypt::config::{
    default_password_id_attribute, Config, EncryptionConfig, FeedsConfig, OutputConfig, Rule,
    ScannerConfig, UiStrings,
};
use site_encrypt::crypto::{decrypt, encrypt_with, Encrypted};
use site_encrypt::dom::{fits_parser, Page, MAX_BUFFER};
use site_encrypt::node::{
    encrypt_node, inner_markup, plan_node, publish_form, publish_on_node, NodeError,
};
use site_encrypt::page::{
    find_targets, process_page, validate_selectors, PageError, SelectorError,
};
use site_encrypt::secrets::{Passwords, Secret};

fn test_rule(content_selector: Option<&str>) -> Rule {
    Rule {
        selector: "#box".to_string(),
        password_id_attribute: "data-password-key".to_string(),
        hint_attribute: None,
        content_selector: content_selector.map(str::to_string),
    }
}

fn test_config(aliases: &[(&str, &str)]) -> Config {
    let mut passwords = Passwords::new();
    for (alias, password) in aliases {
        passwords.insert(alias.to_string(), Secret::new(password.to_string()));
    }
    Config {
        scanner: ScannerConfig {
            extensions: vec!["html".to_string()],
            exclude: vec![],
            rules: vec![],
        },
        encryption: EncryptionConfig { iterations: 100_000 },
        output: OutputConfig {
            class_name: "site-encrypt".to_string(),
            ui: UiStrings::default(),
        },
        feeds: FeedsConfig::default(),
        passwords,
    }
}

fn quick_config(aliases: &[(&str, &str)], rules: Vec<Rule>) -> Config {
    let mut config = test_config(aliases);
    config.encryption.iterations = 10;
    config.scanner.rules = rules;
    config
}

fn parse_doc(html: &str) -> Page {
    Page::parse(html).unwrap()
}

fn first(page: &Page, selector: &str) -> usize {
    page.select(0, selector).unwrap()[0]
}

fn decrypted(page: &Page, node: usize, password: &str) -> String {
    let get = |name: &str| page.attribute(node, name).unwrap();
    let salt = URL_SAFE_NO_PAD.decode(get("data-site-encrypt-salt")).unwrap();
    let nonce = URL_SAFE_NO_PAD.decode(get("data-site-encrypt-nonce")).unwrap();
    let sealed = URL_SAFE_NO_PAD.decode(get("data-site-encrypt-ciphertext")).unwrap();
    let iterations: u32 = get("data-site-encrypt-iterations").parse().unwrap();
    let mut key = [0u8; 32];
    pbkdf2::pbkdf2_hmac::<sha2::Sha256>(password.as_bytes(), &salt, iterations, &mut key);
    let cipher = Aes256Gcm::new_from_slice(&key).unwrap();
    let opened = cipher.decrypt(Nonce::from_slice(&nonce), sealed.as_slice()).unwrap();
    String::from_utf8(opened).unwrap()
}

fn content_selector_mode() {
    let html = "<!DOCTYPE html><html><body>\
        <div class=\"encrypted\" id=\"encryptedBox\" data-password-key=\"k1\">\
        <form><input type=\"password\"></form></div>\
        <div class=\"article__content\" id=\"articleContent\" hidden><p>secret</p></div>\
        </body></html>";
    let mut page = parse_doc(html);
    let rule = Rule {
        selector: "#encryptedBox".to_string(),
        password_id_attribute: "data-password-key".to_string(),
        hint_attribute: None,
        content_selector: Some("#articleContent".to_string()),
    };
    let config = test_config(&[("k1", "pw")]);
    let node = first(&page, "#encryptedBox");
    assert!(encrypt_node(&mut page, node, &rule, &config).unwrap());
    // content container emptied, theme lock UI untouched
    let content = first(&page, "#articleContent");
    assert_eq!(page.children(content).len(), 0);
    assert!(!page.select(0, "#encryptedBox form").unwrap().is_empty());
    // payload published on the matched node, alias attribute removed
    assert_eq!(page.attribute(node, "data-site-encrypt").as_deref(), Some("1"));
    assert_eq!(page.attribute(node, "data-site-encrypt-version").as_deref(), Some("1"));
    assert_eq!(page.attribute(node, "data-site-encrypt-kdf").as_deref(), Some("pbkdf2-sha256"));
    assert_eq!(page.attribute(node, "data-site-encrypt-iterations").as_deref(), Some("100000"));
    assert!(page.attribute(node, "data-site-encrypt-salt").is_some());
    assert!(page.attribute(node, "data-site-encrypt-nonce").is_some());
    assert!(page.attribute(node, "data-site-encrypt-ciphertext").is_some());
    assert_eq!(
        page.attribute(node, "data-site-encrypt-target").as_deref(),
        Some("#articleContent")
    );
    assert!(page.attribute(node, "data-password-key").is_none());
    assert_eq!(decrypted(&page, node, "pw"), "<p>secret</p>");
    // a second run is a no-op
    assert!(!encrypt_node(&mut page, node, &rule, &config).unwrap());
}

#[test]
fn main_content_selector_mode_encrypts_elsewhere_and_skips_rerun() {
    content_selector_mode();
}

#[test]
fn tests_content_selector_mode_encrypts_elsewhere_and_skips_rerun() {
    content_selector_mode();
}

fn multiple_matches() {
    let mut page = parse_doc(
        "<!DOCTYPE html><html><body>\
        <div id=\"box\" data-password-key=\"k1\"></div>\
        <div class=\"c\"><p>a</p></div><div class=\"c\"><p>b</p></div>\
        </body></html>",
    );
    let rule = test_rule(Some(".c"));
    let config = test_config(&[("k1", "pw")]);
    let node = first(&page, "#box");
    let err = encrypt_node(&mut page, node, &rule, &config).unwrap_err();
    assert!(err.message().contains("more than one"), "unexpected error: {}", err.message());
}

#[test]
fn main_content_selector_multiple_matches_is_an_error() {
    multiple_matches();
}

#[test]
fn tests_content_selector_multiple_matches_is_an_error() {
    multiple_matches();
}

fn unknown_password() {
    let mut page = parse_doc(
        "<!DOCTYPE html><html><body>\
        <div id=\"box\" data-password-key=\"nope\"></div>\
        <div id=\"content\"><p>secret</p></div>\
        </body></html>",
    );
    let rule = test_rule(Some("#content"));
    let config = test_config(&[("k1", "pw")]);
    let node = first(&page, "#box");
    let err = encrypt_node(&mut page, node, &rule, &config).unwrap_err();
    let msg = err.message();
    assert!(msg.contains("nope"), "unexpected error: {msg}");
    assert!(msg.contains("[passwords]"), "unexpected error: {msg}");
}

#[test]
fn main_unknown_password_id_error_names_the_fix() {
    unknown_password();
}

#[test]
fn tests_unknown_password_id_error_names_the_fix() {
    unknown_password();
}

#[test]
fn unknown_password_id_error_suggests_env() {
    let mut page = parse_doc(
        "<!DOCTYPE html><html><body>\
        <div id=\"box\" data-password-key=\"blog\"></div>\
        </body></html>",
    );
    let rule = test_rule(None);
    let config = test_config(&[]);
    let node = first(&page, "#box");
    let err = encrypt_node(&mut page, node, &rule, &config).unwrap_err();
    let msg = err.message();
    assert!(msg.contains("SITE_ENCRYPT_PASSWORDS_BLOG"), "unexpected error: {msg}");
}

#[test]
fn self_contained_mode_injects_unlock_ui() {
    let mut page = parse_doc(
        "<!DOCTYPE html><html><body>\
        <div id=\"box\" data-password-key=\"k1\" data-hint=\"pet name\"><p>secret</p></div>\
        </body></html>",
    );
    let rule = Rule {
        selector: "#box".to_string(),
        password_id_attribute: default_password_id_attribute(),
        hint_attribute: Some("data-hint".to_string()),
        content_selector: None,
    };
    let config = test_config(&[("k1", "pw")]);
    let node = first(&page, "#box");
    assert!(encrypt_node(&mut page, node, &rule, &config).unwrap());
    let html = page.write(node);
    assert!(html.contains("data-site-encrypt-ciphertext"), "{html}");
    assert!(html.contains("pet name"), "{html}");
    assert!(html.contains("__form"), "{html}");
    assert!(!html.contains("<p>secret</p>"), "{html}");
    assert!(!html.contains("data-password-key"), "{html}");
    assert!(!html.contains("data-hint"), "{html}");
    let root = first(&page, "#box > div.site-encrypt");
    assert_eq!(decrypted(&page, root, "pw"), "<p>secret</p>");
    // a second run fails instead of encrypting once more
    let err = encrypt_node(&mut page, node, &rule, &config).unwrap_err();
    assert!(
        err.message().contains("missing password attribute"),
        "unexpected error: {}",
        err.message()
    );
}

#[test]
fn pages_keep_their_text() {
    let page = parse_doc("<p id=a>x<b>y</b></p>");
    assert_eq!(
        page.write(0),
        "<html><head></head><body><p id=\"a\">x<b>y</b></p></body></html>"
    );
    let p = first(&page, "p");
    assert_eq!(page.write(p), "<p id=\"a\">x<b>y</b></p>");
    assert_eq!(page.children(p).len(), 2);
    assert_eq!(inner_markup(&page, p), "x<b>y</b>");
    assert!(page.is_element(p));
    assert!(!page.is_element(0));
    assert!(!page.is_element(page.children(p)[0]));
    assert_eq!(page.len(), 8);
}

#[test]
fn attributes_of_elements() {
    let mut page = parse_doc("<p a=1 b=2></p>");
    let p = first(&page, "p");
    assert_eq!(page.attribute(p, "a").as_deref(), Some("1"));
    assert_eq!(page.attribute(p, "c"), None);
    page.set_attribute(p, "c", "\"3\"".to_string());
    page.set_attribute(p, "a", "4".to_string());
    page.remove_attribute(p, "b");
    page.remove_attribute(p, "none");
    assert_eq!(page.write(p), "<p a=\"4\" c=\"&quot;3&quot;\"></p>");
}

#[test]
fn clearing_and_filling() {
    let mut page = parse_doc("<div id=d><i>1</i>2<b>3</b></div><p>4</p>");
    let d = first(&page, "#d");
    page.clear(d);
    assert!(page.children(d).is_empty());
    assert_eq!(page.write(d), "<div id=\"d\"></div>");
    page.fill(d, "<u>5</u>6");
    assert_eq!(page.write(d), "<div id=\"d\"><u>5</u>6</div>");
    page.fill(d, "7");
    assert_eq!(page.write(d), "<div id=\"d\"><u>5</u>67</div>");
    assert_eq!(page.write(first(&page, "p")), "<p>4</p>");
    assert_eq!(page.select(0, "u").unwrap().len(), 1);
    assert_eq!(page.select(0, "i").unwrap().len(), 0);
}

#[test]
fn selecting() {
    let page = parse_doc("<div class=c><p>1</p></div><p class=c>2</p>");
    let both = page.select(0, ".c").unwrap();
    assert_eq!(both.len(), 2);
    assert!(both[0] < both[1]);
    assert_eq!(page.select(both[0], "p").unwrap().len(), 1);
    assert!(page.select(0, "p[").is_none());
    assert!(page.select(0, "article").unwrap().is_empty());
}

#[test]
fn each_fault_of_a_node() {
    let html = "<div id=a></div><div id=b data-password-key=k></div><p>x</p><p>y</p>";
    let config = quick_config(&[("k", "pw")], vec![]);
    let mut page = parse_doc(html);
    let a = first(&page, "#a");
    let b = first(&page, "#b");
    let err = encrypt_node(&mut page, 0, &test_rule(None), &config).unwrap_err();
    assert!(matches!(err, NodeError::NotAnElement));
    assert_eq!(err.message(), "selected node is not an element");
    let err = encrypt_node(&mut page, a, &test_rule(None), &config).unwrap_err();
    assert_eq!(err.message(), "missing password attribute 'data-password-key'");
    let err = encrypt_node(&mut page, b, &test_rule(Some("p[")), &config).unwrap_err();
    assert_eq!(err.message(), "invalid content selector: p[");
    let err = encrypt_node(&mut page, b, &test_rule(Some("i")), &config).unwrap_err();
    assert_eq!(err.message(), "content selector matched nothing: i");
    let err = encrypt_node(&mut page, b, &test_rule(Some("p")), &config).unwrap_err();
    assert_eq!(
        err.message(),
        "content selector matched more than one node (expected exactly one): p"
    );
    let err = encrypt_node(&mut page, b, &test_rule(None), &quick_config(&[], vec![])).unwrap_err();
    assert_eq!(
        err.message(),
        "no password configured for password id 'k'; add it to [passwords] in the config or set SITE_ENCRYPT_PASSWORDS_K"
    );
    assert_eq!(NodeError::TooLong.message(), "AES-GCM encryption failed");
    assert_eq!(
        NodeError::FormTooLong.message(),
        "the unlock form is too long to be parsed"
    );
    // nothing of this changed the page
    assert_eq!(page.write(0), parse_doc(html).write(0));
}

#[test]
fn plans_name_the_content_and_the_password() {
    let config = quick_config(&[("k", "pw")], vec![]);
    let page = parse_doc("<div id=box data-password-key=k></div><p>x</p>");
    let node = first(&page, "#box");
    let (content, password) = plan_node(&page, node, &test_rule(Some("p")), &config).unwrap().unwrap();
    assert_eq!(content, first(&page, "p"));
    assert_eq!(password.expose(), "pw");
    let (content, _) = plan_node(&page, node, &test_rule(None), &config).unwrap().unwrap();
    assert_eq!(content, node);
}

fn payload() -> Encrypted {
    Encrypted {
        salt: "S".to_string(),
        nonce: "N".to_string(),
        ciphertext: "C".to_string(),
        iterations: 10,
    }
}

#[test]
fn publishing_on_a_node() {
    let mut page = parse_doc("<i data-password-key=k title=t></i><p hidden>x</p>");
    let node = first(&page, "i");
    let content = first(&page, "p");
    publish_on_node(&mut page, node, content, &test_rule(Some("p")), "p", payload());
    assert_eq!(
        page.write(node),
        "<i data-site-encrypt=\"1\" data-site-encrypt-ciphertext=\"C\" data-site-encrypt-iterations=\"10\" data-site-encrypt-kdf=\"pbkdf2-sha256\" data-site-encrypt-nonce=\"N\" data-site-encrypt-salt=\"S\" data-site-encrypt-target=\"p\" data-site-encrypt-version=\"1\" title=\"t\"></i>"
    );
    assert_eq!(page.write(content), "<p hidden=\"\"></p>");
}

#[test]
fn publishing_a_form() {
    let config = quick_config(&[], vec![]);
    let mut page = parse_doc("<i data-password-key=k title=t>x</i>");
    let node = first(&page, "i");
    assert!(publish_form(&mut page, node, &test_rule(None), &config, &payload()));
    let html = page.write(node);
    assert!(html.starts_with("<i title=\"t\"><div class=\"site-encrypt\" data-site-encrypt=\"1\""), "{html}");
    assert!(html.ends_with("</noscript></div></i>"), "{html}");
    assert!(!html.contains('x') || !html.contains(">x<"), "{html}");
}

#[test]
fn content_may_be_the_matched_node() {
    let config = quick_config(&[("k", "pw")], vec![]);
    let mut page = parse_doc("<div id=box data-password-key=k><p>x</p></div>");
    let node = first(&page, "#box");
    assert!(encrypt_node(&mut page, node, &test_rule(Some("#box")), &config).unwrap());
    assert!(page.children(node).is_empty());
    assert_eq!(decrypted(&page, node, "pw"), "<p>x</p>");
}

#[test]
fn whole_pages() {
    let html = "<html><head></head><body><div id=\"box\" data-password-key=\"k\">a</div><p>b</p></body></html>";
    let config = quick_config(&[("k", "pw")], vec![test_rule(None)]);
    let outcome = process_page(html, &config, false).unwrap();
    assert_eq!(outcome.encrypted, 1);
    let out = outcome.rewritten.unwrap();
    assert!(out.starts_with("<html><head></head><body><div id=\"box\"><div class=\"site-encrypt\""));
    assert!(out.ends_with("</div></div><p>b</p></body></html>"));
    assert!(!out.contains("data-password-key"));
    assert!(!out.contains("pw\""));
    // a second run tells the missing id
    let err = process_page(&out, &config, false).err().unwrap();
    assert_eq!(
        err.message(),
        "rule '#box': missing password attribute 'data-password-key'"
    );
}

#[test]
fn dry_run_writes_no_page() {
    let html = "<div id=box data-password-key=k>a</div>";
    let config = quick_config(&[("k", "pw")], vec![test_rule(None)]);
    let outcome = process_page(html, &config, true).unwrap();
    assert_eq!(outcome.encrypted, 1);
    assert!(outcome.rewritten.is_none());
}

#[test]
fn page_without_targets_is_not_written() {
    let config = quick_config(&[("k", "pw")], vec![test_rule(None)]);
    let outcome = process_page("<p>a</p>", &config, false).unwrap();
    assert_eq!(outcome.encrypted, 0);
    assert!(outcome.rewritten.is_none());
}

#[test]
fn processed_page_is_left_alone_on_a_second_run() {
    let html = "<div id=box data-password-key=k>a</div><p>b</p>";
    let config = quick_config(&[("k", "pw")], vec![test_rule(Some("p"))]);
    let out = process_page(html, &config, false).unwrap().rewritten.unwrap();
    let again = process_page(&out, &config, false).unwrap();
    assert_eq!(again.encrypted, 0);
    assert!(again.rewritten.is_none());
}

#[test]
fn node_of_two_rules_is_encrypted_once() {
    let second = Rule { selector: "div".to_string(), ..test_rule(None) };
    let config = quick_config(&[("k", "pw")], vec![test_rule(None), second]);
    let page = parse_doc("<div data-password-key=k>1</div><div id=box data-password-key=k>2</div>");
    let found = find_targets(&page, &config.scanner.rules).unwrap();
    let divs = page.select(0, "div").unwrap();
    assert_eq!(found, vec![(divs[1], 0), (divs[0], 1)]);
    let html = "<div data-password-key=k>1</div><div id=box data-password-key=k>2</div>";
    assert_eq!(process_page(html, &config, false).unwrap().encrypted, 2);
}

#[test]
fn all_faults_of_a_page_are_told() {
    let html = "<div id=box></div><p data-password-key=no></p><i data-password-key=k>x</i>";
    let rules = vec![
        test_rule(None),
        Rule { selector: "p".to_string(), ..test_rule(None) },
        Rule { selector: "i".to_string(), ..test_rule(None) },
    ];
    let config = quick_config(&[("k", "pw")], rules);
    let err = process_page(html, &config, false).err().unwrap();
    assert_eq!(
        err.message(),
        "rule '#box': missing password attribute 'data-password-key'; rule 'p': no password configured for password id 'no'; add it to [passwords] in the config or set SITE_ENCRYPT_PASSWORDS_NO"
    );
    assert!(matches!(err, PageError::Nodes(lines) if lines.len() == 2));
}

#[test]
fn bad_selectors() {
    let bad = Rule { selector: "a[".to_string(), ..test_rule(None) };
    let config = quick_config(&[], vec![test_rule(None), bad]);
    let err = process_page("<p>", &config, false).err().unwrap();
    assert_eq!(err.message(), "invalid CSS selector: a[");
    let err = validate_selectors(&config).unwrap_err();
    assert!(matches!(err, SelectorError::Selector(_)));
    assert_eq!(err.message(), "invalid CSS selector: a[");
    let config = quick_config(&[], vec![test_rule(Some("b["))]);
    let err = validate_selectors(&config).unwrap_err();
    assert!(matches!(err, SelectorError::Content(_)));
    assert_eq!(err.message(), "invalid content selector: b[");
    let config = quick_config(&[], vec![test_rule(None), test_rule(Some("main > p"))]);
    assert!(validate_selectors(&config).is_ok());
}

#[test]
fn other_passwords_give_the_same_page_but_for_the_payload() {
    let html = "<div id=box data-password-key=k>a</div>";
    let outs: Vec<String> = ["one", "two"]
        .iter()
        .map(|password| {
            let mut page = parse_doc(html);
            let config = quick_config(&[("k", password)], vec![]);
            let node = first(&page, "#box");
            assert!(publish_form(&mut page, node, &test_rule(None), &config, &payload()));
            page.write(0)
        })
        .collect();
    assert_eq!(outs[0], outs[1]);
}

#[test]
fn other_passwords_tell_in_the_ciphertext_alone() {
    let html = "<div id=box data-password-key=k>a</div><p>b</p>";
    let outs: Vec<(String, String)> = ["one", "two"]
        .iter()
        .map(|password| {
            let payload = || encrypt_with("b", password, 10, &[1; 16], &[2; 12]).unwrap();
            let ciphertext = payload().ciphertext;
            let mut page = parse_doc(html);
            let config = quick_config(&[("k", password)], vec![]);
            let node = first(&page, "#box");
            let content = first(&page, "p");
            publish_on_node(&mut page, node, content, &test_rule(Some("p")), "p", payload());
            let own = page.write(0);
            let mut page = parse_doc(html);
            assert!(publish_form(&mut page, node, &test_rule(None), &config, &payload()));
            let new = page.write(0);
            assert_eq!(own.matches(&ciphertext).count(), 1);
            assert_eq!(new.matches(&ciphertext).count(), 1);
            (ciphertext.clone(), own.replace(&ciphertext, "") + &new.replace(&ciphertext, ""))
        })
        .collect();
    assert_ne!(outs[0].0, outs[1].0);
    assert_eq!(outs[0].0.len(), outs[1].0.len());
    assert_eq!(outs[0].1, outs[1].1);
}

#[test]
fn browser_gets_the_content_back() {
    let config = quick_config(&[("k", "pw")], vec![]);
    let mut page = parse_doc("<div id=box data-password-key=k></div><p>x <b>&amp;</b></p>");
    let node = first(&page, "#box");
    assert!(encrypt_node(&mut page, node, &test_rule(Some("p")), &config).unwrap());
    let get = |name: &str| page.attribute(node, name).unwrap();
    let read = Encrypted {
        salt: get("data-site-encrypt-salt"),
        nonce: get("data-site-encrypt-nonce"),
        ciphertext: get("data-site-encrypt-ciphertext"),
        iterations: get("data-site-encrypt-iterations").parse().unwrap(),
    };
    assert_eq!(read.iterations, 10);
    assert_eq!(decrypt(&read, "pw").as_deref(), Some("x <b>&amp;</b>"));
    assert_eq!(decrypt(&read, "wp"), None);
}

#[test]
fn form_takes_the_place_of_all_that_was_there() {
    let config = quick_config(&[("k", "pw")], vec![]);
    let mut page = parse_doc("<div id=box data-password-key=k><p>x</p>y</div>");
    let before = page.len();
    let node = first(&page, "#box");
    assert!(encrypt_node(&mut page, node, &test_rule(None), &config).unwrap());
    let children = page.children(node);
    assert!(!children.is_empty());
    assert!(children.iter().all(|child| *child >= before));
}

#[test]
fn page_error_texts() {
    assert_eq!(PageError::TooLong.message(), "the page is too long to be parsed");
}

#[test]
fn pages_that_are_too_long() {
    let most = (MAX_BUFFER / 3) as usize;
    let html = "\0".repeat(most + 1);
    assert!(fits_parser(&html[1..]));
    assert!(!fits_parser(&html));
    // a reference that shrinks counts by its own bytes
    assert!(fits_parser(&"&lt;".repeat(430_000_000)));
    assert!(Page::parse(&html).is_none());
    let err = process_page(&html, &quick_config(&[], vec![]), false).err().unwrap();
    assert!(matches!(err, PageError::TooLong));
}

#[test]
fn forms_that_are_too_long() {
    let config = quick_config(&[], vec![]);
    let mut page = parse_doc("<i data-password-key=k>x</i>");
    let before = page.write(0);
    let node = first(&page, "i");
    let huge = Encrypted { ciphertext: "\0".repeat((MAX_BUFFER / 3) as usize), ..payload() };
    assert!(!publish_form(&mut page, node, &test_rule(None), &config, &huge));
    assert_eq!(page.write(0), before);
}
