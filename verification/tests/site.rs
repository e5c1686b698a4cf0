use site_encrypt::config::{
    Config, EncryptionConfig, FeedsConfig, OutputConfig, Rule, ScannerConfig, UiStrings,
};
use site_encrypt::page::process_page;
use site_encrypt::secrets::{Passwords, Secret};
use site_encrypt::site::{
    failure, plan_feeds, skipped_feeds_warning, summary, wants_feed, wants_page, FeedsPlan, Pages,
};

fn site_config() -> Config {
    let mut passwords = Passwords::new();
    passwords.insert("k1".to_string(), Secret::new("pw".to_string()));
    Config {
        scanner: ScannerConfig {
            extensions: vec!["html".to_string()],
            exclude: vec![],
            rules: vec![Rule {
                selector: "#box".to_string(),
                password_id_attribute: "data-password-key".to_string(),
                hint_attribute: None,
                content_selector: Some("#content".to_string()),
            }],
        },
        encryption: EncryptionConfig { iterations: 100_000 },
        output: OutputConfig {
            class_name: "site-encrypt".to_string(),
            ui: UiStrings::default(),
        },
        feeds: FeedsConfig::default(),
        passwords,
    }
}

fn tree_collects_errors() {
    let files = [
        (
            "good.html",
            "<!DOCTYPE html><html><body>\
            <div id=\"box\" data-password-key=\"k1\"></div>\
            <div id=\"content\"><p>secret</p></div>\
            </body></html>",
        ),
        (
            "bad.html",
            "<!DOCTYPE html><html><body>\
            <div id=\"box\" data-password-key=\"nope\"></div>\
            <div id=\"content\"><p>secret</p></div>\
            </body></html>",
        ),
    ];
    let config = site_config();
    let mut pages = Pages::new();
    for (rel, html) in files {
        assert!(wants_page(&format!("dir/{rel}"), rel, &config));
        let outcome = match process_page(html, &config, true) {
            Ok(outcome) => Ok(outcome.encrypted),
            Err(error) => Err(error.message()),
        };
        pages.record(rel.to_string(), outcome);
    }
    assert_eq!(pages.files, 2);
    assert_eq!(pages.encrypted, 1);
    assert_eq!(pages.encrypted_files.len(), 1);
    assert_eq!(pages.errors.len(), 1);
    assert!(
        pages.errors[0].contains("bad.html") && pages.errors[0].contains("nope"),
        "unexpected errors: {:?}",
        pages.errors
    );
    assert!(pages.encrypted_files.contains("good.html"));
}

#[test]
fn main_html_tree_collects_per_file_errors_and_continues() {
    tree_collects_errors();
}

#[test]
fn tests_html_tree_collects_per_file_errors_and_continues() {
    tree_collects_errors();
}

#[test]
fn wanted_pages() {
    let mut config = site_config();
    config.scanner.exclude = vec!["print/**".to_string()];
    assert!(wants_page("public/a.html", "a.html", &config));
    assert!(!wants_page("public/print/a.html", "print/a.html", &config));
    assert!(!wants_page("public/a.css", "a.css", &config));
}

#[test]
fn wanted_feeds() {
    let mut config = site_config();
    assert!(wants_feed("atom.xml", &config));
    assert!(wants_feed("tags/x/rss.xml", &config));
    assert!(!wants_feed("sitemap.xml", &config));
    // feeds of other sites are excluded like pages
    config.scanner.exclude = vec!["planet/**".to_string()];
    assert!(!wants_feed("planet/atom.xml", &config));
}

#[test]
fn feeds_are_redacted_only_after_clean_runs() {
    let mut config = site_config();
    config.feeds.enabled = true;
    let mut pages = Pages::new();
    assert_eq!(plan_feeds(&pages, &config.feeds), FeedsPlan::Nothing);
    pages.record("a.html".to_string(), Ok(0));
    assert_eq!(plan_feeds(&pages, &config.feeds), FeedsPlan::Nothing);
    pages.record("b.html".to_string(), Ok(2));
    assert_eq!(plan_feeds(&pages, &config.feeds), FeedsPlan::Redact);
    config.feeds.enabled = false;
    assert_eq!(plan_feeds(&pages, &config.feeds), FeedsPlan::Nothing);
    config.feeds.enabled = true;
    assert!(failure(&pages).is_none());
    pages.record("c.html".to_string(), Err("broken".to_string()));
    pages.record("d.html".to_string(), Ok(1));
    assert_eq!(plan_feeds(&pages, &config.feeds), FeedsPlan::SkipAfterErrors);
    assert_eq!(pages.errors, vec!["c.html: broken".to_string()]);
    assert_eq!(pages.files, 4);
    assert_eq!(pages.encrypted, 3);
    assert_eq!(pages.encrypted_files.len(), 2);
}

#[test]
fn texts_of_a_run() {
    let mut pages = Pages::new();
    pages.record("b.html".to_string(), Ok(2));
    pages.record("c.html".to_string(), Err("broken".to_string()));
    assert_eq!(
        summary(&pages, 3, false),
        "Processed 2 HTML files; encrypted 2 node(s); redacted 3 feed entrie(s)."
    );
    assert_eq!(
        summary(&pages, 0, true),
        "Processed 2 HTML files; encrypted 2 node(s); redacted 0 feed entrie(s). (dry run)"
    );
    assert_eq!(
        skipped_feeds_warning(&pages),
        "warning: skipping feed redaction due to 1 HTML error(s)"
    );
    assert_eq!(
        failure(&pages).unwrap(),
        "1 HTML file(s) failed; output may be partially processed \u{2014} fix the errors, rebuild from clean, and re-run"
    );
}
