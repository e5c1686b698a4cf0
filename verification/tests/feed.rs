use site_encrypt::feed::{redact_feed, xml_escape};
use site_encrypt::url::FileSet;

const ATOM: &str = r#"<?xml version="1.0" encoding="UTF-8"?>
<feed xmlns="http://www.w3.org/2005/Atom">
<entry><title>t1</title><link rel="alternate" type="text/html" href="http://localhost:3000/blog/secret/"/><id>1</id><content type="html">&lt;p&gt;hidden body&lt;/p&gt;</content><summary>hidden summary</summary></entry>
<entry><title>t2</title><link href="https://example.com/blog/open/" rel="alternate"/><id>2</id><content type="html">&lt;p&gt;public body&lt;/p&gt;</content></entry>
</feed>"#;

const RSS: &str = r#"<?xml version="1.0"?>
<rss version="2.0"><channel>
<item><title>t1</title><link>https://example.com/blog/secret/</link><description><p>hidden rss</p></description></item>
<item><title>t2</title><link>https://example.com/blog/open/</link><description><p>public rss</p></description></item>
</channel></rss>"#;

fn secret_files() -> FileSet {
    let mut set = FileSet::new();
    set.insert("blog/secret/index.html".to_string());
    set
}

#[test]
fn main_atom_feed_redaction() {
    let files = secret_files();
    let outcome = redact_feed(ATOM, "", "LOCKED", &files, false);
    assert_eq!(outcome.redacted, 1);
    let out = outcome.rewritten.unwrap();
    assert!(!out.contains("hidden body"));
    assert!(!out.contains("hidden summary"));
    assert!(out.contains("LOCKED"));
    assert!(out.contains("public body"));
    // rerun is a no-op
    let again = redact_feed(&out, "", "LOCKED", &files, false);
    assert_eq!(again.redacted, 0);
    assert!(again.rewritten.is_none());
}

#[test]
fn tests_atom_feed_redaction() {
    let files = secret_files();
    let outcome = redact_feed(ATOM, "", "LOCKED", &files, false);
    assert_eq!(outcome.redacted, 1);
    let out = outcome.rewritten.unwrap();
    let expected = r#"<?xml version="1.0" encoding="UTF-8"?>
<feed xmlns="http://www.w3.org/2005/Atom">
<entry><title>t1</title><link rel="alternate" type="text/html" href="http://localhost:3000/blog/secret/"/><id>1</id><content type="html">LOCKED</content><summary>LOCKED</summary></entry>
<entry><title>t2</title><link href="https://example.com/blog/open/" rel="alternate"/><id>2</id><content type="html">&lt;p&gt;public body&lt;/p&gt;</content></entry>
</feed>"#;
    assert_eq!(out, expected);
    assert!(!out.contains("hidden body"));
    assert!(!out.contains("hidden summary"));
    assert!(out.contains("LOCKED"));
    assert!(out.contains("public body"));
    let again = redact_feed(&out, "", "LOCKED", &files, false);
    assert_eq!(again.redacted, 0);
}

#[test]
fn main_rss_feed_redaction() {
    let files = secret_files();
    let outcome = redact_feed(RSS, "", "LOCKED", &files, false);
    assert_eq!(outcome.redacted, 1);
    let out = outcome.rewritten.unwrap();
    assert!(!out.contains("hidden rss"));
    assert!(out.contains("public rss"));
}

#[test]
fn tests_rss_feed_redaction() {
    let files = secret_files();
    let outcome = redact_feed(RSS, "", "LOCKED", &files, false);
    assert_eq!(outcome.redacted, 1);
    let out = outcome.rewritten.unwrap();
    let expected = r#"<?xml version="1.0"?>
<rss version="2.0"><channel>
<item><title>t1</title><link>https://example.com/blog/secret/</link><description>LOCKED</description></item>
<item><title>t2</title><link>https://example.com/blog/open/</link><description><p>public rss</p></description></item>
</channel></rss>"#;
    assert_eq!(out, expected);
    assert!(!out.contains("hidden rss"));
    assert!(out.contains("public rss"));
}

#[test]
fn dry_run_counts_and_writes_nothing() {
    let outcome = redact_feed(ATOM, "", "LOCKED", &secret_files(), true);
    assert_eq!(outcome.redacted, 1);
    assert!(outcome.rewritten.is_none());
}

#[test]
fn nothing_encrypted_means_nothing_redacted() {
    for feed in [ATOM, RSS] {
        let outcome = redact_feed(feed, "", "LOCKED", &FileSet::new(), false);
        assert_eq!(outcome.redacted, 0);
        assert!(outcome.rewritten.is_none());
    }
}

#[test]
fn entry_without_body_counts_but_stays() {
    let feed = "<entry><link rel=\"alternate\" href=\"/blog/secret/\"/></entry>";
    let outcome = redact_feed(feed, "", "LOCKED", &secret_files(), false);
    assert_eq!(outcome.redacted, 1);
    assert!(outcome.rewritten.is_none());
}

#[test]
fn prefix_decides_which_entries_are_hidden() {
    let feed = "<item><link>https://e.example/docs/blog/secret/</link><description>x</description></item>";
    let files = secret_files();
    assert_eq!(redact_feed(feed, "docs", "L", &files, false).redacted, 1);
    assert_eq!(redact_feed(feed, "other", "L", &files, false).redacted, 0);
    assert_eq!(redact_feed(feed, "", "L", &files, false).redacted, 1);
}

#[test]
fn overlapping_bodies_leave_no_trace() {
    // a summary inside the content: one placeholder for both
    let feed = "<entry><link rel=\"alternate\" href=\"/blog/secret/\"/><content>a<summary>secret</summary>b</content></entry>";
    let out = redact_feed(feed, "", "L", &secret_files(), false).rewritten.unwrap();
    assert_eq!(
        out,
        "<entry><link rel=\"alternate\" href=\"/blog/secret/\"/><content>L</content></entry>"
    );
}

#[test]
fn link_with_a_misleading_title_is_still_found() {
    let feed = "<entry><link title=\"see rel=self\" rel=\"alternate\" href=\"/blog/secret/\"/><content>body</content></entry>";
    let outcome = redact_feed(feed, "", "L", &secret_files(), false);
    assert_eq!(outcome.redacted, 1);
    assert!(!outcome.rewritten.unwrap().contains("body"));
}

#[test]
fn placeholder_is_escaped() {
    let feed = "<item><link>/blog/secret/</link><description>x</description></item>";
    let out = redact_feed(feed, "", "<b>&", &secret_files(), false).rewritten.unwrap();
    assert_eq!(
        out,
        "<item><link>/blog/secret/</link><description>&lt;b&gt;&amp;</description></item>"
    );
}

#[test]
fn text_around_multibyte_characters_is_kept() {
    let feed = "<item>\u{4e2d}<link>/blog/secret/</link><description>\u{6587}</description>\u{e9}</item>\u{1f512}";
    let out = redact_feed(feed, "", "\u{9501}", &secret_files(), false).rewritten.unwrap();
    assert_eq!(
        out,
        "<item>\u{4e2d}<link>/blog/secret/</link><description>\u{9501}</description>\u{e9}</item>\u{1f512}"
    );
}

#[test]
fn xml_escaping() {
    assert_eq!(xml_escape("a & <b> \"c\""), "a &amp; &lt;b&gt; \"c\"");
    assert_eq!(xml_escape(""), "");
    assert_eq!(xml_escape("&lt;"), "&amp;lt;");
}

#[test]
fn redacting_twice_changes_nothing_more() {
    let files = secret_files();
    for feed in [ATOM, RSS] {
        let once = redact_feed(feed, "", "LOCKED & <sealed>", &files, false).rewritten.unwrap();
        let twice = redact_feed(&once, "", "LOCKED & <sealed>", &files, false);
        assert_eq!(twice.redacted, 0);
        assert!(twice.rewritten.is_none());
        // another placeholder takes the place of the first
        let other = redact_feed(&once, "", "x", &files, false);
        assert_eq!(other.redacted, 1);
        assert!(!other.rewritten.unwrap().contains("sealed"));
    }
}

#[test]
fn redacting_twice_with_tags_in_the_bodies() {
    let files = secret_files();
    let link = "<link rel=\"alternate\" href=\"/blog/secret/\"/>";
    let item_link = "<link>/blog/secret/</link>";
    for feed in [
        // a link in the body, behind the link of the entry
        format!("<entry>{link}<content>a <link> b <link rel=\"x\"/></content></entry>"),
        format!("<item>{item_link}<description>a <link> b</description></item>"),
        // a quoted `<` in a tag that is looked for
        format!("<entry>{link}<content type=\"a<b\">c</content></entry>"),
        format!("<entry title='a<b'>{link}<content>c</content></entry>"),
        // entries in a body
        format!("<entry>{link}<content>a <entry> b <item><link>/x/</link></item></content></entry>"),
        format!("<item>{item_link}<description>a <entry>b</entry> c</description></item>"),
        // the body before the link
        format!("<entry><content>a <link/> b</content>{link}</entry>"),
        format!("<item><description>a <link /> b</description>{item_link}</item>"),
    ] {
        let outcome = redact_feed(&feed, "", "LOCKED", &files, false);
        assert_eq!(outcome.redacted, 1, "{feed}");
        let once = outcome.rewritten.unwrap();
        assert!(once.contains(">LOCKED</"), "{once}");
        let twice = redact_feed(&once, "", "LOCKED", &files, false);
        assert_eq!(twice.redacted, 0, "{once}");
        assert!(twice.rewritten.is_none(), "{once}");
    }
}
