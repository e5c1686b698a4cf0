use site_encrypt::url::{is_encrypted_url, strip_url_suffix, url_path, FileSet};

fn files(names: &[&str]) -> FileSet {
    let mut set = FileSet::new();
    for name in names {
        set.insert(name.to_string());
    }
    set
}

#[test]
fn main_encrypted_url_mapping() {
    let set = files(&["blog/secret/index.html"]);
    assert!(is_encrypted_url("/site", "https://example.com/site/blog/secret/", &set));
    assert!(is_encrypted_url("site", "https://example.com/site/blog/secret", &set));
    assert!(is_encrypted_url(
        "/site",
        "https://example.com/site/blog/secret/?x=1#frag",
        &set
    ));
    assert!(!is_encrypted_url("/site", "https://example.com/site/blog/open/", &set));
    assert!(!is_encrypted_url("/site", "https://example.com/other/blog/secret/", &set));
    assert!(!is_encrypted_url("/site", "https://example.com/site-blog/secret/", &set));
    assert!(is_encrypted_url("", "http://localhost:3000/blog/secret/", &set));
    assert!(is_encrypted_url("", "/blog/secret/", &set));
    assert!(is_encrypted_url("/site", "https://other.example/site/blog/secret/", &set));
}

#[test]
fn tests_encrypted_url_mapping() {
    let set = files(&["blog/secret/index.html"]);
    // any host, bare or absolute
    assert!(is_encrypted_url("", "https://example.com/blog/secret/", &set));
    assert!(is_encrypted_url("", "https://example.com/blog/secret", &set));
    assert!(is_encrypted_url("", "https://example.com/blog/secret/?x=1#frag", &set));
    assert!(is_encrypted_url("", "http://localhost:3000/blog/secret/", &set));
    assert!(is_encrypted_url("", "/blog/secret/", &set));
    // leading segments peel off
    assert!(is_encrypted_url("", "https://example.com/site/blog/secret/", &set));
    assert!(is_encrypted_url("", "https://example.com/docs/v2/blog/secret/", &set));
    // other tails never match
    assert!(!is_encrypted_url("", "https://example.com/blog/open/", &set));
    assert!(!is_encrypted_url("", "https://example.com/site-blog/open/", &set));
    // a public page with the same tail counts too
    assert!(is_encrypted_url("", "https://other.example/archive/blog/secret/", &set));
}

#[test]
fn encrypted_url_homepage() {
    let set = files(&["index.html"]);
    assert!(is_encrypted_url("", "https://example.com/", &set));
    assert!(!is_encrypted_url("", "https://example.com/blog/", &set));
}

#[test]
fn subpath_root_is_the_home_page() {
    let set = files(&["index.html"]);
    assert!(is_encrypted_url("/site", "https://example.com/site/", &set));
    assert!(is_encrypted_url("/site/", "https://example.com/site", &set));
    assert!(!is_encrypted_url("/site", "https://example.com/", &set));
}

#[test]
fn page_files_are_found_in_three_forms() {
    assert!(is_encrypted_url("", "/a/b", &files(&["a/b/index.html"])));
    assert!(is_encrypted_url("", "/a/b", &files(&["a/b.html"])));
    assert!(is_encrypted_url("", "/a/b.html", &files(&["a/b.html"])));
    assert!(!is_encrypted_url("", "/a/b", &files(&["a/b/other.html"])));
    assert!(!is_encrypted_url("", "/a/b", &FileSet::new()));
}

#[test]
fn paths_of_addresses() {
    assert_eq!(url_path("https://example.com/a/b?x#y"), "/a/b");
    assert_eq!(url_path("//example.com/a"), "/a");
    assert_eq!(url_path("https://example.com"), "");
    assert_eq!(url_path("  /a/b  "), "/a/b");
    assert_eq!(url_path("a/b"), "a/b");
    assert_eq!(url_path("file:///a"), "/a");
    // a mark behind a slash ends no scheme
    assert_eq!(url_path("/go/http://x.org/y"), "/go/http://x.org/y");
    assert_eq!(url_path("go/http://x.org/y"), "go/http://x.org/y");
    assert_eq!(url_path("//host/http://x.org/y"), "/http://x.org/y");
    assert_eq!(url_path("https://host/http://x.org/y"), "/http://x.org/y");
    assert_eq!(url_path(""), "");
}

#[test]
fn suffixes_of_addresses() {
    assert_eq!(strip_url_suffix("/a?x=1#f"), "/a");
    assert_eq!(strip_url_suffix("/a#f?x"), "/a");
    assert_eq!(strip_url_suffix("/a"), "/a");
    assert_eq!(strip_url_suffix("?x"), "");
}

#[test]
fn hosts_do_not_count() {
    let set = files(&["blog/secret/index.html"]);
    for host in ["example.com", "localhost:3000", "other.example"] {
        let url = format!("https://{host}/blog/secret/");
        assert!(is_encrypted_url("", &url, &set));
        assert_eq!(url_path(&url), "/blog/secret/");
    }
}

#[test]
fn file_sets_count_each_file_once() {
    let set = files(&["a.html", "b.html", "a.html"]);
    assert_eq!(set.len(), 2);
    assert!(set.contains("a.html"));
    assert!(!set.contains("c.html"));
    assert!(!set.is_empty());
    assert!(FileSet::new().is_empty());
}

#[test]
fn what_is_taken_for_the_home_page() {
    let set = files(&["index.html"]);
    for url in ["/", "/index", "/index.html", "/a/index", "/a/b/index.html"] {
        assert!(is_encrypted_url("", url, &set), "{url}");
    }
    for url in ["/a", "/index/a", "/xindex", "/index.htm", "/a/index.html.html"] {
        assert!(!is_encrypted_url("", url, &set), "{url}");
    }
}
