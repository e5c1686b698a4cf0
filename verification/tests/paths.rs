use site_encrypt::paths::{is_supported_extension, is_supported_html, rel_path, rel_path_from};

#[test]
fn relative_paths() {
    assert_eq!(rel_path("public", "public/blog/index.html"), "blog/index.html");
    assert_eq!(rel_path("/tmp/site", "/tmp/site/a.html"), "a.html");
    assert_eq!(rel_path("public", "other/a.html"), "other/a.html");
    assert_eq!(rel_path("public", "publicity/a.html"), "publicity/a.html");
    assert_eq!(rel_path("public", "public"), "");
    assert_eq!(rel_path("public/", "public/a.html"), "a.html");
    assert_eq!(rel_path("./public", "./public/a.html"), "a.html");
    assert_eq!(rel_path(".", "./a/b.html"), "a/b.html");
    assert_eq!(rel_path(".", "a.html"), "a.html");
    assert_eq!(rel_path("../site", "../site/x"), "x");
    assert_eq!(rel_path("public", "public/posts/10:30.html"), "posts/10:30.html");
    assert_eq!(rel_path("at:home", "at:home/a.html"), "a.html");
}

#[test]
fn paths_below_the_input_in_other_forms() {
    assert_eq!(rel_path("public", "public/a\\b.html"), "a/b.html");
    assert_eq!(rel_path("public", "public//a.html"), "a.html");
    assert_eq!(rel_path("public", "public/a//b.html"), "a//b.html");
    assert_eq!(rel_path("public", "public/./a.html"), "a.html");
    assert_eq!(rel_path("public", "public/././/a/./b.html"), "a/./b.html");
    assert_eq!(rel_path("public", "public/a/."), "a");
    assert_eq!(rel_path("public", "public/a//"), "a");
    assert_eq!(rel_path("public", "public/"), "");
    assert_eq!(rel_path("public", "public/."), "");
    assert_eq!(rel_path("public//", "public//a.html"), "a.html");
    assert_eq!(rel_path("public/.", "public/./a.html"), "a.html");
    assert_eq!(rel_path("a//b", "a//b/c.html"), "c.html");
    assert_eq!(rel_path("a\\b", "a\\b/c.html"), "c.html");
    assert_eq!(rel_path("/", "/a.html"), "a.html");
    assert_eq!(rel_path("public", "public/../a.html"), "../a.html");
}

#[test]
fn backslashes_become_slashes() {
    assert_eq!(rel_path_from(Some("blog\\a.html"), "x"), "blog/a.html");
    assert_eq!(rel_path_from(None, "c\\d"), "c/d");
    assert_eq!(rel_path_from(Some(""), "x"), "");
}

#[test]
fn supported_files() {
    let extensions = vec!["html".to_string(), ".xhtml".to_string()];
    assert!(is_supported_html("a/index.html", &extensions));
    assert!(is_supported_html("INDEX.HTML", &extensions));
    assert!(is_supported_html("a.xhtml", &extensions));
    assert!(!is_supported_html("a.htm", &extensions));
    assert!(!is_supported_html("html", &extensions));
    assert!(!is_supported_html(".html", &extensions));
    assert!(!is_supported_html("a.html/b", &extensions));
    assert!(is_supported_html("a.b.html", &extensions));
    assert!(is_supported_html("posts/10:30.html", &extensions));
    assert!(!is_supported_html("posts/10:30.txt", &extensions));
    assert!(!is_supported_html("a.html", &vec![]));
    assert!(is_supported_html("a\\b/c.html", &extensions));
    assert!(is_supported_html("a//b.html", &extensions));
    assert!(is_supported_html("a/b.html/", &extensions));
    assert!(is_supported_html("a/b.html/.", &extensions));
    assert!(is_supported_html("c:/b.html", &extensions));
    assert!(!is_supported_html("a.html/..", &extensions));
    assert!(!is_supported_html("..", &vec![String::new()]));
    assert!(is_supported_html("...", &vec![String::new()]));
    assert!(!is_supported_html("/", &extensions));
    assert!(!is_supported_html("", &extensions));
}

#[test]
fn supported_extensions() {
    let extensions = vec!["..Html".to_string()];
    assert!(is_supported_extension(Some("hTML"), &extensions));
    assert!(!is_supported_extension(Some(""), &extensions));
    assert!(!is_supported_extension(None, &extensions));
    assert!(is_supported_extension(Some(""), &vec![".".to_string()]));
    // only ASCII letters are compared without case
    assert!(!is_supported_extension(Some("\u{c9}"), &vec!["\u{e9}".to_string()]));
}
