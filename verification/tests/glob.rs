use site_encrypt::glob::{glob_match, is_excluded};

#[test]
fn main_glob_matching() {
    assert!(glob_match("**/atom.xml", "atom.xml"));
    assert!(glob_match("**/atom.xml", "tags/foo/atom.xml"));
    assert!(!glob_match("**/atom.xml", "atom.xml.bak"));
    assert!(glob_match("*.html", "index.html"));
    assert!(!glob_match("*.html", "blog/index.html"));
    assert!(glob_match("blog/**", "blog/a/b"));
    assert!(glob_match("?.html", "a.html"));
    assert!(!glob_match("?.html", "ab.html"));
    assert!(!glob_match("404.html", "en/404.html"));
    assert!(glob_match("**/404.html", "en/404.html"));
}

#[test]
fn tests_glob_matching() {
    assert!(glob_match("**/atom.xml", "atom.xml"));
    assert!(glob_match("**/atom.xml", "tags/foo/atom.xml"));
    assert!(!glob_match("**/atom.xml", "atom.xml.bak"));
    assert!(glob_match("*.html", "index.html"));
    assert!(!glob_match("*.html", "blog/index.html"));
    assert!(glob_match("blog/**", "blog/a/b"));
    assert!(glob_match("?.html", "a.html"));
    assert!(!glob_match("?.html", "ab.html"));
    assert!(!glob_match("404.html", "en/404.html"));
    assert!(glob_match("**/404.html", "en/404.html"));
}

#[test]
fn literal_patterns_match_themselves_only() {
    assert!(glob_match("print/a.html", "print/a.html"));
    assert!(!glob_match("print/a.html", "print/b.html"));
    assert!(glob_match("", ""));
    assert!(!glob_match("", "a"));
    assert!(!glob_match("a", ""));
}

#[test]
fn double_star_takes_everything_below() {
    assert!(glob_match("print/**", "print/"));
    assert!(glob_match("print/**", "print/2024/a.html"));
    assert!(!glob_match("print/**", "printer/a.html"));
    assert!(glob_match("**", "any/thing"));
    assert!(glob_match("***", "any/thing"));
}

#[test]
fn star_stays_in_its_segment() {
    assert!(glob_match("a/*/c", "a/b/c"));
    assert!(!glob_match("a/*/c", "a/b/d/c"));
    assert!(glob_match("*", ""));
    assert!(!glob_match("*", "a/b"));
}

#[test]
fn question_mark_is_one_character() {
    assert!(glob_match("?.html", "\u{e9}.html"));
    assert!(!glob_match("?", "/"));
    assert!(!glob_match("?", ""));
}

#[test]
fn any_pattern_excludes() {
    let patterns = vec!["404.html".to_string(), "print/**".to_string()];
    assert!(is_excluded("404.html", &patterns));
    assert!(is_excluded("print/a/b.html", &patterns));
    assert!(!is_excluded("blog/404.html", &patterns));
    assert!(!is_excluded("404.html", &[]));
}
