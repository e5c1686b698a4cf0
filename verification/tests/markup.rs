use site_encrypt::config::UiStrings;
use site_encrypt::crypto::Encrypted;
use site_encrypt::markup::{build_unlock_markup, html_escape};

#[test]
fn main_escaping_is_safe() {
    assert_eq!(html_escape("<x a=\"b\">&"), "&lt;x a=&quot;b&quot;&gt;&amp;");
}

#[test]
fn tests_escaping_is_safe() {
    assert_eq!(html_escape("<x a=\"b\">&"), "&lt;x a=&quot;b&quot;&gt;&amp;");
}

#[test]
fn escaping_of_other_texts() {
    assert_eq!(html_escape("it's"), "it&#39;s");
    assert_eq!(html_escape("plain \u{e9}"), "plain \u{e9}");
    assert_eq!(html_escape("&amp;"), "&amp;amp;");
    assert_eq!(html_escape(""), "");
}

fn payload() -> Encrypted {
    Encrypted {
        salt: "SALT".to_string(),
        nonce: "NONCE".to_string(),
        ciphertext: "TEXT".to_string(),
        iterations: 600_000,
    }
}

#[test]
fn unlock_markup_with_a_hint() {
    let ui = UiStrings {
        password_label: "A<".to_string(),
        submit_label: "B&".to_string(),
        noscript_text: "C\"".to_string(),
    };
    assert_eq!(
        build_unlock_markup(&payload(), Some("pet's name"), "lock", &ui),
        "<div class=\"lock\" data-site-encrypt=\"1\" data-site-encrypt-version=\"1\" data-site-encrypt-kdf=\"pbkdf2-sha256\" data-site-encrypt-iterations=\"600000\" data-site-encrypt-salt=\"SALT\" data-site-encrypt-nonce=\"NONCE\" data-site-encrypt-ciphertext=\"TEXT\"><p class=\"lock__hint\">pet&#39;s name</p><form class=\"lock__form\"><label><span class=\"lock__label\">A&lt;</span><input class=\"lock__password\" type=\"password\" autocomplete=\"current-password\" required></label><button type=\"submit\">B&amp;</button><span class=\"lock__error\" role=\"alert\" hidden></span></form><noscript>C&quot;</noscript></div>"
    );
}

#[test]
fn unlock_markup_without_a_hint() {
    let html = build_unlock_markup(&payload(), None, "site-encrypt", &UiStrings::default());
    assert!(!html.contains("__hint"));
    assert!(html.contains("data-site-encrypt-ciphertext=\"TEXT\"><form class=\"site-encrypt__form\">"));
    assert!(html.contains("<button type=\"submit\">Unlock</button>"));
}
