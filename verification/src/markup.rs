//! The unlock form that takes the place of encrypted content on a page
//! without a form of its own.

use vstd::prelude::*;
use vstd::string::*;

use crate::config::UiStrings;
use crate::crypto;
use crate::crypto::{Encrypted, FORMAT_VERSION};
use crate::text;
use crate::text::{chars_of, decimal};

verus! {

// ---------------------------------------------------------------------------
// Escaping
// ---------------------------------------------------------------------------

/// How a character is written in HTML text or in a quoted attribute.
pub open spec fn html_entity(c: char) -> Seq<char> {
    if c == '&' {
        "&amp;"@
    } else if c == '<' {
        "&lt;"@
    } else if c == '>' {
        "&gt;"@
    } else if c == '"' {
        "&quot;"@
    } else if c == '\'' {
        "&#39;"@
    } else {
        seq![c]
    }
}

/// Each character as it is written in HTML.
pub open spec fn html_escaped(s: Seq<char>) -> Seq<char>
    decreases s.len(),
{
    if s.len() == 0 {
        Seq::empty()
    } else {
        html_escaped(s.drop_last()) + html_entity(s.last())
    }
}

/// Text that can stand in HTML, between tags or in a quoted attribute.
pub fn html_escape(input: &str) -> (out: String)
    ensures
        out@ == html_escaped(input@),
{
    let chars = chars_of(input);
    let mut out = String::new();
    for i in 0..chars.len()
        invariant
            chars@ == input@,
            out@ == html_escaped(input@.take(i as int)),
    {
        let c: char = chars[i];
        let ghost before = out@;
        match c {
            '&' => out.append("&amp;"),
            '<' => out.append("&lt;"),
            '>' => out.append("&gt;"),
            '"' => out.append("&quot;"),
            '\'' => out.append("&#39;"),
            _ => out.push(c),
        }
        proof {
            assert(input@.take(i + 1).drop_last() == input@.take(i as int));
            assert(input@.take(i + 1).last() == c);
            assert(out@ == before + html_entity(c));
        }
    }
    proof {
        assert(input@.take(input@.len() as int) == input@);
    }
    out
}

/// A character that means something in HTML markup.
pub open spec fn is_markup(c: char) -> bool {
    c == '<' || c == '>' || c == '"' || c == '\''
}

proof fn lemma_entity_has_no_markup(c: char)
    ensures
        forall|k: int| 0 <= k < html_entity(c).len() ==> !is_markup(#[trigger] html_entity(c)[k]),
{
    reveal_strlit("&amp;");
    reveal_strlit("&lt;");
    reveal_strlit("&gt;");
    reveal_strlit("&quot;");
    reveal_strlit("&#39;");
}

/// Escaped text opens no tag and ends no attribute.
pub proof fn law_html_escaped_has_no_markup(s: Seq<char>)
    ensures
        forall|k: int| 0 <= k < html_escaped(s).len() ==> !is_markup(#[trigger] html_escaped(s)[k]),
    decreases s.len(),
{
    if s.len() > 0 {
        law_html_escaped_has_no_markup(s.drop_last());
        lemma_entity_has_no_markup(s.last());
        let before = html_escaped(s.drop_last());
        let all = html_escaped(s);
        assert forall|k: int| 0 <= k < all.len() implies !is_markup(#[trigger] all[k]) by {
            if k < before.len() {
                assert(all[k] == before[k]);
            } else {
                assert(all[k] == html_entity(s.last())[k - before.len()]);
            }
        }
    }
}

/// Text without special characters is its own escaped form.
pub proof fn law_plain_text_stays(s: Seq<char>)
    requires
        forall|k: int| 0 <= k < s.len() ==> !is_markup(#[trigger] s[k]) && s[k] != '&',
    ensures
        html_escaped(s) == s,
    decreases s.len(),
{
    if s.len() > 0 {
        law_plain_text_stays(s.drop_last());
        assert(html_escaped(s) == s);
    }
}

// ---------------------------------------------------------------------------
// The form
// ---------------------------------------------------------------------------

/// The paragraph that shows a hint at the password.
pub open spec fn hint_markup(hint: Option<Seq<char>>, class_name: Seq<char>) -> Seq<char> {
    match hint {
        Some(hint) => "<p class=\""@ + class_name + "__hint\">"@ + html_escaped(hint) + "</p>"@,
        None => Seq::empty(),
    }
}

/// What stands in the tag of the payload root before the ciphertext.
pub open spec fn root_head(data: Encrypted, class_name: Seq<char>) -> Seq<char> {
    "<div class=\""@ + class_name + "\" data-site-encrypt=\"1\" data-site-encrypt-version=\""@
        + text::decimal_of(FORMAT_VERSION as nat)
        + "\" data-site-encrypt-kdf=\"pbkdf2-sha256\" data-site-encrypt-iterations=\""@
        + text::decimal_of(data.iterations as nat) + "\" data-site-encrypt-salt=\""@ + data.salt@
        + "\" data-site-encrypt-nonce=\""@ + data.nonce@ + "\" data-site-encrypt-ciphertext=\""@
}

/// The tag of the payload root, with the attributes by which the browser finds
/// and decrypts the payload.
pub open spec fn root_markup(data: Encrypted, class_name: Seq<char>) -> Seq<char> {
    root_head(data, class_name) + data.ciphertext@ + "\">"@
}

/// The form itself, and what is shown where scripts do not run.
pub open spec fn form_markup(class_name: Seq<char>, ui: UiStrings) -> Seq<char> {
    "<form class=\""@ + class_name + "__form\"><label><span class=\""@ + class_name
        + "__label\">"@ + html_escaped(ui.password_label@) + "</span><input class=\""@ + class_name
        + "__password\" type=\"password\" autocomplete=\"current-password\" required></label><button type=\"submit\">"@
        + html_escaped(ui.submit_label@) + "</button><span class=\""@ + class_name
        + "__error\" role=\"alert\" hidden></span></form><noscript>"@ + html_escaped(
        ui.noscript_text@,
    ) + "</noscript></div>"@
}

/// The markup that takes the place of the content.
pub open spec fn unlock_markup(
    data: Encrypted,
    hint: Option<Seq<char>>,
    class_name: Seq<char>,
    ui: UiStrings,
) -> Seq<char> {
    root_markup(data, class_name) + hint_markup(hint, class_name) + form_markup(class_name, ui)
}

/// What stands behind the ciphertext.
pub open spec fn after_ciphertext(
    hint: Option<Seq<char>>,
    class_name: Seq<char>,
    ui: UiStrings,
) -> Seq<char> {
    "\">"@ + hint_markup(hint, class_name) + form_markup(class_name, ui)
}

/// The ciphertext stands once in the markup, and nothing else there depends on
/// it.
pub proof fn law_ciphertext_stands_alone(
    data: Encrypted,
    hint: Option<Seq<char>>,
    class_name: Seq<char>,
    ui: UiStrings,
)
    ensures
        unlock_markup(data, hint, class_name, ui) == root_head(data, class_name)
            + data.ciphertext@ + after_ciphertext(hint, class_name, ui),
{
    assert(unlock_markup(data, hint, class_name, ui) =~= root_head(data, class_name)
        + data.ciphertext@ + after_ciphertext(hint, class_name, ui));
}

/// A hint as a mathematical value.
pub open spec fn hint_view(hint: Option<&str>) -> Option<Seq<char>> {
    match hint {
        Some(hint) => Some(hint@),
        None => None,
    }
}

fn root_tag(data: &Encrypted, class_name: &str) -> (s: String)
    ensures
        s@ == root_markup(*data, class_name@),
{
    let mut s = "<div class=\"".to_string();
    s.append(class_name);
    s.append("\" data-site-encrypt=\"1\" data-site-encrypt-version=\"");
    s.append(decimal(FORMAT_VERSION as u64).as_str());
    s.append("\" data-site-encrypt-kdf=\"pbkdf2-sha256\" data-site-encrypt-iterations=\"");
    s.append(decimal(data.iterations as u64).as_str());
    s.append("\" data-site-encrypt-salt=\"");
    s.append(data.salt.as_str());
    s.append("\" data-site-encrypt-nonce=\"");
    s.append(data.nonce.as_str());
    s.append("\" data-site-encrypt-ciphertext=\"");
    s.append(data.ciphertext.as_str());
    s.append("\">");
    s
}

fn form(class_name: &str, ui: &UiStrings) -> (s: String)
    ensures
        s@ == form_markup(class_name@, *ui),
{
    let mut s = "<form class=\"".to_string();
    s.append(class_name);
    s.append("__form\"><label><span class=\"");
    s.append(class_name);
    s.append("__label\">");
    s.append(html_escape(ui.password_label.as_str()).as_str());
    s.append("</span><input class=\"");
    s.append(class_name);
    s.append(
        "__password\" type=\"password\" autocomplete=\"current-password\" required></label><button type=\"submit\">",
    );
    s.append(html_escape(ui.submit_label.as_str()).as_str());
    s.append("</button><span class=\"");
    s.append(class_name);
    s.append("__error\" role=\"alert\" hidden></span></form><noscript>");
    s.append(html_escape(ui.noscript_text.as_str()).as_str());
    s.append("</noscript></div>");
    s
}

/// The markup that takes the place of the content: the payload, the hint if
/// there is one, and the form that asks for the password.
pub fn build_unlock_markup(
    data: &Encrypted,
    hint: Option<&str>,
    class_name: &str,
    ui: &UiStrings,
) -> (s: String)
    ensures
        s@ == unlock_markup(*data, hint_view(hint), class_name@, *ui),
{
    let mut s = root_tag(data, class_name);
    match hint {
        Some(hint) => {
            let mut p = "<p class=\"".to_string();
            p.append(class_name);
            p.append("__hint\">");
            p.append(html_escape(hint).as_str());
            p.append("</p>");
            s.append(p.as_str());
        },
        None => {
            proof {
                assert(s@ + hint_markup(None, class_name@) == s@);
            }
        },
    }
    s.append(form(class_name, ui).as_str());
    s
}

proof fn lemma_base64_stays(s: Seq<char>)
    requires
        forall|k: int| 0 <= k < s.len() ==> crypto::is_base64_url(#[trigger] s[k]),
    ensures
        html_escaped(s) == s,
{
    assert forall|k: int| 0 <= k < s.len() implies !is_markup(#[trigger] s[k]) && s[k]
        != '&' by {
        assert(crypto::is_base64_url(s[k]));
    }
    law_plain_text_stays(s);
}

/// A payload stands in its attributes as it is: escaping would change nothing.
pub proof fn law_payload_needs_no_escaping(payload: Encrypted)
    requires
        crypto::is_attribute_safe(payload),
    ensures
        html_escaped(payload.salt@) == payload.salt@,
        html_escaped(payload.nonce@) == payload.nonce@,
        html_escaped(payload.ciphertext@) == payload.ciphertext@,
{
    lemma_base64_stays(payload.salt@);
    lemma_base64_stays(payload.nonce@);
    lemma_base64_stays(payload.ciphertext@);
}

/// Text is escaped character by character: what means something in markup is
/// written as an entity, and every other character as itself.
pub proof fn law_html_escaping(a: Seq<char>, b: Seq<char>)
    ensures
        html_escaped(a + b) == html_escaped(a) + html_escaped(b),
        html_escaped(seq!['&']) == "&amp;"@,
        html_escaped(seq!['<']) == "&lt;"@,
        html_escaped(seq!['>']) == "&gt;"@,
        html_escaped(seq!['"']) == "&quot;"@,
        html_escaped(seq!['\'']) == "&#39;"@,
    decreases b.len(),
{
    assert forall|d: char| html_escaped(seq![d]) == #[trigger] html_entity(d) by {
        assert(seq![d].drop_last() =~= Seq::<char>::empty());
        assert(html_escaped(Seq::<char>::empty()) + html_entity(d) =~= html_entity(d));
    }
    assert(html_escaped(seq!['&']) == html_entity('&'));
    assert(html_escaped(seq!['<']) == html_entity('<'));
    assert(html_escaped(seq!['>']) == html_entity('>'));
    assert(html_escaped(seq!['"']) == html_entity('"'));
    assert(html_escaped(seq!['\'']) == html_entity('\''));
    if b.len() == 0 {
        assert(a + b =~= a);
        assert(html_escaped(a) + html_escaped(b) =~= html_escaped(a));
    } else {
        law_html_escaping(a, b.drop_last());
        assert((a + b).drop_last() =~= a + b.drop_last());
        assert(html_escaped(a + b) =~= html_escaped(a) + html_escaped(b));
    }
}

/// The part stands somewhere in the text.
pub open spec fn holds_part(whole: Seq<char>, part: Seq<char>) -> bool {
    exists|at: int| #[trigger] text::stands_at(whole, part, at)
}

proof fn lemma_holds(whole: Seq<char>, head: Seq<char>, part: Seq<char>, tail: Seq<char>)
    requires
        whole == head + part + tail,
    ensures
        holds_part(whole, part),
{
    let at = head.len() as int;
    assert(whole.subrange(at, at + part.len()) =~= part);
    assert(text::stands_at(whole, part, at));
}

/// The markup has the whole payload in it, each part behind the name of its
/// attribute.
pub proof fn law_markup_holds_the_payload(
    data: &Encrypted,
    hint: Option<&str>,
    class_name: &str,
    ui: &UiStrings,
    s: String,
)
    requires
        call_ensures(build_unlock_markup, (data, hint, class_name, ui), s),
    ensures
        holds_part(s@, " data-site-encrypt-version=\""@ + seq!['1'] + "\" data-site-encrypt-kdf=\"pbkdf2-sha256\" data-site-encrypt-iterations=\""@
            + text::decimal_of(data.iterations as nat) + "\" data-site-encrypt-salt=\""@
            + data.salt@ + "\" data-site-encrypt-nonce=\""@ + data.nonce@
            + "\" data-site-encrypt-ciphertext=\""@ + data.ciphertext@ + "\">"@),
{
    reveal_strlit("\" data-site-encrypt=\"1\" data-site-encrypt-version=\"");
    reveal_strlit("\" data-site-encrypt=\"1\"");
    reveal_strlit(" data-site-encrypt-version=\"");
    let hint = hint_view(hint);
    let class_name = class_name@;
    let kdf = "\" data-site-encrypt-kdf=\"pbkdf2-sha256\" data-site-encrypt-iterations=\""@;
    let root = " data-site-encrypt-version=\""@ + seq!['1'] + kdf + text::decimal_of(
        data.iterations as nat,
    ) + "\" data-site-encrypt-salt=\""@ + data.salt@ + "\" data-site-encrypt-nonce=\""@
        + data.nonce@ + "\" data-site-encrypt-ciphertext=\""@ + data.ciphertext@ + "\">"@;
    let head = "<div class=\""@ + class_name + "\" data-site-encrypt=\"1\""@;
    let tail = hint_markup(hint, class_name) + form_markup(class_name, *ui);
    assert("\" data-site-encrypt=\"1\" data-site-encrypt-version=\""@
        =~= "\" data-site-encrypt=\"1\""@ + " data-site-encrypt-version=\""@);
    assert(text::decimal_of(1) =~= seq!['1']);
    assert(root_markup(*data, class_name) =~= head + root);
    assert(s@ =~= head + root + tail);
    lemma_holds(s@, head, root, tail);
}

/// The markup shows the hint where there is one, and no paragraph otherwise; it
/// shows the labels and the text for browsers without scripts; and all of them
/// are escaped.
pub proof fn law_markup_shows_its_texts(
    data: &Encrypted,
    hint: Option<&str>,
    class_name: &str,
    ui: &UiStrings,
    s: String,
)
    requires
        call_ensures(build_unlock_markup, (data, hint, class_name, ui), s),
    ensures
        hint matches Some(hint) ==> holds_part(
            s@,
            "__hint\">"@ + html_escaped(hint@) + "</p><form class=\""@,
        ),
        hint is None ==> holds_part(s@, data.ciphertext@ + "\">"@ + "<form class=\""@),
        holds_part(s@, "__label\">"@ + html_escaped(ui.password_label@) + "</span>"@),
        holds_part(s@, "<button type=\"submit\">"@ + html_escaped(ui.submit_label@) + "</button>"@),
        holds_part(s@, "<noscript>"@ + html_escaped(ui.noscript_text@) + "</noscript>"@),
{
    let shown = hint_view(hint);
    let name = class_name@;
    let root = root_markup(*data, name);
    let before = root + hint_markup(shown, name);
    let form = form_markup(name, *ui);
    assert(s@ == before + form);
    lemma_form_has_label(name, *ui);
    lemma_held_behind(before, form, "__label\">"@ + html_escaped(ui.password_label@) + "</span>"@);
    lemma_form_has_button(name, *ui);
    lemma_held_behind(
        before,
        form,
        "<button type=\"submit\">"@ + html_escaped(ui.submit_label@) + "</button>"@,
    );
    lemma_form_has_noscript(name, *ui);
    lemma_held_behind(
        before,
        form,
        "<noscript>"@ + html_escaped(ui.noscript_text@) + "</noscript>"@,
    );
    let start = "<form class=\""@;
    lemma_form_begins(name, *ui);
    let more = form.skip(start.len() as int);
    match hint {
        Some(hint) => {
            reveal_strlit("</p><form class=\"");
            reveal_strlit("</p>");
            reveal_strlit("<form class=\"");
            assert("</p><form class=\""@ =~= "</p>"@ + start);
            let part = "__hint\">"@ + html_escaped(hint@) + "</p><form class=\""@;
            let head = root + "<p class=\""@ + name;
            assert(s@ =~= head + part + more);
            lemma_holds(s@, head, part, more);
        },
        None => {
            let part = data.ciphertext@ + "\">"@ + start;
            let head = root_head(*data, name);
            assert(before =~= root);
            assert(s@ =~= head + part + more);
            lemma_holds(s@, head, part, more);
        },
    }
}

proof fn lemma_held_behind(head: Seq<char>, whole: Seq<char>, part: Seq<char>)
    requires
        holds_part(whole, part),
    ensures
        holds_part(head + whole, part),
{
    let at = choose|at: int| #[trigger] text::stands_at(whole, part, at);
    assert(head + whole =~= head + whole.take(at) + part + whole.skip((at + part.len()) as int)) by {
        assert(whole.subrange(at, (at + part.len()) as int) == part);
        assert(whole =~= whole.take(at) + whole.subrange(at, (at + part.len()) as int)
            + whole.skip((at + part.len()) as int));
    }
    lemma_holds(
        head + whole,
        head + whole.take(at),
        part,
        whole.skip((at + part.len()) as int),
    );
}

proof fn lemma_form_begins(name: Seq<char>, ui: UiStrings)
    ensures
        form_markup(name, ui).len() >= "<form class=\""@.len(),
        form_markup(name, ui) == "<form class=\""@ + form_markup(name, ui).skip(
            "<form class=\""@.len() as int,
        ),
{
    let form = form_markup(name, ui);
    let start = "<form class=\""@;
    assert(form.take(start.len() as int) =~= start);
    assert(form =~= start + form.skip(start.len() as int));
}

proof fn lemma_form_has_label(name: Seq<char>, ui: UiStrings)
    ensures
        holds_part(
            form_markup(name, ui),
            "__label\">"@ + html_escaped(ui.password_label@) + "</span>"@,
        ),
{
    reveal_strlit("</span><input class=\"");
    reveal_strlit("</span>");
    let form = form_markup(name, ui);
    let head = "<form class=\""@ + name + "__form\"><label><span class=\""@ + name;
    let part = "__label\">"@ + html_escaped(ui.password_label@) + "</span>"@;
    let long = "__label\">"@ + html_escaped(ui.password_label@) + "</span><input class=\""@;
    assert(long.take(part.len() as int) =~= part);
    let tail = form.skip((head.len() + part.len()) as int);
    assert(form.take((head.len() + long.len()) as int) =~= head + long);
    assert(form.take((head.len() + part.len()) as int) =~= head + part);
    assert(form =~= head + part + tail);
    lemma_holds(form, head, part, tail);
}

/// The form up to the label of the button.
spec fn form_to_button(name: Seq<char>, ui: UiStrings) -> Seq<char> {
    "<form class=\""@ + name + "__form\"><label><span class=\""@ + name + "__label\">"@
        + html_escaped(ui.password_label@) + "</span><input class=\""@ + name
        + "__password\" type=\"password\" autocomplete=\"current-password\" required></label><button type=\"submit\">"@
}

proof fn lemma_form_has_button(name: Seq<char>, ui: UiStrings)
    ensures
        holds_part(
            form_markup(name, ui),
            "<button type=\"submit\">"@ + html_escaped(ui.submit_label@) + "</button>"@,
        ),
{
    let input = "__password\" type=\"password\" autocomplete=\"current-password\" required></label><button type=\"submit\">"@;
    let button = "<button type=\"submit\">"@;
    reveal_strlit(
        "__password\" type=\"password\" autocomplete=\"current-password\" required></label><button type=\"submit\">",
    );
    reveal_strlit("<button type=\"submit\">");
    reveal_strlit("</button><span class=\"");
    reveal_strlit("</button>");
    let form = form_markup(name, ui);
    let to = form_to_button(name, ui);
    let head = to.take(to.len() - button.len());
    assert(input.skip(input.len() - button.len()) =~= button);
    assert(to.skip(to.len() - button.len()) =~= button);
    assert(to =~= head + button);
    let submit = html_escaped(ui.submit_label@);
    let part = button + submit + "</button>"@;
    let long = "</button><span class=\""@;
    assert(long.take("</button>"@.len() as int) =~= "</button>"@);
    assert(form.take((to.len() + submit.len() + long.len()) as int) =~= to + submit + long);
    let tail = form.skip((head.len() + part.len()) as int);
    assert(form.take((head.len() + part.len()) as int) =~= to + submit + "</button>"@);
    assert(to + submit + "</button>"@ =~= head + part);
    assert(form =~= head + part + tail);
    lemma_holds(form, head, part, tail);
}

proof fn lemma_form_has_noscript(name: Seq<char>, ui: UiStrings)
    ensures
        holds_part(
            form_markup(name, ui),
            "<noscript>"@ + html_escaped(ui.noscript_text@) + "</noscript>"@,
        ),
{
    let error = "__error\" role=\"alert\" hidden></span></form><noscript>"@;
    let open = "<noscript>"@;
    reveal_strlit("__error\" role=\"alert\" hidden></span></form><noscript>");
    reveal_strlit("<noscript>");
    reveal_strlit("</noscript></div>");
    reveal_strlit("</noscript>");
    reveal_strlit("</div>");
    let form = form_markup(name, ui);
    let to = form_to_button(name, ui) + html_escaped(ui.submit_label@) + "</button><span class=\""@
        + name + error;
    let head = to.take(to.len() - open.len());
    assert(error.skip(error.len() - open.len()) =~= open);
    assert(to.skip(to.len() - open.len()) =~= open);
    assert(to =~= head + open);
    let noscript = html_escaped(ui.noscript_text@);
    assert("</noscript></div>"@ =~= "</noscript>"@ + "</div>"@);
    assert(form =~= to + noscript + "</noscript></div>"@);
    let part = open + noscript + "</noscript>"@;
    assert(form =~= head + part + "</div>"@);
    lemma_holds(form, head, part, "</div>"@);
}

/// What is escaped for a caller is the text as it is escaped here.
pub proof fn law_told_escaped(input: &str, out: String)
    requires
        call_ensures(html_escape, (input,), out),
    ensures
        out@ == html_escaped(input@),
{
}

/// The markup in full: the class name stands in it as it is, the payload in the
/// attributes of the root, and every text of the configuration and the hint
/// escaped.
pub proof fn law_markup_in_full(
    data: &Encrypted,
    hint: Option<&str>,
    class_name: &str,
    ui: &UiStrings,
    s: String,
)
    requires
        call_ensures(build_unlock_markup, (data, hint, class_name, ui), s),
    ensures
        s@ == "<div class=\""@ + class_name@
            + "\" data-site-encrypt=\"1\" data-site-encrypt-version=\""@ + seq!['1']
            + "\" data-site-encrypt-kdf=\"pbkdf2-sha256\" data-site-encrypt-iterations=\""@
            + text::decimal_of(data.iterations as nat) + "\" data-site-encrypt-salt=\""@
            + data.salt@ + "\" data-site-encrypt-nonce=\""@ + data.nonce@
            + "\" data-site-encrypt-ciphertext=\""@ + data.ciphertext@ + "\">"@ + (match hint {
            Some(hint) => "<p class=\""@ + class_name@ + "__hint\">"@ + html_escaped(hint@)
                + "</p>"@,
            None => Seq::empty(),
        }) + ("<form class=\""@ + class_name@ + "__form\"><label><span class=\""@ + class_name@
            + "__label\">"@ + html_escaped(ui.password_label@) + "</span><input class=\""@
            + class_name@
            + "__password\" type=\"password\" autocomplete=\"current-password\" required></label><button type=\"submit\">"@
            + html_escaped(ui.submit_label@) + "</button><span class=\""@ + class_name@
            + "__error\" role=\"alert\" hidden></span></form><noscript>"@ + html_escaped(
            ui.noscript_text@,
        ) + "</noscript></div>"@),
{
    assert(text::decimal_of(1) =~= seq!['1']);
}

} // verus!
