use site_encrypt::scan::{find_atom_alternate, find_tag_blocks, get_attr, open_tag_end};

#[test]
fn opening_tags_end_outside_quotes() {
    assert_eq!(open_tag_end("<a b=\"x>y\">z", 2), Some(11));
    assert_eq!(open_tag_end("<a>", 2), Some(3));
    assert_eq!(open_tag_end("<a b='>'", 2), None);
    assert_eq!(open_tag_end("<a", 2), None);
}

#[test]
fn blocks_give_their_inner_text() {
    let text = "<x/><item>one</item><items>no</items><item a='b'>two</item>";
    let blocks = find_tag_blocks(text, "item");
    assert_eq!(blocks.len(), 2);
    let (s, e, a, b) = blocks[0];
    assert_eq!(&text[s..e], "<item>one</item>");
    assert_eq!(&text[a..b], "one");
    let (s, e, a, b) = blocks[1];
    assert_eq!(&text[s..e], "<item a='b'>two</item>");
    assert_eq!(&text[a..b], "two");
}

#[test]
fn self_closing_tags_are_no_blocks() {
    assert!(find_tag_blocks("<link href='a' / ></link>", "link").is_empty());
    assert!(find_tag_blocks("<link/>", "link").is_empty());
    assert!(find_tag_blocks("<link>", "link").is_empty());
    assert_eq!(find_tag_blocks("<link/><link>u</link>", "link"), vec![(7, 21, 13, 14)]);
}

#[test]
fn attributes_quoted_and_bare() {
    let tag = "<link rel=\"alternate\" href='u' type = html>";
    assert_eq!(get_attr(tag, "rel").as_deref(), Some("alternate"));
    assert_eq!(get_attr(tag, "href").as_deref(), Some("u"));
    assert_eq!(get_attr(tag, "type").as_deref(), Some("html"));
    assert_eq!(get_attr(tag, "title"), None);
    assert_eq!(get_attr("<link xhref='a' href='b'>", "href").as_deref(), Some("b"));
    assert_eq!(get_attr("<link href='a", "href"), None);
    // text in another attribute's value is no attribute
    let tag = "<link title=\"see rel=self\" rel=\"alternate\">";
    assert_eq!(get_attr(tag, "rel").as_deref(), Some("alternate"));
    assert_eq!(get_attr("<a t=' x=1 \" x=2 ' x=\"3\">", "x").as_deref(), Some("3"));
    assert_eq!(get_attr("<a t=\" x=1 \">", "x"), None);
    // a quote within a value without quotes, or that is not closed, opens nothing
    assert_eq!(get_attr("<a t=it's rel=x>", "rel").as_deref(), Some("x"));
    assert_eq!(get_attr("<a t=it's rel=x u='y'>", "rel").as_deref(), Some("x"));
    assert_eq!(get_attr("<a t=b='c rel=x>", "rel").as_deref(), Some("x"));
    assert_eq!(get_attr("<a t=\"b rel=x>", "rel").as_deref(), Some("x"));
    assert_eq!(get_attr("<a 'b rel=x'>", "rel").as_deref(), Some("x'"));
    assert_eq!(get_attr("<a t=  \"c rel=x\" rel=y>", "rel").as_deref(), Some("y"));
    assert_eq!(get_attr("<a t= rel=x>", "rel").as_deref(), Some("x"));
}

#[test]
fn alternate_links_in_any_order() {
    assert_eq!(
        find_atom_alternate("<link rel='self' href='a'/><link href='b' rel='alternate'/>").as_deref(),
        Some("b")
    );
    assert_eq!(
        find_atom_alternate("<link title=\"see rel=self\" rel=\"alternate\" href=\"/x/\"/>").as_deref(),
        Some("/x/")
    );
    assert_eq!(
        find_atom_alternate("<link title=it's rel='alternate' href='/x/' t=it's>").as_deref(),
        Some("/x/")
    );
    assert_eq!(find_atom_alternate("<link rel='alternate' href=' '/>"), None);
    assert_eq!(find_atom_alternate("<links rel='alternate' href='a'/>"), None);
    assert_eq!(find_atom_alternate(""), None);
}
