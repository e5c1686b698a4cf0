//! Redacting a feed twice: the second run finds the placeholder wherever it
//! looks, and changes nothing.

use vstd::prelude::*;
use vstd::utf8::*;

use crate::feed;
use crate::scan;
use crate::scan::{GT, LT};
use crate::splice;
use crate::text;

verus! {

// ---------------------------------------------------------------------------
// Names
// ---------------------------------------------------------------------------

/// The name of an element that holds a part of an entry's body.
pub open spec fn is_body_name(name: Seq<u8>) -> bool {
    ||| name == encode_utf8("content"@)
    ||| name == encode_utf8("summary"@)
    ||| name == encode_utf8("description"@)
}

/// The name of an element that is looked for in a feed.
pub open spec fn is_feed_name(name: Seq<u8>) -> bool {
    ||| name == encode_utf8("entry"@)
    ||| name == encode_utf8("item"@)
    ||| name == encode_utf8("link"@)
    ||| is_body_name(name)
}

proof fn lemma_word(name: Seq<char>)
    requires
        name.len() > 0,
        forall|i: int| 0 <= i < name.len() ==> 'a' <= #[trigger] name[i] <= 'z',
    ensures
        splice::is_word(encode_utf8(name)),
{
    assert(is_ascii_chars(name));
    is_ascii_chars_encode_utf8(name);
    let bytes = encode_utf8(name);
    assert forall|i: int| 0 <= i < bytes.len() implies 0x61 <= #[trigger] bytes[i] <= 0x7a by {
        assert('a' <= name[i] <= 'z');
    }
}

/// The names are words.
proof fn lemma_names()
    ensures
        forall|name: Seq<u8>| #[trigger] is_feed_name(name) ==> splice::is_word(name),
        is_feed_name(encode_utf8("link"@)),
{
    reveal_strlit("entry");
    reveal_strlit("item");
    reveal_strlit("link");
    reveal_strlit("content");
    reveal_strlit("summary");
    reveal_strlit("description");
    lemma_word("entry"@);
    lemma_word("item"@);
    lemma_word("link"@);
    lemma_word("content"@);
    lemma_word("summary"@);
    lemma_word("description"@);
}

// ---------------------------------------------------------------------------
// Feeds on which redaction is settled after one run
// ---------------------------------------------------------------------------

/// Two stretches are the same, or do not touch.
pub open spec fn apart(edit: (int, int), a: int, c: int) -> bool {
    edit == (a, c) || edit.1 < a || c < edit.0
}

/// The stretches lie within the text, and two of them are the same or do not
/// touch.
pub open spec fn are_apart(len: int, edits: Seq<(int, int)>) -> bool {
    &&& forall|j: int|
        0 <= j < edits.len() ==> 0 <= (#[trigger] edits[j]).0 <= edits[j].1 < len
    &&& forall|i: int, j: int|
        #![trigger edits[i], edits[j]]
        0 <= i < edits.len() && 0 <= j < edits.len() ==> edits[i] == edits[j] || edits[i].1
            < edits[j].0 || edits[j].1 < edits[i].0
}

/// The opening tags that are looked for end before the stretch, or lie within
/// it, or begin behind it.
pub open spec fn tags_keep_clear(b: Seq<u8>, a: int, c: int) -> bool {
    forall|name: Seq<u8>, t: int|
        is_feed_name(name) && #[trigger] splice::opens(b, name, t) ==> splice::tag_clear(b, t, a, c)
}

/// The content of the entry holds the stretch.
pub open spec fn holds(e: (int, int, int, int), a: int, c: int) -> bool {
    e.2 <= a && c <= e.3
}

/// The link of an entry, if it has one, lies outside the stretch.
pub open spec fn link_outside(
    b: Seq<u8>,
    e: (int, int, int, int),
    atom: bool,
    a: int,
    c: int,
) -> bool {
    let entry = b.subrange(e.0, e.1);
    if atom {
        scan::alternate_at(entry, 0) matches Some((s, end)) ==> e.0 + s < a || c <= e.0 + s
    } else {
        let links = scan::blocks_from(entry, encode_utf8("link"@), 0);
        links.len() > 0 ==> e.0 + links[0].1 <= a || c <= e.0 + links[0].0
    }
}

/// The entry ends before the stretch, or begins behind it, or stands in it, or
/// holds it, with its link outside.
pub open spec fn entry_clear(
    b: Seq<u8>,
    e: (int, int, int, int),
    atom: bool,
    a: int,
    c: int,
) -> bool {
    &&& splice::block_clear(a, c, e)
    &&& holds(e, a, c) ==> link_outside(b, e, atom, a, c)
}

pub open spec fn entries_clear(
    b: Seq<u8>,
    entries: Seq<(int, int, int, int)>,
    atom: bool,
    a: int,
    c: int,
) -> bool {
    forall|k: int| 0 <= k < entries.len() ==> entry_clear(b, #[trigger] entries[k], atom, a, c)
}

/// No tag that is looked for and no entry is cut by the ends of the stretch,
/// and no link stands in it.
pub open spec fn is_tidy_at(b: Seq<u8>, a: int, c: int) -> bool {
    &&& tags_keep_clear(b, a, c)
    &&& entries_clear(b, feed::atom_entries(b), true, a, c)
    &&& entries_clear(b, feed::rss_items(b), false, a, c)
}

/// A feed in which the bodies that have to go do not overlap, cut no tag and no
/// entry that is looked for, and do not hold the link of their entry.
pub open spec fn is_tidy(b: Seq<u8>, strip_prefix: Seq<char>, files: Set<Seq<char>>) -> bool {
    let edits = feed::feed_edits(b, strip_prefix, files);
    &&& are_apart(b.len() as int, edits)
    &&& forall|j: int| 0 <= j < edits.len() ==> is_tidy_at(b, (#[trigger] edits[j]).0, edits[j].1)
}

// ---------------------------------------------------------------------------
// Elements
// ---------------------------------------------------------------------------

/// What stands from `a` to `c` is the content of an element of that name, whose
/// opening tag begins at `s`.
pub open spec fn is_content_of(b: Seq<u8>, name: Seq<u8>, s: int, a: int, c: int) -> bool {
    &&& splice::opens(b, name, s)
    &&& scan::tag_end_from(b, s + 1, 0) == Some(a)
    &&& text::found_from(b, scan::closing(name), a) == Some(c)
}

proof fn lemma_content(b: Seq<u8>, name: Seq<u8>, s: int, a: int, c: int)
    requires
        is_feed_name(name),
        is_content_of(b, name, s, a, c),
    ensures
        0 <= s < s + 1 < a <= c < b.len(),
        b[a - 1] == GT,
        b[c] == LT,
        c + scan::closing(name).len() <= b.len(),
        text::stands_at(b, scan::closing(name), c),
{
    lemma_names();
    splice::lemma_tag_texts(name);
    splice::lemma_over_name(b, name, s);
    scan::lemma_tag_end(b, s + 1, 0);
    text::lemma_found_from(b, scan::closing(name), a);
    let here = b.subrange(c, c + scan::closing(name).len());
    assert(here[0] == b[c]);
}

/// The elements that are found are what they are taken for.
proof fn lemma_blocks_have_contents(b: Seq<u8>, name: Seq<u8>, i: int, k: int)
    requires
        is_feed_name(name),
        0 <= i <= b.len(),
        0 <= k < scan::blocks_from(b, name, i).len(),
    ensures
        ({
            let block = scan::blocks_from(b, name, i)[k];
            &&& i <= block.0
            &&& is_content_of(b, name, block.0, block.2, block.3)
            &&& block.1 == block.3 + scan::closing(name).len()
        }),
    decreases b.len() - i,
{
    lemma_names();
    splice::lemma_tag_texts(name);
    let open = scan::opening(name);
    let close = scan::closing(name);
    text::lemma_found_from(b, open, i);
    if let Some(s) = text::found_from(b, open, i) {
        let after = s + open.len();
        if after < b.len() && scan::is_name_byte(b[after]) {
            lemma_blocks_have_contents(b, name, after, k);
        } else {
            scan::lemma_tag_end(b, after, 0);
            splice::lemma_over_name(b, name, s);
            if let Some(end) = scan::tag_end_from(b, after, 0) {
                if scan::is_self_closing(b, s, end) {
                    lemma_blocks_have_contents(b, name, end, k);
                } else {
                    text::lemma_found_from(b, close, end);
                    if let Some(inner_end) = text::found_from(b, close, end) {
                        let past = inner_end + close.len();
                        let rest = scan::blocks_from(b, name, past);
                        assert(scan::blocks_from(b, name, i) == seq![(s, past, end, inner_end)]
                            + rest);
                        if k > 0 {
                            lemma_blocks_have_contents(b, name, past, k - 1);
                            assert(scan::blocks_from(b, name, i)[k] == rest[k - 1]);
                        }
                    }
                }
            }
        }
    }
}

/// An element of a text within a text that ends with `>` is one of the whole
/// text.
proof fn lemma_content_within(
    b: Seq<u8>,
    x: int,
    y: int,
    name: Seq<u8>,
    s: int,
    a: int,
    c: int,
)
    requires
        is_feed_name(name),
        0 <= x < y <= b.len(),
        b[y - 1] == GT,
        is_content_of(b.subrange(x, y), name, s, a, c),
    ensures
        is_content_of(b, name, x + s, x + a, x + c),
{
    let sub = b.subrange(x, y);
    let close = scan::closing(name);
    lemma_names();
    lemma_content(sub, name, s, a, c);
    splice::lemma_opens_within(b, x, y, name, s);
    splice::lemma_tag_end_within(b, x, y, s + 1, 0);
    text::lemma_found_from(sub, close, a);
    splice::lemma_stands_within(b, x, y, close, c);
    assert forall|i: int| x + a <= i < x + c implies !text::stands_at(b, close, i) by {
        splice::lemma_stands_within(b, x, y, close, i - x);
    }
    text::lemma_found_from_is(b, close, x + a, x + c);
}

// ---------------------------------------------------------------------------
// Replacing one body
// ---------------------------------------------------------------------------

/// An entry: a whole element.
pub open spec fn is_element(b: Seq<u8>, name: Seq<u8>, e: (int, int, int, int)) -> bool {
    &&& is_content_of(b, name, e.0, e.2, e.3)
    &&& e.1 == e.3 + scan::closing(name).len()
}

proof fn lemma_element(b: Seq<u8>, name: Seq<u8>, e: (int, int, int, int))
    requires
        is_feed_name(name),
        is_element(b, name, e),
    ensures
        0 <= e.0 < e.2 <= e.3 < e.1 <= b.len(),
        b[e.1 - 1] == GT,
{
    lemma_names();
    lemma_content(b, name, e.0, e.2, e.3);
    splice::lemma_tag_texts(name);
    let close = scan::closing(name);
    assert(b.subrange(e.3, e.3 + close.len())[close.len() - 1] == b[e.1 - 1]);
}

/// What stands from `a` to `c` can be replaced by a text without `<`.
pub open spec fn is_step(b: Seq<u8>, a: int, c: int, rep: Seq<u8>) -> bool {
    &&& splice::fits_between(b, a, c, rep)
    &&& tags_keep_clear(b, a, c)
}

/// Where a body has gone.
pub open spec fn edit_moved(a: int, c: int, n: int, edit: (int, int)) -> (int, int) {
    (splice::end_moved(a, c, n, edit.0), splice::start_moved(a, c, n, edit.1))
}

pub open spec fn edits_moved(a: int, c: int, n: int, edits: Seq<(int, int)>) -> Seq<(int, int)> {
    edits.map_values(|edit: (int, int)| edit_moved(a, c, n, edit))
}

/// What the entry is after the splice, where it holds the stretch.
proof fn lemma_entry_within(
    b: Seq<u8>,
    a: int,
    c: int,
    rep: Seq<u8>,
    other: Seq<u8>,
    e: (int, int, int, int),
)
    requires
        is_step(b, a, c, rep),
        is_feed_name(other),
        is_element(b, other, e),
        holds(e, a, c),
    ensures
        ({
            let n = rep.len() as int;
            let sub = b.subrange(e.0, e.1);
            let moved = splice::block_moved(a, c, n, e);
            let sub1 = splice::spliced(b, a, c, rep).subrange(moved.0, moved.1);
            &&& splice::fits_between(sub, a - e.0, c - e.0, rep)
            &&& sub1 == splice::spliced(sub, a - e.0, c - e.0, rep)
            &&& moved.0 == e.0
            &&& forall|tag: Seq<u8>| #[trigger]
                is_feed_name(tag) ==> splice::tags_clear(sub, tag, a - e.0, c - e.0)
        }),
{
    lemma_names();
    lemma_element(b, other, e);
    splice::lemma_part(b, a, c, rep, e.0, e.1);
    let sub = b.subrange(e.0, e.1);
    assert forall|tag: Seq<u8>| #[trigger] is_feed_name(tag) implies splice::tags_clear(
        sub,
        tag,
        a - e.0,
        c - e.0,
    ) by {
        assert(splice::tags_clear(b, tag, a, c));
    }
}

/// The entry is the same text as before, where the stretch is not in it.
proof fn lemma_entry_beside(
    b: Seq<u8>,
    a: int,
    c: int,
    rep: Seq<u8>,
    other: Seq<u8>,
    e: (int, int, int, int),
)
    requires
        is_step(b, a, c, rep),
        is_feed_name(other),
        is_element(b, other, e),
        e.1 <= a || e.0 >= c,
    ensures
        ({
            let moved = splice::block_moved(a, c, rep.len() as int, e);
            &&& splice::spliced(b, a, c, rep).subrange(moved.0, moved.1) == b.subrange(e.0, e.1)
            &&& moved.0 == (if e.1 <= a { e.0 } else { e.0 - (c - a) + rep.len() })
        }),
{
    lemma_element(b, other, e);
    splice::lemma_spliced(b, a, c, rep);
    let moved = splice::block_moved(a, c, rep.len() as int, e);
    assert(splice::spliced(b, a, c, rep).subrange(moved.0, moved.1) =~= b.subrange(e.0, e.1));
}

/// Contents that do not touch the stretch belong to elements that are clear of
/// it.
proof fn lemma_contents_clear(sub: Seq<u8>, a: int, c: int, rep: Seq<u8>, tag: Seq<u8>, k: int)
    requires
        splice::fits_between(sub, a, c, rep),
        is_feed_name(tag),
        splice::tags_clear(sub, tag, a, c),
        0 <= k < scan::blocks_from(sub, tag, 0).len(),
        apart(
            (scan::blocks_from(sub, tag, 0)[k].2, scan::blocks_from(sub, tag, 0)[k].3),
            a,
            c,
        ),
    ensures
        splice::block_clear(a, c, scan::blocks_from(sub, tag, 0)[k]),
        !splice::swallowed(a, c, scan::blocks_from(sub, tag, 0)[k]),
{
    let block = scan::blocks_from(sub, tag, 0)[k];
    let close = scan::closing(tag);
    lemma_names();
    lemma_blocks_have_contents(sub, tag, 0, k);
    lemma_content(sub, tag, block.0, block.2, block.3);
    splice::lemma_tag_texts(tag);
    if block.3 < a {
        splice::lemma_stands_left(sub, a, c, rep, close, block.3);
    } else if c < block.2 {
        assert(splice::opens(sub, tag, block.0));
        assert(splice::tag_clear(sub, block.0, a, c));
    }
}

proof fn lemma_none_swallowed(a: int, c: int, n: int, blocks: Seq<(int, int, int, int)>)
    requires
        forall|k: int| 0 <= k < blocks.len() ==> !splice::swallowed(a, c, #[trigger] blocks[k]),
    ensures
        splice::blocks_moved(a, c, n, blocks).len() == blocks.len(),
        forall|k: int|
            0 <= k < blocks.len() ==> #[trigger] splice::blocks_moved(a, c, n, blocks)[k]
                == splice::block_moved(a, c, n, blocks[k]),
    decreases blocks.len(),
{
    if blocks.len() > 0 {
        let rest = blocks.drop_first();
        assert forall|k: int| 0 <= k < rest.len() implies !splice::swallowed(
            a,
            c,
            #[trigger] rest[k],
        ) by {
            assert(rest[k] == blocks[k + 1]);
        }
        lemma_none_swallowed(a, c, n, rest);
        assert(!splice::swallowed(a, c, blocks[0]));
        assert forall|k: int| 0 <= k < blocks.len() implies #[trigger] splice::blocks_moved(
            a,
            c,
            n,
            blocks,
        )[k] == splice::block_moved(a, c, n, blocks[k]) by {
            if k > 0 {
                assert(splice::blocks_moved(a, c, n, blocks)[k] == splice::blocks_moved(
                    a,
                    c,
                    n,
                    rest,
                )[k - 1]);
                assert(rest[k - 1] == blocks[k]);
            }
        }
    }
}

pub open spec fn all_apart(edits: Seq<(int, int)>, a: int, c: int) -> bool {
    forall|k: int| 0 <= k < edits.len() ==> apart(#[trigger] edits[k], a, c)
}

/// The contents of the elements of a name in an entry are where they have gone.
proof fn lemma_contents_moved(
    b: Seq<u8>,
    a: int,
    c: int,
    rep: Seq<u8>,
    other: Seq<u8>,
    e: (int, int, int, int),
    tag: Seq<u8>,
)
    requires
        is_step(b, a, c, rep),
        is_feed_name(other),
        is_element(b, other, e),
        is_feed_name(tag),
        splice::block_clear(a, c, e),
        !splice::swallowed(a, c, e),
        all_apart(feed::contents_in(b.subrange(e.0, e.1), tag, e.0), a, c),
    ensures
        ({
            let n = rep.len() as int;
            let moved = splice::block_moved(a, c, n, e);
            feed::contents_in(
                splice::spliced(b, a, c, rep).subrange(moved.0, moved.1),
                tag,
                moved.0,
            ) == edits_moved(a, c, n, feed::contents_in(b.subrange(e.0, e.1), tag, e.0))
        }),
{
    let n = rep.len() as int;
    let moved = splice::block_moved(a, c, n, e);
    let sub = b.subrange(e.0, e.1);
    let sub1 = splice::spliced(b, a, c, rep).subrange(moved.0, moved.1);
    let blocks = scan::blocks_from(sub, tag, 0);
    let blocks1 = scan::blocks_from(sub1, tag, 0);
    let edits = feed::contents_in(sub, tag, e.0);
    let edits1 = feed::contents_in(sub1, tag, moved.0);
    lemma_names();
    lemma_element(b, other, e);
    if e.1 <= a || e.0 >= c {
        lemma_entry_beside(b, a, c, rep, other, e);
    } else {
        lemma_entry_within(b, a, c, rep, other, e);
        assert(splice::tags_clear(sub, tag, a - e.0, c - e.0));
        assert forall|k: int| 0 <= k < blocks.len() implies splice::block_clear(
            a - e.0,
            c - e.0,
            #[trigger] blocks[k],
        ) && !splice::swallowed(a - e.0, c - e.0, blocks[k]) by {
            assert(edits[k] == (e.0 + blocks[k].2, e.0 + blocks[k].3));
            assert(apart(edits[k], a, c));
            lemma_contents_clear(sub, a - e.0, c - e.0, rep, tag, k);
        }
        splice::lemma_blocks(sub, a - e.0, c - e.0, rep, tag);
        lemma_none_swallowed(a - e.0, c - e.0, n, blocks);
    }
    assert forall|k: int| 0 <= k < edits.len() implies #[trigger] edits1[k] == edits_moved(
        a,
        c,
        n,
        edits,
    )[k] by {
        lemma_blocks_have_contents(sub, tag, 0, k);
        lemma_content(sub, tag, blocks[k].0, blocks[k].2, blocks[k].3);
        assert(edits[k] == (e.0 + blocks[k].2, e.0 + blocks[k].3));
        assert(edits1[k] == (moved.0 + blocks1[k].2, moved.0 + blocks1[k].3));
        if e.1 <= a || e.0 >= c {
            assert(blocks1[k] == blocks[k]);
        } else {
            assert(blocks1[k] == splice::block_moved(a - e.0, c - e.0, n, blocks[k]));
        }
    }
    assert(edits1 =~= edits_moved(a, c, n, edits));
}

/// The bodies of an entry are where they have gone.
proof fn lemma_bodies_moved(
    b: Seq<u8>,
    a: int,
    c: int,
    rep: Seq<u8>,
    other: Seq<u8>,
    e: (int, int, int, int),
)
    requires
        is_step(b, a, c, rep),
        is_feed_name(other),
        is_element(b, other, e),
        splice::block_clear(a, c, e),
        !splice::swallowed(a, c, e),
        all_apart(feed::body_of(b, e), a, c),
    ensures
        feed::body_of(
            splice::spliced(b, a, c, rep),
            splice::block_moved(a, c, rep.len() as int, e),
        ) == edits_moved(a, c, rep.len() as int, feed::body_of(b, e)),
{
    let n = rep.len() as int;
    let sub = b.subrange(e.0, e.1);
    let all = feed::body_of(b, e);
    let first = feed::contents_in(sub, encode_utf8("content"@), e.0);
    let second = feed::contents_in(sub, encode_utf8("summary"@), e.0);
    let third = feed::contents_in(sub, encode_utf8("description"@), e.0);
    assert forall|k: int| 0 <= k < first.len() implies apart(#[trigger] first[k], a, c) by {
        assert(all[k] == first[k]);
    }
    assert forall|k: int| 0 <= k < second.len() implies apart(#[trigger] second[k], a, c) by {
        assert(all[first.len() + k] == second[k]);
    }
    assert forall|k: int| 0 <= k < third.len() implies apart(#[trigger] third[k], a, c) by {
        assert(all[first.len() + second.len() + k] == third[k]);
    }
    lemma_contents_moved(b, a, c, rep, other, e, encode_utf8("content"@));
    lemma_contents_moved(b, a, c, rep, other, e, encode_utf8("summary"@));
    lemma_contents_moved(b, a, c, rep, other, e, encode_utf8("description"@));
    assert(feed::body_of(splice::spliced(b, a, c, rep), splice::block_moved(a, c, n, e))
        =~= edits_moved(a, c, n, all));
}

/// Text apart from the stretch is the same where it has gone.
proof fn lemma_text_moved(b: Seq<u8>, a: int, c: int, rep: Seq<u8>, x: int, y: int)
    requires
        0 <= a <= c <= b.len(),
        0 <= x <= y <= b.len(),
        y < a || c < x,
    ensures
        splice::spliced(b, a, c, rep).subrange(
            splice::end_moved(a, c, rep.len() as int, x),
            splice::start_moved(a, c, rep.len() as int, y),
        ) == b.subrange(x, y),
{
    splice::lemma_spliced(b, a, c, rep);
    assert(splice::spliced(b, a, c, rep).subrange(
        splice::end_moved(a, c, rep.len() as int, x),
        splice::start_moved(a, c, rep.len() as int, y),
    ) =~= b.subrange(x, y));
}

/// The alternate link of an entry is where it has gone.
proof fn lemma_atom_link_moved(
    b: Seq<u8>,
    a: int,
    c: int,
    rep: Seq<u8>,
    other: Seq<u8>,
    e: (int, int, int, int),
)
    requires
        is_step(b, a, c, rep),
        is_feed_name(other),
        is_element(b, other, e),
        entry_clear(b, e, true, a, c),
        !splice::swallowed(a, c, e),
    ensures
        ({
            let n = rep.len() as int;
            let moved = splice::block_moved(a, c, n, e);
            let sub = b.subrange(e.0, e.1);
            let sub1 = splice::spliced(b, a, c, rep).subrange(moved.0, moved.1);
            &&& feed::entry_address(sub1, true) == feed::entry_address(sub, true)
            &&& match scan::alternate_at(sub, 0) {
                Some((s, end)) => {
                    &&& scan::alternate_at(sub1, 0) matches Some((s1, end1))
                    &&& moved.0 + s1 == splice::start_moved(a, c, n, e.0 + s)
                    &&& (e.0 + s < a || c <= e.0 + s)
                },
                None => scan::alternate_at(sub1, 0) is None,
            }
        }),
{
    let sub = b.subrange(e.0, e.1);
    lemma_names();
    lemma_element(b, other, e);
    splice::lemma_alternate_begins(sub);
    if e.1 <= a || e.0 >= c {
        lemma_entry_beside(b, a, c, rep, other, e);
    } else {
        lemma_entry_within(b, a, c, rep, other, e);
        assert(is_feed_name(encode_utf8("link"@)));
        splice::lemma_alternate(sub, a - e.0, c - e.0, rep);
    }
}

/// The first link of an item is where it has gone, with the same text.
proof fn lemma_rss_link_moved(
    b: Seq<u8>,
    a: int,
    c: int,
    rep: Seq<u8>,
    other: Seq<u8>,
    e: (int, int, int, int),
)
    requires
        is_step(b, a, c, rep),
        is_feed_name(other),
        is_element(b, other, e),
        entry_clear(b, e, false, a, c),
        !splice::swallowed(a, c, e),
    ensures
        ({
            let n = rep.len() as int;
            let moved = splice::block_moved(a, c, n, e);
            let sub = b.subrange(e.0, e.1);
            let sub1 = splice::spliced(b, a, c, rep).subrange(moved.0, moved.1);
            let links = scan::blocks_from(sub, encode_utf8("link"@), 0);
            let links1 = scan::blocks_from(sub1, encode_utf8("link"@), 0);
            &&& feed::entry_address(sub1, false) == feed::entry_address(sub, false)
            &&& links.len() > 0 <==> links1.len() > 0
            &&& links.len() > 0 ==> {
                &&& moved.0 + links1[0].0 == splice::start_moved(a, c, n, e.0 + links[0].0)
                &&& moved.0 + links1[0].1 == splice::end_moved(a, c, n, e.0 + links[0].1)
                &&& links[0].0 < links[0].1
                &&& (e.0 + links[0].1 <= a || c <= e.0 + links[0].0)
            }
        }),
{
    let link = encode_utf8("link"@);
    let n = rep.len() as int;
    let moved = splice::block_moved(a, c, n, e);
    let sub = b.subrange(e.0, e.1);
    let sub1 = splice::spliced(b, a, c, rep).subrange(moved.0, moved.1);
    let links = scan::blocks_from(sub, link, 0);
    lemma_names();
    lemma_element(b, other, e);
    if links.len() > 0 {
        lemma_blocks_have_contents(sub, link, 0, 0);
        lemma_content(sub, link, links[0].0, links[0].2, links[0].3);
        splice::lemma_tag_texts(link);
    }
    if e.1 <= a || e.0 >= c {
        lemma_entry_beside(b, a, c, rep, other, e);
    } else {
        lemma_entry_within(b, a, c, rep, other, e);
        assert(is_feed_name(link));
        splice::lemma_first_block(sub, a - e.0, c - e.0, rep, link);
        if links.len() > 0 {
            lemma_text_moved(sub, a - e.0, c - e.0, rep, links[0].2, links[0].3);
        }
    }
}

/// An entry is hidden if and only if it was.
proof fn lemma_hidden_alike(
    b: Seq<u8>,
    a: int,
    c: int,
    rep: Seq<u8>,
    other: Seq<u8>,
    e: (int, int, int, int),
    atom: bool,
    strip_prefix: Seq<char>,
    files: Set<Seq<char>>,
)
    requires
        is_step(b, a, c, rep),
        is_feed_name(other),
        is_element(b, other, e),
        entry_clear(b, e, atom, a, c),
        !splice::swallowed(a, c, e),
    ensures
        ({
            let moved = splice::block_moved(a, c, rep.len() as int, e);
            feed::is_hidden(
                splice::spliced(b, a, c, rep).subrange(moved.0, moved.1),
                atom,
                strip_prefix,
                files,
            ) == feed::is_hidden(b.subrange(e.0, e.1), atom, strip_prefix, files)
        }),
{
    if atom {
        lemma_atom_link_moved(b, a, c, rep, other, e);
    } else {
        lemma_rss_link_moved(b, a, c, rep, other, e);
    }
}

/// An entry that stands in the stretch has no body apart from it.
proof fn lemma_swallowed_has_no_body(
    b: Seq<u8>,
    a: int,
    c: int,
    other: Seq<u8>,
    e: (int, int, int, int),
)
    requires
        is_feed_name(other),
        is_element(b, other, e),
        splice::swallowed(a, c, e),
        all_apart(feed::body_of(b, e), a, c),
    ensures
        feed::body_of(b, e) == Seq::<(int, int)>::empty(),
{
    let all = feed::body_of(b, e);
    lemma_element(b, other, e);
    if all.len() > 0 {
        let sub = b.subrange(e.0, e.1);
        let (name, k) = lemma_body_is_block(b, e, 0);
        let block = scan::blocks_from(sub, name, 0)[k];
        lemma_blocks_have_contents(sub, name, 0, k);
        lemma_content(sub, name, block.0, block.2, block.3);
        assert(apart(all[0], a, c));
    }
    assert(all =~= Seq::<(int, int)>::empty());
}

pub open spec fn hidden_apart(
    b: Seq<u8>,
    entries: Seq<(int, int, int, int)>,
    atom: bool,
    strip_prefix: Seq<char>,
    files: Set<Seq<char>>,
    a: int,
    c: int,
) -> bool {
    forall|k: int|
        0 <= k < entries.len() && feed::is_hidden(
            b.subrange((#[trigger] entries[k]).0, entries[k].1),
            atom,
            strip_prefix,
            files,
        ) ==> all_apart(feed::body_of(b, entries[k]), a, c)
}

proof fn lemma_hidden_bodies_moved(
    b: Seq<u8>,
    a: int,
    c: int,
    rep: Seq<u8>,
    other: Seq<u8>,
    entries: Seq<(int, int, int, int)>,
    atom: bool,
    strip_prefix: Seq<char>,
    files: Set<Seq<char>>,
)
    requires
        is_step(b, a, c, rep),
        is_feed_name(other),
        forall|k: int| 0 <= k < entries.len() ==> is_element(b, other, #[trigger] entries[k]),
        entries_clear(b, entries, atom, a, c),
        hidden_apart(b, entries, atom, strip_prefix, files, a, c),
    ensures
        feed::hidden_bodies(
            splice::spliced(b, a, c, rep),
            splice::blocks_moved(a, c, rep.len() as int, entries),
            atom,
            strip_prefix,
            files,
        ) == edits_moved(
            a,
            c,
            rep.len() as int,
            feed::hidden_bodies(b, entries, atom, strip_prefix, files),
        ),
    decreases entries.len(),
{
    let n = rep.len() as int;
    let after = splice::spliced(b, a, c, rep);
    let moved = splice::blocks_moved(a, c, n, entries);
    let all = feed::hidden_bodies(b, entries, atom, strip_prefix, files);
    let all1 = feed::hidden_bodies(after, moved, atom, strip_prefix, files);
    if entries.len() == 0 {
        assert(all1 =~= edits_moved(a, c, n, all));
    } else {
        let e = entries[entries.len() - 1];
        let shorter = entries.drop_last();
        assert forall|k: int| 0 <= k < shorter.len() implies is_element(
            b,
            other,
            #[trigger] shorter[k],
        ) && entry_clear(b, shorter[k], atom, a, c) by {
            assert(shorter[k] == entries[k]);
        }
        assert(hidden_apart(b, shorter, atom, strip_prefix, files, a, c)) by {
            assert forall|k: int|
                0 <= k < shorter.len() && feed::is_hidden(
                    b.subrange((#[trigger] shorter[k]).0, shorter[k].1),
                    atom,
                    strip_prefix,
                    files,
                ) implies all_apart(feed::body_of(b, shorter[k]), a, c) by {
                assert(shorter[k] == entries[k]);
            }
        }
        lemma_hidden_bodies_moved(b, a, c, rep, other, shorter, atom, strip_prefix, files);
        assert(is_element(b, other, e) && entry_clear(b, e, atom, a, c));
        splice::lemma_last_moved(a, c, n, entries);
        let before = feed::hidden_bodies(b, shorter, atom, strip_prefix, files);
        let hidden = feed::is_hidden(b.subrange(e.0, e.1), atom, strip_prefix, files);
        if splice::swallowed(a, c, e) {
            if hidden {
                lemma_swallowed_has_no_body(b, a, c, other, e);
            }
            assert(all =~= before);
        } else {
            lemma_hidden_alike(b, a, c, rep, other, e, atom, strip_prefix, files);
            if hidden {
                lemma_bodies_moved(b, a, c, rep, other, e);
            }
            let shorter1 = splice::blocks_moved(a, c, n, shorter);
            assert(moved.drop_last() =~= shorter1);
            assert(moved.last() == splice::block_moved(a, c, n, e));
            assert(all1 =~= edits_moved(a, c, n, all));
        }
    }
}

/// After one body was replaced, the bodies that have to go are the same ones,
/// where they have gone.
proof fn lemma_feed_moved(
    b: Seq<u8>,
    a: int,
    c: int,
    rep: Seq<u8>,
    strip_prefix: Seq<char>,
    files: Set<Seq<char>>,
)
    requires
        splice::fits_between(b, a, c, rep),
        is_tidy_at(b, a, c),
        all_apart(feed::feed_edits(b, strip_prefix, files), a, c),
    ensures
        feed::feed_edits(splice::spliced(b, a, c, rep), strip_prefix, files) == edits_moved(
            a,
            c,
            rep.len() as int,
            feed::feed_edits(b, strip_prefix, files),
        ),
        feed::atom_entries(splice::spliced(b, a, c, rep)) == splice::blocks_moved(
            a,
            c,
            rep.len() as int,
            feed::atom_entries(b),
        ),
        feed::rss_items(splice::spliced(b, a, c, rep)) == splice::blocks_moved(
            a,
            c,
            rep.len() as int,
            feed::rss_items(b),
        ),
{
    let n = rep.len() as int;
    let entry = encode_utf8("entry"@);
    let item = encode_utf8("item"@);
    let after = splice::spliced(b, a, c, rep);
    lemma_names();
    assert(is_feed_name(entry) && is_feed_name(item));
    assert(splice::tags_clear(b, entry, a, c));
    assert(splice::tags_clear(b, item, a, c));
    splice::lemma_blocks(b, a, c, rep, entry);
    splice::lemma_blocks(b, a, c, rep, item);
    lemma_entries_are_elements(b);
    lemma_hidden_apart(b, strip_prefix, files, true, a, c);
    lemma_hidden_apart(b, strip_prefix, files, false, a, c);
    lemma_hidden_bodies_moved(
        b,
        a,
        c,
        rep,
        entry,
        feed::atom_entries(b),
        true,
        strip_prefix,
        files,
    );
    lemma_hidden_bodies_moved(
        b,
        a,
        c,
        rep,
        item,
        feed::rss_items(b),
        false,
        strip_prefix,
        files,
    );
    assert(feed::feed_edits(after, strip_prefix, files) =~= edits_moved(
        a,
        c,
        n,
        feed::feed_edits(b, strip_prefix, files),
    ));
}

proof fn lemma_entries_are_elements(b: Seq<u8>)
    ensures
        forall|k: int|
            0 <= k < feed::atom_entries(b).len() ==> is_element(
                b,
                encode_utf8("entry"@),
                #[trigger] feed::atom_entries(b)[k],
            ),
        forall|k: int|
            0 <= k < feed::rss_items(b).len() ==> is_element(
                b,
                encode_utf8("item"@),
                #[trigger] feed::rss_items(b)[k],
            ),
{
    let entry = encode_utf8("entry"@);
    let item = encode_utf8("item"@);
    assert(is_feed_name(entry) && is_feed_name(item));
    assert forall|k: int| 0 <= k < feed::atom_entries(b).len() implies is_element(
        b,
        entry,
        #[trigger] feed::atom_entries(b)[k],
    ) by {
        lemma_blocks_have_contents(b, entry, 0, k);
    }
    assert forall|k: int| 0 <= k < feed::rss_items(b).len() implies is_element(
        b,
        item,
        #[trigger] feed::rss_items(b)[k],
    ) by {
        lemma_blocks_have_contents(b, item, 0, k);
    }
}

/// The bodies of hidden entries are among those that have to go.
proof fn lemma_hidden_apart(
    b: Seq<u8>,
    strip_prefix: Seq<char>,
    files: Set<Seq<char>>,
    atom: bool,
    a: int,
    c: int,
)
    requires
        all_apart(feed::feed_edits(b, strip_prefix, files), a, c),
    ensures
        hidden_apart(
            b,
            if atom { feed::atom_entries(b) } else { feed::rss_items(b) },
            atom,
            strip_prefix,
            files,
            a,
            c,
        ),
{
    let entries = if atom { feed::atom_entries(b) } else { feed::rss_items(b) };
    let edits = feed::feed_edits(b, strip_prefix, files);
    assert forall|k: int|
        0 <= k < entries.len() && feed::is_hidden(
            b.subrange((#[trigger] entries[k]).0, entries[k].1),
            atom,
            strip_prefix,
            files,
        ) implies all_apart(feed::body_of(b, entries[k]), a, c) by {
        let body = feed::body_of(b, entries[k]);
        assert forall|j: int| 0 <= j < body.len() implies apart(#[trigger] body[j], a, c) by {
            feed::law_hidden_bodies_are_replaced(b, strip_prefix, files, atom, k, j);
            let at = choose|at: int| 0 <= at < edits.len() && edits[at] == body[j];
            assert(apart(edits[at], a, c));
        }
    }
}

/// A body that has to go is the content of an element of such a name in its
/// entry.
proof fn lemma_body_is_block(b: Seq<u8>, e: (int, int, int, int), j: int) -> (r: (Seq<u8>, int))
    requires
        0 <= j < feed::body_of(b, e).len(),
    ensures
        is_body_name(r.0),
        0 <= r.1 < scan::blocks_from(b.subrange(e.0, e.1), r.0, 0).len(),
        feed::body_of(b, e)[j] == (
            e.0 + scan::blocks_from(b.subrange(e.0, e.1), r.0, 0)[r.1].2,
            e.0 + scan::blocks_from(b.subrange(e.0, e.1), r.0, 0)[r.1].3,
        ),
{
    let sub = b.subrange(e.0, e.1);
    let first = feed::contents_in(sub, encode_utf8("content"@), e.0);
    let second = feed::contents_in(sub, encode_utf8("summary"@), e.0);
    if j < first.len() {
        (encode_utf8("content"@), j)
    } else if j < first.len() + second.len() {
        (encode_utf8("summary"@), j - first.len())
    } else {
        (encode_utf8("description"@), j - first.len() - second.len())
    }
}

/// A body that has to go is the content of an element of such a name.
proof fn lemma_body_is_content(b: Seq<u8>, e: (int, int, int, int), j: int) -> (r: (Seq<u8>, int))
    requires
        0 <= e.0 < e.1 <= b.len(),
        b[e.1 - 1] == GT,
        0 <= j < feed::body_of(b, e).len(),
    ensures
        is_body_name(r.0),
        is_content_of(b, r.0, r.1, feed::body_of(b, e)[j].0, feed::body_of(b, e)[j].1),
{
    let sub = b.subrange(e.0, e.1);
    let (name, k) = lemma_body_is_block(b, e, j);
    let block = scan::blocks_from(sub, name, 0)[k];
    lemma_blocks_have_contents(sub, name, 0, k);
    lemma_content_within(b, e.0, e.1, name, block.0, block.2, block.3);
    (name, e.0 + block.0)
}

proof fn lemma_hidden_body_is_content(
    b: Seq<u8>,
    other: Seq<u8>,
    entries: Seq<(int, int, int, int)>,
    atom: bool,
    strip_prefix: Seq<char>,
    files: Set<Seq<char>>,
    j: int,
) -> (r: (Seq<u8>, int))
    requires
        is_feed_name(other),
        forall|k: int| 0 <= k < entries.len() ==> is_element(b, other, #[trigger] entries[k]),
        0 <= j < feed::hidden_bodies(b, entries, atom, strip_prefix, files).len(),
    ensures
        is_body_name(r.0),
        is_content_of(
            b,
            r.0,
            r.1,
            feed::hidden_bodies(b, entries, atom, strip_prefix, files)[j].0,
            feed::hidden_bodies(b, entries, atom, strip_prefix, files)[j].1,
        ),
    decreases entries.len(),
{
    let shorter = entries.drop_last();
    let before = feed::hidden_bodies(b, shorter, atom, strip_prefix, files);
    if j < before.len() {
        assert forall|k: int| 0 <= k < shorter.len() implies is_element(
            b,
            other,
            #[trigger] shorter[k],
        ) by {
            assert(shorter[k] == entries[k]);
        }
        lemma_hidden_body_is_content(b, other, shorter, atom, strip_prefix, files, j)
    } else {
        let e = entries[entries.len() - 1];
        lemma_element(b, other, e);
        lemma_body_is_content(b, e, j - before.len())
    }
}

proof fn lemma_edit_is_content(
    b: Seq<u8>,
    strip_prefix: Seq<char>,
    files: Set<Seq<char>>,
    j: int,
) -> (r: (Seq<u8>, int))
    requires
        0 <= j < feed::feed_edits(b, strip_prefix, files).len(),
    ensures
        is_body_name(r.0),
        is_content_of(
            b,
            r.0,
            r.1,
            feed::feed_edits(b, strip_prefix, files)[j].0,
            feed::feed_edits(b, strip_prefix, files)[j].1,
        ),
{
    let entries = feed::atom_entries(b);
    let items = feed::rss_items(b);
    let first = feed::hidden_bodies(b, entries, true, strip_prefix, files);
    lemma_entries_are_elements(b);
    if j < first.len() {
        lemma_hidden_body_is_content(
            b,
            encode_utf8("entry"@),
            entries,
            true,
            strip_prefix,
            files,
            j,
        )
    } else {
        lemma_hidden_body_is_content(
            b,
            encode_utf8("item"@),
            items,
            false,
            strip_prefix,
            files,
            j - first.len(),
        )
    }
}

// ---------------------------------------------------------------------------
// A tidy feed stays tidy
// ---------------------------------------------------------------------------

/// A tag after the splice is a tag from before it, and as clear of another
/// stretch.
proof fn lemma_tags_kept(b: Seq<u8>, a: int, c: int, rep: Seq<u8>, edit: (int, int))
    requires
        is_step(b, a, c, rep),
        0 <= edit.0 <= edit.1,
        apart(edit, a, c),
        tags_keep_clear(b, edit.0, edit.1),
    ensures
        ({
            let moved = edit_moved(a, c, rep.len() as int, edit);
            tags_keep_clear(splice::spliced(b, a, c, rep), moved.0, moved.1)
        }),
{
    let n = rep.len() as int;
    let after = splice::spliced(b, a, c, rep);
    let moved = edit_moved(a, c, n, edit);
    lemma_names();
    assert forall|name: Seq<u8>, t: int|
        is_feed_name(name) && #[trigger] splice::opens(after, name, t) implies splice::tag_clear(
        after,
        t,
        moved.0,
        moved.1,
    ) by {
        let from = splice::lemma_opens_before(b, a, c, rep, name, t);
        assert(splice::tag_clear(b, from, a, c));
        assert(splice::tag_clear(b, from, edit.0, edit.1));
    }
}

/// An entry is as clear of another stretch after the splice as before it.
proof fn lemma_entry_kept(
    b: Seq<u8>,
    a: int,
    c: int,
    rep: Seq<u8>,
    other: Seq<u8>,
    e: (int, int, int, int),
    atom: bool,
    edit: (int, int),
)
    requires
        is_step(b, a, c, rep),
        is_feed_name(other),
        is_element(b, other, e),
        entry_clear(b, e, atom, a, c),
        !splice::swallowed(a, c, e),
        0 <= edit.0 <= edit.1,
        apart(edit, a, c),
        entry_clear(b, e, atom, edit.0, edit.1),
    ensures
        ({
            let n = rep.len() as int;
            let moved = edit_moved(a, c, n, edit);
            entry_clear(
                splice::spliced(b, a, c, rep),
                splice::block_moved(a, c, n, e),
                atom,
                moved.0,
                moved.1,
            )
        }),
{
    let n = rep.len() as int;
    let moved = edit_moved(a, c, n, edit);
    let e1 = splice::block_moved(a, c, n, e);
    lemma_element(b, other, e);
    assert(splice::block_clear(moved.0, moved.1, e1));
    if holds(e1, moved.0, moved.1) {
        assert(holds(e, edit.0, edit.1));
        if atom {
            lemma_atom_link_moved(b, a, c, rep, other, e);
        } else {
            lemma_rss_link_moved(b, a, c, rep, other, e);
        }
    }
}

/// What is left of the elements was there before.
proof fn lemma_from_moved(
    a: int,
    c: int,
    n: int,
    blocks: Seq<(int, int, int, int)>,
    k: int,
) -> (r: int)
    requires
        0 <= k < splice::blocks_moved(a, c, n, blocks).len(),
    ensures
        0 <= r < blocks.len(),
        !splice::swallowed(a, c, blocks[r]),
        splice::blocks_moved(a, c, n, blocks)[k] == splice::block_moved(a, c, n, blocks[r]),
    decreases blocks.len(),
{
    let rest = blocks.drop_first();
    if splice::swallowed(a, c, blocks[0]) {
        1 + lemma_from_moved(a, c, n, rest, k)
    } else if k == 0 {
        0
    } else {
        1 + lemma_from_moved(a, c, n, rest, k - 1)
    }
}

proof fn lemma_entries_kept(
    b: Seq<u8>,
    a: int,
    c: int,
    rep: Seq<u8>,
    other: Seq<u8>,
    entries: Seq<(int, int, int, int)>,
    atom: bool,
    edit: (int, int),
)
    requires
        is_step(b, a, c, rep),
        is_feed_name(other),
        forall|k: int| 0 <= k < entries.len() ==> is_element(b, other, #[trigger] entries[k]),
        entries_clear(b, entries, atom, a, c),
        0 <= edit.0 <= edit.1,
        apart(edit, a, c),
        entries_clear(b, entries, atom, edit.0, edit.1),
    ensures
        ({
            let n = rep.len() as int;
            let moved = edit_moved(a, c, n, edit);
            entries_clear(
                splice::spliced(b, a, c, rep),
                splice::blocks_moved(a, c, n, entries),
                atom,
                moved.0,
                moved.1,
            )
        }),
{
    let n = rep.len() as int;
    let moved = edit_moved(a, c, n, edit);
    let entries1 = splice::blocks_moved(a, c, n, entries);
    assert forall|k: int| 0 <= k < entries1.len() implies entry_clear(
        splice::spliced(b, a, c, rep),
        #[trigger] entries1[k],
        atom,
        moved.0,
        moved.1,
    ) by {
        let r = lemma_from_moved(a, c, n, entries, k);
        lemma_entry_kept(b, a, c, rep, other, entries[r], atom, edit);
    }
}

proof fn lemma_tidy_kept(
    b: Seq<u8>,
    rep: Seq<u8>,
    strip_prefix: Seq<char>,
    files: Set<Seq<char>>,
    j: int,
)
    requires
        is_tidy(b, strip_prefix, files),
        0 <= j < feed::feed_edits(b, strip_prefix, files).len(),
        splice::fits_between(
            b,
            feed::feed_edits(b, strip_prefix, files)[j].0,
            feed::feed_edits(b, strip_prefix, files)[j].1,
            rep,
        ),
    ensures
        ({
            let edits = feed::feed_edits(b, strip_prefix, files);
            let (a, c) = edits[j];
            let after = splice::spliced(b, a, c, rep);
            &&& is_tidy(after, strip_prefix, files)
            &&& feed::feed_edits(after, strip_prefix, files) == edits_moved(
                a,
                c,
                rep.len() as int,
                edits,
            )
        }),
{
    let edits = feed::feed_edits(b, strip_prefix, files);
    let (a, c) = edits[j];
    let n = rep.len() as int;
    let after = splice::spliced(b, a, c, rep);
    assert forall|i: int| 0 <= i < edits.len() implies apart(#[trigger] edits[i], a, c) by {
        assert(edits[i] == edits[j] || edits[i].1 < edits[j].0 || edits[j].1 < edits[i].0);
    }
    assert(is_tidy_at(b, edits[j].0, edits[j].1));
    lemma_feed_moved(b, a, c, rep, strip_prefix, files);
    lemma_replaced_stepwise(b, edits, rep, j, 0);
    lemma_entries_are_elements(b);
    let edits1 = feed::feed_edits(after, strip_prefix, files);
    let entry = encode_utf8("entry"@);
    let item = encode_utf8("item"@);
    assert(is_feed_name(entry) && is_feed_name(item));
    assert forall|i: int| 0 <= i < edits1.len() implies is_tidy_at(
        after,
        (#[trigger] edits1[i]).0,
        edits1[i].1,
    ) by {
        assert(edits1[i] == edit_moved(a, c, n, edits[i]));
        assert(apart(edits[i], a, c));
        assert(is_tidy_at(b, edits[i].0, edits[i].1));
        lemma_tags_kept(b, a, c, rep, edits[i]);
        lemma_entries_kept(b, a, c, rep, entry, feed::atom_entries(b), true, edits[i]);
        lemma_entries_kept(b, a, c, rep, item, feed::rss_items(b), false, edits[i]);
    }
}

// ---------------------------------------------------------------------------
// Replacing body by body
// ---------------------------------------------------------------------------

/// Past a stretch, the replacement and the next byte are there.
proof fn lemma_replaced_over(b: Seq<u8>, edits: Seq<(int, int)>, rep: Seq<u8>, j: int, k: int)
    requires
        are_apart(b.len() as int, edits),
        0 <= j < edits.len(),
        edits[j].0 < k <= edits[j].1 + 1,
    ensures
        feed::replaced_to(b, edits, rep, k) == feed::replaced_to(b, edits, rep, edits[j].0) + rep
            + (if k == edits[j].1 + 1 {
            seq![b[edits[j].1]]
        } else {
            Seq::empty()
        }),
    decreases k,
{
    let (a, c) = edits[j];
    let p = k - 1;
    assert forall|i: int| 0 <= i < edits.len() implies (#[trigger] edits[i] == edits[j]
        || edits[i].1 < a || edits[i].0 > c) by {
        assert(edits[i] == edits[j] || edits[i].1 < edits[j].0 || edits[j].1 < edits[i].0);
    }
    assert(feed::begins(edits, p) == (p == a)) by {
        if p == a {
            assert(edits[j].0 == p);
        }
    }
    assert(!feed::inside(edits, a));
    assert(feed::covered(edits, p) == (p < c)) by {
        if p < c {
            assert(edits[j].0 <= p < edits[j].1);
        }
    }
    let start = feed::replaced_to(b, edits, rep, a);
    if p == a {
        assert(feed::replaced_to(b, edits, rep, k) =~= start + rep + (if k == c + 1 {
            seq![b[c]]
        } else {
            Seq::empty()
        }));
    } else {
        lemma_replaced_over(b, edits, rep, j, p);
        assert(feed::replaced_to(b, edits, rep, k) =~= start + rep + (if k == c + 1 {
            seq![b[c]]
        } else {
            Seq::empty()
        }));
    }
}

/// Replacing one body first and then the rest gives the same as replacing all.
proof fn lemma_replaced_stepwise(
    b: Seq<u8>,
    edits: Seq<(int, int)>,
    rep: Seq<u8>,
    j: int,
    k: int,
)
    requires
        are_apart(b.len() as int, edits),
        0 <= j < edits.len(),
        k <= edits[j].0 || edits[j].1 < k <= b.len() + 1,
    ensures
        ({
            let (a, c) = edits[j];
            let n = rep.len() as int;
            let after = splice::spliced(b, a, c, rep);
            let moved = edits_moved(a, c, n, edits);
            &&& are_apart(after.len() as int, moved)
            &&& feed::replaced_to(after, moved, rep, splice::end_moved(a, c, n, k))
                == feed::replaced_to(b, edits, rep, k)
        }),
    decreases k,
{
    let (a, c) = edits[j];
    let n = rep.len() as int;
    let after = splice::spliced(b, a, c, rep);
    let moved = edits_moved(a, c, n, edits);
    splice::lemma_spliced(b, a, c, rep);
    assert forall|i: int| 0 <= i < edits.len() implies (#[trigger] edits[i] == edits[j]
        || edits[i].1 < a || edits[i].0 > c) by {
        assert(edits[i] == edits[j] || edits[i].1 < edits[j].0 || edits[j].1 < edits[i].0);
    }
    assert forall|i: int| 0 <= i < edits.len() implies #[trigger] moved[i] == edit_moved(
        a,
        c,
        n,
        edits[i],
    ) by {}
    assert(are_apart(after.len() as int, moved)) by {
        assert forall|i: int| 0 <= i < moved.len() implies 0 <= (#[trigger] moved[i]).0
            <= moved[i].1 < after.len() by {
            assert(edits[i] == edits[j] || edits[i].1 < a || edits[i].0 > c);
        }
        assert forall|i: int, l: int|
            #![trigger moved[i], moved[l]]
            0 <= i < moved.len() && 0 <= l < moved.len() implies moved[i] == moved[l]
            || moved[i].1 < moved[l].0 || moved[l].1 < moved[i].0 by {
            assert(edits[i] == edits[l] || edits[i].1 < edits[l].0 || edits[l].1 < edits[i].0);
            assert(edits[i] == edits[j] || edits[i].1 < a || edits[i].0 > c);
            assert(edits[l] == edits[j] || edits[l].1 < a || edits[l].0 > c);
        }
    }
    if k > 0 {
        if k == c + 1 {
            lemma_replaced_stepwise(b, edits, rep, j, a);
            lemma_replaced_over(b, edits, rep, j, c + 1);
            assert(moved[j] == (a, a + n));
            lemma_replaced_over(after, moved, rep, j, a + n + 1);
            assert(after[a + n] == b[c]);
        } else {
            lemma_replaced_stepwise(b, edits, rep, j, k - 1);
            let p = k - 1;
            let q = splice::end_moved(a, c, n, k) - 1;
            assert(feed::begins(edits, p) == feed::begins(moved, q)) by {
                if feed::begins(edits, p) {
                    let i = choose|i: int| 0 <= i < edits.len() && (#[trigger] edits[i]).0 == p;
                    assert(moved[i].0 == q);
                }
                if feed::begins(moved, q) {
                    let i = choose|i: int| 0 <= i < moved.len() && (#[trigger] moved[i]).0 == q;
                    assert(edits[i].0 == p);
                }
            }
            assert(feed::inside(edits, p) == feed::inside(moved, q)) by {
                if feed::inside(edits, p) {
                    let i = choose|i: int|
                        0 <= i < edits.len() && (#[trigger] edits[i]).0 < p < edits[i].1;
                    assert(moved[i].0 < q < moved[i].1);
                }
                if feed::inside(moved, q) {
                    let i = choose|i: int|
                        0 <= i < moved.len() && (#[trigger] moved[i]).0 < q < moved[i].1;
                    assert(edits[i].0 < p < edits[i].1);
                }
            }
            assert(feed::covered(edits, p) == feed::covered(moved, q)) by {
                if feed::covered(edits, p) {
                    let i = choose|i: int|
                        0 <= i < edits.len() && (#[trigger] edits[i]).0 <= p < edits[i].1;
                    assert(moved[i].0 <= q < moved[i].1);
                }
                if feed::covered(moved, q) {
                    let i = choose|i: int|
                        0 <= i < moved.len() && (#[trigger] moved[i]).0 <= q < moved[i].1;
                    assert(edits[i].0 <= p < edits[i].1);
                }
            }
            if p < b.len() {
                assert(b[p] == after[q]);
            }
            assert(splice::end_moved(a, c, n, k - 1) == q);
            assert(feed::replaced_at(b, edits, rep, p) == feed::replaced_at(
                after,
                moved,
                rep,
                q,
            ));
        }
    }
}

/// Where every stretch holds the replacement already, nothing changes.
proof fn lemma_replaced_already(b: Seq<u8>, edits: Seq<(int, int)>, rep: Seq<u8>, k: int)
    requires
        are_apart(b.len() as int, edits),
        forall|j: int|
            0 <= j < edits.len() ==> b.subrange((#[trigger] edits[j]).0, edits[j].1) == rep,
        0 <= k <= b.len(),
        forall|j: int| 0 <= j < edits.len() ==> !((#[trigger] edits[j]).0 < k <= edits[j].1),
    ensures
        feed::replaced_to(b, edits, rep, k) == b.take(k),
    decreases k,
{
    if k == 0 {
        assert(b.take(0) =~= Seq::<u8>::empty());
    } else if exists|j: int| 0 <= j < edits.len() && (#[trigger] edits[j]).1 == k - 1 {
        let j = choose|j: int| 0 <= j < edits.len() && (#[trigger] edits[j]).1 == k - 1;
        let (a, c) = edits[j];
        assert forall|i: int| 0 <= i < edits.len() implies !((#[trigger] edits[i]).0 < a
            <= edits[i].1) by {
            assert(edits[i] == edits[j] || edits[i].1 < edits[j].0 || edits[j].1 < edits[i].0);
        }
        lemma_replaced_already(b, edits, rep, a);
        lemma_replaced_over(b, edits, rep, j, k);
        assert(b.take(k) =~= b.take(a) + b.subrange(a, c) + seq![b[c]]);
    } else {
        let p = k - 1;
        assert forall|i: int| 0 <= i < edits.len() implies !((#[trigger] edits[i]).0 < p
            <= edits[i].1) by {}
        lemma_replaced_already(b, edits, rep, p);
        if feed::begins(edits, p) {
            let i = choose|i: int| 0 <= i < edits.len() && (#[trigger] edits[i]).0 == p;
            assert(edits[i].1 != p);
        }
        if feed::covered(edits, p) {
            let i = choose|i: int|
                0 <= i < edits.len() && (#[trigger] edits[i]).0 <= p < edits[i].1;
            assert(edits[i].0 < k <= edits[i].1);
        }
        assert(feed::replaced_at(b, edits, rep, p) =~= seq![b[p]]);
        assert(b.take(k) =~= b.take(p) + seq![b[p]]);
    }
}

// ---------------------------------------------------------------------------
// The law
// ---------------------------------------------------------------------------

proof fn lemma_scalar_bytes(v: u32)
    requires
        is_scalar(v),
        v >= 0x80,
    ensures
        forall|k: int| 0 <= k < encode_scalar(v).len() ==> #[trigger] encode_scalar(v)[k] >= 0x80,
{
    assert(0x80u8 | ((v & 0x3F) as u8) >= 0x80) by (bit_vector);
    assert(0x80u8 | (((v >> 6) & 0x3F) as u8) >= 0x80) by (bit_vector);
    assert(0x80u8 | (((v >> 12) & 0x3F) as u8) >= 0x80) by (bit_vector);
    assert(0xC0u8 | (((v >> 6) & 0x1F) as u8) >= 0x80) by (bit_vector);
    assert(0xE0u8 | (((v >> 12) & 0x0F) as u8) >= 0x80) by (bit_vector);
    assert(0xF0u8 | (((v >> 18) & 0x07) as u8) >= 0x80) by (bit_vector);
}

/// Text without `<` has no byte of `<`.
proof fn lemma_no_lt(chars: Seq<char>)
    requires
        !chars.contains('<'),
    ensures
        forall|k: int| 0 <= k < encode_utf8(chars).len() ==> #[trigger] encode_utf8(chars)[k] != LT,
    decreases chars.len(),
{
    if chars.len() > 0 {
        let c = chars[0];
        let v = c as u32;
        let rest = chars.drop_first();
        assert(chars.contains(c));
        assert(!rest.contains('<')) by {
            if rest.contains('<') {
                let k = choose|k: int| 0 <= k < rest.len() && rest[k] == '<';
                assert(chars[k + 1] == '<');
            }
        }
        lemma_no_lt(rest);
        char_is_scalar(c);
        char_u32_cast(c, v);
        if v >= 0x80 {
            lemma_scalar_bytes(v);
        } else {
            assert((v & 0x7F) as u8 == v as u8) by (bit_vector)
                requires
                    v < 0x80,
            ;
            assert(encode_scalar(v) == seq![v as u8]);
            assert(v != 0x3c);
        }
        let all = encode_utf8(chars);
        let first = encode_scalar(v);
        assert(all == first + encode_utf8(rest));
        assert forall|k: int| 0 <= k < all.len() implies #[trigger] all[k] != LT by {
            if k < first.len() {
                assert(all[k] == first[k]);
            } else {
                assert(all[k] == encode_utf8(rest)[k - first.len()]);
            }
        }
    }
}

proof fn lemma_rounds(
    b: Seq<u8>,
    strip_prefix: Seq<char>,
    placeholder: Seq<char>,
    files: Set<Seq<char>>,
    j: int,
)
    requires
        is_tidy(b, strip_prefix, files),
        0 <= j <= feed::feed_edits(b, strip_prefix, files).len(),
        forall|i: int|
            0 <= i < j ==> b.subrange(
                (#[trigger] feed::feed_edits(b, strip_prefix, files)[i]).0,
                feed::feed_edits(b, strip_prefix, files)[i].1,
            ) == encode_utf8(feed::xml_escaped(placeholder)),
    ensures
        ({
            let once = feed::redacted_feed(b, strip_prefix, placeholder, files);
            &&& feed::redacted_feed(once, strip_prefix, placeholder, files) == once
            &&& feed::feed_edits(once, strip_prefix, files).len() == feed::feed_edits(
                b,
                strip_prefix,
                files,
            ).len()
        }),
    decreases feed::feed_edits(b, strip_prefix, files).len() - j,
{
    let edits = feed::feed_edits(b, strip_prefix, files);
    let rep = encode_utf8(feed::xml_escaped(placeholder));
    let n = rep.len() as int;
    if j == edits.len() {
        let len = b.len() as int;
        lemma_replaced_already(b, edits, rep, len);
        assert(feed::replaced_at(b, edits, rep, len) =~= Seq::<u8>::empty());
        assert(b.take(len) + Seq::<u8>::empty() =~= b);
    } else {
        let (a, c) = edits[j];
        let (name, s) = lemma_edit_is_content(b, strip_prefix, files, j);
        feed::law_xml_escaped_has_no_tags(placeholder);
        lemma_no_lt(feed::xml_escaped(placeholder));
        let after = splice::spliced(b, a, c, rep);
        lemma_content(b, name, s, a, c);
        lemma_tidy_kept(b, rep, strip_prefix, files, j);
        lemma_replaced_stepwise(b, edits, rep, j, b.len() as int + 1);
        splice::lemma_spliced(b, a, c, rep);
        let edits1 = feed::feed_edits(after, strip_prefix, files);
        assert forall|i: int| 0 <= i < j + 1 implies after.subrange(
            (#[trigger] edits1[i]).0,
            edits1[i].1,
        ) == rep by {
            assert(edits1[i] == edit_moved(a, c, n, edits[i]));
            assert(edits[i] == edits[j] || edits[i].1 < edits[j].0 || edits[j].1 < edits[i].0);
            if edits[i] == edits[j] {
                assert(after.subrange(a, a + n) =~= rep);
            } else {
                lemma_text_moved(b, a, c, rep, edits[i].0, edits[i].1);
            }
        }
        lemma_rounds(after, strip_prefix, placeholder, files, j + 1);
    }
}

/// A feed that was redacted stays as it is when it is redacted once more: the
/// same bodies have to go, and all of them hold the placeholder.
///
/// That is so where the bodies that have to go do not overlap and the links of
/// their entries lie outside them, and where neither end of a body cuts a tag
/// or an entry that is looked for: such a tag may end elsewhere when the body
/// goes, and such an entry may be another one.
pub proof fn law_redacting_twice(
    b: Seq<u8>,
    strip_prefix: Seq<char>,
    placeholder: Seq<char>,
    files: Set<Seq<char>>,
)
    requires
        is_tidy(b, strip_prefix, files),
    ensures
        ({
            let once = feed::redacted_feed(b, strip_prefix, placeholder, files);
            &&& feed::redacted_feed(once, strip_prefix, placeholder, files) == once
            &&& feed::feed_edits(once, strip_prefix, files).len() == feed::feed_edits(
                b,
                strip_prefix,
                files,
            ).len()
        }),
{
    lemma_rounds(b, strip_prefix, placeholder, files, 0);
}

/// Stretches that do not touch are replaced one by one: to put the replacement
/// in the place of one of them first, and then of all, gives the same. Where
/// each holds the replacement already, nothing changes.
pub proof fn law_replacing_one_by_one(b: Seq<u8>, edits: Seq<(int, int)>, rep: Seq<u8>, j: int)
    requires
        are_apart(b.len() as int, edits),
        0 <= j < edits.len(),
    ensures
        ({
            let (a, c) = edits[j];
            let moved = edits.map_values(
                |edit: (int, int)|
                    if edit == (a, c) {
                        (a, a + rep.len())
                    } else if edit.1 < a {
                        edit
                    } else {
                        (edit.0 + rep.len() - (c - a), edit.1 + rep.len() - (c - a))
                    },
            );
            feed::replaced(b, edits, rep) == feed::replaced(b.take(a) + rep + b.skip(c), moved, rep)
        }),
        (forall|i: int|
            0 <= i < edits.len() ==> b.subrange((#[trigger] edits[i]).0, edits[i].1) == rep)
            ==> feed::replaced(b, edits, rep) == b,
{
    let (a, c) = edits[j];
    let n = rep.len() as int;
    let moved = edits.map_values(
        |edit: (int, int)|
            if edit == (a, c) {
                (a, a + rep.len())
            } else if edit.1 < a {
                edit
            } else {
                (edit.0 + rep.len() - (c - a), edit.1 + rep.len() - (c - a))
            },
    );
    let end = b.len() as int;
    let after = splice::spliced(b, a, c, rep);
    assert forall|i: int| 0 <= i < edits.len() implies #[trigger] moved[i] == edits_moved(
        a,
        c,
        n,
        edits,
    )[i] by {
        assert(edits[i] == edits[j] || edits[i].1 < edits[j].0 || edits[j].1 < edits[i].0);
    }
    assert(moved =~= edits_moved(a, c, n, edits));
    lemma_replaced_stepwise(b, edits, rep, j, end + 1);
    assert(splice::end_moved(a, c, n, end + 1) == after.len() + 1);
    if forall|i: int|
        0 <= i < edits.len() ==> b.subrange((#[trigger] edits[i]).0, edits[i].1) == rep {
        lemma_replaced_already(b, edits, rep, end);
        assert(feed::replaced_at(b, edits, rep, end) =~= Seq::<u8>::empty());
        assert(b.take(end) =~= b);
    }
}

} // verus!
