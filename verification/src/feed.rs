//! Feed redaction: entries that link to encrypted pages lose their body.
//!
//! The content, summary and description of such an entry are replaced by a
//! placeholder. Titles stay public, as they do on list pages.

use vstd::prelude::*;
use vstd::slice::slice_subrange;
use vstd::string::*;
use vstd::utf8::*;

use crate::scan;
use crate::scan::{alternate_in, blocks_in, Block};
use crate::text;
use crate::text::{trim, Strip};
use crate::url;
use crate::url::{is_encrypted_url, FileSet};

verus! {

// ---------------------------------------------------------------------------
// Escaping
// ---------------------------------------------------------------------------

/// How a character is written in the text of an XML element.
pub open spec fn xml_entity(c: char) -> Seq<char> {
    if c == '&' {
        "&amp;"@
    } else if c == '<' {
        "&lt;"@
    } else if c == '>' {
        "&gt;"@
    } else {
        seq![c]
    }
}

/// Each character as it is written in the text of an XML element.
pub open spec fn xml_escaped(s: Seq<char>) -> Seq<char>
    decreases s.len(),
{
    if s.len() == 0 {
        Seq::empty()
    } else {
        xml_escaped(s.drop_last()) + xml_entity(s.last())
    }
}

/// Text that can stand in an XML element.
pub fn xml_escape(input: &str) -> (out: String)
    ensures
        out@ == xml_escaped(input@),
{
    let chars = text::chars_of(input);
    let mut out = String::new();
    for i in 0..chars.len()
        invariant
            chars@ == input@,
            out@ == xml_escaped(input@.take(i as int)),
    {
        let c: char = chars[i];
        let ghost before = out@;
        if c == '&' {
            out.append("&amp;");
        } else if c == '<' {
            out.append("&lt;");
        } else if c == '>' {
            out.append("&gt;");
        } else {
            out.push(c);
            proof {
                assert(out@ == before + seq![c]);
            }
        }
        proof {
            assert(input@.take(i + 1).drop_last() == input@.take(i as int));
            assert(input@.take(i + 1).last() == c);
        }
    }
    proof {
        assert(input@.take(input@.len() as int) == input@);
    }
    out
}

/// Escaped text opens and closes no tag.
pub proof fn law_xml_escaped_has_no_tags(s: Seq<char>)
    ensures
        !xml_escaped(s).contains('<'),
        !xml_escaped(s).contains('>'),
    decreases s.len(),
{
    if s.len() > 0 {
        law_xml_escaped_has_no_tags(s.drop_last());
        reveal_strlit("&amp;");
        reveal_strlit("&lt;");
        reveal_strlit("&gt;");
        let before = xml_escaped(s.drop_last());
        let all = xml_escaped(s);
        assert forall|k: int| 0 <= k < all.len() implies all[k] != '<' && all[k] != '>' by {
            if k < before.len() {
                assert(before.contains(before[k]));
            } else {
                assert(all[k] == xml_entity(s.last())[k - before.len()]);
            }
        }
    }
}

// ---------------------------------------------------------------------------
// Replacing stretches of text
// ---------------------------------------------------------------------------

/// Position `k` lies in one of the stretches.
pub open spec fn covered(edits: Seq<(int, int)>, k: int) -> bool {
    exists|j: int| 0 <= j < edits.len() && (#[trigger] edits[j]).0 <= k < edits[j].1
}

/// One of the stretches begins at `k`.
pub open spec fn begins(edits: Seq<(int, int)>, k: int) -> bool {
    exists|j: int| 0 <= j < edits.len() && (#[trigger] edits[j]).0 == k
}

/// Position `k` lies in one of the stretches, and not at its beginning.
pub open spec fn inside(edits: Seq<(int, int)>, k: int) -> bool {
    exists|j: int| 0 <= j < edits.len() && (#[trigger] edits[j]).0 < k < edits[j].1
}

/// What stands in the result for position `k` of the text: the replacement
/// where a stretch begins that no other one swallows, and the byte itself
/// unless it is covered.
pub open spec fn replaced_at(b: Seq<u8>, edits: Seq<(int, int)>, rep: Seq<u8>, k: int) -> Seq<u8> {
    (if begins(edits, k) && !inside(edits, k) {
        rep
    } else {
        Seq::empty()
    }) + (if 0 <= k < b.len() && !covered(edits, k) {
        seq![b[k]]
    } else {
        Seq::empty()
    })
}

/// The first `k` positions of the text, with the stretches replaced.
pub open spec fn replaced_to(b: Seq<u8>, edits: Seq<(int, int)>, rep: Seq<u8>, k: int) -> Seq<u8>
    decreases k,
{
    if k <= 0 {
        Seq::empty()
    } else {
        replaced_to(b, edits, rep, k - 1) + replaced_at(b, edits, rep, k - 1)
    }
}

/// The text with each stretch replaced. Where stretches overlap, one
/// replacement stands for all of them.
pub open spec fn replaced(b: Seq<u8>, edits: Seq<(int, int)>, rep: Seq<u8>) -> Seq<u8> {
    replaced_to(b, edits, rep, b.len() as int + 1)
}

pub open spec fn as_ints(edits: Seq<(usize, usize)>) -> Seq<(int, int)> {
    edits.map_values(|e: (usize, usize)| (e.0 as int, e.1 as int))
}

/// The stretches lie within the text and are cut next to ASCII bytes.
pub open spec fn clean_edits(b: Seq<u8>, edits: Seq<(int, int)>) -> bool {
    forall|j: int|
        0 <= j < edits.len() ==> {
            &&& (#[trigger] edits[j]).0 <= edits[j].1
            &&& text::ascii_cut(b, edits[j].0)
            &&& text::ascii_cut(b, edits[j].1)
        }
}

/// Marks on the positions of a text.
struct Marks {
    covered: Vec<bool>,
    begins: Vec<bool>,
    inside: Vec<bool>,
    /// Does a stretch begin behind the last byte?
    begins_at_end: bool,
}

fn mark(len: usize, edits: &Vec<(usize, usize)>) -> (marks: Marks)
    requires
        forall|j: int| 0 <= j < edits@.len() ==> (#[trigger] edits@[j]).0 <= edits@[j].1 <= len,
    ensures
        marks.covered@.len() == len,
        marks.begins@.len() == len,
        marks.inside@.len() == len,
        forall|k: int|
            0 <= k < len ==> #[trigger] marks.covered@[k] == covered(as_ints(edits@), k),
        forall|k: int| 0 <= k < len ==> #[trigger] marks.begins@[k] == begins(as_ints(edits@), k),
        forall|k: int| 0 <= k < len ==> #[trigger] marks.inside@[k] == inside(as_ints(edits@), k),
        marks.begins_at_end == begins(as_ints(edits@), len as int),
{
    let mut covers: Vec<bool> = Vec::new();
    let mut starts: Vec<bool> = Vec::new();
    let mut holds: Vec<bool> = Vec::new();
    let mut at_end: bool = false;
    for k in 0..len
        invariant
            covers@.len() == k,
            starts@.len() == k,
            holds@.len() == k,
            forall|i: int| 0 <= i < k ==> !covers@[i] && !starts@[i] && !holds@[i],
    {
        covers.push(false);
        starts.push(false);
        holds.push(false);
    }
    let ghost all = as_ints(edits@);
    proof {
        assert(all.take(0).len() == 0);
    }
    for j in 0..edits.len()
        invariant
            all == as_ints(edits@),
            forall|i: int|
                0 <= i < edits@.len() ==> (#[trigger] edits@[i]).0 <= edits@[i].1 <= len,
            covers@.len() == len,
            starts@.len() == len,
            holds@.len() == len,
            forall|k: int|
                0 <= k < len ==> #[trigger] covers@[k] == covered(all.take(j as int), k),
            forall|k: int| 0 <= k < len ==> #[trigger] starts@[k] == begins(all.take(j as int), k),
            forall|k: int| 0 <= k < len ==> #[trigger] holds@[k] == inside(all.take(j as int), k),
            at_end == begins(all.take(j as int), len as int),
    {
        let s: usize = edits[j].0;
        let e: usize = edits[j].1;
        let ghost done = all.take(j as int);
        let ghost next = all.take(j + 1);
        proof {
            lemma_marks_grow(done, (s as int, e as int));
            assert(next == done.push((s as int, e as int)));
        }
        let ghost covers_before = covers@;
        let ghost holds_before = holds@;
        if s < len {
            starts.set(s, true);
        } else {
            at_end = true;
        }
        for k in s..e
            invariant
                s <= e <= len,
                covers@.len() == len,
                holds@.len() == len,
                covers_before.len() == len,
                holds_before.len() == len,
                forall|i: int|
                    0 <= i < len ==> #[trigger] covers@[i] == (covers_before[i] || s <= i < k),
                forall|i: int|
                    0 <= i < len ==> #[trigger] holds@[i] == (holds_before[i] || s < i < k),
        {
            covers.set(k, true);
            if k > s {
                holds.set(k, true);
            }
        }
    }
    proof {
        assert(all.take(all.len() as int) == all);
    }
    Marks { covered: covers, begins: starts, inside: holds, begins_at_end: at_end }
}

proof fn lemma_marks_grow(done: Seq<(int, int)>, e: (int, int))
    ensures
        forall|k: int| #[trigger]
            covered(done.push(e), k) == (covered(done, k) || e.0 <= k < e.1),
        forall|k: int| #[trigger] begins(done.push(e), k) == (begins(done, k) || e.0 == k),
        forall|k: int| #[trigger]
            inside(done.push(e), k) == (inside(done, k) || e.0 < k < e.1),
{
    let next = done.push(e);
    assert(next[done.len() as int] == e);
    assert forall|j: int| 0 <= j < done.len() implies next[j] == done[j] by {}
    assert forall|k: int| #[trigger]
        covered(next, k) == (covered(done, k) || e.0 <= k < e.1) by {
        if covered(done, k) {
            let j = choose|j: int| 0 <= j < done.len() && (#[trigger] done[j]).0 <= k < done[j].1;
            assert(next[j] == done[j]);
        }
    }
    assert forall|k: int| #[trigger] begins(next, k) == (begins(done, k) || e.0 == k) by {
        if begins(done, k) {
            let j = choose|j: int| 0 <= j < done.len() && (#[trigger] done[j]).0 == k;
            assert(next[j] == done[j]);
        }
    }
    assert forall|k: int| #[trigger]
        inside(next, k) == (inside(done, k) || e.0 < k < e.1) by {
        if inside(done, k) {
            let j = choose|j: int| 0 <= j < done.len() && (#[trigger] done[j]).0 < k < done[j].1;
            assert(next[j] == done[j]);
        }
    }
}

/// The text with the stretches replaced.
fn replace_all(bytes: &[u8], edits: &Vec<(usize, usize)>, rep: &[u8]) -> (out: Vec<u8>)
    requires
        valid_utf8(bytes@),
        valid_utf8(rep@),
        clean_edits(bytes@, as_ints(edits@)),
    ensures
        out@ == replaced(bytes@, as_ints(edits@), rep@),
        valid_utf8(out@),
{
    let n: usize = bytes.len();
    let ghost all = as_ints(edits@);
    proof {
        assert forall|j: int| 0 <= j < edits@.len() implies (#[trigger] edits@[j]).0 <= edits@[j].1
            <= n by {
            assert(all[j] == (edits@[j].0 as int, edits@[j].1 as int));
        }
    }
    let marks = mark(n, edits);
    let mut out: Vec<u8> = Vec::new();
    // What is out is `done`, which is whole characters, and the run of kept
    // bytes from `run` on.
    let ghost mut done: Seq<u8> = Seq::empty();
    let ghost mut run: int = 0;
    proof {
        assert(out@ == done + bytes@.subrange(0, 0));
    }
    for k in 0..n
        invariant
            n == bytes@.len(),
            valid_utf8(bytes@),
            valid_utf8(rep@),
            clean_edits(bytes@, all),
            marks.covered@.len() == n,
            marks.begins@.len() == n,
            marks.inside@.len() == n,
            forall|i: int| 0 <= i < n ==> #[trigger] marks.covered@[i] == covered(all, i),
            forall|i: int| 0 <= i < n ==> #[trigger] marks.begins@[i] == begins(all, i),
            forall|i: int| 0 <= i < n ==> #[trigger] marks.inside@[i] == inside(all, i),
            out@ == replaced_to(bytes@, all, rep@, k as int),
            0 <= run <= k,
            out@ == done + bytes@.subrange(run, k as int),
            valid_utf8(done),
            text::ascii_cut(bytes@, run) || (run == k && k > 0 && covered(all, k - 1)),
            run < k ==> !covered(all, k - 1),
    {
        proof {
            // Behind a stretch a new run begins.
            if run == k && k > 0 && covered(all, k - 1) && !covered(all, k as int) {
                let j = choose|j: int|
                    0 <= j < all.len() && (#[trigger] all[j]).0 <= k - 1 < all[j].1;
                assert(all[j].1 == k);
            }
            if begins(all, k as int) || covered(all, k as int) {
                lemma_run_ends(bytes@, all, done, run, k as int);
                done = out@;
                run = k as int;
                assert(out@ == done + bytes@.subrange(run, k as int));
            }
        }
        let ghost before = out@;
        if marks.begins[k] && !marks.inside[k] {
            out.extend_from_slice(rep);
            proof {
                assert(out@ == before + rep@);
                valid_utf8_concat(done, rep@);
                done = out@;
            }
        }
        let ghost middle = out@;
        proof {
            assert(middle == before + (if begins(all, k as int) && !inside(all, k as int) {
                rep@
            } else {
                Seq::empty()
            }));
        }
        if !marks.covered[k] {
            out.push(bytes[k]);
            proof {
                assert(out@ == middle + seq![bytes@[k as int]]);
                assert(bytes@.subrange(run, k + 1) == bytes@.subrange(run, k as int).push(
                    bytes@[k as int],
                ));
                assert(out@ == done + bytes@.subrange(run, k + 1));
            }
        } else {
            proof {
                assert(middle == middle + Seq::<u8>::empty());
                run = k + 1;
                assert(done == done + bytes@.subrange(run, k + 1));
            }
        }
        proof {
            assert(out@ == before + replaced_at(bytes@, all, rep@, k as int));
        }
    }
    proof {
        lemma_run_ends(bytes@, all, done, run, n as int);
        assert(!covered(all, n as int));
        assert(!inside(all, n as int));
    }
    let ghost before = out@;
    if marks.begins_at_end {
        out.extend_from_slice(rep);
        proof {
            valid_utf8_concat(before, rep@);
            assert(out@ == before + rep@);
        }
    }
    proof {
        assert(out@ == before + replaced_at(bytes@, all, rep@, n as int));
    }
    out
}

/// Where a stretch begins, and at the end of the text, what was kept so far is
/// whole characters.
proof fn lemma_run_ends(b: Seq<u8>, edits: Seq<(int, int)>, done: Seq<u8>, run: int, k: int)
    requires
        valid_utf8(b),
        valid_utf8(done),
        clean_edits(b, edits),
        0 <= run <= k <= b.len(),
        begins(edits, k) || covered(edits, k) || k == b.len(),
        text::ascii_cut(b, run) || run == k,
        run < k ==> !covered(edits, k - 1),
    ensures
        valid_utf8(done + b.subrange(run, k)),
{
    if run == k {
        assert(done + b.subrange(run, k) == done);
    } else {
        if k < b.len() && !begins(edits, k) {
            let j = choose|j: int|
                0 <= j < edits.len() && (#[trigger] edits[j]).0 <= k < edits[j].1;
            assert(edits[j].0 <= k - 1);
        }
        text::lemma_ascii_cuts(b, run, k);
        valid_utf8_concat(done, b.subrange(run, k));
    }
}

// ---------------------------------------------------------------------------
// Entries
// ---------------------------------------------------------------------------

/// The address that an entry links to: of an Atom entry the alternate link, of
/// an RSS item the text of its first link element.
pub open spec fn entry_address(entry: Seq<u8>, atom: bool) -> Option<Seq<char>> {
    if atom {
        match scan::alternate_of(entry) {
            Some(href) => Some(decode_utf8(href)),
            None => None,
        }
    } else {
        let links = scan::blocks_from(entry, encode_utf8("link"@), 0);
        if links.len() == 0 {
            None
        } else {
            Some(
                text::trimmed(
                    decode_utf8(entry.subrange(links[0].2, links[0].3)),
                    Strip::White,
                ),
            )
        }
    }
}

/// The entry links to an encrypted page.
pub open spec fn is_hidden(
    entry: Seq<u8>,
    atom: bool,
    strip_prefix: Seq<char>,
    files: Set<Seq<char>>,
) -> bool {
    match entry_address(entry, atom) {
        Some(address) => !text::is_blank(address) && url::leads_to_encrypted(
            strip_prefix,
            address,
            files,
        ),
        None => false,
    }
}

/// Where the contents of the elements of that name stand in a text of which
/// `entry` begins at `offset`.
pub open spec fn contents_in(entry: Seq<u8>, tag: Seq<u8>, offset: int) -> Seq<(int, int)> {
    scan::blocks_from(entry, tag, 0).map_values(
        |block: (int, int, int, int)| (offset + block.2, offset + block.3),
    )
}

/// The stretches of text that make up the body of an entry.
pub open spec fn body_of(b: Seq<u8>, entry: (int, int, int, int)) -> Seq<(int, int)> {
    let inner = b.subrange(entry.0, entry.1);
    contents_in(inner, encode_utf8("content"@), entry.0) + contents_in(
        inner,
        encode_utf8("summary"@),
        entry.0,
    ) + contents_in(inner, encode_utf8("description"@), entry.0)
}

/// The bodies of those entries that link to encrypted pages.
pub open spec fn hidden_bodies(
    b: Seq<u8>,
    entries: Seq<(int, int, int, int)>,
    atom: bool,
    strip_prefix: Seq<char>,
    files: Set<Seq<char>>,
) -> Seq<(int, int)>
    decreases entries.len(),
{
    if entries.len() == 0 {
        Seq::empty()
    } else {
        let last = entries.last();
        hidden_bodies(b, entries.drop_last(), atom, strip_prefix, files) + if is_hidden(
            b.subrange(last.0, last.1),
            atom,
            strip_prefix,
            files,
        ) {
            body_of(b, last)
        } else {
            Seq::empty()
        }
    }
}

/// How many of the entries link to encrypted pages.
pub open spec fn hidden_count(
    b: Seq<u8>,
    entries: Seq<(int, int, int, int)>,
    atom: bool,
    strip_prefix: Seq<char>,
    files: Set<Seq<char>>,
) -> nat
    decreases entries.len(),
{
    if entries.len() == 0 {
        0
    } else {
        let last = entries.last();
        hidden_count(b, entries.drop_last(), atom, strip_prefix, files) + if is_hidden(
            b.subrange(last.0, last.1),
            atom,
            strip_prefix,
            files,
        ) {
            1nat
        } else {
            0nat
        }
    }
}

pub open spec fn atom_entries(b: Seq<u8>) -> Seq<(int, int, int, int)> {
    scan::blocks_from(b, encode_utf8("entry"@), 0)
}

pub open spec fn rss_items(b: Seq<u8>) -> Seq<(int, int, int, int)> {
    scan::blocks_from(b, encode_utf8("item"@), 0)
}

/// The bodies of a feed that have to go.
pub open spec fn feed_edits(
    b: Seq<u8>,
    strip_prefix: Seq<char>,
    files: Set<Seq<char>>,
) -> Seq<(int, int)> {
    hidden_bodies(b, atom_entries(b), true, strip_prefix, files) + hidden_bodies(
        b,
        rss_items(b),
        false,
        strip_prefix,
        files,
    )
}

/// How many entries of a feed link to encrypted pages.
pub open spec fn feed_hidden(b: Seq<u8>, strip_prefix: Seq<char>, files: Set<Seq<char>>) -> nat {
    hidden_count(b, atom_entries(b), true, strip_prefix, files) + hidden_count(
        b,
        rss_items(b),
        false,
        strip_prefix,
        files,
    )
}

/// The feed with the bodies of the hidden entries replaced by the placeholder.
pub open spec fn redacted_feed(
    b: Seq<u8>,
    strip_prefix: Seq<char>,
    placeholder: Seq<char>,
    files: Set<Seq<char>>,
) -> Seq<u8> {
    replaced(b, feed_edits(b, strip_prefix, files), encode_utf8(xml_escaped(placeholder)))
}

fn address_of(entry: &[u8], atom: bool) -> (r: Option<String>)
    requires
        valid_utf8(entry@),
    ensures
        match r {
            Some(address) => entry_address(entry@, atom) == Some(address@),
            None => entry_address(entry@, atom) is None,
        },
{
    if atom {
        let href = alternate_in(entry);
        proof {
            if href is Some {
                encode_utf8_decode_utf8(href->0@);
            }
        }
        return href;
    }
    let links = blocks_in(entry, "link".as_bytes());
    proof {
        scan::law_blocks_are_elements(entry@, encode_utf8("link"@), 0);
    }
    if links.len() == 0 {
        return None;
    }
    let s: usize = links[0].2;
    let e: usize = links[0].3;
    proof {
        assert(scan::spans(links@)[0] == scan::span(links@[0]));
        lemma_inner_cuts(entry@, encode_utf8("link"@), scan::span(links@[0]));
        text::lemma_ascii_cuts(entry@, s as int, e as int);
    }
    let inner = text::string_from(vstd::slice::slice_to_vec(slice_subrange(entry, s, e)));
    Some(trim(inner.as_str(), Strip::White).to_string())
}

/// An element and its content are cut out next to ASCII bytes.
proof fn lemma_inner_cuts(b: Seq<u8>, tag: Seq<u8>, block: (int, int, int, int))
    requires
        scan::well_placed(b, tag, block),
    ensures
        text::ascii_cut(b, block.0),
        text::ascii_cut(b, block.1),
        text::ascii_cut(b, block.2),
        text::ascii_cut(b, block.3),
        0 <= block.0 < block.2 <= block.3 < block.1 <= b.len(),
{
    let o = scan::opening(tag);
    let c = scan::closing(tag);
    assert(b.subrange(block.0, block.0 + o.len())[0] == b[block.0]);
    assert(o[0] == scan::LT);
    assert(b.subrange(block.3, block.3 + c.len())[0] == b[block.3]);
    assert(c[0] == scan::LT);
    assert(b.subrange(block.3, block.3 + c.len())[c.len() - 1] == b[block.1 - 1]);
    assert(c[c.len() - 1] == scan::GT);
}

fn hidden(entry: &[u8], atom: bool, strip_prefix: &str, files: &FileSet) -> (r: bool)
    requires
        valid_utf8(entry@),
    ensures
        r == is_hidden(entry@, atom, strip_prefix@, files@),
{
    match address_of(entry, atom) {
        Some(address) => !text::is_blank_str(address.as_str()) && is_encrypted_url(
            strip_prefix,
            address.as_str(),
            files,
        ),
        None => false,
    }
}

/// Adds the contents of the elements of one name to the stretches to replace.
fn add_contents(
    bytes: &[u8],
    start: usize,
    end: usize,
    tag: &str,
    edits: &mut Vec<(usize, usize)>,
)
    requires
        start <= end <= bytes@.len(),
        text::ascii_cut(bytes@, start as int),
        text::ascii_cut(bytes@, end as int),
        clean_edits(bytes@, as_ints(old(edits)@)),
    ensures
        as_ints(final(edits)@) == as_ints(old(edits)@) + contents_in(
            bytes@.subrange(start as int, end as int),
            encode_utf8(tag@),
            start as int,
        ),
        clean_edits(bytes@, as_ints(final(edits)@)),
{
    let entry = slice_subrange(bytes, start, end);
    let blocks = blocks_in(entry, tag.as_bytes());
    let ghost name = encode_utf8(tag@);
    let ghost found = scan::blocks_from(entry@, name, 0);
    let ghost wanted = contents_in(entry@, name, start as int);
    proof {
        scan::law_blocks_are_elements(entry@, name, 0);
        assert(wanted.take(0) == Seq::<(int, int)>::empty());
        assert(as_ints(edits@) + wanted.take(0) == as_ints(edits@));
        assert(blocks@.len() == found.len());
    }
    for k in 0..blocks.len()
        invariant
            start <= end <= bytes@.len(),
            entry@ == bytes@.subrange(start as int, end as int),
            name == encode_utf8(tag@),
            found == scan::blocks_from(entry@, name, 0),
            scan::spans(blocks@) == found,
            blocks@.len() == found.len(),
            wanted == contents_in(entry@, name, start as int),
            forall|i: int|
                0 <= i < found.len() ==> scan::well_placed(entry@, name, #[trigger] found[i]),
            as_ints(edits@) == as_ints(old(edits)@) + wanted.take(k as int),
            clean_edits(bytes@, as_ints(edits@)),
    {
        let s: usize = blocks[k].2;
        let e: usize = blocks[k].3;
        proof {
            let block = found[k as int];
            assert(block == scan::span(blocks@[k as int]));
            lemma_inner_cuts(entry@, name, block);
            assert(bytes@[start + s - 1] == entry@[s - 1]);
            assert(bytes@[start + e as int] == entry@[e as int]);
            let o = scan::opening(name);
            let c = scan::closing(name);
            assert(entry@.subrange(block.3, block.3 + c.len())[0] == entry@[block.3]);
            assert(c[0] == scan::LT);
        }
        let ghost before = as_ints(edits@);
        edits.push((start + s, start + e));
        proof {
            let pair = (start + s as int, start + e as int);
            assert(as_ints(edits@) == before.push(pair));
            assert(wanted[k as int] == pair);
            assert(wanted.take(k + 1) == wanted.take(k as int).push(pair));
            assert(before.push(pair) == as_ints(old(edits)@) + wanted.take(k + 1));
        }
    }
    proof {
        assert(wanted.take(wanted.len() as int) == wanted);
    }
}

/// Adds the bodies of the hidden entries of one kind to the stretches to
/// replace, and counts the entries.
fn add_hidden(
    bytes: &[u8],
    entries: &Vec<Block>,
    Ghost(tag): Ghost<Seq<u8>>,
    atom: bool,
    strip_prefix: &str,
    files: &FileSet,
    edits: &mut Vec<(usize, usize)>,
) -> (count: usize)
    requires
        valid_utf8(bytes@),
        scan::spans(entries@) == scan::blocks_from(bytes@, tag, 0),
        clean_edits(bytes@, as_ints(old(edits)@)),
    ensures
        as_ints(final(edits)@) == as_ints(old(edits)@) + hidden_bodies(
            bytes@,
            scan::spans(entries@),
            atom,
            strip_prefix@,
            files@,
        ),
        clean_edits(bytes@, as_ints(final(edits)@)),
        count == hidden_count(bytes@, scan::spans(entries@), atom, strip_prefix@, files@),
        count <= entries@.len(),
{
    let ghost all = scan::spans(entries@);
    let ghost first = as_ints(edits@);
    let mut count: usize = 0;
    proof {
        scan::law_blocks_are_elements(bytes@, tag, 0);
        assert(all.take(0).len() == 0);
        assert(first + Seq::<(int, int)>::empty() == first);
    }
    for k in 0..entries.len()
        invariant
            valid_utf8(bytes@),
            all == scan::spans(entries@),
            first == as_ints(old(edits)@),
            forall|i: int| 0 <= i < all.len() ==> scan::well_placed(bytes@, tag, #[trigger] all[i]),
            as_ints(edits@) == first + hidden_bodies(
                bytes@,
                all.take(k as int),
                atom,
                strip_prefix@,
                files@,
            ),
            clean_edits(bytes@, as_ints(edits@)),
            count == hidden_count(bytes@, all.take(k as int), atom, strip_prefix@, files@),
            count <= k,
    {
        let start: usize = entries[k].0;
        let end: usize = entries[k].1;
        let ghost block = all[k as int];
        let ghost done = all.take(k as int);
        proof {
            assert(block == scan::span(entries@[k as int]));
            lemma_inner_cuts(bytes@, tag, block);
            text::lemma_ascii_cuts(bytes@, start as int, end as int);
            assert(all.take(k + 1).drop_last() == done);
            assert(all.take(k + 1).last() == block);
        }
        let ghost before = as_ints(edits@);
        if hidden(slice_subrange(bytes, start, end), atom, strip_prefix, files) {
            add_contents(bytes, start, end, "content", edits);
            add_contents(bytes, start, end, "summary", edits);
            add_contents(bytes, start, end, "description", edits);
            proof {
                assert(as_ints(edits@) == before + body_of(bytes@, block));
                assert(before + body_of(bytes@, block) == first + (hidden_bodies(
                    bytes@,
                    done,
                    atom,
                    strip_prefix@,
                    files@,
                ) + body_of(bytes@, block)));
            }
            count = count + 1;
        } else {
            proof {
                assert(before == first + (hidden_bodies(
                    bytes@,
                    done,
                    atom,
                    strip_prefix@,
                    files@,
                ) + Seq::<(int, int)>::empty()));
            }
        }
    }
    proof {
        assert(all.take(all.len() as int) == all);
    }
    count
}

/// What became of a feed.
pub struct FeedOutcome {
    /// How many entries were redacted.
    pub redacted: usize,
    /// The new text of the feed, where it has to be written.
    pub rewritten: Option<String>,
}

/// Redacts the text of one feed.
///
/// A dry run only counts the entries that link to encrypted pages. Otherwise a
/// feed whose bodies all hold the placeholder already is left as it is, and
/// none of its entries counts.
pub fn redact_feed(
    feed: &str,
    strip_prefix: &str,
    placeholder: &str,
    encrypted_files: &FileSet,
    dry_run: bool,
) -> (outcome: FeedOutcome)
    ensures
        ({
            let b = encode_utf8(feed@);
            let edits = feed_edits(b, strip_prefix@, encrypted_files@);
            let count = feed_hidden(b, strip_prefix@, encrypted_files@);
            let new = redacted_feed(b, strip_prefix@, placeholder@, encrypted_files@);
            if dry_run || edits.len() == 0 {
                outcome.redacted == count && outcome.rewritten is None
            } else if new == b {
                outcome.redacted == 0 && outcome.rewritten is None
            } else {
                &&& outcome.redacted == count
                &&& outcome.rewritten is Some
                &&& encode_utf8(outcome.rewritten->0@) == new
            }
        }),
{
    let bytes = feed.as_bytes();
    proof {
        encode_utf8_valid_utf8(feed@);
        scan::law_blocks_are_elements(bytes@, encode_utf8("entry"@), 0);
        scan::law_blocks_are_elements(bytes@, encode_utf8("item"@), 0);
    }
    let entries = blocks_in(bytes, "entry".as_bytes());
    let items = blocks_in(bytes, "item".as_bytes());
    let mut edits: Vec<(usize, usize)> = Vec::new();
    let ghost none = as_ints(edits@);
    let atom: usize = add_hidden(
        bytes,
        &entries,
        Ghost(encode_utf8("entry"@)),
        true,
        strip_prefix,
        encrypted_files,
        &mut edits,
    );
    let rss: usize = add_hidden(
        bytes,
        &items,
        Ghost(encode_utf8("item"@)),
        false,
        strip_prefix,
        encrypted_files,
        &mut edits,
    );
    proof {
        assert(as_ints(edits@) == feed_edits(bytes@, strip_prefix@, encrypted_files@));
        assert(scan::spans(entries@).len() == entries@.len());
        assert(scan::spans(items@).len() == items@.len());
        assert(atom + rss <= bytes.len());
    }
    let count: usize = atom + rss;
    if dry_run || edits.len() == 0 {
        return FeedOutcome { redacted: count, rewritten: None };
    }
    let escaped = xml_escape(placeholder);
    proof {
        encode_utf8_valid_utf8(escaped@);
    }
    let out = replace_all(bytes, &edits, escaped.as_str().as_bytes());
    let new = text::string_from(out);
    let old_text = feed.to_string();
    if new == old_text {
        return FeedOutcome { redacted: 0, rewritten: None };
    }
    proof {
        if encode_utf8(new@) == encode_utf8(feed@) {
            encode_utf8_decode_utf8(new@);
            encode_utf8_decode_utf8(feed@);
        }
    }
    FeedOutcome { redacted: count, rewritten: Some(new) }
}

// ---------------------------------------------------------------------------
// Laws
// ---------------------------------------------------------------------------

/// What stands in a replaced stretch leaves no trace: texts that differ only
/// there give the same result.
pub proof fn law_replaced_text_is_gone(
    b: Seq<u8>,
    other: Seq<u8>,
    edits: Seq<(int, int)>,
    rep: Seq<u8>,
)
    requires
        b.len() == other.len(),
        forall|k: int| 0 <= k < b.len() && !#[trigger] covered(edits, k) ==> b[k] == other[k],
    ensures
        replaced(b, edits, rep) == replaced(other, edits, rep),
{
    lemma_same_to(b, other, edits, rep, b.len() as int + 1);
}

proof fn lemma_same_to(
    b: Seq<u8>,
    other: Seq<u8>,
    edits: Seq<(int, int)>,
    rep: Seq<u8>,
    k: int,
)
    requires
        b.len() == other.len(),
        forall|k: int| 0 <= k < b.len() && !#[trigger] covered(edits, k) ==> b[k] == other[k],
    ensures
        replaced_to(b, edits, rep, k) == replaced_to(other, edits, rep, k),
    decreases k,
{
    if k > 0 {
        lemma_same_to(b, other, edits, rep, k - 1);
    }
}

/// Text outside the replaced stretches is kept, in one piece as far as no
/// stretch comes in between.
pub proof fn law_public_text_is_kept(
    b: Seq<u8>,
    edits: Seq<(int, int)>,
    rep: Seq<u8>,
    s: int,
    e: int,
)
    requires
        0 <= s <= e <= b.len(),
        forall|k: int| s <= k < e ==> !#[trigger] covered(edits, k),
        forall|k: int| s < k < e ==> !#[trigger] begins(edits, k),
    ensures
        exists|at: int| #[trigger]
            text::stands_at(replaced(b, edits, rep), b.subrange(s, e), at),
{
    lemma_grows(b, edits, rep, e, b.len() as int + 1);
    if s == e {
        let at = 0int;
        assert(replaced(b, edits, rep).subrange(0, 0) == b.subrange(s, e));
        assert(text::stands_at(replaced(b, edits, rep), b.subrange(s, e), at));
    } else {
        lemma_piece(b, edits, rep, s, e);
        let whole = replaced(b, edits, rep);
        let to = replaced_to(b, edits, rep, e);
        let at = to.len() - (e - s);
        assert(whole.subrange(at, at + (e - s)) == to.subrange(at, to.len() as int)) by {
            assert(whole.subrange(0, to.len() as int) == to);
            assert forall|i: int| at <= i < to.len() implies whole[i] == to[i] by {
                assert(whole.subrange(0, to.len() as int)[i] == whole[i]);
            }
        }
        assert(text::stands_at(whole, b.subrange(s, e), at));
    }
}

proof fn lemma_grows(b: Seq<u8>, edits: Seq<(int, int)>, rep: Seq<u8>, k: int, l: int)
    requires
        k <= l,
    ensures
        replaced_to(b, edits, rep, k).len() <= replaced_to(b, edits, rep, l).len(),
        replaced_to(b, edits, rep, l).subrange(0, replaced_to(b, edits, rep, k).len() as int)
            == replaced_to(b, edits, rep, k),
    decreases l - k,
{
    let small = replaced_to(b, edits, rep, k);
    if k == l || l <= 0 {
        assert(small.subrange(0, small.len() as int) == small);
    } else {
        lemma_grows(b, edits, rep, k, l - 1);
        let mid = replaced_to(b, edits, rep, l - 1);
        let big = replaced_to(b, edits, rep, l);
        assert(big.subrange(0, small.len() as int) == mid.subrange(0, small.len() as int));
    }
}

proof fn lemma_piece(b: Seq<u8>, edits: Seq<(int, int)>, rep: Seq<u8>, s: int, e: int)
    requires
        0 <= s < e <= b.len(),
        forall|k: int| s <= k < e ==> !#[trigger] covered(edits, k),
        forall|k: int| s < k < e ==> !#[trigger] begins(edits, k),
    ensures
        ({
            let to = replaced_to(b, edits, rep, e);
            &&& to.len() >= e - s
            &&& to.subrange(to.len() - (e - s), to.len() as int) == b.subrange(s, e)
        }),
    decreases e - s,
{
    let to = replaced_to(b, edits, rep, e);
    let before = replaced_to(b, edits, rep, e - 1);
    let piece = replaced_at(b, edits, rep, e - 1);
    assert(!covered(edits, e - 1));
    assert(piece.len() > 0 && piece.last() == b[e - 1]);
    if e == s + 1 {
        assert(to.subrange(to.len() - 1, to.len() as int) == b.subrange(s, e));
    } else {
        lemma_piece(b, edits, rep, s, e - 1);
        assert(!begins(edits, e - 1));
        assert(piece == seq![b[e - 1]]);
        assert(to == before.push(b[e - 1]));
        let tail = before.subrange(before.len() - (e - 1 - s), before.len() as int);
        assert(to.subrange(to.len() - (e - s), to.len() as int) == tail.push(b[e - 1]));
        assert(b.subrange(s, e) == b.subrange(s, e - 1).push(b[e - 1]));
    }
}

/// A feed none of whose bodies has to go stays as it is.
pub proof fn law_nothing_to_redact(
    b: Seq<u8>,
    strip_prefix: Seq<char>,
    placeholder: Seq<char>,
    files: Set<Seq<char>>,
)
    requires
        feed_edits(b, strip_prefix, files).len() == 0,
    ensures
        redacted_feed(b, strip_prefix, placeholder, files) == b,
{
    let edits = feed_edits(b, strip_prefix, files);
    let rep = encode_utf8(xml_escaped(placeholder));
    lemma_untouched(b, edits, rep, b.len() as int);
    let end = b.len() as int;
    assert(replaced_at(b, edits, rep, end) == Seq::<u8>::empty());
    assert(b.take(end) + Seq::<u8>::empty() == b);
}

proof fn lemma_untouched(b: Seq<u8>, edits: Seq<(int, int)>, rep: Seq<u8>, k: int)
    requires
        edits.len() == 0,
        0 <= k <= b.len(),
    ensures
        replaced_to(b, edits, rep, k) == b.take(k),
    decreases k,
{
    if k > 0 {
        lemma_untouched(b, edits, rep, k - 1);
        assert(replaced_at(b, edits, rep, k - 1) == seq![b[k - 1]]);
        assert(b.take(k) == b.take(k - 1) + seq![b[k - 1]]);
    } else {
        assert(b.take(0) == Seq::<u8>::empty());
    }
}

/// Where no page was encrypted, no entry is hidden and no feed changes.
pub proof fn law_no_encrypted_pages(b: Seq<u8>, strip_prefix: Seq<char>, placeholder: Seq<char>)
    ensures
        feed_hidden(b, strip_prefix, Set::empty()) == 0,
        redacted_feed(b, strip_prefix, placeholder, Set::empty()) == b,
{
    lemma_none_hidden(b, atom_entries(b), true, strip_prefix);
    lemma_none_hidden(b, rss_items(b), false, strip_prefix);
    law_nothing_to_redact(b, strip_prefix, placeholder, Set::empty());
}

proof fn lemma_none_hidden(
    b: Seq<u8>,
    entries: Seq<(int, int, int, int)>,
    atom: bool,
    strip_prefix: Seq<char>,
)
    ensures
        hidden_count(b, entries, atom, strip_prefix, Set::empty()) == 0,
        hidden_bodies(b, entries, atom, strip_prefix, Set::empty()).len() == 0,
    decreases entries.len(),
{
    if entries.len() > 0 {
        lemma_none_hidden(b, entries.drop_last(), atom, strip_prefix);
    }
}

/// The bodies of a hidden entry are among the stretches that are replaced.
pub proof fn law_hidden_bodies_are_replaced(
    b: Seq<u8>,
    strip_prefix: Seq<char>,
    files: Set<Seq<char>>,
    atom: bool,
    k: int,
    j: int,
)
    requires
        ({
            let entries = if atom { atom_entries(b) } else { rss_items(b) };
            &&& 0 <= k < entries.len()
            &&& is_hidden(b.subrange(entries[k].0, entries[k].1), atom, strip_prefix, files)
            &&& 0 <= j < body_of(b, entries[k]).len()
        }),
    ensures
        ({
            let entries = if atom { atom_entries(b) } else { rss_items(b) };
            feed_edits(b, strip_prefix, files).contains(body_of(b, entries[k])[j])
        }),
{
    let entries = if atom { atom_entries(b) } else { rss_items(b) };
    lemma_body_included(b, entries, atom, strip_prefix, files, k, j);
    let edit = body_of(b, entries[k])[j];
    let mine = hidden_bodies(b, entries, atom, strip_prefix, files);
    let at = choose|at: int| 0 <= at < mine.len() && mine[at] == edit;
    let all = feed_edits(b, strip_prefix, files);
    if atom {
        assert(all[at] == edit);
    } else {
        let first = hidden_bodies(b, atom_entries(b), true, strip_prefix, files);
        assert(all[first.len() + at] == edit);
    }
}

proof fn lemma_body_included(
    b: Seq<u8>,
    entries: Seq<(int, int, int, int)>,
    atom: bool,
    strip_prefix: Seq<char>,
    files: Set<Seq<char>>,
    k: int,
    j: int,
)
    requires
        0 <= k < entries.len(),
        is_hidden(b.subrange(entries[k].0, entries[k].1), atom, strip_prefix, files),
        0 <= j < body_of(b, entries[k]).len(),
    ensures
        hidden_bodies(b, entries, atom, strip_prefix, files).contains(body_of(b, entries[k])[j]),
    decreases entries.len(),
{
    let all = hidden_bodies(b, entries, atom, strip_prefix, files);
    let before = hidden_bodies(b, entries.drop_last(), atom, strip_prefix, files);
    let edit = body_of(b, entries[k])[j];
    if k == entries.len() - 1 {
        assert(all[before.len() + j] == edit);
    } else {
        lemma_body_included(b, entries.drop_last(), atom, strip_prefix, files, k, j);
        let at = choose|at: int| 0 <= at < before.len() && before[at] == edit;
        assert(all[at] == edit);
    }
}

/// A dry run writes nothing and counts every hidden entry. Any other run writes
/// the feed exactly where redaction changes it, and then counts every hidden
/// entry; where it changes nothing though there are bodies to replace, none
/// counts.
pub proof fn law_what_comes_of_a_feed(
    feed: &str,
    strip_prefix: &str,
    placeholder: &str,
    files: &FileSet,
    dry_run: bool,
    outcome: FeedOutcome,
)
    requires
        call_ensures(redact_feed, (feed, strip_prefix, placeholder, files, dry_run), outcome),
    ensures
        ({
            let b = encode_utf8(feed@);
            let new = redacted_feed(b, strip_prefix@, placeholder@, files@);
            &&& dry_run ==> outcome.redacted == feed_hidden(b, strip_prefix@, files@)
            &&& outcome.rewritten is Some <==> !dry_run && new != b
            &&& outcome.rewritten matches Some(text) ==> encode_utf8(text@) == new
                && outcome.redacted == feed_hidden(b, strip_prefix@, files@)
            &&& outcome.redacted == feed_hidden(b, strip_prefix@, files@) || (outcome.redacted == 0
                && new == b && feed_edits(b, strip_prefix@, files@).len() > 0)
        }),
{
    let b = encode_utf8(feed@);
    if feed_edits(b, strip_prefix@, files@).len() == 0 {
        law_nothing_to_redact(b, strip_prefix@, placeholder@, files@);
    }
}

/// Text is escaped character by character: `&`, `<` and `>` are written as
/// entities, and every other character as itself.
pub proof fn law_xml_escaping(a: Seq<char>, b: Seq<char>, c: char)
    ensures
        xml_escaped(a + b) == xml_escaped(a) + xml_escaped(b),
        xml_escaped(seq!['&']) == "&amp;"@,
        xml_escaped(seq!['<']) == "&lt;"@,
        xml_escaped(seq!['>']) == "&gt;"@,
        c != '&' && c != '<' && c != '>' ==> xml_escaped(seq![c]) == seq![c],
    decreases b.len(),
{
    assert forall|d: char| xml_escaped(seq![d]) == #[trigger] xml_entity(d) by {
        assert(seq![d].drop_last() =~= Seq::<char>::empty());
        assert(xml_escaped(Seq::<char>::empty()) + xml_entity(d) =~= xml_entity(d));
    }
    assert(xml_escaped(seq!['&']) == xml_entity('&'));
    assert(xml_escaped(seq!['<']) == xml_entity('<'));
    assert(xml_escaped(seq!['>']) == xml_entity('>'));
    assert(xml_escaped(seq![c]) == xml_entity(c));
    if b.len() == 0 {
        assert(a + b =~= a);
        assert(xml_escaped(a) + xml_escaped(b) =~= xml_escaped(a));
    } else {
        law_xml_escaping(a, b.drop_last(), c);
        assert((a + b).drop_last() =~= a + b.drop_last());
        assert(xml_escaped(a + b) =~= xml_escaped(a) + xml_escaped(b));
    }
}

proof fn lemma_one_replaced_to(b: Seq<u8>, a: int, c: int, rep: Seq<u8>, k: int)
    requires
        0 <= a <= c <= b.len(),
        0 <= k <= b.len() + 1,
    ensures
        replaced_to(b, seq![(a, c)], rep, k) == (if k <= a {
            b.take(k)
        } else if k <= c {
            b.take(a) + rep
        } else {
            b.take(a) + rep + b.subrange(c, if k <= b.len() { k } else { b.len() as int })
        }),
    decreases k,
{
    let edits = seq![(a, c)];
    if k > 0 {
        lemma_one_replaced_to(b, a, c, rep, k - 1);
        let p = k - 1;
        assert(edits[0] == (a, c));
        assert(begins(edits, p) == (p == a)) by {
            if p == a {
                assert(edits[0].0 == p);
            }
        }
        assert(!inside(edits, a));
        assert(covered(edits, p) == (a <= p < c)) by {
            if a <= p < c {
                assert(edits[0].0 <= p < edits[0].1);
            }
        }
        let before = replaced_to(b, edits, rep, p);
        let piece = replaced_at(b, edits, rep, p);
        if k <= a {
            assert(before + piece =~= b.take(k));
        } else if k <= c {
            assert(before + piece =~= b.take(a) + rep);
        } else if p == a {
            assert(before + piece =~= b.take(a) + rep + b.subrange(
                c,
                if k <= b.len() { k } else { b.len() as int },
            ));
        } else {
            assert(before + piece =~= b.take(a) + rep + b.subrange(
                c,
                if k <= b.len() { k } else { b.len() as int },
            ));
        }
    } else {
        assert(b.take(0) =~= Seq::<u8>::empty());
    }
}

/// The replacement stands where the stretch stood, between what was before it
/// and what was behind it.
pub proof fn law_replacing_one_stretch(b: Seq<u8>, a: int, c: int, rep: Seq<u8>)
    requires
        0 <= a <= c <= b.len(),
    ensures
        replaced(b, seq![(a, c)], rep) == b.take(a) + rep + b.skip(c),
{
    lemma_one_replaced_to(b, a, c, rep, b.len() as int + 1);
    assert(b.subrange(c, b.len() as int) =~= b.skip(c));
}

proof fn lemma_same_stretches(
    b: Seq<u8>,
    edits: Seq<(int, int)>,
    others: Seq<(int, int)>,
    rep: Seq<u8>,
    k: int,
)
    requires
        forall|k: int| #[trigger] covered(edits, k) == covered(others, k),
        forall|k: int| (#[trigger] begins(edits, k) && !inside(edits, k)) == (begins(others, k)
            && !inside(others, k)),
    ensures
        replaced_to(b, edits, rep, k) == replaced_to(b, others, rep, k),
    decreases k,
{
    if k > 0 {
        lemma_same_stretches(b, edits, others, rep, k - 1);
        assert(covered(edits, k - 1) == covered(others, k - 1));
        assert((begins(edits, k - 1) && !inside(edits, k - 1)) == (begins(others, k - 1)
            && !inside(others, k - 1)));
    }
}

/// A stretch within another one changes nothing: one replacement stands for
/// both.
pub proof fn law_stretch_within_another(
    b: Seq<u8>,
    edits: Seq<(int, int)>,
    j: int,
    x: int,
    y: int,
    rep: Seq<u8>,
)
    requires
        0 <= j < edits.len(),
        edits[j].0 <= x <= y <= edits[j].1,
        x == edits[j].0 || x < edits[j].1,
    ensures
        replaced(b, edits.push((x, y)), rep) == replaced(b, edits, rep),
{
    let more = edits.push((x, y));
    lemma_marks_grow(edits, (x, y));
    assert forall|k: int| #[trigger] covered(more, k) == covered(edits, k) by {
        if x <= k < y {
            assert(edits[j].0 <= k < edits[j].1);
        }
    }
    assert forall|k: int| (#[trigger] begins(more, k) && !inside(more, k)) == (begins(edits, k)
        && !inside(edits, k)) by {
        if x < k < y {
            assert(edits[j].0 < k < edits[j].1);
            assert(inside(edits, k));
        }
        if k == x {
            if x == edits[j].0 {
                assert(begins(edits, k));
            } else {
                assert(edits[j].0 < k < edits[j].1);
                assert(inside(edits, k));
            }
        }
    }
    lemma_same_stretches(b, more, edits, rep, b.len() as int + 1);
}

/// It does not matter in which order the stretches are given, nor how often.
pub proof fn law_order_of_stretches(
    b: Seq<u8>,
    edits: Seq<(int, int)>,
    others: Seq<(int, int)>,
    rep: Seq<u8>,
)
    requires
        forall|edit: (int, int)| #[trigger] edits.contains(edit) <==> others.contains(edit),
    ensures
        replaced(b, edits, rep) == replaced(b, others, rep),
{
    lemma_marks_alike(edits, others);
    lemma_marks_alike(others, edits);
    assert forall|k: int| #[trigger] covered(edits, k) == covered(others, k) by {
        assert(covered(others, k) ==> covered(edits, k));
    }
    assert forall|k: int| (#[trigger] begins(edits, k) && !inside(edits, k)) == (begins(others, k)
        && !inside(others, k)) by {
        assert(begins(others, k) ==> begins(edits, k));
        assert(inside(edits, k) ==> inside(others, k));
        assert(inside(others, k) ==> inside(edits, k));
    }
    lemma_same_stretches(b, edits, others, rep, b.len() as int + 1);
}

proof fn lemma_marks_alike(edits: Seq<(int, int)>, others: Seq<(int, int)>)
    requires
        forall|edit: (int, int)| #[trigger] edits.contains(edit) ==> others.contains(edit),
    ensures
        forall|k: int| #[trigger] covered(edits, k) ==> covered(others, k),
        forall|k: int| #[trigger] begins(edits, k) ==> begins(others, k),
        forall|k: int| #[trigger] inside(edits, k) ==> inside(others, k),
{
    assert forall|k: int| #[trigger] covered(edits, k) implies covered(others, k) by {
        let j = choose|j: int| 0 <= j < edits.len() && (#[trigger] edits[j]).0 <= k < edits[j].1;
        assert(edits.contains(edits[j]));
        let i = choose|i: int| 0 <= i < others.len() && others[i] == edits[j];
        assert(others[i].0 <= k < others[i].1);
    }
    assert forall|k: int| #[trigger] begins(edits, k) implies begins(others, k) by {
        let j = choose|j: int| 0 <= j < edits.len() && (#[trigger] edits[j]).0 == k;
        assert(edits.contains(edits[j]));
        let i = choose|i: int| 0 <= i < others.len() && others[i] == edits[j];
        assert(others[i].0 == k);
    }
    assert forall|k: int| #[trigger] inside(edits, k) implies inside(others, k) by {
        let j = choose|j: int| 0 <= j < edits.len() && (#[trigger] edits[j]).0 < k < edits[j].1;
        assert(edits.contains(edits[j]));
        let i = choose|i: int| 0 <= i < others.len() && others[i] == edits[j];
        assert(others[i].0 < k < others[i].1);
    }
}

/// An Atom entry links to what its first alternate link gives; an RSS item to
/// the text of its first `link`, without the white space around it.
pub proof fn law_entry_address(entry: Seq<u8>)
    ensures
        match scan::alternate_of(entry) {
            Some(href) => entry_address(entry, true) == Some(decode_utf8(href)),
            None => entry_address(entry, true) is None,
        },
        scan::blocks_from(entry, encode_utf8("link"@), 0).len() == 0 ==> entry_address(
            entry,
            false,
        ) is None,
        scan::blocks_from(entry, encode_utf8("link"@), 0).len() > 0 ==> entry_address(entry, false)
            == Some(
            text::trimmed(
                decode_utf8(
                    entry.subrange(
                        scan::blocks_from(entry, encode_utf8("link"@), 0)[0].2,
                        scan::blocks_from(entry, encode_utf8("link"@), 0)[0].3,
                    ),
                ),
                Strip::White,
            ),
        ),
{
}

/// An entry is hidden exactly where it links to something, and that is an
/// address of an encrypted page.
pub proof fn law_which_entries_are_hidden(
    entry: Seq<u8>,
    atom: bool,
    strip_prefix: Seq<char>,
    files: Set<Seq<char>>,
)
    ensures
        is_hidden(entry, atom, strip_prefix, files) <==> {
            &&& entry_address(entry, atom) is Some
            &&& exists|i: int|
                0 <= i < entry_address(entry, atom)->0.len() && !text::is_white(
                    #[trigger] entry_address(entry, atom)->0[i],
                )
            &&& url::leads_to_encrypted(strip_prefix, entry_address(entry, atom)->0, files)
        },
{
}

/// The names of the elements that hold a part of an entry's body.
pub open spec fn is_body_tag(tag: Seq<char>) -> bool {
    tag == "content"@ || tag == "summary"@ || tag == "description"@
}

/// The entries of an Atom feed, or the items of an RSS feed.
pub open spec fn entries_of(b: Seq<u8>, atom: bool) -> Seq<(int, int, int, int)> {
    scan::blocks_from(
        b,
        encode_utf8(
            if atom {
                "entry"@
            } else {
                "item"@
            },
        ),
        0,
    )
}

/// In a hidden entry, the contents of every `content`, `summary` and
/// `description` are replaced.
pub proof fn law_no_body_is_left(
    b: Seq<u8>,
    strip_prefix: Seq<char>,
    files: Set<Seq<char>>,
    atom: bool,
    k: int,
    tag: Seq<char>,
    j: int,
)
    requires
        is_body_tag(tag),
        0 <= k < entries_of(b, atom).len(),
        is_hidden(
            b.subrange(entries_of(b, atom)[k].0, entries_of(b, atom)[k].1),
            atom,
            strip_prefix,
            files,
        ),
        0 <= j < scan::blocks_from(
            b.subrange(entries_of(b, atom)[k].0, entries_of(b, atom)[k].1),
            encode_utf8(tag),
            0,
        ).len(),
    ensures
        ({
            let entry = entries_of(b, atom)[k];
            let block = scan::blocks_from(b.subrange(entry.0, entry.1), encode_utf8(tag), 0)[j];
            feed_edits(b, strip_prefix, files).contains((entry.0 + block.2, entry.0 + block.3))
        }),
{
    let entry = entries_of(b, atom)[k];
    let inner = b.subrange(entry.0, entry.1);
    let block = scan::blocks_from(inner, encode_utf8(tag), 0)[j];
    let contents = contents_in(inner, encode_utf8("content"@), entry.0);
    let summaries = contents_in(inner, encode_utf8("summary"@), entry.0);
    let at = if tag == "content"@ {
        j
    } else if tag == "summary"@ {
        contents.len() + j
    } else {
        contents.len() + summaries.len() + j
    };
    assert(contents_in(inner, encode_utf8(tag), entry.0)[j] == (
        entry.0 + block.2,
        entry.0 + block.3,
    ));
    assert(body_of(b, entry)[at] == (entry.0 + block.2, entry.0 + block.3));
    law_hidden_bodies_are_replaced(b, strip_prefix, files, atom, k, at);
}

/// The stretch is the content of such an element of a hidden entry.
pub open spec fn is_hidden_body(
    b: Seq<u8>,
    strip_prefix: Seq<char>,
    files: Set<Seq<char>>,
    atom: bool,
    k: int,
    tag: Seq<char>,
    j: int,
    edit: (int, int),
) -> bool {
    &&& is_body_tag(tag)
    &&& 0 <= k < entries_of(b, atom).len()
    &&& {
        let entry = entries_of(b, atom)[k];
        let inner = b.subrange(entry.0, entry.1);
        let blocks = scan::blocks_from(inner, encode_utf8(tag), 0);
        &&& is_hidden(inner, atom, strip_prefix, files)
        &&& 0 <= j < blocks.len()
        &&& edit == (entry.0 + blocks[j].2, entry.0 + blocks[j].3)
    }
}

proof fn lemma_from_hidden_body(
    b: Seq<u8>,
    strip_prefix: Seq<char>,
    files: Set<Seq<char>>,
    atom: bool,
    n: int,
    i: int,
)
    requires
        0 <= n <= entries_of(b, atom).len(),
        0 <= i < hidden_bodies(b, entries_of(b, atom).take(n), atom, strip_prefix, files).len(),
    ensures
        exists|k: int, tag: Seq<char>, j: int| #[trigger]
            is_hidden_body(
                b,
                strip_prefix,
                files,
                atom,
                k,
                tag,
                j,
                hidden_bodies(b, entries_of(b, atom).take(n), atom, strip_prefix, files)[i],
            ),
    decreases n,
{
    let some = entries_of(b, atom).take(n);
    let all = hidden_bodies(b, some, atom, strip_prefix, files);
    let k = n - 1;
    assert(some.drop_last() =~= entries_of(b, atom).take(k));
    let before = hidden_bodies(b, entries_of(b, atom).take(k), atom, strip_prefix, files);
    if i < before.len() {
        lemma_from_hidden_body(b, strip_prefix, files, atom, k, i);
        assert(all[i] == before[i]);
    } else {
        let entry = entries_of(b, atom)[k];
        assert(some.last() == entry);
        let inner = b.subrange(entry.0, entry.1);
        let at = i - before.len();
        assert(all[i] == body_of(b, entry)[at]);
        let contents = contents_in(inner, encode_utf8("content"@), entry.0);
        let summaries = contents_in(inner, encode_utf8("summary"@), entry.0);
        let (tag, j) = if at < contents.len() {
            ("content"@, at)
        } else if at < contents.len() + summaries.len() {
            ("summary"@, at - contents.len())
        } else {
            ("description"@, at - contents.len() - summaries.len())
        };
        assert(all[i] == contents_in(inner, encode_utf8(tag), entry.0)[j]);
        assert(is_hidden_body(b, strip_prefix, files, atom, k, tag, j, all[i]));
    }
}

/// Nothing else is replaced: every stretch is the content of such an element of
/// a hidden entry.
pub proof fn law_only_bodies_are_replaced(
    b: Seq<u8>,
    strip_prefix: Seq<char>,
    files: Set<Seq<char>>,
    i: int,
)
    requires
        0 <= i < feed_edits(b, strip_prefix, files).len(),
    ensures
        exists|atom: bool, k: int, tag: Seq<char>, j: int| #[trigger]
            is_hidden_body(
                b,
                strip_prefix,
                files,
                atom,
                k,
                tag,
                j,
                feed_edits(b, strip_prefix, files)[i],
            ),
{
    let entries = entries_of(b, true);
    let items = entries_of(b, false);
    assert(entries == atom_entries(b));
    assert(items == rss_items(b));
    assert(entries.take(entries.len() as int) =~= entries);
    assert(items.take(items.len() as int) =~= items);
    let first = hidden_bodies(b, entries, true, strip_prefix, files);
    let second = hidden_bodies(b, items, false, strip_prefix, files);
    let all = feed_edits(b, strip_prefix, files);
    let atom = i < first.len();
    if atom {
        lemma_from_hidden_body(b, strip_prefix, files, true, entries.len() as int, i);
        assert(all[i] == first[i]);
    } else {
        lemma_from_hidden_body(
            b,
            strip_prefix,
            files,
            false,
            items.len() as int,
            i - first.len(),
        );
        assert(all[i] == second[i - first.len()]);
    }
    let (k, tag, j) = choose|k: int, tag: Seq<char>, j: int| #[trigger]
        is_hidden_body(b, strip_prefix, files, atom, k, tag, j, all[i]);
    assert(is_hidden_body(b, strip_prefix, files, atom, k, tag, j, all[i]));
}

proof fn lemma_counted(
    b: Seq<u8>,
    entries: Seq<(int, int, int, int)>,
    atom: bool,
    strip_prefix: Seq<char>,
    files: Set<Seq<char>>,
)
    ensures
        hidden_count(b, entries, atom, strip_prefix, files) == entries.filter(
            |entry: (int, int, int, int)|
                is_hidden(b.subrange(entry.0, entry.1), atom, strip_prefix, files),
        ).len(),
    decreases entries.len(),
{
    reveal(Seq::filter);
    if entries.len() > 0 {
        lemma_counted(b, entries.drop_last(), atom, strip_prefix, files);
    }
}

/// Every hidden entry counts, and no other one.
pub proof fn law_hidden_entries_are_counted(
    b: Seq<u8>,
    strip_prefix: Seq<char>,
    files: Set<Seq<char>>,
)
    ensures
        feed_hidden(b, strip_prefix, files) == entries_of(b, true).filter(
            |entry: (int, int, int, int)|
                is_hidden(b.subrange(entry.0, entry.1), true, strip_prefix, files),
        ).len() + entries_of(b, false).filter(
            |entry: (int, int, int, int)|
                is_hidden(b.subrange(entry.0, entry.1), false, strip_prefix, files),
        ).len(),
{
    lemma_counted(b, entries_of(b, true), true, strip_prefix, files);
    lemma_counted(b, entries_of(b, false), false, strip_prefix, files);
}

/// The placeholder goes in as it is escaped.
pub proof fn law_placeholder_goes_in(
    b: Seq<u8>,
    strip_prefix: Seq<char>,
    placeholder: Seq<char>,
    files: Set<Seq<char>>,
)
    ensures
        redacted_feed(b, strip_prefix, placeholder, files) == replaced(
            b,
            feed_edits(b, strip_prefix, files),
            encode_utf8(xml_escaped(placeholder)),
        ),
{
}

/// Two stretches that overlap are as good as the one that they make up.
pub proof fn law_overlapping_stretches(
    b: Seq<u8>,
    edits: Seq<(int, int)>,
    a: int,
    x: int,
    c: int,
    y: int,
    rep: Seq<u8>,
)
    requires
        a < x < c <= y,
    ensures
        replaced(b, edits.push((a, c)).push((x, y)), rep) == replaced(b, edits.push((a, y)), rep),
{
    let two = edits.push((a, c)).push((x, y));
    let one = edits.push((a, y));
    lemma_marks_grow(edits, (a, c));
    lemma_marks_grow(edits.push((a, c)), (x, y));
    lemma_marks_grow(edits, (a, y));
    assert forall|k: int| #[trigger] covered(two, k) == covered(one, k) by {
        assert(covered(edits.push((a, c)), k) == (covered(edits, k) || a <= k < c));
    }
    assert forall|k: int| (#[trigger] begins(two, k) && !inside(two, k)) == (begins(one, k)
        && !inside(one, k)) by {
        assert(begins(edits.push((a, c)), k) == (begins(edits, k) || a == k));
        assert(inside(edits.push((a, c)), k) == (inside(edits, k) || a < k < c));
        assert(inside(one, k) == (inside(edits, k) || a < k < y));
        assert(inside(two, k) == (inside(edits.push((a, c)), k) || x < k < y));
    }
    lemma_same_stretches(b, two, one, rep, b.len() as int + 1);
}

/// The stretches, counted from `p` on.
pub open spec fn counted_from(edits: Seq<(int, int)>, p: int) -> Seq<(int, int)> {
    edits.map_values(|edit: (int, int)| (edit.0 - p, edit.1 - p))
}

proof fn lemma_marks_of_sum(left: Seq<(int, int)>, right: Seq<(int, int)>, k: int)
    ensures
        covered(left + right, k) == (covered(left, k) || covered(right, k)),
        begins(left + right, k) == (begins(left, k) || begins(right, k)),
        inside(left + right, k) == (inside(left, k) || inside(right, k)),
{
    let all = left + right;
    let n = left.len() as int;
    assert forall|j: int| 0 <= j < left.len() implies #[trigger] all[j] == left[j] by {}
    assert forall|j: int| 0 <= j < right.len() implies #[trigger] all[n + j] == right[j] by {}
    if covered(left, k) {
        let j = choose|j: int| 0 <= j < left.len() && (#[trigger] left[j]).0 <= k < left[j].1;
        assert(all[j].0 <= k < all[j].1);
    }
    if covered(right, k) {
        let j = choose|j: int| 0 <= j < right.len() && (#[trigger] right[j]).0 <= k < right[j].1;
        assert(all[n + j].0 <= k < all[n + j].1);
    }
    if covered(all, k) {
        let j = choose|j: int| 0 <= j < all.len() && (#[trigger] all[j]).0 <= k < all[j].1;
        if j < n {
            assert(left[j].0 <= k < left[j].1);
        } else {
            assert(right[j - n].0 <= k < right[j - n].1);
        }
    }
    if begins(left, k) {
        let j = choose|j: int| 0 <= j < left.len() && (#[trigger] left[j]).0 == k;
        assert(all[j].0 == k);
    }
    if begins(right, k) {
        let j = choose|j: int| 0 <= j < right.len() && (#[trigger] right[j]).0 == k;
        assert(all[n + j].0 == k);
    }
    if begins(all, k) {
        let j = choose|j: int| 0 <= j < all.len() && (#[trigger] all[j]).0 == k;
        if j < n {
            assert(left[j].0 == k);
        } else {
            assert(right[j - n].0 == k);
        }
    }
    if inside(left, k) {
        let j = choose|j: int| 0 <= j < left.len() && (#[trigger] left[j]).0 < k < left[j].1;
        assert(all[j].0 < k < all[j].1);
    }
    if inside(right, k) {
        let j = choose|j: int| 0 <= j < right.len() && (#[trigger] right[j]).0 < k < right[j].1;
        assert(all[n + j].0 < k < all[n + j].1);
    }
    if inside(all, k) {
        let j = choose|j: int| 0 <= j < all.len() && (#[trigger] all[j]).0 < k < all[j].1;
        if j < n {
            assert(left[j].0 < k < left[j].1);
        } else {
            assert(right[j - n].0 < k < right[j - n].1);
        }
    }
}

proof fn lemma_marks_counted_from(edits: Seq<(int, int)>, p: int, k: int)
    ensures
        covered(counted_from(edits, p), k - p) == covered(edits, k),
        begins(counted_from(edits, p), k - p) == begins(edits, k),
        inside(counted_from(edits, p), k - p) == inside(edits, k),
{
    let moved = counted_from(edits, p);
    assert forall|j: int| 0 <= j < edits.len() implies #[trigger] moved[j] == (
        edits[j].0 - p,
        edits[j].1 - p,
    ) by {}
    if covered(edits, k) {
        let j = choose|j: int| 0 <= j < edits.len() && (#[trigger] edits[j]).0 <= k < edits[j].1;
        assert(moved[j].0 <= k - p < moved[j].1);
    }
    if covered(moved, k - p) {
        let j = choose|j: int|
            0 <= j < moved.len() && (#[trigger] moved[j]).0 <= k - p < moved[j].1;
        assert(edits[j].0 <= k < edits[j].1);
    }
    if begins(edits, k) {
        let j = choose|j: int| 0 <= j < edits.len() && (#[trigger] edits[j]).0 == k;
        assert(moved[j].0 == k - p);
    }
    if begins(moved, k - p) {
        let j = choose|j: int| 0 <= j < moved.len() && (#[trigger] moved[j]).0 == k - p;
        assert(edits[j].0 == k);
    }
    if inside(edits, k) {
        let j = choose|j: int| 0 <= j < edits.len() && (#[trigger] edits[j]).0 < k < edits[j].1;
        assert(moved[j].0 < k - p < moved[j].1);
    }
    if inside(moved, k - p) {
        let j = choose|j: int|
            0 <= j < moved.len() && (#[trigger] moved[j]).0 < k - p < moved[j].1;
        assert(edits[j].0 < k < edits[j].1);
    }
}

proof fn lemma_left_part(
    b: Seq<u8>,
    left: Seq<(int, int)>,
    right: Seq<(int, int)>,
    p: int,
    rep: Seq<u8>,
    k: int,
)
    requires
        0 <= p <= b.len(),
        forall|j: int| 0 <= j < right.len() ==> p <= (#[trigger] right[j]).0,
        0 <= k <= p,
    ensures
        replaced_to(b, left + right, rep, k) == replaced_to(b.take(p), left, rep, k),
    decreases k,
{
    if k > 0 {
        lemma_left_part(b, left, right, p, rep, k - 1);
        lemma_marks_of_sum(left, right, k - 1);
        assert(!covered(right, k - 1) && !begins(right, k - 1) && !inside(right, k - 1));
        assert(replaced_at(b, left + right, rep, k - 1) =~= replaced_at(
            b.take(p),
            left,
            rep,
            k - 1,
        ));
    }
}

proof fn lemma_right_part(
    b: Seq<u8>,
    left: Seq<(int, int)>,
    right: Seq<(int, int)>,
    p: int,
    rep: Seq<u8>,
    k: int,
)
    requires
        0 <= p <= b.len(),
        forall|j: int| 0 <= j < left.len() ==> (#[trigger] left[j]).0 < p && left[j].1 <= p,
        forall|j: int| 0 <= j < right.len() ==> p <= (#[trigger] right[j]).0,
        p <= k <= b.len() + 1,
    ensures
        replaced_to(b, left + right, rep, k) == replaced_to(b.take(p), left, rep, p) + replaced_to(
            b.skip(p),
            counted_from(right, p),
            rep,
            k - p,
        ),
    decreases k,
{
    if k == p {
        lemma_left_part(b, left, right, p, rep, p);
        assert(replaced_to(b.take(p), left, rep, p) + replaced_to(
            b.skip(p),
            counted_from(right, p),
            rep,
            0,
        ) =~= replaced_to(b.take(p), left, rep, p));
    } else {
        let i = k - 1;
        lemma_right_part(b, left, right, p, rep, i);
        lemma_marks_of_sum(left, right, i);
        lemma_marks_counted_from(right, p, i);
        assert(!covered(left, i) && !begins(left, i) && !inside(left, i));
        assert(replaced_at(b, left + right, rep, i) =~= replaced_at(
            b.skip(p),
            counted_from(right, p),
            rep,
            i - p,
        ));
        assert(replaced_to(b, left + right, rep, k) =~= replaced_to(b.take(p), left, rep, p)
            + replaced_to(b.skip(p), counted_from(right, p), rep, k - p));
    }
}

/// A text can be cut where no stretch crosses, and replaced in its two parts:
/// stretches that touch are replaced one by one.
pub proof fn law_replacing_in_parts(
    b: Seq<u8>,
    left: Seq<(int, int)>,
    right: Seq<(int, int)>,
    p: int,
    rep: Seq<u8>,
)
    requires
        0 <= p <= b.len(),
        forall|j: int| 0 <= j < left.len() ==> (#[trigger] left[j]).0 < p && left[j].1 <= p,
        forall|j: int| 0 <= j < right.len() ==> p <= (#[trigger] right[j]).0,
    ensures
        replaced(b, left + right, rep) == replaced(b.take(p), left, rep) + replaced(
            b.skip(p),
            counted_from(right, p),
            rep,
        ),
{
    lemma_right_part(b, left, right, p, rep, b.len() as int + 1);
    assert(!begins(left, p));
    assert(replaced_at(b.take(p), left, rep, p) =~= Seq::<u8>::empty());
    assert(replaced(b.take(p), left, rep) =~= replaced_to(b.take(p), left, rep, p));
}

} // verus!
