//! Tags and attributes in the text of a feed, found without an XML parser.
//!
//! Feeds are machine-generated with escaped bodies, so looking for the tags of
//! interest is enough. Positions are byte offsets into the UTF-8 text.

use vstd::prelude::*;
use vstd::slice::slice_subrange;
use vstd::string::*;
use vstd::utf8::*;

use crate::text;
use crate::text::find_bytes;

verus! {

pub const LT: u8 = 0x3c;

pub const GT: u8 = 0x3e;

pub const SLASH: u8 = 0x2f;

pub const EQUALS: u8 = 0x3d;

pub const QUOTE: u8 = 0x22;

pub const APOSTROPHE: u8 = 0x27;

/// A byte that can continue the name of a tag: a letter or digit of ASCII, `-`,
/// `_` or `:`.
pub open spec fn is_name_byte(b: u8) -> bool {
    ||| 0x30 <= b <= 0x39
    ||| 0x41 <= b <= 0x5a
    ||| 0x61 <= b <= 0x7a
    ||| b == 0x2d
    ||| b == 0x5f
    ||| b == 0x3a
}

fn name_byte(b: u8) -> (r: bool)
    ensures
        r == is_name_byte(b),
{
    (0x30 <= b && b <= 0x39) || (0x41 <= b && b <= 0x5a) || (0x61 <= b && b <= 0x7a) || b == 0x2d
        || b == 0x5f || b == 0x3a
}

/// A byte that separates the parts of a tag: space, tab, line feed, carriage
/// return.
pub open spec fn is_space_byte(b: u8) -> bool {
    b == 0x20 || b == 0x09 || b == 0x0a || b == 0x0d
}

fn space_byte(b: u8) -> (r: bool)
    ensures
        r == is_space_byte(b),
{
    b == 0x20 || b == 0x09 || b == 0x0a || b == 0x0d
}

// ---------------------------------------------------------------------------
// The end of an opening tag
// ---------------------------------------------------------------------------

/// Just past the first `>` at or after `j` that stands outside quotes; `quote`
/// is the quote that is open at `j`, or 0.
pub open spec fn tag_end_from(b: Seq<u8>, j: int, quote: u8) -> Option<int>
    decreases b.len() - j,
{
    if j < 0 || j >= b.len() {
        None
    } else if quote != 0 {
        tag_end_from(b, j + 1, if b[j] == quote { 0 } else { quote })
    } else if b[j] == QUOTE || b[j] == APOSTROPHE {
        tag_end_from(b, j + 1, b[j])
    } else if b[j] == GT {
        Some(j + 1)
    } else {
        tag_end_from(b, j + 1, 0)
    }
}

/// The tag ends behind a `>`, within the text.
pub proof fn lemma_tag_end(b: Seq<u8>, j: int, quote: u8)
    requires
        0 <= j,
    ensures
        tag_end_from(b, j, quote) matches Some(end) ==> j < end <= b.len() && b[end - 1] == GT,
    decreases b.len() - j,
{
    if j < b.len() {
        if quote != 0 {
            lemma_tag_end(b, j + 1, if b[j] == quote { 0 } else { quote });
        } else if b[j] == QUOTE || b[j] == APOSTROPHE {
            lemma_tag_end(b, j + 1, b[j]);
        } else if b[j] != GT {
            lemma_tag_end(b, j + 1, 0);
        }
    }
}

pub(crate) fn tag_end(bytes: &[u8], from: usize) -> (r: Option<usize>)
    ensures
        match r {
            Some(end) => tag_end_from(bytes@, from as int, 0) == Some(end as int) && from < end
                <= bytes@.len(),
            None => tag_end_from(bytes@, from as int, 0) is None,
        },
{
    let mut j: usize = from;
    let mut quote: u8 = 0;
    while j < bytes.len()
        invariant
            from <= j,
            tag_end_from(bytes@, from as int, 0) == tag_end_from(bytes@, j as int, quote),
        decreases bytes@.len() - j,
    {
        let c: u8 = bytes[j];
        if quote != 0 {
            if c == quote {
                quote = 0;
            }
        } else if c == QUOTE || c == APOSTROPHE {
            quote = c;
        } else if c == GT {
            return Some(j + 1);
        }
        j = j + 1;
    }
    None
}

/// The byte offset just past the `>` that closes the opening tag whose name
/// ends at `from`. Quotes are respected; `None` where the tag is not closed.
pub fn open_tag_end(text: &str, from: usize) -> (r: Option<usize>)
    ensures
        match r {
            Some(end) => tag_end_from(encode_utf8(text@), from as int, 0) == Some(end as int),
            None => tag_end_from(encode_utf8(text@), from as int, 0) is None,
        },
{
    tag_end(text.as_bytes(), from)
}

// ---------------------------------------------------------------------------
// Elements
// ---------------------------------------------------------------------------

/// `<` and the name.
pub open spec fn opening(tag: Seq<u8>) -> Seq<u8> {
    seq![LT] + tag
}

/// `</`, the name and `>`.
pub open spec fn closing(tag: Seq<u8>) -> Seq<u8> {
    seq![LT, SLASH] + tag + seq![GT]
}

/// An element: where it begins and ends, and where its content does.
pub type Block = (usize, usize, usize, usize);

/// The position behind the last byte of `b[s..k]` that is no separator.
pub open spec fn solid_end(b: Seq<u8>, s: int, k: int) -> int
    decreases k - s,
{
    if k > s && is_space_byte(b[k - 1]) {
        solid_end(b, s, k - 1)
    } else {
        k
    }
}

/// The opening tag `b[s..end]` closes its element too, as in `<link ... />`.
pub open spec fn is_self_closing(b: Seq<u8>, s: int, end: int) -> bool {
    b[solid_end(b, s, end - 1) - 1] == SLASH
}

/// The positions of an element as plain numbers.
pub open spec fn span(block: Block) -> (int, int, int, int) {
    (block.0 as int, block.1 as int, block.2 as int, block.3 as int)
}

pub open spec fn spans(blocks: Seq<Block>) -> Seq<(int, int, int, int)> {
    blocks.map_values(|block: Block| span(block))
}

/// The elements `<tag ...>...</tag>` from position `i` on, in order: each
/// opening tag of exactly that name that is not self-closing, up to the first
/// closing tag behind it. The search goes on behind that closing tag.
pub open spec fn blocks_from(b: Seq<u8>, tag: Seq<u8>, i: int) -> Seq<(int, int, int, int)>
    decreases b.len() - i,
{
    match text::found_from(b, opening(tag), i) {
        None => Seq::empty(),
        Some(s) => {
            let after = s + opening(tag).len();
            if s < i || after > b.len() {
                Seq::empty()
            } else if after < b.len() && is_name_byte(b[after]) {
                blocks_from(b, tag, after)
            } else {
                match tag_end_from(b, after, 0) {
                    None => Seq::empty(),
                    Some(end) => if end <= after || end > b.len() {
                        Seq::empty()
                    } else if is_self_closing(b, s, end) {
                        blocks_from(b, tag, end)
                    } else {
                        match text::found_from(b, closing(tag), end) {
                            None => Seq::empty(),
                            Some(inner_end) => {
                                let past = inner_end + closing(tag).len();
                                if inner_end < end || past > b.len() {
                                    Seq::empty()
                                } else {
                                    seq![(s, past, end, inner_end)] + blocks_from(
                                        b,
                                        tag,
                                        past,
                                    )
                                }
                            },
                        }
                    },
                }
            }
        },
    }
}

/// Where an element of that name may stand: a full opening tag, a full closing
/// tag, and no closing tag in between.
pub open spec fn well_placed(b: Seq<u8>, tag: Seq<u8>, block: (int, int, int, int)) -> bool {
    let (start, end, inner_start, inner_end) = block;
    &&& 0 <= start
    &&& start + opening(tag).len() < inner_start <= inner_end
    &&& end == inner_end + closing(tag).len() <= b.len()
    &&& text::stands_at(b, opening(tag), start)
    &&& b[inner_start - 1] == GT
    &&& text::stands_at(b, closing(tag), inner_end)
    &&& forall|i: int| inner_start <= i < inner_end ==> !text::stands_at(b, closing(tag), i)
}

/// Every element that is found is a whole element, and the elements come in
/// order and do not overlap.
pub proof fn law_blocks_are_elements(b: Seq<u8>, tag: Seq<u8>, i: int)
    requires
        0 <= i <= b.len(),
    ensures
        forall|k: int|
            0 <= k < blocks_from(b, tag, i).len() ==> {
                &&& i <= (#[trigger] blocks_from(b, tag, i)[k]).0
                &&& well_placed(b, tag, blocks_from(b, tag, i)[k])
            },
        forall|k: int, l: int|
            0 <= k < l < blocks_from(b, tag, i).len() ==> (#[trigger] blocks_from(b, tag, i)[k]).1
                <= (#[trigger] blocks_from(b, tag, i)[l]).0,
        4 * blocks_from(b, tag, i).len() <= b.len() - i,
    decreases b.len() - i,
{
    text::lemma_found_from(b, opening(tag), i);
    if let Some(s) = text::found_from(b, opening(tag), i) {
        let after = s + opening(tag).len();
        if after < b.len() && is_name_byte(b[after]) {
            law_blocks_are_elements(b, tag, after);
        } else {
            lemma_tag_end(b, after, 0);
            if let Some(end) = tag_end_from(b, after, 0) {
                if is_self_closing(b, s, end) {
                    law_blocks_are_elements(b, tag, end);
                } else {
                    text::lemma_found_from(b, closing(tag), end);
                    if let Some(inner_end) = text::found_from(b, closing(tag), end) {
                        let past = inner_end + closing(tag).len();
                        law_blocks_are_elements(b, tag, past);
                        let rest = blocks_from(b, tag, past);
                        let all = blocks_from(b, tag, i);
                        assert(all == seq![(s, past, end, inner_end)] + rest);
                        assert forall|k: int| 0 <= k < all.len() implies {
                            &&& i <= (#[trigger] all[k]).0
                            &&& well_placed(b, tag, all[k])
                        } by {
                            if k > 0 {
                                assert(all[k] == rest[k - 1]);
                            }
                        }
                        assert forall|k: int, l: int| 0 <= k < l < all.len() implies (
                        #[trigger] all[k]).1 <= (#[trigger] all[l]).0 by {
                            assert(all[l] == rest[l - 1]);
                            if k > 0 {
                                assert(all[k] == rest[k - 1]);
                            }
                        }
                    }
                }
            }
        }
    }
}

fn opening_bytes(tag: &[u8]) -> (r: Vec<u8>)
    ensures
        r@ == opening(tag@),
{
    let mut r: Vec<u8> = Vec::new();
    r.push(LT);
    r.extend_from_slice(tag);
    proof {
        assert(r@ =~= opening(tag@));
    }
    r
}

fn closing_bytes(tag: &[u8]) -> (r: Vec<u8>)
    ensures
        r@ == closing(tag@),
{
    let mut r: Vec<u8> = Vec::new();
    r.push(LT);
    r.push(SLASH);
    r.extend_from_slice(tag);
    r.push(GT);
    proof {
        assert(r@ =~= closing(tag@));
    }
    r
}

pub(crate) fn blocks_in(bytes: &[u8], tag: &[u8]) -> (out: Vec<Block>)
    ensures
        spans(out@) == blocks_from(bytes@, tag@, 0),
{
    let mut out: Vec<Block> = Vec::new();
    let open = opening_bytes(tag);
    let close = closing_bytes(tag);
    let mut i: usize = 0;
    proof {
        assert(spans(out@) + blocks_from(bytes@, tag@, 0) == blocks_from(bytes@, tag@, 0));
    }
    while i < bytes.len()
        invariant_except_break
            i <= bytes@.len(),
            open@ == opening(tag@),
            close@ == closing(tag@),
            spans(out@) + blocks_from(bytes@, tag@, i as int) == blocks_from(bytes@, tag@, 0),
        ensures
            spans(out@) == blocks_from(bytes@, tag@, 0),
        decreases bytes@.len() - i,
    {
        proof {
            text::lemma_found_from(bytes@, open@, i as int);
        }
        let found = find_bytes(bytes, open.as_slice(), i);
        let s: usize = match found {
            Some(s) => s,
            None => {
                proof {
                    assert(spans(out@) + Seq::<(int, int, int, int)>::empty() == spans(out@));
                }
                break;
            },
        };
        assert(s + open@.len() <= bytes.len());
        let after: usize = s + open.len();
        if after < bytes.len() && name_byte(bytes[after]) {
            i = after;
            continue;
        }
        let end: usize = match tag_end(bytes, after) {
            Some(end) => end,
            None => {
                proof {
                    assert(spans(out@) + Seq::<(int, int, int, int)>::empty() == spans(out@));
                }
                break;
            },
        };
        proof {
            assert(bytes@.subrange(s as int, s + open@.len())[0] == LT);
        }
        let mut k: usize = end - 1;
        while k > s && space_byte(bytes[k - 1])
            invariant
                s < end <= bytes@.len(),
                s < k < end,
                bytes@[s as int] == LT,
                solid_end(bytes@, s as int, end - 1) == solid_end(bytes@, s as int, k as int),
            decreases k,
        {
            k = k - 1;
        }
        if bytes[k - 1] == SLASH {
            i = end;
            continue;
        }
        proof {
            text::lemma_found_from(bytes@, close@, end as int);
        }
        match find_bytes(bytes, close.as_slice(), end) {
            Some(inner_end) => {
                assert(inner_end + close@.len() <= bytes.len());
                let past: usize = inner_end + close.len();
                let block: Block = (s, past, end, inner_end);
                proof {
                    let rest = blocks_from(bytes@, tag@, past as int);
                    assert(spans(out@) + (seq![span(block)] + rest) == spans(out@.push(block))
                        + rest);
                }
                out.push(block);
                i = past;
            },
            None => {
                proof {
                    assert(spans(out@) + Seq::<(int, int, int, int)>::empty() == spans(out@));
                }
                break;
            },
        }
    }
    out
}

/// The elements of the given name in the text, in order and without overlap.
/// Self-closing tags are skipped; an element is taken not to hold another of
/// its own name, which is true of feeds, whose bodies are escaped.
pub fn find_tag_blocks(text: &str, tag: &str) -> (out: Vec<Block>)
    ensures
        spans(out@) == blocks_from(encode_utf8(text@), encode_utf8(tag@), 0),
{
    blocks_in(text.as_bytes(), tag.as_bytes())
}

// ---------------------------------------------------------------------------
// Attributes
// ---------------------------------------------------------------------------

/// The first position at or after `j` that holds no separator.
pub open spec fn past_spaces(b: Seq<u8>, j: int) -> int
    decreases b.len() - j,
{
    if 0 <= j < b.len() && is_space_byte(b[j]) {
        past_spaces(b, j + 1)
    } else {
        j
    }
}

/// Where an unquoted value that begins at `j` ends.
pub open spec fn bare_end(b: Seq<u8>, j: int) -> int
    decreases b.len() - j,
{
    if 0 <= j < b.len() && !is_space_byte(b[j]) && b[j] != GT {
        bare_end(b, j + 1)
    } else {
        j
    }
}

/// Where a byte stands in the text of an opening tag.
#[derive(Clone, Copy)]
pub enum Place {
    /// Outside of values.
    Outside,
    /// Behind `=`, where a value is to begin.
    BeforeValue,
    /// In a value without quotes.
    Bare,
    /// In a value in these quotes.
    Quoted(u8),
}

/// The place behind the byte at `k`, where `place` is its own. A quote opens a
/// value only as the first byte of it, and only if it is closed again.
pub open spec fn place_after(b: Seq<u8>, k: int, place: Place) -> Place {
    match place {
        Place::Outside => if b[k] == EQUALS {
            Place::BeforeValue
        } else {
            Place::Outside
        },
        Place::BeforeValue => if is_space_byte(b[k]) {
            Place::BeforeValue
        } else if b[k] == GT {
            Place::Outside
        } else if (b[k] == QUOTE || b[k] == APOSTROPHE) && text::found_from(
            b,
            seq![b[k]],
            k + 1,
        ) is Some {
            Place::Quoted(b[k])
        } else {
            Place::Bare
        },
        Place::Bare => if is_space_byte(b[k]) || b[k] == GT {
            Place::Outside
        } else {
            Place::Bare
        },
        Place::Quoted(quote) => if b[k] == quote {
            Place::Outside
        } else {
            Place::Quoted(quote)
        },
    }
}

/// The place of the byte at `s`.
pub open spec fn place_at(b: Seq<u8>, s: int) -> Place
    decreases s,
{
    if s <= 0 {
        Place::Outside
    } else {
        place_after(b, s - 1, place_at(b, s - 1))
    }
}

/// Where the value of the attribute stands: behind the first place at which
/// its name stands outside a quoted value, begins the tag or follows a separator, and
/// is followed by `=`. The value is in quotes of either kind, or bare.
pub open spec fn attr_span(b: Seq<u8>, name: Seq<u8>, i: int) -> Option<(int, int)>
    decreases b.len() - i,
{
    match text::found_from(b, name, i) {
        None => None,
        Some(s) => {
            let eq = past_spaces(b, s + name.len());
            if name.len() == 0 || s < i || s + name.len() > b.len() {
                None
            } else if !(place_at(b, s) is Quoted) && (s == 0 || is_space_byte(b[s - 1])) && eq < b.len()
                && b[eq] == EQUALS {
                let v = past_spaces(b, eq + 1);
                if v >= b.len() {
                    None
                } else if b[v] == QUOTE || b[v] == APOSTROPHE {
                    match text::found_from(b, seq![b[v]], v + 1) {
                        None => None,
                        Some(e) => Some((v + 1, e)),
                    }
                } else {
                    Some((v, bare_end(b, v)))
                }
            } else {
                attr_span(b, name, s + name.len())
            }
        },
    }
}

/// The value of the attribute in the opening tag `b`.
pub open spec fn attr_value(b: Seq<u8>, name: Seq<u8>) -> Option<Seq<u8>> {
    match attr_span(b, name, 0) {
        None => None,
        Some((s, e)) => Some(b.subrange(s, e)),
    }
}

fn skip_spaces(bytes: &[u8], from: usize) -> (r: usize)
    requires
        from <= bytes@.len(),
    ensures
        r == past_spaces(bytes@, from as int),
        from <= r <= bytes@.len(),
        r > from ==> is_space_byte(bytes@[r - 1]),
{
    let mut j: usize = from;
    while j < bytes.len() && space_byte(bytes[j])
        invariant
            from <= j <= bytes@.len(),
            past_spaces(bytes@, from as int) == past_spaces(bytes@, j as int),
            j > from ==> is_space_byte(bytes@[j - 1]),
        decreases bytes@.len() - j,
    {
        j = j + 1;
    }
    j
}

/// The place of the byte at `to`, where `place` is that of the byte at `from`.
fn place_through(bytes: &[u8], from: usize, to: usize, place: Place) -> (r: Place)
    requires
        from <= to <= bytes@.len(),
        place == place_at(bytes@, from as int),
    ensures
        r == place_at(bytes@, to as int),
{
    let mut r: Place = place;
    for k in from..to
        invariant
            to <= bytes@.len(),
            from <= k,
            r == place_at(bytes@, k as int),
    {
        let c: u8 = bytes[k];
        r = match r {
            Place::Outside => if c == EQUALS {
                Place::BeforeValue
            } else {
                Place::Outside
            },
            Place::BeforeValue => if space_byte(c) {
                Place::BeforeValue
            } else if c == GT {
                Place::Outside
            } else if (c == QUOTE || c == APOSTROPHE) && has_byte(bytes, c, k + 1) {
                Place::Quoted(c)
            } else {
                Place::Bare
            },
            Place::Bare => if space_byte(c) || c == GT {
                Place::Outside
            } else {
                Place::Bare
            },
            Place::Quoted(quote) => if c == quote {
                Place::Outside
            } else {
                Place::Quoted(quote)
            },
        };
    }
    r
}

fn has_byte(bytes: &[u8], byte: u8, from: usize) -> (r: bool)
    requires
        from <= bytes@.len(),
    ensures
        r == (text::found_from(bytes@, seq![byte], from as int) is Some),
{
    let needle: [u8; 1] = [byte];
    proof {
        assert(needle@ =~= seq![byte]);
    }
    find_bytes(bytes, &needle, from).is_some()
}

pub(crate) fn attr_span_in(bytes: &[u8], name: &[u8]) -> (r: Option<(usize, usize)>)
    requires
        name@.len() > 0,
    ensures
        match r {
            None => attr_span(bytes@, name@, 0) is None,
            Some((s, e)) => {
                &&& attr_span(bytes@, name@, 0) == Some((s as int, e as int))
                &&& s <= e <= bytes@.len()
                &&& text::ascii_cut(bytes@, s as int)
                &&& text::ascii_cut(bytes@, e as int)
            },
        },
{
    let mut i: usize = 0;
    let mut place: Place = Place::Outside;
    loop
        invariant
            i <= bytes@.len(),
            name@.len() > 0,
            place == place_at(bytes@, i as int),
            attr_span(bytes@, name@, 0) == attr_span(bytes@, name@, i as int),
        decreases bytes@.len() - i,
    {
        proof {
            text::lemma_found_from(bytes@, name@, i as int);
        }
        let s: usize = match find_bytes(bytes, name, i) {
            Some(s) => s,
            None => {
                return None;
            },
        };
        assert(s + name@.len() <= bytes.len());
        let past: usize = s + name.len();
        let here = place_through(bytes, i, s, place);
        let quoted: bool = match here {
            Place::Quoted(_) => true,
            _ => false,
        };
        let eq: usize = skip_spaces(bytes, past);
        if !quoted && (s == 0 || space_byte(bytes[s - 1])) && eq < bytes.len() && bytes[eq]
            == EQUALS {
            let v: usize = skip_spaces(bytes, eq + 1);
            if v >= bytes.len() {
                return None;
            }
            let q: u8 = bytes[v];
            if q == QUOTE || q == APOSTROPHE {
                let needle: [u8; 1] = [q];
                proof {
                    assert(needle@ =~= seq![bytes@[v as int]]);
                    text::lemma_found_from(bytes@, needle@, v + 1);
                }
                return match find_bytes(bytes, &needle, v + 1) {
                    None => None,
                    Some(e) => {
                        proof {
                            assert(bytes@.subrange(e as int, e + 1)[0] == q);
                        }
                        Some((v + 1, e))
                    },
                };
            }
            let mut e: usize = v;
            while e < bytes.len() && !space_byte(bytes[e]) && bytes[e] != GT
                invariant
                    v <= e <= bytes@.len(),
                    bare_end(bytes@, v as int) == bare_end(bytes@, e as int),
                decreases bytes@.len() - e,
            {
                e = e + 1;
            }
            return Some((v, e));
        }
        place = place_through(bytes, s, past, here);
        i = past;
    }
}

/// The value of an attribute in the text of an opening tag, in quotes of
/// either kind or bare.
pub fn get_attr(tag: &str, name: &str) -> (r: Option<String>)
    requires
        name@.len() > 0,
    ensures
        match r {
            None => attr_value(encode_utf8(tag@), encode_utf8(name@)) is None,
            Some(value) => attr_value(encode_utf8(tag@), encode_utf8(name@)) == Some(
                encode_utf8(value@),
            ),
        },
{
    proof {
        encode_utf8_valid_utf8(tag@);
    }
    attr_in(tag.as_bytes(), name)
}

// ---------------------------------------------------------------------------
// The address of an Atom entry
// ---------------------------------------------------------------------------

/// The address that a `<link>` tag gives as the alternate form of its entry,
/// if it does.
pub open spec fn alternate_href(tag: Seq<u8>) -> Option<Seq<u8>> {
    match attr_value(tag, encode_utf8("href"@)) {
        Some(href) => if attr_value(tag, encode_utf8("rel"@)) == Some(encode_utf8("alternate"@))
            && !text::is_blank(decode_utf8(href)) {
            Some(href)
        } else {
            None
        },
        None => None,
    }
}

/// The first `<link rel="alternate" href="...">` at or after `i`, whatever the
/// order of the attributes: where the tag begins and ends.
pub open spec fn alternate_at(b: Seq<u8>, i: int) -> Option<(int, int)>
    decreases b.len() - i,
{
    let link = opening(encode_utf8("link"@));
    match text::found_from(b, link, i) {
        None => None,
        Some(s) => {
            let after = s + link.len();
            if s < i || after > b.len() {
                None
            } else if after < b.len() && is_name_byte(b[after]) {
                alternate_at(b, after)
            } else {
                match tag_end_from(b, after, 0) {
                    None => None,
                    Some(end) => if end <= after || end > b.len() {
                        None
                    } else if alternate_href(b.subrange(s, end)) is Some {
                        Some((s, end))
                    } else {
                        alternate_at(b, end)
                    },
                }
            }
        },
    }
}

/// The address that the first alternate link gives.
pub open spec fn alternate_of(b: Seq<u8>) -> Option<Seq<u8>> {
    match alternate_at(b, 0) {
        Some((s, end)) => alternate_href(b.subrange(s, end)),
        None => None,
    }
}

fn attr_in(tag: &[u8], name: &str) -> (r: Option<String>)
    requires
        name@.len() > 0,
        valid_utf8(tag@),
    ensures
        match r {
            None => attr_value(tag@, encode_utf8(name@)) is None,
            Some(value) => attr_value(tag@, encode_utf8(name@)) == Some(encode_utf8(value@)),
        },
{
    match attr_span_in(tag, name.as_bytes()) {
        None => None,
        Some((s, e)) => {
            proof {
                text::lemma_ascii_cuts(tag@, s as int, e as int);
            }
            Some(text::string_from(vstd::slice::slice_to_vec(slice_subrange(tag, s, e))))
        },
    }
}

fn alternate_in_tag(tag: &[u8]) -> (r: Option<String>)
    requires
        valid_utf8(tag@),
    ensures
        match r {
            None => alternate_href(tag@) is None,
            Some(href) => alternate_href(tag@) == Some(encode_utf8(href@)),
        },
{
    proof {
        reveal_strlit("rel");
        reveal_strlit("href");
        broadcast use encode_utf8_decode_utf8;

    }
    let rel = attr_in(tag, "rel");
    match (rel, attr_in(tag, "href")) {
        (Some(rel), Some(href)) => {
            let wanted = "alternate".to_string();
            if rel == wanted && !text::is_blank_str(href.as_str()) {
                return Some(href);
            }
            proof {
                if encode_utf8(rel@) == encode_utf8("alternate"@) {
                    assert(decode_utf8(encode_utf8(rel@)) == rel@);
                    assert(decode_utf8(encode_utf8("alternate"@)) == "alternate"@);
                }
            }
            None
        },
        _ => None,
    }
}

pub(crate) fn alternate_in(bytes: &[u8]) -> (r: Option<String>)
    requires
        valid_utf8(bytes@),
    ensures
        match r {
            None => alternate_of(bytes@) is None,
            Some(href) => alternate_of(bytes@) == Some(encode_utf8(href@)),
        },
{
    let link = opening_bytes("link".as_bytes());
    let mut i: usize = 0;
    loop
        invariant
            i <= bytes@.len(),
            valid_utf8(bytes@),
            link@ == opening(encode_utf8("link"@)),
            alternate_at(bytes@, 0) == alternate_at(bytes@, i as int),
        decreases bytes@.len() - i,
    {
        proof {
            text::lemma_found_from(bytes@, link@, i as int);
        }
        let s: usize = match find_bytes(bytes, link.as_slice(), i) {
            Some(s) => s,
            None => {
                return None;
            },
        };
        assert(s + link@.len() <= bytes.len());
        let after: usize = s + link.len();
        if after < bytes.len() && name_byte(bytes[after]) {
            i = after;
            continue;
        }
        let end: usize = match tag_end(bytes, after) {
            Some(end) => end,
            None => {
                return None;
            },
        };
        proof {
            assert(bytes@.subrange(s as int, s + link@.len())[0] == LT);
            lemma_tag_end(bytes@, after as int, 0);
            text::lemma_ascii_cuts(bytes@, s as int, end as int);
        }
        let href = alternate_in_tag(slice_subrange(bytes, s, end));
        if href.is_some() {
            return href;
        }
        i = end;
    }
}

/// The address that an Atom entry gives as its alternate form.
pub fn find_atom_alternate(block: &str) -> (r: Option<String>)
    ensures
        match r {
            None => alternate_of(encode_utf8(block@)) is None,
            Some(href) => alternate_of(encode_utf8(block@)) == Some(encode_utf8(href@)),
        },
{
    proof {
        encode_utf8_valid_utf8(block@);
    }
    alternate_in(block.as_bytes())
}

} // verus!
