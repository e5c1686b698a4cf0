//! What reading tags comes to, byte by byte: where a tag ends, which elements
//! are found, what an attribute holds, and which link gives an address.

use vstd::prelude::*;
use vstd::utf8::*;

use crate::scan;
use crate::scan::{Block, Place};
use crate::text;

verus! {

// ---------------------------------------------------------------------------
// Bytes
// ---------------------------------------------------------------------------

/// Space, tab, line feed or carriage return.
pub open spec fn separates(b: u8) -> bool {
    b == 0x20 || b == 0x09 || b == 0x0a || b == 0x0d
}

/// A letter or a digit of ASCII, `-`, `_` or `:`.
pub open spec fn continues_name(b: u8) -> bool {
    0x30 <= b <= 0x39 || 0x41 <= b <= 0x5a || 0x61 <= b <= 0x7a || b == 0x2d || b == 0x5f || b
        == 0x3a
}

/// `"` or `'`.
pub open spec fn quotes(b: u8) -> bool {
    b == 0x22 || b == 0x27
}

/// The name stands at `i`, byte by byte.
pub open spec fn name_at(b: Seq<u8>, name: Seq<u8>, i: int) -> bool {
    &&& 0 <= i && i + name.len() <= b.len()
    &&& forall|k: int| 0 <= k < name.len() ==> b[i + k] == #[trigger] name[k]
}

/// `<` and exactly that name stand at `s`.
pub open spec fn opens_at(b: Seq<u8>, tag: Seq<u8>, s: int) -> bool {
    &&& 0 <= s < b.len()
    &&& b[s] == 0x3c
    &&& name_at(b, tag, s + 1)
    &&& s + 1 + tag.len() < b.len() ==> !continues_name(b[s + 1 + tag.len()])
}

/// `</`, the name and `>` stand at `s`.
pub open spec fn closes_at(b: Seq<u8>, tag: Seq<u8>, s: int) -> bool {
    &&& 0 <= s && s + tag.len() + 3 <= b.len()
    &&& b[s] == 0x3c
    &&& b[s + 1] == 0x2f
    &&& name_at(b, tag, s + 2)
    &&& b[s + 2 + tag.len()] == 0x3e
}

proof fn lemma_opening_at(b: Seq<u8>, tag: Seq<u8>, s: int)
    ensures
        text::stands_at(b, scan::opening(tag), s) <==> 0 <= s < b.len() && b[s] == 0x3c && name_at(
            b,
            tag,
            s + 1,
        ),
        scan::opening(tag).len() == tag.len() + 1,
{
    let p = scan::opening(tag);
    if text::stands_at(b, p, s) {
        let here = b.subrange(s, s + p.len());
        assert(here[0] == p[0]);
        assert forall|k: int| 0 <= k < tag.len() implies b[s + 1 + k] == #[trigger] tag[k] by {
            assert(here[k + 1] == p[k + 1]);
        }
    }
    if 0 <= s < b.len() && b[s] == 0x3c && name_at(b, tag, s + 1) {
        assert forall|k: int| 0 <= k < p.len() implies b.subrange(s, s + p.len())[k] == p[k] by {
            if k > 0 {
                assert(p[k] == tag[k - 1]);
            }
        }
        assert(b.subrange(s, s + p.len()) =~= p);
    }
}

proof fn lemma_closing_at(b: Seq<u8>, tag: Seq<u8>, s: int)
    ensures
        text::stands_at(b, scan::closing(tag), s) <==> closes_at(b, tag, s),
        scan::closing(tag).len() == tag.len() + 3,
{
    let p = scan::closing(tag);
    if text::stands_at(b, p, s) {
        let here = b.subrange(s, s + p.len());
        assert(here[0] == p[0]);
        assert(here[1] == p[1]);
        assert(here[tag.len() + 2int] == p[tag.len() + 2int]);
        assert forall|k: int| 0 <= k < tag.len() implies b[s + 2 + k] == #[trigger] tag[k] by {
            assert(here[k + 2] == p[k + 2]);
        }
    }
    if closes_at(b, tag, s) {
        assert forall|k: int| 0 <= k < p.len() implies b.subrange(s, s + p.len())[k] == p[k] by {
            if 2 <= k < tag.len() + 2 {
                assert(p[k] == tag[k - 2]);
            }
        }
        assert(b.subrange(s, s + p.len()) =~= p);
    }
}

proof fn lemma_name_at(b: Seq<u8>, name: Seq<u8>, s: int)
    ensures
        text::stands_at(b, name, s) <==> name_at(b, name, s),
{
    if text::stands_at(b, name, s) {
        assert forall|k: int| 0 <= k < name.len() implies b[s + k] == #[trigger] name[k] by {
            assert(b.subrange(s, s + name.len())[k] == name[k]);
        }
    }
    if name_at(b, name, s) {
        assert(b.subrange(s, s + name.len()) =~= name);
    }
}

proof fn lemma_byte_at(b: Seq<u8>, byte: u8, s: int)
    ensures
        text::stands_at(b, seq![byte], s) <==> 0 <= s < b.len() && b[s] == byte,
{
    if text::stands_at(b, seq![byte], s) {
        assert(b.subrange(s, s + 1)[0] == byte);
    }
    if 0 <= s < b.len() && b[s] == byte {
        assert(b.subrange(s, s + 1) =~= seq![byte]);
    }
}

proof fn lemma_byte_found(b: Seq<u8>, byte: u8, from: int)
    requires
        0 <= from,
    ensures
        match text::found_from(b, seq![byte], from) {
            Some(e) => from <= e < b.len() && b[e] == byte && forall|i: int|
                from <= i < e ==> #[trigger] b[i] != byte,
            None => forall|i: int| from <= i < b.len() ==> #[trigger] b[i] != byte,
        },
{
    text::lemma_found_from(b, seq![byte], from);
    match text::found_from(b, seq![byte], from) {
        Some(e) => {
            lemma_byte_at(b, byte, e);
            assert forall|i: int| from <= i < e implies #[trigger] b[i] != byte by {
                lemma_byte_at(b, byte, i);
            }
        },
        None => {
            assert forall|i: int| from <= i < b.len() implies #[trigger] b[i] != byte by {
                lemma_byte_at(b, byte, i);
            }
        },
    }
}

proof fn lemma_byte_found_is(b: Seq<u8>, byte: u8, from: int, e: int)
    requires
        0 <= from <= e < b.len(),
        b[e] == byte,
        forall|i: int| from <= i < e ==> #[trigger] b[i] != byte,
    ensures
        text::found_from(b, seq![byte], from) == Some(e),
{
    lemma_byte_found(b, byte, from);
}

// ---------------------------------------------------------------------------
// The end of a tag
// ---------------------------------------------------------------------------

proof fn lemma_over_quoted(b: Seq<u8>, j: int, k: int, quote: u8)
    requires
        0 <= j <= k <= b.len(),
        quote != 0,
        forall|i: int| j <= i < k ==> #[trigger] b[i] != quote,
    ensures
        scan::tag_end_from(b, j, quote) == scan::tag_end_from(b, k, quote),
    decreases k - j,
{
    if j < k {
        lemma_over_quoted(b, j + 1, k, quote);
    }
}

/// A tag ends behind its first `>`, but for those in quotes: what stands from a
/// quote to the next one like it is passed over, and a tag with a quote that is
/// not closed does not end.
pub proof fn law_tag_end(b: Seq<u8>, j: int)
    requires
        0 <= j,
    ensures
        j >= b.len() ==> scan::tag_end_from(b, j, 0) is None,
        j < b.len() && b[j] == 0x3e ==> scan::tag_end_from(b, j, 0) == Some(j + 1),
        j < b.len() && b[j] != 0x3e && !quotes(b[j]) ==> scan::tag_end_from(b, j, 0)
            == scan::tag_end_from(b, j + 1, 0),
        j < b.len() && quotes(b[j]) ==> forall|k: int|
            j < k < b.len() && #[trigger] b[k] == b[j] && (forall|i: int|
                j < i < k ==> #[trigger] b[i] != b[j]) ==> scan::tag_end_from(b, j, 0)
                == scan::tag_end_from(b, k + 1, 0),
        j < b.len() && quotes(b[j]) && (forall|i: int|
            j < i < b.len() ==> #[trigger] b[i] != b[j]) ==> scan::tag_end_from(b, j, 0) is None,
{
    if j < b.len() && quotes(b[j]) {
        assert forall|k: int|
            j < k < b.len() && #[trigger] b[k] == b[j] && (forall|i: int|
                j < i < k ==> #[trigger] b[i] != b[j]) implies scan::tag_end_from(b, j, 0)
            == scan::tag_end_from(b, k + 1, 0) by {
            lemma_over_quoted(b, j + 1, k, b[j]);
        }
        if forall|i: int| j < i < b.len() ==> #[trigger] b[i] != b[j] {
            lemma_over_quoted(b, j + 1, b.len() as int, b[j]);
        }
    }
}

/// Without quotes, a tag ends behind the first `>`.
pub proof fn law_plain_tag_end(b: Seq<u8>, j: int, e: int)
    requires
        0 <= j <= e < b.len(),
        b[e] == 0x3e,
        forall|i: int| j <= i < e ==> #[trigger] b[i] != 0x3e && !quotes(b[i]),
    ensures
        scan::tag_end_from(b, j, 0) == Some(e + 1),
    decreases e - j,
{
    if j < e {
        law_plain_tag_end(b, j + 1, e);
    }
}

// ---------------------------------------------------------------------------
// Elements
// ---------------------------------------------------------------------------

/// The search for elements gets from `i` to the first opening tag of the name.
proof fn lemma_search_reaches(b: Seq<u8>, tag: Seq<u8>, i: int, s: int)
    requires
        0 <= i <= s,
        forall|k: int| 0 <= k < tag.len() ==> #[trigger] tag[k] != 0x3c,
        opens_at(b, tag, s),
        forall|p: int| i <= p < s ==> !#[trigger] opens_at(b, tag, p),
    ensures
        scan::blocks_from(b, tag, i) == scan::blocks_from(b, tag, s),
        text::found_from(b, scan::opening(tag), s) == Some(s),
    decreases s - i,
{
    let open = scan::opening(tag);
    lemma_opening_at(b, tag, s);
    text::lemma_found_from_is(b, open, s, s);
    text::lemma_found_from(b, open, i);
    let f = text::found_from(b, open, i)->0;
    assert(text::found_from(b, open, i) is Some && f <= s);
    if f < s {
        lemma_opening_at(b, tag, f);
        assert(!opens_at(b, tag, f));
        let after = f + 1 + tag.len();
        if s < after {
            assert(b[f + 1 + (s - f - 1)] == tag[s - f - 1]);
        }
        lemma_search_reaches(b, tag, after, s);
    }
}

proof fn lemma_search_ends(b: Seq<u8>, tag: Seq<u8>, i: int)
    requires
        0 <= i,
        forall|p: int| i <= p ==> !#[trigger] opens_at(b, tag, p),
    ensures
        scan::blocks_from(b, tag, i).len() == 0,
    decreases b.len() - i,
{
    let open = scan::opening(tag);
    text::lemma_found_from(b, open, i);
    if let Some(f) = text::found_from(b, open, i) {
        lemma_opening_at(b, tag, f);
        assert(!opens_at(b, tag, f));
        lemma_search_ends(b, tag, f + 1 + tag.len());
    }
}

proof fn lemma_solid(b: Seq<u8>, s: int, m: int, k: int)
    requires
        0 <= s <= k < m <= b.len(),
        forall|i: int| k < i < m ==> separates(#[trigger] b[i]),
        !separates(b[k]),
    ensures
        scan::solid_end(b, s, m) == k + 1,
    decreases m,
{
    if k + 1 < m {
        assert(separates(b[m - 1]));
        lemma_solid(b, s, m - 1, k);
    }
}

/// The opening tag from `s` to `end` has `k` for its last byte before the `>`
/// that is no separator.
pub open spec fn last_in_tag(b: Seq<u8>, s: int, end: int, k: int) -> bool {
    &&& s <= k < end - 1
    &&& !separates(b[k])
    &&& forall|i: int| k < i < end - 1 ==> separates(#[trigger] b[i])
}

/// An element is found: with `s` the first opening tag of exactly its name from
/// `i` on, where that tag ends at `end` and does not close the element, and with
/// `c` the first closing tag behind it, the element is the first that is found,
/// and what else is found is what is found behind it.
pub proof fn law_element_is_found(
    b: Seq<u8>,
    tag: Seq<u8>,
    i: int,
    s: int,
    end: int,
    k: int,
    c: int,
)
    requires
        0 <= i <= s,
        forall|k: int| 0 <= k < tag.len() ==> #[trigger] tag[k] != 0x3c,
        opens_at(b, tag, s),
        forall|p: int| i <= p < s ==> !#[trigger] opens_at(b, tag, p),
        scan::tag_end_from(b, (s + 1 + tag.len()) as int, 0) == Some(end),
        last_in_tag(b, s, end, k),
        b[k] != 0x2f,
        end <= c,
        closes_at(b, tag, c),
        forall|p: int| end <= p < c ==> !#[trigger] closes_at(b, tag, p),
    ensures
        scan::blocks_from(b, tag, i).len() > 0,
        scan::blocks_from(b, tag, i)[0] == (s, (c + tag.len() + 3) as int, end, c),
        scan::blocks_from(b, tag, i).drop_first() == scan::blocks_from(
            b,
            tag,
            (c + tag.len() + 3) as int,
        ),
{
    lemma_search_reaches(b, tag, i, s);
    lemma_opening_at(b, tag, s);
    scan::lemma_tag_end(b, (s + 1 + tag.len()) as int, 0);
    lemma_solid(b, s, end - 1, k);
    lemma_closing_at(b, tag, c);
    assert forall|p: int| end <= p < c implies !text::stands_at(b, scan::closing(tag), p) by {
        lemma_closing_at(b, tag, p);
        assert(!closes_at(b, tag, p));
    }
    text::lemma_found_from_is(b, scan::closing(tag), end, c);
    let past = (c + tag.len() + 3) as int;
    let rest = scan::blocks_from(b, tag, past);
    assert(scan::blocks_from(b, tag, s) == seq![(s, past, end, c)] + rest);
    assert((seq![(s, past, end, c)] + rest).drop_first() =~= rest);
}

/// A tag that closes its element too is passed over, and so is nothing else: the
/// search goes on behind it.
pub proof fn law_closed_tag_is_passed(
    b: Seq<u8>,
    tag: Seq<u8>,
    i: int,
    s: int,
    end: int,
    k: int,
)
    requires
        0 <= i <= s,
        forall|k: int| 0 <= k < tag.len() ==> #[trigger] tag[k] != 0x3c,
        opens_at(b, tag, s),
        forall|p: int| i <= p < s ==> !#[trigger] opens_at(b, tag, p),
        scan::tag_end_from(b, (s + 1 + tag.len()) as int, 0) == Some(end),
        last_in_tag(b, s, end, k),
        b[k] == 0x2f,
    ensures
        scan::blocks_from(b, tag, i) == scan::blocks_from(b, tag, end),
{
    lemma_search_reaches(b, tag, i, s);
    lemma_opening_at(b, tag, s);
    scan::lemma_tag_end(b, (s + 1 + tag.len()) as int, 0);
    lemma_solid(b, s, end - 1, k);
}

/// Nothing is found where no opening tag of the name stands.
pub proof fn law_no_element(b: Seq<u8>, tag: Seq<u8>, i: int)
    requires
        0 <= i,
        forall|p: int| i <= p ==> !#[trigger] opens_at(b, tag, p),
    ensures
        scan::blocks_from(b, tag, i).len() == 0,
{
    lemma_search_ends(b, tag, i);
}

/// Nothing is found from an opening tag on that does not end.
pub proof fn law_endless_tag(b: Seq<u8>, tag: Seq<u8>, i: int, s: int)
    requires
        0 <= i <= s,
        forall|k: int| 0 <= k < tag.len() ==> #[trigger] tag[k] != 0x3c,
        opens_at(b, tag, s),
        forall|p: int| i <= p < s ==> !#[trigger] opens_at(b, tag, p),
        scan::tag_end_from(b, (s + 1 + tag.len()) as int, 0) is None,
    ensures
        scan::blocks_from(b, tag, i).len() == 0,
{
    lemma_search_reaches(b, tag, i, s);
    lemma_opening_at(b, tag, s);
}

/// Nothing is found from an opening tag on that no closing tag follows.
pub proof fn law_unclosed_element(
    b: Seq<u8>,
    tag: Seq<u8>,
    i: int,
    s: int,
    end: int,
    k: int,
)
    requires
        0 <= i <= s,
        forall|k: int| 0 <= k < tag.len() ==> #[trigger] tag[k] != 0x3c,
        opens_at(b, tag, s),
        forall|p: int| i <= p < s ==> !#[trigger] opens_at(b, tag, p),
        scan::tag_end_from(b, (s + 1 + tag.len()) as int, 0) == Some(end),
        last_in_tag(b, s, end, k),
        b[k] != 0x2f,
        forall|p: int| end <= p ==> !#[trigger] closes_at(b, tag, p),
    ensures
        scan::blocks_from(b, tag, i).len() == 0,
{
    lemma_search_reaches(b, tag, i, s);
    lemma_opening_at(b, tag, s);
    scan::lemma_tag_end(b, (s + 1 + tag.len()) as int, 0);
    lemma_solid(b, s, end - 1, k);
    text::lemma_found_from(b, scan::closing(tag), end);
    if let Some(c) = text::found_from(b, scan::closing(tag), end) {
        lemma_closing_at(b, tag, c);
        assert(closes_at(b, tag, c));
    }
}

// ---------------------------------------------------------------------------
// Attributes
// ---------------------------------------------------------------------------

/// A tag begins outside of values; `=` leads to a value, past separators; a
/// quote opens one if it is closed again; anything else but `>` begins a bare
/// one, which ends before a separator or `>`.
pub proof fn law_places(b: Seq<u8>, k: int)
    requires
        0 <= k < b.len(),
    ensures
        scan::place_at(b, 0) is Outside,
        scan::place_at(b, k) is Outside ==> scan::place_at(b, k + 1) == (if b[k] == 0x3d {
            Place::BeforeValue
        } else {
            Place::Outside
        }),
        scan::place_at(b, k) is BeforeValue && separates(b[k]) ==> scan::place_at(
            b,
            k + 1,
        ) is BeforeValue,
        scan::place_at(b, k) is BeforeValue && b[k] == 0x3e ==> scan::place_at(
            b,
            k + 1,
        ) is Outside,
        scan::place_at(b, k) is BeforeValue && !separates(b[k]) && !quotes(b[k]) && b[k] != 0x3e
            ==> scan::place_at(b, k + 1) is Bare,
        scan::place_at(b, k) is BeforeValue && quotes(b[k]) && (forall|i: int|
            k < i < b.len() ==> #[trigger] b[i] != b[k]) ==> scan::place_at(b, k + 1) is Bare,
        scan::place_at(b, k) is Bare ==> scan::place_at(b, k + 1) == (if separates(b[k]) || b[k]
            == 0x3e {
            Place::Outside
        } else {
            Place::Bare
        }),
{
    lemma_byte_found(b, b[k], k + 1);
}

proof fn lemma_places_in_quotes(b: Seq<u8>, k: int, e: int, j: int)
    requires
        0 <= k < j <= e < b.len(),
        scan::place_at(b, k) is BeforeValue,
        quotes(b[k]),
        b[e] == b[k],
        forall|i: int| k < i < e ==> #[trigger] b[i] != b[k],
    ensures
        scan::place_at(b, j) == Place::Quoted(b[k]),
    decreases j,
{
    if j > k + 1 {
        lemma_places_in_quotes(b, k, e, j - 1);
    } else {
        lemma_byte_found_is(b, b[k], k + 1, e);
    }
}

/// All between a quote that opens a value and the next one like it is in quotes,
/// and what follows is not.
pub proof fn law_quoted_value(b: Seq<u8>, k: int, e: int)
    requires
        0 <= k < e < b.len(),
        scan::place_at(b, k) is BeforeValue,
        quotes(b[k]),
        b[e] == b[k],
        forall|i: int| k < i < e ==> #[trigger] b[i] != b[k],
    ensures
        forall|j: int| k < j <= e ==> #[trigger] scan::place_at(b, j) == Place::Quoted(b[k]),
        scan::place_at(b, e + 1) is Outside,
{
    assert forall|j: int| k < j <= e implies #[trigger] scan::place_at(b, j) == Place::Quoted(
        b[k],
    ) by {
        lemma_places_in_quotes(b, k, e, j);
    }
    assert(scan::place_at(b, e) == Place::Quoted(b[k]));
}

/// The name stands at `s`, outside of quoted values, at the beginning or behind
/// a separator, and `=` follows at `eq`, behind separators at most.
pub open spec fn is_attribute_at(b: Seq<u8>, name: Seq<u8>, s: int, eq: int) -> bool {
    &&& name_at(b, name, s)
    &&& !(scan::place_at(b, s) is Quoted)
    &&& s == 0 || separates(b[s - 1])
    &&& s + name.len() <= eq < b.len()
    &&& forall|i: int| s + name.len() <= i < eq ==> separates(#[trigger] b[i])
    &&& b[eq] == 0x3d
}

/// A name without separators in it.
pub open spec fn is_attribute_name(name: Seq<u8>) -> bool {
    &&& name.len() > 0
    &&& forall|k: int| 0 <= k < name.len() ==> !separates(#[trigger] name[k])
}

proof fn lemma_past(b: Seq<u8>, j: int)
    requires
        0 <= j <= b.len(),
    ensures
        j <= scan::past_spaces(b, j) <= b.len(),
        forall|i: int| j <= i < scan::past_spaces(b, j) ==> separates(#[trigger] b[i]),
        scan::past_spaces(b, j) < b.len() ==> !separates(b[scan::past_spaces(b, j)]),
    decreases b.len() - j,
{
    if j < b.len() && separates(b[j]) {
        lemma_past(b, j + 1);
    }
}

proof fn lemma_past_is(b: Seq<u8>, j: int, e: int)
    requires
        0 <= j <= e < b.len(),
        forall|i: int| j <= i < e ==> separates(#[trigger] b[i]),
        !separates(b[e]),
    ensures
        scan::past_spaces(b, j) == e,
{
    lemma_past(b, j);
}

proof fn lemma_attribute_reached(b: Seq<u8>, name: Seq<u8>, i: int, s: int, eq: int)
    requires
        is_attribute_name(name),
        0 <= i <= s,
        is_attribute_at(b, name, s, eq),
        forall|p: int, e: int| i <= p < s ==> !#[trigger] is_attribute_at(b, name, p, e),
    ensures
        scan::attr_span(b, name, i) == scan::attr_span(b, name, s),
        text::found_from(b, name, s) == Some(s),
        scan::past_spaces(b, (s + name.len()) as int) == eq,
    decreases s - i,
{
    lemma_name_at(b, name, s);
    text::lemma_found_from_is(b, name, s, s);
    text::lemma_found_from(b, name, i);
    lemma_past_is(b, (s + name.len()) as int, eq);
    let f = text::found_from(b, name, i)->0;
    assert(text::found_from(b, name, i) is Some && f <= s);
    if f < s {
        lemma_name_at(b, name, f);
        let past = (f + name.len()) as int;
        lemma_past(b, past);
        assert(!is_attribute_at(b, name, f, scan::past_spaces(b, past)));
        if s < past {
            assert(b[f + (s - 1 - f)] == name[s - 1 - f]);
        }
        lemma_attribute_reached(b, name, past, s, eq);
    }
}

/// The value of an attribute in quotes is what stands between them: behind the
/// first place where the name stands as a name, with `v` the first byte behind
/// `=` that is no separator, and `e` the next quote like it.
pub proof fn law_quoted_attribute(b: Seq<u8>, name: Seq<u8>, s: int, eq: int, v: int, e: int)
    requires
        is_attribute_name(name),
        is_attribute_at(b, name, s, eq),
        forall|p: int, e: int| 0 <= p < s ==> !#[trigger] is_attribute_at(b, name, p, e),
        eq < v < e < b.len(),
        forall|i: int| eq < i < v ==> separates(#[trigger] b[i]),
        quotes(b[v]),
        b[e] == b[v],
        forall|i: int| v < i < e ==> #[trigger] b[i] != b[v],
    ensures
        scan::attr_value(b, name) == Some(b.subrange(v + 1, e)),
{
    lemma_attribute_reached(b, name, 0, s, eq);
    lemma_past_is(b, eq + 1, v);
    lemma_byte_found_is(b, b[v], v + 1, e);
}

/// The value of an attribute without quotes goes up to the next separator, `>`,
/// or the end.
pub proof fn law_bare_attribute(b: Seq<u8>, name: Seq<u8>, s: int, eq: int, v: int, e: int)
    requires
        is_attribute_name(name),
        is_attribute_at(b, name, s, eq),
        forall|p: int, e: int| 0 <= p < s ==> !#[trigger] is_attribute_at(b, name, p, e),
        eq < v < b.len(),
        forall|i: int| eq < i < v ==> separates(#[trigger] b[i]),
        !quotes(b[v]),
        !separates(b[v]),
        v <= e <= b.len(),
        forall|i: int| v <= i < e ==> !separates(#[trigger] b[i]) && b[i] != 0x3e,
        e < b.len() ==> separates(b[e]) || b[e] == 0x3e,
    ensures
        scan::attr_value(b, name) == Some(b.subrange(v, e)),
{
    lemma_attribute_reached(b, name, 0, s, eq);
    lemma_past_is(b, eq + 1, v);
    lemma_bare_end(b, v, e);
}

proof fn lemma_bare_end(b: Seq<u8>, v: int, e: int)
    requires
        0 <= v <= e <= b.len(),
        forall|i: int| v <= i < e ==> !separates(#[trigger] b[i]) && b[i] != 0x3e,
        e < b.len() ==> separates(b[e]) || b[e] == 0x3e,
    ensures
        scan::bare_end(b, v) == e,
    decreases e - v,
{
    if v < e {
        lemma_bare_end(b, v + 1, e);
    }
}

/// A tag in which the name stands nowhere as a name has no such attribute.
pub proof fn law_no_attribute(b: Seq<u8>, name: Seq<u8>, i: int)
    requires
        name.len() > 0,
        0 <= i,
        forall|p: int, e: int| i <= p ==> !#[trigger] is_attribute_at(b, name, p, e),
    ensures
        scan::attr_span(b, name, i) is None,
        i == 0 ==> scan::attr_value(b, name) is None,
    decreases b.len() - i,
{
    text::lemma_found_from(b, name, i);
    if let Some(f) = text::found_from(b, name, i) {
        lemma_name_at(b, name, f);
        let past = (f + name.len()) as int;
        lemma_past(b, past);
        assert(!is_attribute_at(b, name, f, scan::past_spaces(b, past)));
        law_no_attribute(b, name, past);
    }
}

/// An attribute has no value where nothing follows `=`, or a quote that is not
/// closed.
pub proof fn law_attribute_without_value(b: Seq<u8>, name: Seq<u8>, s: int, eq: int, v: int)
    requires
        is_attribute_name(name),
        is_attribute_at(b, name, s, eq),
        forall|p: int, e: int| 0 <= p < s ==> !#[trigger] is_attribute_at(b, name, p, e),
        eq < v <= b.len(),
        forall|i: int| eq < i < v ==> separates(#[trigger] b[i]),
        v < b.len() ==> quotes(b[v]) && forall|i: int|
            v < i < b.len() ==> #[trigger] b[i] != b[v],
    ensures
        scan::attr_value(b, name) is None,
{
    lemma_attribute_reached(b, name, 0, s, eq);
    lemma_past(b, eq + 1);
    if v < b.len() {
        lemma_past_is(b, eq + 1, v);
        lemma_byte_found(b, b[v], v + 1);
    }
}

// ---------------------------------------------------------------------------
// Links
// ---------------------------------------------------------------------------

/// A link gives an address exactly where its `rel` is `alternate` and its
/// `href` is not blank, and the address is the `href`.
pub proof fn law_alternate_href(tag: Seq<u8>, href: Seq<u8>)
    ensures
        scan::alternate_href(tag) == Some(href) <==> {
            &&& scan::attr_value(tag, encode_utf8("rel"@)) == Some(encode_utf8("alternate"@))
            &&& scan::attr_value(tag, encode_utf8("href"@)) == Some(href)
            &&& exists|i: int|
                0 <= i < decode_utf8(href).len() && !text::is_white(
                    #[trigger] decode_utf8(href)[i],
                )
        },
{
    text::law_blank_is_nothing_trimmed(decode_utf8(href));
}

proof fn lemma_link()
    ensures
        forall|k: int|
            0 <= k < encode_utf8("link"@).len() ==> #[trigger] encode_utf8("link"@)[k] != 0x3c,
{
    reveal_strlit("link");
    let name = "link"@;
    assert(is_ascii_chars(name));
    is_ascii_chars_encode_utf8(name);
    assert forall|k: int| 0 <= k < encode_utf8(name).len() implies #[trigger] encode_utf8(name)[k]
        != 0x3c by {
        assert('a' <= name[k] <= 'z');
    }
}

proof fn lemma_link_reached(b: Seq<u8>, i: int, s: int)
    requires
        0 <= i <= s,
        opens_at(b, encode_utf8("link"@), s),
        forall|p: int| i <= p < s ==> !#[trigger] opens_at(b, encode_utf8("link"@), p),
    ensures
        scan::alternate_at(b, i) == scan::alternate_at(b, s),
        text::found_from(b, scan::opening(encode_utf8("link"@)), s) == Some(s),
    decreases s - i,
{
    let tag = encode_utf8("link"@);
    let open = scan::opening(tag);
    lemma_link();
    lemma_opening_at(b, tag, s);
    text::lemma_found_from_is(b, open, s, s);
    text::lemma_found_from(b, open, i);
    let f = text::found_from(b, open, i)->0;
    assert(text::found_from(b, open, i) is Some && f <= s);
    if f < s {
        lemma_opening_at(b, tag, f);
        assert(!opens_at(b, tag, f));
        let after = f + 1 + tag.len();
        if s < after {
            assert(b[f + 1 + (s - f - 1)] == tag[s - f - 1]);
        }
        lemma_link_reached(b, after, s);
    }
}

/// The first link that gives an address is the one that counts: with `s` the
/// first link from `i` on and `end` where its tag ends, it is that one if it
/// gives an address, and otherwise the first one behind it.
pub proof fn law_first_alternate(b: Seq<u8>, i: int, s: int, end: int)
    requires
        0 <= i <= s,
        opens_at(b, encode_utf8("link"@), s),
        forall|p: int| i <= p < s ==> !#[trigger] opens_at(b, encode_utf8("link"@), p),
        scan::tag_end_from(b, (s + 1 + encode_utf8("link"@).len()) as int, 0) == Some(end),
    ensures
        scan::alternate_href(b.subrange(s, end)) is Some ==> scan::alternate_at(b, i) == Some(
            (s, end),
        ),
        scan::alternate_href(b.subrange(s, end)) is None ==> scan::alternate_at(b, i)
            == scan::alternate_at(b, end),
        i == 0 && scan::alternate_href(b.subrange(s, end)) is Some ==> scan::alternate_of(b)
            == scan::attr_value(b.subrange(s, end), encode_utf8("href"@)),
{
    lemma_link_reached(b, i, s);
    lemma_opening_at(b, encode_utf8("link"@), s);
    scan::lemma_tag_end(b, (s + 1 + encode_utf8("link"@).len()) as int, 0);
}

/// Without a link, no address is given.
pub proof fn law_no_alternate(b: Seq<u8>, i: int)
    requires
        0 <= i,
    ensures
        (forall|p: int| i <= p ==> !#[trigger] opens_at(b, encode_utf8("link"@), p))
            ==> scan::alternate_at(b, i) is None,
        scan::alternate_at(b, 0) is None ==> scan::alternate_of(b) is None,
    decreases b.len() - i,
{
    let tag = encode_utf8("link"@);
    let open = scan::opening(tag);
    text::lemma_found_from(b, open, i);
    if forall|p: int| i <= p ==> !#[trigger] opens_at(b, tag, p) {
        if let Some(f) = text::found_from(b, open, i) {
            lemma_opening_at(b, tag, f);
            assert(!opens_at(b, tag, f));
            law_no_alternate(b, f + 1 + tag.len());
        }
    }
}

/// From a link on whose tag does not end, no address is given.
pub proof fn law_endless_link(b: Seq<u8>, i: int, s: int)
    requires
        0 <= i <= s,
        opens_at(b, encode_utf8("link"@), s),
        forall|p: int| i <= p < s ==> !#[trigger] opens_at(b, encode_utf8("link"@), p),
        scan::tag_end_from(b, (s + 1 + encode_utf8("link"@).len()) as int, 0) is None,
    ensures
        scan::alternate_at(b, i) is None,
{
    lemma_link_reached(b, i, s);
    lemma_opening_at(b, encode_utf8("link"@), s);
}

// ---------------------------------------------------------------------------
// What callers are told
// ---------------------------------------------------------------------------

/// What is told of a text is what is read from its bytes: the elements of a
/// name, the end of a tag, the value of an attribute, and the address of an
/// entry.
pub proof fn law_told_of_a_text(
    text: &str,
    name: &str,
    from: usize,
    blocks: Vec<Block>,
    end: Option<usize>,
    value: Option<String>,
    address: Option<String>,
)
    requires
        name@.len() > 0,
        call_ensures(scan::find_tag_blocks, (text, name), blocks),
        call_ensures(scan::open_tag_end, (text, from), end),
        call_ensures(scan::get_attr, (text, name), value),
        call_ensures(scan::find_atom_alternate, (text,), address),
    ensures
        ({
            let b = encode_utf8(text@);
            let tag = encode_utf8(name@);
            let found = scan::blocks_from(b, tag, 0);
            &&& blocks@.len() == found.len()
            &&& forall|k: int|
                0 <= k < found.len() ==> found[k] == (
                    (#[trigger] blocks@[k]).0 as int,
                    blocks@[k].1 as int,
                    blocks@[k].2 as int,
                    blocks@[k].3 as int,
                )
            &&& scan::tag_end_from(b, from as int, 0) == (match end {
                Some(end) => Some(end as int),
                None => None,
            })
            &&& scan::attr_value(b, tag) == (match value {
                Some(value) => Some(encode_utf8(value@)),
                None => None,
            })
            &&& scan::alternate_of(b) == (match address {
                Some(address) => Some(encode_utf8(address@)),
                None => None,
            })
        }),
{
    let found = scan::blocks_from(encode_utf8(text@), encode_utf8(name@), 0);
    assert(scan::spans(blocks@).len() == blocks@.len());
    assert forall|k: int| 0 <= k < found.len() implies found[k] == (
        (#[trigger] blocks@[k]).0 as int,
        blocks@[k].1 as int,
        blocks@[k].2 as int,
        blocks@[k].3 as int,
    ) by {
        assert(scan::spans(blocks@)[k] == scan::span(blocks@[k]));
    }
}

} // verus!
