//! Replacing a stretch of text between two tags leaves the tags around it where
//! they were: the same elements are found, at places moved by the difference in
//! length, but for those that stood in the stretch.

use vstd::prelude::*;
use vstd::utf8::*;

use crate::scan;
use crate::scan::{GT, LT};
use crate::text;

verus! {

// ---------------------------------------------------------------------------
// Tags
// ---------------------------------------------------------------------------

/// A name in lower-case letters.
pub open spec fn is_word(name: Seq<u8>) -> bool {
    &&& name.len() > 0
    &&& forall|i: int| 0 <= i < name.len() ==> 0x61 <= #[trigger] name[i] <= 0x7a
}

/// A text that begins with `<`, and holds no other `<`, and no `>` but at its
/// end.
pub open spec fn is_tag_text(p: Seq<u8>) -> bool {
    &&& p.len() > 0
    &&& p[0] == LT
    &&& forall|i: int| 0 < i < p.len() ==> #[trigger] p[i] != LT
    &&& forall|i: int| 0 <= i < p.len() - 1 ==> #[trigger] p[i] != GT
}

pub proof fn lemma_tag_texts(name: Seq<u8>)
    requires
        is_word(name),
    ensures
        is_tag_text(scan::opening(name)),
        is_tag_text(scan::closing(name)),
        scan::opening(name).len() == name.len() + 1,
        scan::closing(name).len() == name.len() + 3,
        scan::closing(name).last() == GT,
        forall|i: int|
            0 < i < scan::opening(name).len() ==> 0x61 <= #[trigger] scan::opening(name)[i] <= 0x7a,
{
    let open = scan::opening(name);
    let close = scan::closing(name);
    assert forall|i: int| 0 < i < open.len() implies 0x61 <= #[trigger] open[i] <= 0x7a by {
        assert(open[i] == name[i - 1]);
    }
    assert forall|i: int| 0 < i < close.len() implies #[trigger] close[i] != LT by {
        if 2 <= i < name.len() + 2 {
            assert(close[i] == name[i - 2]);
        }
    }
    assert forall|i: int| 0 <= i < close.len() - 1 implies #[trigger] close[i] != GT by {
        if 2 <= i < name.len() + 2 {
            assert(close[i] == name[i - 2]);
        }
    }
}

/// An opening tag of that name begins at `s`.
pub open spec fn opens(b: Seq<u8>, name: Seq<u8>, s: int) -> bool {
    let after = s + scan::opening(name).len();
    &&& text::stands_at(b, scan::opening(name), s)
    &&& !(after < b.len() && scan::is_name_byte(b[after]))
}

proof fn lemma_over_letters(b: Seq<u8>, j: int, k: int)
    requires
        0 <= j <= k <= b.len(),
        forall|i: int| j <= i < k ==> 0x61 <= #[trigger] b[i] <= 0x7a,
    ensures
        scan::tag_end_from(b, j, 0) == scan::tag_end_from(b, k, 0),
    decreases k - j,
{
    if j < k {
        lemma_over_letters(b, j + 1, k);
    }
}

/// The name of a tag has no say in where the tag ends.
pub proof fn lemma_over_name(b: Seq<u8>, name: Seq<u8>, s: int)
    requires
        is_word(name),
        text::stands_at(b, scan::opening(name), s),
    ensures
        scan::tag_end_from(b, s + scan::opening(name).len(), 0) == scan::tag_end_from(b, s + 1, 0),
        b[s] == LT,
{
    lemma_tag_texts(name);
    let open = scan::opening(name);
    let here = b.subrange(s, s + open.len());
    assert(here == open);
    assert(here[0] == b[s]);
    assert forall|i: int| s + 1 <= i < s + open.len() implies 0x61 <= #[trigger] b[i] <= 0x7a by {
        assert(here[i - s] == b[i]);
    }
    lemma_over_letters(b, s + 1, s + open.len());
}

// ---------------------------------------------------------------------------
// Splices
// ---------------------------------------------------------------------------

/// The text, with what stands from `a` to `c` replaced.
pub open spec fn spliced(b: Seq<u8>, a: int, c: int, rep: Seq<u8>) -> Seq<u8> {
    b.take(a) + rep + b.skip(c)
}

/// Where a place that is the end of a tag has gone, or a beginning of a search.
pub open spec fn end_moved(a: int, c: int, n: int, i: int) -> int {
    if i <= a {
        i
    } else {
        i - (c - a) + n
    }
}

/// Where a place that is the beginning of a tag has gone.
pub open spec fn start_moved(a: int, c: int, n: int, i: int) -> int {
    if i < c {
        i
    } else {
        i - (c - a) + n
    }
}

/// The stretch from `a` to `c` follows a tag, and a tag follows it; the
/// replacement holds no tag.
pub open spec fn fits_between(b: Seq<u8>, a: int, c: int, rep: Seq<u8>) -> bool {
    &&& 0 < a <= c < b.len()
    &&& b[a - 1] == GT
    &&& b[c] == LT
    &&& forall|j: int| 0 <= j < rep.len() ==> #[trigger] rep[j] != LT
}

/// The tag that begins at `t` ends before the stretch, or lies within it, or
/// begins behind it.
pub open spec fn tag_clear(b: Seq<u8>, t: int, a: int, c: int) -> bool {
    ||| c <= t
    ||| scan::tag_end_from(b, t + 1, 0) matches Some(end) && (end <= a || (a <= t && end <= c))
}

pub open spec fn tags_clear(b: Seq<u8>, name: Seq<u8>, a: int, c: int) -> bool {
    forall|t: int| #[trigger] opens(b, name, t) ==> tag_clear(b, t, a, c)
}

/// The element stands in the stretch.
pub open spec fn swallowed(a: int, c: int, e: (int, int, int, int)) -> bool {
    a <= e.0 && e.1 <= c
}

/// The element ends before the stretch, or begins behind it, or holds it, or
/// stands in it.
pub open spec fn block_clear(a: int, c: int, e: (int, int, int, int)) -> bool {
    ||| e.1 <= a
    ||| c <= e.0
    ||| e.2 <= a && c <= e.3
    ||| swallowed(a, c, e)
}

pub proof fn lemma_spliced(b: Seq<u8>, a: int, c: int, rep: Seq<u8>)
    requires
        0 <= a <= c <= b.len(),
    ensures
        spliced(b, a, c, rep).len() == b.len() - (c - a) + rep.len(),
        forall|i: int| 0 <= i < a ==> #[trigger] spliced(b, a, c, rep)[i] == b[i],
        forall|i: int|
            a <= i < a + rep.len() ==> #[trigger] spliced(b, a, c, rep)[i] == rep[i - a],
        forall|i: int|
            a + rep.len() <= i < spliced(b, a, c, rep).len() ==> #[trigger] spliced(
                b,
                a,
                c,
                rep,
            )[i] == b[i + (c - a) - rep.len()],
{
}

/// The text from `c` on is the other text from there on, moved.
pub open spec fn agrees_from(b: Seq<u8>, after: Seq<u8>, c: int, by: int) -> bool {
    &&& after.len() == b.len() + by
    &&& forall|i: int| c <= i < b.len() ==> #[trigger] b[i] == after[i + by]
}

proof fn lemma_tail(b: Seq<u8>, a: int, c: int, rep: Seq<u8>)
    requires
        0 <= a <= c <= b.len(),
    ensures
        agrees_from(b, spliced(b, a, c, rep), c, rep.len() - (c - a)),
{
    lemma_spliced(b, a, c, rep);
}

/// A tag text that stands before the stretch still stands there.
pub proof fn lemma_stands_left(b: Seq<u8>, a: int, c: int, rep: Seq<u8>, p: Seq<u8>, i: int)
    requires
        fits_between(b, a, c, rep),
        is_tag_text(p),
        0 <= i < a,
    ensures
        text::stands_at(b, p, i) == text::stands_at(spliced(b, a, c, rep), p, i),
        text::stands_at(b, p, i) ==> i + p.len() <= a,
{
    let after = spliced(b, a, c, rep);
    lemma_spliced(b, a, c, rep);
    if text::stands_at(b, p, i) && i + p.len() > a {
        assert(b.subrange(i, i + p.len())[a - 1 - i] == b[a - 1]);
    }
    if text::stands_at(after, p, i) && i + p.len() > a {
        assert(after.subrange(i, i + p.len())[a - 1 - i] == after[a - 1]);
    }
    if i + p.len() <= a {
        assert(b.subrange(i, i + p.len()) =~= after.subrange(i, i + p.len()));
    }
}

/// A tag text that stands behind the stretch still stands there.
pub proof fn lemma_stands_right(b: Seq<u8>, a: int, c: int, rep: Seq<u8>, p: Seq<u8>, i: int)
    requires
        0 <= a <= c <= i,
        c <= b.len(),
    ensures
        text::stands_at(b, p, i) == text::stands_at(
            spliced(b, a, c, rep),
            p,
            i - (c - a) + rep.len(),
        ),
{
    let after = spliced(b, a, c, rep);
    lemma_spliced(b, a, c, rep);
    let k = i - (c - a) + rep.len();
    if i + p.len() <= b.len() {
        assert(b.subrange(i, i + p.len()) =~= after.subrange(k, k + p.len()));
    }
}

/// No tag text stands in the replacement.
pub proof fn lemma_stands_not(b: Seq<u8>, a: int, c: int, rep: Seq<u8>, p: Seq<u8>, i: int)
    requires
        fits_between(b, a, c, rep),
        is_tag_text(p),
        a <= i < a + rep.len(),
    ensures
        !text::stands_at(spliced(b, a, c, rep), p, i),
{
    let after = spliced(b, a, c, rep);
    lemma_spliced(b, a, c, rep);
    if text::stands_at(after, p, i) {
        assert(after.subrange(i, i + p.len())[0] == after[i]);
    }
}

proof fn lemma_tag_end_left(b: Seq<u8>, after: Seq<u8>, a: int, j: int, quote: u8)
    requires
        0 <= j,
        a <= b.len(),
        a <= after.len(),
        forall|i: int| 0 <= i < a ==> #[trigger] b[i] == after[i],
        scan::tag_end_from(b, j, quote) matches Some(end) && end <= a,
    ensures
        scan::tag_end_from(after, j, quote) == scan::tag_end_from(b, j, quote),
    decreases b.len() - j,
{
    scan::lemma_tag_end(b, j, quote);
    if j < b.len() {
        if quote != 0 {
            lemma_tag_end_left(b, after, a, j + 1, if b[j] == quote { 0 } else { quote });
        } else if b[j] == scan::QUOTE || b[j] == scan::APOSTROPHE {
            lemma_tag_end_left(b, after, a, j + 1, b[j]);
        } else if b[j] != GT {
            lemma_tag_end_left(b, after, a, j + 1, 0);
        }
    }
}

proof fn lemma_tag_end_right(b: Seq<u8>, after: Seq<u8>, c: int, by: int, j: int, quote: u8)
    requires
        0 <= c <= j,
        0 <= c + by,
        agrees_from(b, after, c, by),
    ensures
        scan::tag_end_from(after, j + by, quote) == (match scan::tag_end_from(b, j, quote) {
            Some(end) => Some(end + by),
            None => None,
        }),
    decreases b.len() - j,
{
    if j < b.len() {
        assert(b[j] == after[j + by]);
        if quote != 0 {
            lemma_tag_end_right(b, after, c, by, j + 1, if b[j] == quote { 0 } else { quote });
        } else if b[j] == scan::QUOTE || b[j] == scan::APOSTROPHE {
            lemma_tag_end_right(b, after, c, by, j + 1, b[j]);
        } else if b[j] != GT {
            lemma_tag_end_right(b, after, c, by, j + 1, 0);
        }
    }
}

proof fn lemma_solid_end(b: Seq<u8>, after: Seq<u8>, s: int, by: int, k: int)
    requires
        0 <= s <= k <= b.len(),
        0 <= s + by,
        k + by <= after.len(),
        forall|i: int| s <= i < k ==> #[trigger] b[i] == after[i + by],
    ensures
        scan::solid_end(after, s + by, k + by) == scan::solid_end(b, s, k) + by,
        s <= scan::solid_end(b, s, k) <= k,
        scan::solid_end(b, s, k) == s ==> forall|i: int|
            s <= i < k ==> scan::is_space_byte(#[trigger] b[i]),
    decreases k - s,
{
    if k > s && scan::is_space_byte(b[k - 1]) {
        assert(b[k - 1] == after[k - 1 + by]);
        lemma_solid_end(b, after, s, by, k - 1);
    } else if k > s {
        assert(b[k - 1] == after[k - 1 + by]);
    }
}

/// A tag closes its element if and only if it did.
proof fn lemma_self_closing(b: Seq<u8>, after: Seq<u8>, s: int, by: int, end: int)
    requires
        0 <= s < end - 1,
        end <= b.len(),
        0 <= s + by,
        end + by <= after.len(),
        b[s] == LT,
        forall|i: int| s <= i < end ==> #[trigger] b[i] == after[i + by],
    ensures
        scan::is_self_closing(after, s + by, end + by) == scan::is_self_closing(b, s, end),
{
    lemma_solid_end(b, after, s, by, end - 1);
    let k = scan::solid_end(b, s, end - 1);
    if k == s {
        assert(scan::is_space_byte(b[s]));
    }
    assert(b[k - 1] == after[k - 1 + by]);
}

/// Where an element has gone.
pub open spec fn block_moved(a: int, c: int, n: int, block: (int, int, int, int)) -> (
    int,
    int,
    int,
    int,
) {
    (
        start_moved(a, c, n, block.0),
        end_moved(a, c, n, block.1),
        end_moved(a, c, n, block.2),
        start_moved(a, c, n, block.3),
    )
}

/// Where the elements have gone that did not stand in the stretch.
pub open spec fn blocks_moved(
    a: int,
    c: int,
    n: int,
    blocks: Seq<(int, int, int, int)>,
) -> Seq<(int, int, int, int)>
    decreases blocks.len(),
{
    if blocks.len() == 0 {
        Seq::empty()
    } else {
        let rest = blocks_moved(a, c, n, blocks.drop_first());
        if swallowed(a, c, blocks[0]) {
            rest
        } else {
            seq![block_moved(a, c, n, blocks[0])] + rest
        }
    }
}

proof fn lemma_first_moved(
    a: int,
    c: int,
    n: int,
    block: (int, int, int, int),
    rest: Seq<(int, int, int, int)>,
)
    ensures
        blocks_moved(a, c, n, seq![block] + rest) == if swallowed(a, c, block) {
            blocks_moved(a, c, n, rest)
        } else {
            seq![block_moved(a, c, n, block)] + blocks_moved(a, c, n, rest)
        },
{
    let all = seq![block] + rest;
    assert(all.drop_first() =~= rest);
    assert(all[0] == block);
}

pub proof fn lemma_last_moved(a: int, c: int, n: int, blocks: Seq<(int, int, int, int)>)
    requires
        blocks.len() > 0,
    ensures
        blocks_moved(a, c, n, blocks) == if swallowed(a, c, blocks.last()) {
            blocks_moved(a, c, n, blocks.drop_last())
        } else {
            blocks_moved(a, c, n, blocks.drop_last()).push(block_moved(a, c, n, blocks.last()))
        },
    decreases blocks.len(),
{
    if blocks.len() == 1 {
        assert(blocks.drop_first() =~= Seq::<(int, int, int, int)>::empty());
        assert(blocks.drop_last() =~= Seq::<(int, int, int, int)>::empty());
        let none = Seq::<(int, int, int, int)>::empty();
        assert(blocks_moved(a, c, n, none) == none);
        let first = block_moved(a, c, n, blocks[0]);
        assert(seq![first] + none =~= none.push(first));
    } else {
        lemma_last_moved(a, c, n, blocks.drop_first());
        assert(blocks.drop_first().drop_last() =~= blocks.drop_last().drop_first());
        assert(blocks.drop_first().last() == blocks.last());
        assert(blocks.drop_last()[0] == blocks[0]);
        let first = block_moved(a, c, n, blocks[0]);
        let last = block_moved(a, c, n, blocks.last());
        let rest = blocks_moved(a, c, n, blocks.drop_last().drop_first());
        assert((seq![first] + rest).push(last) =~= seq![first] + rest.push(last));
    }
}

// ---------------------------------------------------------------------------
// Searches
// ---------------------------------------------------------------------------

/// A search passes over what is not there.
proof fn lemma_search_on(b: Seq<u8>, p: Seq<u8>, i: int, k: int)
    requires
        0 <= i <= k,
        forall|j: int| i <= j < k ==> !(#[trigger] text::stands_at(b, p, j)),
    ensures
        text::found_from(b, p, i) == text::found_from(b, p, k),
{
    text::lemma_found_from(b, p, i);
    text::lemma_found_from(b, p, k);
    if let Some(at) = text::found_from(b, p, k) {
        assert forall|j: int| i <= j < at implies !text::stands_at(b, p, j) by {}
        text::lemma_found_from_is(b, p, i, at);
    }
}

/// Behind the stretch, the same is found.
proof fn lemma_found_right(b: Seq<u8>, a: int, c: int, rep: Seq<u8>, p: Seq<u8>, i: int)
    requires
        0 <= a <= c <= i,
        c <= b.len(),
    ensures
        text::found_from(spliced(b, a, c, rep), p, i - (c - a) + rep.len()) == (
        match text::found_from(b, p, i) {
            Some(k) => Some(k - (c - a) + rep.len()),
            None => None,
        }),
{
    let after = spliced(b, a, c, rep);
    let by = rep.len() - (c - a);
    text::lemma_found_from(b, p, i);
    text::lemma_found_from(after, p, i + by);
    match text::found_from(b, p, i) {
        Some(k) => {
            lemma_stands_right(b, a, c, rep, p, k);
            assert forall|j: int| i + by <= j < k + by implies !text::stands_at(after, p, j) by {
                lemma_stands_right(b, a, c, rep, p, j - by);
            }
            text::lemma_found_from_is(after, p, i + by, k + by);
        },
        None => {
            if let Some(j) = text::found_from(after, p, i + by) {
                lemma_stands_right(b, a, c, rep, p, j - by);
            }
        },
    }
}

/// Before the stretch, the same is found; a search that finds nothing there
/// goes on behind it.
proof fn lemma_found_left(b: Seq<u8>, a: int, c: int, rep: Seq<u8>, p: Seq<u8>, i: int)
    requires
        fits_between(b, a, c, rep),
        is_tag_text(p),
        0 <= i <= a,
    ensures
        match text::found_from(b, p, i) {
            Some(k) => if k < a {
                text::found_from(spliced(b, a, c, rep), p, i) == Some(k) && k + p.len() <= a
            } else {
                &&& text::found_from(b, p, a) == Some(k)
                &&& text::found_from(spliced(b, a, c, rep), p, i) == text::found_from(
                    spliced(b, a, c, rep),
                    p,
                    a + rep.len(),
                )
            },
            None => {
                &&& text::found_from(b, p, a) is None
                &&& text::found_from(spliced(b, a, c, rep), p, i) == text::found_from(
                    spliced(b, a, c, rep),
                    p,
                    a + rep.len(),
                )
            },
        },
{
    let after = spliced(b, a, c, rep);
    text::lemma_found_from(b, p, i);
    let found = text::found_from(b, p, i);
    if found is Some && found->0 < a {
        let k = found->0;
        lemma_stands_left(b, a, c, rep, p, k);
        assert forall|j: int| i <= j < k implies !text::stands_at(after, p, j) by {
            lemma_stands_left(b, a, c, rep, p, j);
        }
        text::lemma_found_from_is(after, p, i, k);
    } else {
        lemma_search_on(b, p, i, a);
        assert forall|j: int| i <= j < a + rep.len() implies !(#[trigger] text::stands_at(
            after,
            p,
            j,
        )) by {
            if j < a {
                lemma_stands_left(b, a, c, rep, p, j);
            } else {
                lemma_stands_not(b, a, c, rep, p, j);
            }
        }
        lemma_search_on(after, p, i, a + rep.len());
    }
}

/// A tag of a name before the stretch is the same tag after the splice.
proof fn lemma_left_tag(b: Seq<u8>, a: int, c: int, rep: Seq<u8>, name: Seq<u8>, s: int)
    requires
        fits_between(b, a, c, rep),
        is_word(name),
        text::stands_at(b, scan::opening(name), s),
        s < a,
    ensures
        ({
            let j = s + scan::opening(name).len();
            let after = spliced(b, a, c, rep);
            &&& j < a
            &&& b[j] == after[j]
            &&& tags_clear(b, name, a, c) && !scan::is_name_byte(b[j]) ==> {
                &&& scan::tag_end_from(b, j, 0) matches Some(end)
                &&& j < end <= a
                &&& scan::tag_end_from(after, j, 0) == Some(end)
                &&& scan::is_self_closing(after, s, end) == scan::is_self_closing(b, s, end)
                &&& after.subrange(s, end) == b.subrange(s, end)
            }
        }),
{
    let open = scan::opening(name);
    let j = s + open.len();
    let after = spliced(b, a, c, rep);
    lemma_spliced(b, a, c, rep);
    lemma_tag_texts(name);
    lemma_stands_left(b, a, c, rep, open, s);
    assert(b.subrange(s, j)[open.len() - 1] == b[j - 1]);
    assert(open[open.len() - 1] != GT);
    if tags_clear(b, name, a, c) && !scan::is_name_byte(b[j]) {
        lemma_over_name(b, name, s);
        assert(opens(b, name, s));
        scan::lemma_tag_end(b, s + 1, 0);
        scan::lemma_tag_end(b, j, 0);
        lemma_tag_end_left(b, after, a, j, 0);
        let end = scan::tag_end_from(b, j, 0)->0;
        lemma_self_closing(b, after, s, 0, end);
        assert(after.subrange(s, end) =~= b.subrange(s, end));
    }
}

/// A tag of a name in the stretch ends there.
proof fn lemma_inner_tag(b: Seq<u8>, a: int, c: int, name: Seq<u8>, s: int)
    requires
        0 < a <= s < c < b.len(),
        b[c] == LT,
        is_word(name),
        text::stands_at(b, scan::opening(name), s),
    ensures
        ({
            let j = s + scan::opening(name).len();
            &&& j <= c
            &&& tags_clear(b, name, a, c) && !scan::is_name_byte(b[j])
                ==> (scan::tag_end_from(b, j, 0) matches Some(end) && j < end <= c)
        }),
{
    let open = scan::opening(name);
    let j = s + open.len();
    lemma_tag_texts(name);
    if j > c {
        assert(b.subrange(s, j)[c - s] == b[c]);
        assert(open[c - s] != LT);
    }
    if tags_clear(b, name, a, c) && !scan::is_name_byte(b[j]) {
        lemma_over_name(b, name, s);
        assert(opens(b, name, s));
        scan::lemma_tag_end(b, s + 1, 0);
        scan::lemma_tag_end(b, j, 0);
    }
}

// ---------------------------------------------------------------------------
// Elements
// ---------------------------------------------------------------------------

/// The elements that are found from `i` on.
#[verifier::opaque]
pub open spec fn found_blocks(b: Seq<u8>, name: Seq<u8>, i: int) -> Seq<(int, int, int, int)> {
    scan::blocks_from(b, name, i)
}

/// What a search for elements comes to next.
pub enum Step {
    /// There is nothing more to find.
    Nothing,
    /// The search goes on there.
    Skip(int),
    /// An element, behind which the search goes on.
    Block((int, int, int, int)),
}

#[verifier::opaque]
pub open spec fn step(b: Seq<u8>, name: Seq<u8>, i: int) -> Step {
    match text::found_from(b, scan::opening(name), i) {
        None => Step::Nothing,
        Some(s) => {
            let j = s + scan::opening(name).len();
            if j < b.len() && scan::is_name_byte(b[j]) {
                Step::Skip(j)
            } else {
                match scan::tag_end_from(b, j, 0) {
                    None => Step::Nothing,
                    Some(end) => if scan::is_self_closing(b, s, end) {
                        Step::Skip(end)
                    } else {
                        match text::found_from(b, scan::closing(name), end) {
                            None => Step::Nothing,
                            Some(inner_end) => Step::Block(
                                (s, inner_end + scan::closing(name).len(), end, inner_end),
                            ),
                        }
                    },
                }
            }
        },
    }
}

/// The search goes step by step.
proof fn lemma_step(b: Seq<u8>, name: Seq<u8>, i: int)
    requires
        0 <= i <= b.len(),
        is_word(name),
    ensures
        match step(b, name, i) {
            Step::Nothing => found_blocks(b, name, i) == Seq::<(int, int, int, int)>::empty(),
            Step::Skip(k) => i < k <= b.len() && found_blocks(b, name, i)
                == found_blocks(b, name, k),
            Step::Block(e) => {
                &&& i <= e.0 < e.2 <= e.3 < e.1 <= b.len()
                &&& found_blocks(b, name, i) == seq![e] + found_blocks(b, name, e.1)
            },
        },
{
    reveal(found_blocks);
    reveal(step);
    lemma_tag_texts(name);
    text::lemma_found_from(b, scan::opening(name), i);
    if let Some(s) = text::found_from(b, scan::opening(name), i) {
        let j = s + scan::opening(name).len();
        scan::lemma_tag_end(b, j, 0);
        if let Some(end) = scan::tag_end_from(b, j, 0) {
            text::lemma_found_from(b, scan::closing(name), end);
        }
    }
}

proof fn lemma_blocks_on(b: Seq<u8>, name: Seq<u8>, i: int, k: int)
    requires
        0 <= i <= k <= b.len(),
        is_word(name),
        text::found_from(b, scan::opening(name), i) == text::found_from(
            b,
            scan::opening(name),
            k,
        ),
    ensures
        found_blocks(b, name, i) == found_blocks(b, name, k),
{
    reveal(step);
    lemma_step(b, name, i);
    lemma_step(b, name, k);
    assert(step(b, name, i) == step(b, name, k));
}

/// Without a closing tag there is no element.
proof fn lemma_no_closing(b: Seq<u8>, name: Seq<u8>, i: int, k: int)
    requires
        0 <= i <= k <= b.len(),
        text::found_from(b, scan::closing(name), i) is None,
    ensures
        found_blocks(b, name, k) == Seq::<(int, int, int, int)>::empty(),
{
    reveal(found_blocks);
    let blocks = found_blocks(b, name, k);
    scan::law_blocks_are_elements(b, name, k);
    text::lemma_found_from(b, scan::closing(name), i);
    if blocks.len() > 0 {
        assert(scan::well_placed(b, name, blocks[0]));
    }
    assert(blocks =~= Seq::<(int, int, int, int)>::empty());
}

proof fn lemma_first_begins(b: Seq<u8>, name: Seq<u8>, i: int)
    requires
        0 <= i <= b.len(),
    ensures
        found_blocks(b, name, i).len() > 0 ==> i <= found_blocks(b, name, i)[0].0
            < found_blocks(b, name, i)[0].1,
{
    reveal(found_blocks);
    scan::law_blocks_are_elements(b, name, i);
    if found_blocks(b, name, i).len() > 0 {
        assert(scan::well_placed(b, name, scan::blocks_from(b, name, i)[0]));
    }
}

/// Behind the stretch, the search takes the same steps.
proof fn lemma_step_right(b: Seq<u8>, a: int, c: int, rep: Seq<u8>, name: Seq<u8>, i: int)
    requires
        0 <= a <= c <= i <= b.len(),
        is_word(name),
    ensures
        ({
            let by = rep.len() - (c - a);
            step(spliced(b, a, c, rep), name, i + by) == match step(b, name, i) {
                Step::Nothing => Step::Nothing,
                Step::Skip(k) => Step::Skip(k + by),
                Step::Block(e) => Step::Block((e.0 + by, e.1 + by, e.2 + by, e.3 + by)),
            }
        }),
{
    reveal(step);
    let by = rep.len() - (c - a);
    let after = spliced(b, a, c, rep);
    let open = scan::opening(name);
    lemma_tail(b, a, c, rep);
    lemma_tag_texts(name);
    text::lemma_found_from(b, open, i);
    lemma_found_right(b, a, c, rep, open, i);
    if let Some(s) = text::found_from(b, open, i) {
        let j = s + open.len();
        if j < b.len() {
            assert(b[j] == after[j + by]);
        }
        lemma_tag_end_right(b, after, c, by, j, 0);
        scan::lemma_tag_end(b, j, 0);
        if let Some(end) = scan::tag_end_from(b, j, 0) {
            assert(b.subrange(s, j)[0] == b[s]);
            lemma_self_closing(b, after, s, by, end);
            lemma_found_right(b, a, c, rep, scan::closing(name), end);
        }
    }
}

/// Behind the stretch, the same elements are found.
proof fn lemma_blocks_right(b: Seq<u8>, a: int, c: int, rep: Seq<u8>, name: Seq<u8>, i: int)
    requires
        0 <= a <= c <= i <= b.len(),
        is_word(name),
    ensures
        found_blocks(spliced(b, a, c, rep), name, i - (c - a) + rep.len()) == blocks_moved(
            a,
            c,
            rep.len() as int,
            found_blocks(b, name, i),
        ),
    decreases b.len() - i,
{
    let n = rep.len() as int;
    let by = n - (c - a);
    lemma_tail(b, a, c, rep);
    lemma_step_right(b, a, c, rep, name, i);
    lemma_step(b, name, i);
    lemma_step(spliced(b, a, c, rep), name, i + by);
    match step(b, name, i) {
        Step::Nothing => {},
        Step::Skip(k) => {
            lemma_blocks_right(b, a, c, rep, name, k);
        },
        Step::Block(e) => {
            lemma_blocks_right(b, a, c, rep, name, e.1);
            lemma_first_moved(a, c, n, e, found_blocks(b, name, e.1));
        },
    }
}

/// In the stretch, a step leads on in it, to an element that begins there, or
/// behind it.
proof fn lemma_step_over(b: Seq<u8>, a: int, c: int, rep: Seq<u8>, name: Seq<u8>, i: int)
    requires
        fits_between(b, a, c, rep),
        is_word(name),
        tags_clear(b, name, a, c),
        a <= i <= c,
    ensures
        match step(b, name, i) {
            Step::Skip(k) if k <= c => true,
            Step::Block(e) if e.0 < c => true,
            _ => found_blocks(b, name, i) == found_blocks(b, name, c),
        },
{
    reveal(step);
    let open = scan::opening(name);
    lemma_step(b, name, i);
    lemma_tag_texts(name);
    text::lemma_found_from(b, open, i);
    let found = text::found_from(b, open, i);
    if found is Some && found->0 < c {
        let s = found->0;
        lemma_inner_tag(b, a, c, name, s);
        if !scan::is_name_byte(b[s + open.len()]) {
            let end = scan::tag_end_from(b, s + open.len(), 0)->0;
            if text::found_from(b, scan::closing(name), end) is None {
                lemma_no_closing(b, name, end, c);
            }
        }
    } else {
        assert forall|k: int| i <= k < c implies !(#[trigger] text::stands_at(b, open, k)) by {}
        lemma_search_on(b, open, i, c);
        lemma_blocks_on(b, name, i, c);
    }
}

/// Before the stretch, a step is the same step after the splice, or leads
/// behind the stretch.
proof fn lemma_step_left(b: Seq<u8>, a: int, c: int, rep: Seq<u8>, name: Seq<u8>, i: int)
    requires
        fits_between(b, a, c, rep),
        is_word(name),
        tags_clear(b, name, a, c),
        0 <= i <= a,
        step(b, name, i) matches Step::Block(e) ==> block_clear(a, c, e),
    ensures
        ({
            let after = spliced(b, a, c, rep);
            let n = rep.len() as int;
            match step(b, name, i) {
                Step::Skip(k) if k <= a => step(after, name, i) == Step::Skip(k),
                Step::Block(e) if e.0 < a => step(after, name, i) == Step::Block(
                    block_moved(a, c, n, e),
                ),
                _ => {
                    ||| step(b, name, i) is Nothing && step(after, name, i) is Nothing
                    ||| {
                        &&& found_blocks(b, name, i) == found_blocks(b, name, a)
                        &&& found_blocks(after, name, i) == found_blocks(
                            after,
                            name,
                            a + n,
                        )
                    }
                },
            }
        }),
{
    reveal(step);
    let n = rep.len() as int;
    let after = spliced(b, a, c, rep);
    let open = scan::opening(name);
    lemma_spliced(b, a, c, rep);
    lemma_tag_texts(name);
    lemma_step(b, name, i);
    text::lemma_found_from(b, open, i);
    lemma_found_left(b, a, c, rep, open, i);
    let found = text::found_from(b, open, i);
    if found is Some && found->0 < a {
        let s = found->0;
        let j = s + open.len();
        lemma_left_tag(b, a, c, rep, name, s);
        if !scan::is_name_byte(b[j]) {
            let end = scan::tag_end_from(b, j, 0)->0;
            if !scan::is_self_closing(b, s, end) {
                lemma_close_moved(b, a, c, rep, name, s, end);
                if let Step::Block(e) = step(b, name, i) {
                    assert(step(after, name, i) == Step::Block(block_moved(a, c, n, e)));
                }
            }
        }
    } else {
        if let Some(s) = found {
            scan::lemma_tag_end(b, s + open.len(), 0);
        }
        lemma_blocks_on(b, name, i, a);
        lemma_blocks_on(after, name, i, a + n);
    }
}

/// From within the stretch, what is found and does not stand there is found
/// behind it.
proof fn lemma_blocks_over(b: Seq<u8>, a: int, c: int, rep: Seq<u8>, name: Seq<u8>, i: int)
    requires
        fits_between(b, a, c, rep),
        is_word(name),
        tags_clear(b, name, a, c),
        a <= i <= c,
        all_clear(a, c, found_blocks(b, name, i)),
    ensures
        blocks_moved(a, c, rep.len() as int, found_blocks(b, name, i)) == blocks_moved(
            a,
            c,
            rep.len() as int,
            found_blocks(b, name, c),
        ),
    decreases c - i,
{
    lemma_step(b, name, i);
    lemma_step_over(b, a, c, rep, name, i);
    match step(b, name, i) {
        Step::Skip(k) if k <= c => {
            lemma_blocks_over(b, a, c, rep, name, k);
        },
        Step::Block(e) if e.0 < c => {
            let rest = found_blocks(b, name, e.1);
            lemma_rest_clear(a, c, e, rest);
            lemma_blocks_over(b, a, c, rep, name, e.1);
            lemma_first_moved(a, c, rep.len() as int, e, rest);
        },
        _ => {},
    }
}

/// Every one of the elements is clear of the stretch.
pub open spec fn all_clear(a: int, c: int, blocks: Seq<(int, int, int, int)>) -> bool {
    forall|k: int| 0 <= k < blocks.len() ==> block_clear(a, c, #[trigger] blocks[k])
}

proof fn lemma_rest_clear(
    a: int,
    c: int,
    first: (int, int, int, int),
    rest: Seq<(int, int, int, int)>,
)
    requires
        all_clear(a, c, seq![first] + rest),
    ensures
        block_clear(a, c, first),
        all_clear(a, c, rest),
{
    let all = seq![first] + rest;
    assert(all[0] == first);
    assert forall|k: int| 0 <= k < rest.len() implies block_clear(a, c, #[trigger] rest[k]) by {
        assert(all[k + 1] == rest[k]);
    }
}

/// The same elements are found, where they have gone, but for those that stood
/// in the stretch.
proof fn lemma_found_blocks(b: Seq<u8>, a: int, c: int, rep: Seq<u8>, name: Seq<u8>, i: int)
    requires
        fits_between(b, a, c, rep),
        is_word(name),
        tags_clear(b, name, a, c),
        0 <= i <= a,
        all_clear(a, c, found_blocks(b, name, i)),
    ensures
        found_blocks(spliced(b, a, c, rep), name, i) == blocks_moved(
            a,
            c,
            rep.len() as int,
            found_blocks(b, name, i),
        ),
    decreases a - i,
{
    let n = rep.len() as int;
    let after = spliced(b, a, c, rep);
    lemma_spliced(b, a, c, rep);
    lemma_step(b, name, i);
    lemma_step(after, name, i);
    if let Step::Block(e) = step(b, name, i) {
        lemma_rest_clear(a, c, e, found_blocks(b, name, e.1));
        lemma_first_moved(a, c, n, e, found_blocks(b, name, e.1));
    }
    lemma_step_left(b, a, c, rep, name, i);
    match step(b, name, i) {
        Step::Skip(k) if k <= a => {
            lemma_found_blocks(b, a, c, rep, name, k);
        },
        Step::Block(e) if e.0 < a => {
            if e.1 <= a {
                lemma_found_blocks(b, a, c, rep, name, e.1);
            } else {
                lemma_blocks_right(b, a, c, rep, name, e.1);
            }
        },
        _ => {
            if found_blocks(b, name, i) == found_blocks(b, name, a) {
                lemma_blocks_over(b, a, c, rep, name, a);
                lemma_blocks_right(b, a, c, rep, name, c);
            }
        },
    }
}

/// The closing tag of an element that begins before the stretch, and is clear
/// of it, is where it has gone.
proof fn lemma_close_moved(
    b: Seq<u8>,
    a: int,
    c: int,
    rep: Seq<u8>,
    name: Seq<u8>,
    s: int,
    end: int,
)
    requires
        fits_between(b, a, c, rep),
        is_word(name),
        0 <= s < end <= a,
        text::found_from(b, scan::closing(name), end) matches Some(inner_end) ==> block_clear(
            a,
            c,
            (s, inner_end + scan::closing(name).len(), end, inner_end),
        ),
    ensures
        text::found_from(spliced(b, a, c, rep), scan::closing(name), end) == (
        match text::found_from(b, scan::closing(name), end) {
            Some(inner_end) => Some(start_moved(a, c, rep.len() as int, inner_end)),
            None => None,
        }),
        text::found_from(b, scan::closing(name), end) matches Some(inner_end) ==> (inner_end
            + scan::closing(name).len() <= a || c <= inner_end),
{
    let close = scan::closing(name);
    lemma_tag_texts(name);
    lemma_found_left(b, a, c, rep, close, end);
    lemma_found_right(b, a, c, rep, close, c);
    text::lemma_found_from(b, close, end);
    match text::found_from(b, close, end) {
        Some(inner_end) => {
            if inner_end >= a {
                assert forall|k: int| a <= k < c implies !(#[trigger] text::stands_at(
                    b,
                    close,
                    k,
                )) by {}
                lemma_search_on(b, close, a, c);
            }
        },
        None => {
            lemma_search_on(b, close, a, c);
        },
    }
}

proof fn lemma_first_block_over(b: Seq<u8>, a: int, c: int, rep: Seq<u8>, name: Seq<u8>, i: int)
    requires
        fits_between(b, a, c, rep),
        is_word(name),
        tags_clear(b, name, a, c),
        a <= i <= c,
        found_blocks(b, name, i).len() > 0 ==> c <= found_blocks(b, name, i)[0].0,
    ensures
        found_blocks(b, name, i) == found_blocks(b, name, c),
    decreases c - i,
{
    lemma_step(b, name, i);
    lemma_step_over(b, a, c, rep, name, i);
    match step(b, name, i) {
        Step::Skip(k) if k <= c => {
            lemma_first_block_over(b, a, c, rep, name, k);
        },
        Step::Block(e) if e.0 < c => {
            assert(found_blocks(b, name, i)[0] == e);
        },
        _ => {},
    }
}

/// The first element is found where it has gone, if it does not touch the
/// stretch.
proof fn lemma_first_found(b: Seq<u8>, a: int, c: int, rep: Seq<u8>, name: Seq<u8>, i: int)
    requires
        fits_between(b, a, c, rep),
        is_word(name),
        tags_clear(b, name, a, c),
        0 <= i <= a,
        found_blocks(b, name, i).len() > 0 ==> found_blocks(b, name, i)[0].1 <= a || c
            <= found_blocks(b, name, i)[0].0,
    ensures
        ({
            let blocks = found_blocks(b, name, i);
            let blocks1 = found_blocks(spliced(b, a, c, rep), name, i);
            &&& blocks.len() > 0 <==> blocks1.len() > 0
            &&& blocks.len() > 0 ==> blocks1[0] == block_moved(a, c, rep.len() as int, blocks[0])
        }),
    decreases a - i,
{
    let n = rep.len() as int;
    let after = spliced(b, a, c, rep);
    lemma_spliced(b, a, c, rep);
    lemma_step(b, name, i);
    lemma_step(after, name, i);
    if let Step::Block(e) = step(b, name, i) {
        assert(found_blocks(b, name, i)[0] == e);
    }
    lemma_step_left(b, a, c, rep, name, i);
    match step(b, name, i) {
        Step::Skip(k) if k <= a => {
            lemma_first_found(b, a, c, rep, name, k);
        },
        Step::Block(e) if e.0 < a => {
            assert(found_blocks(after, name, i)[0] == block_moved(a, c, n, e));
        },
        _ => {
            if found_blocks(b, name, i) == found_blocks(b, name, a) {
                lemma_first_begins(b, name, a);
                lemma_first_block_over(b, a, c, rep, name, a);
                lemma_blocks_right(b, a, c, rep, name, c);
                let blocks = found_blocks(b, name, c);
                lemma_first_begins(b, name, c);
                if blocks.len() > 0 {
                    lemma_first_moved(a, c, n, blocks[0], blocks.drop_first());
                    assert(seq![blocks[0]] + blocks.drop_first() =~= blocks);
                }
            }
        },
    }
}

/// The same elements are found, where they have gone, but for those that stood
/// in the stretch.
pub proof fn lemma_blocks(b: Seq<u8>, a: int, c: int, rep: Seq<u8>, name: Seq<u8>)
    requires
        fits_between(b, a, c, rep),
        is_word(name),
        tags_clear(b, name, a, c),
        all_clear(a, c, scan::blocks_from(b, name, 0)),
    ensures
        scan::blocks_from(spliced(b, a, c, rep), name, 0) == blocks_moved(
            a,
            c,
            rep.len() as int,
            scan::blocks_from(b, name, 0),
        ),
{
    reveal(found_blocks);
    lemma_found_blocks(b, a, c, rep, name, 0);
}

/// The first element is found where it has gone, if it does not touch the
/// stretch.
pub proof fn lemma_first_block(b: Seq<u8>, a: int, c: int, rep: Seq<u8>, name: Seq<u8>)
    requires
        fits_between(b, a, c, rep),
        is_word(name),
        tags_clear(b, name, a, c),
        scan::blocks_from(b, name, 0).len() > 0 ==> scan::blocks_from(b, name, 0)[0].1 <= a || c
            <= scan::blocks_from(b, name, 0)[0].0,
    ensures
        ({
            let blocks = scan::blocks_from(b, name, 0);
            let blocks1 = scan::blocks_from(spliced(b, a, c, rep), name, 0);
            &&& blocks.len() > 0 <==> blocks1.len() > 0
            &&& blocks.len() > 0 ==> blocks1[0] == block_moved(a, c, rep.len() as int, blocks[0])
        }),
{
    reveal(found_blocks);
    lemma_first_found(b, a, c, rep, name, 0);
}

// ---------------------------------------------------------------------------
// Alternate links
// ---------------------------------------------------------------------------

/// The alternate link that is found from `i` on.
#[verifier::opaque]
pub open spec fn found_link(b: Seq<u8>, i: int) -> Option<(int, int)> {
    scan::alternate_at(b, i)
}

/// What a search for an alternate link comes to next.
pub enum LinkStep {
    Nothing,
    Skip(int),
    Link(int, int),
}

/// The tag is an alternate link.
#[verifier::opaque]
pub open spec fn is_alternate(tag: Seq<u8>) -> bool {
    scan::alternate_href(tag) is Some
}

#[verifier::opaque]
pub open spec fn link_step(b: Seq<u8>, i: int) -> LinkStep {
    match text::found_from(b, scan::opening(encode_utf8("link"@)), i) {
        None => LinkStep::Nothing,
        Some(s) => {
            let j = s + scan::opening(encode_utf8("link"@)).len();
            if j < b.len() && scan::is_name_byte(b[j]) {
                LinkStep::Skip(j)
            } else {
                match scan::tag_end_from(b, j, 0) {
                    None => LinkStep::Nothing,
                    Some(end) => if is_alternate(b.subrange(s, end)) {
                        LinkStep::Link(s, end)
                    } else {
                        LinkStep::Skip(end)
                    },
                }
            }
        },
    }
}

proof fn lemma_link_step(b: Seq<u8>, i: int)
    requires
        0 <= i <= b.len(),
        is_word(encode_utf8("link"@)),
    ensures
        match link_step(b, i) {
            LinkStep::Nothing => found_link(b, i) is None,
            LinkStep::Skip(k) => i < k <= b.len() && found_link(b, i)
                == found_link(b, k),
            LinkStep::Link(s, end) => i <= s < end <= b.len() && found_link(b, i) == Some(
                (s, end),
            ),
        },
{
    reveal(found_link);
    reveal(is_alternate);
    reveal(link_step);
    let open = scan::opening(encode_utf8("link"@));
    lemma_tag_texts(encode_utf8("link"@));
    text::lemma_found_from(b, open, i);
    if let Some(s) = text::found_from(b, open, i) {
        scan::lemma_tag_end(b, s + open.len(), 0);
    }
}

proof fn lemma_alternate_on(b: Seq<u8>, i: int, k: int)
    requires
        0 <= i <= k <= b.len(),
        is_word(encode_utf8("link"@)),
        text::found_from(b, scan::opening(encode_utf8("link"@)), i) == text::found_from(
            b,
            scan::opening(encode_utf8("link"@)),
            k,
        ),
    ensures
        found_link(b, i) == found_link(b, k),
{
    reveal(link_step);
    lemma_link_step(b, i);
    lemma_link_step(b, k);
    assert(link_step(b, i) == link_step(b, k));
}

proof fn lemma_link_step_right(b: Seq<u8>, a: int, c: int, rep: Seq<u8>, i: int)
    requires
        0 <= a <= c <= i <= b.len(),
        is_word(encode_utf8("link"@)),
    ensures
        ({
            let by = rep.len() - (c - a);
            link_step(spliced(b, a, c, rep), i + by) == match link_step(b, i) {
                LinkStep::Nothing => LinkStep::Nothing,
                LinkStep::Skip(k) => LinkStep::Skip(k + by),
                LinkStep::Link(s, end) => LinkStep::Link(s + by, end + by),
            }
        }),
        link_step(b, i) matches LinkStep::Link(s, end) ==> spliced(b, a, c, rep).subrange(
            s - (c - a) + rep.len(),
            end - (c - a) + rep.len(),
        ) == b.subrange(s, end),
{
    reveal(link_step);
    let by = rep.len() - (c - a);
    let after = spliced(b, a, c, rep);
    let open = scan::opening(encode_utf8("link"@));
    lemma_tail(b, a, c, rep);
    lemma_tag_texts(encode_utf8("link"@));
    text::lemma_found_from(b, open, i);
    lemma_found_right(b, a, c, rep, open, i);
    if let Some(s) = text::found_from(b, open, i) {
        let j = s + open.len();
        if j < b.len() {
            assert(b[j] == after[j + by]);
        }
        lemma_tag_end_right(b, after, c, by, j, 0);
        scan::lemma_tag_end(b, j, 0);
        if let Some(end) = scan::tag_end_from(b, j, 0) {
            assert(after.subrange(s + by, end + by) =~= b.subrange(s, end));
        }
    }
}

/// What is said of an alternate link that was found, and of where it has gone.
pub open spec fn link_moved(b: Seq<u8>, a: int, c: int, rep: Seq<u8>, i: int, to: int) -> bool {
    match found_link(b, i) {
        Some((s, end)) => {
            let s1 = start_moved(a, c, rep.len() as int, s);
            let end1 = end_moved(a, c, rep.len() as int, end);
            &&& found_link(spliced(b, a, c, rep), to) == Some((s1, end1))
            &&& spliced(b, a, c, rep).subrange(s1, end1) == b.subrange(s, end)
            &&& 0 <= s < end <= b.len()
            &&& end <= a || c <= s
        },
        None => found_link(spliced(b, a, c, rep), to) is None,
    }
}

proof fn lemma_alternate_right(b: Seq<u8>, a: int, c: int, rep: Seq<u8>, i: int)
    requires
        0 <= a <= c <= i <= b.len(),
        is_word(encode_utf8("link"@)),
    ensures
        link_moved(b, a, c, rep, i, i - (c - a) + rep.len()),
    decreases b.len() - i,
{
    lemma_tail(b, a, c, rep);
    lemma_link_step_right(b, a, c, rep, i);
    lemma_link_step(b, i);
    lemma_link_step(spliced(b, a, c, rep), i - (c - a) + rep.len());
    if let LinkStep::Skip(k) = link_step(b, i) {
        lemma_alternate_right(b, a, c, rep, k);
    }
}

proof fn lemma_alternate_over(b: Seq<u8>, a: int, c: int, rep: Seq<u8>, i: int)
    requires
        fits_between(b, a, c, rep),
        is_word(encode_utf8("link"@)),
        tags_clear(b, encode_utf8("link"@), a, c),
        a <= i <= c,
        found_link(b, i) matches Some((s, end)) ==> c <= s,
    ensures
        found_link(b, i) == found_link(b, c),
    decreases c - i,
{
    reveal(link_step);
    let name = encode_utf8("link"@);
    let open = scan::opening(name);
    lemma_tag_texts(name);
    lemma_link_step(b, i);
    text::lemma_found_from(b, open, i);
    let found = text::found_from(b, open, i);
    if found is Some && found->0 < c {
        lemma_inner_tag(b, a, c, name, found->0);
        if let LinkStep::Skip(k) = link_step(b, i) {
            lemma_alternate_over(b, a, c, rep, k);
        }
    } else {
        assert forall|k: int| i <= k < c implies !(#[trigger] text::stands_at(b, open, k)) by {}
        lemma_search_on(b, open, i, c);
        lemma_alternate_on(b, i, c);
    }
}

/// The same alternate link is found, where it has gone, if it does not stand
/// in the stretch.
proof fn lemma_link_moved(b: Seq<u8>, a: int, c: int, rep: Seq<u8>, i: int)
    requires
        fits_between(b, a, c, rep),
        is_word(encode_utf8("link"@)),
        tags_clear(b, encode_utf8("link"@), a, c),
        0 <= i <= a,
        found_link(b, i) matches Some((s, end)) ==> s < a || c <= s,
    ensures
        link_moved(b, a, c, rep, i, i),
    decreases a - i,
{
    reveal(link_step);
    let name = encode_utf8("link"@);
    let n = rep.len() as int;
    let after = spliced(b, a, c, rep);
    let open = scan::opening(name);
    lemma_spliced(b, a, c, rep);
    lemma_tag_texts(name);
    lemma_link_step(b, i);
    lemma_link_step(after, i);
    text::lemma_found_from(b, open, i);
    lemma_found_left(b, a, c, rep, open, i);
    let found = text::found_from(b, open, i);
    if found is Some && found->0 < a {
        lemma_left_tag(b, a, c, rep, name, found->0);
        assert(link_step(b, i) == link_step(after, i));
        if let LinkStep::Skip(k) = link_step(b, i) {
            lemma_link_moved(b, a, c, rep, k);
        }
    } else {
        lemma_alternate_on(b, i, a);
        lemma_alternate_on(after, i, a + n);
        lemma_link_begins(b, a);
        lemma_alternate_over(b, a, c, rep, a);
        lemma_alternate_right(b, a, c, rep, c);
    }
}

proof fn lemma_link_begins(b: Seq<u8>, i: int)
    requires
        0 <= i <= b.len(),
        is_word(encode_utf8("link"@)),
    ensures
        found_link(b, i) matches Some((s, end)) ==> i <= s < end <= b.len(),
    decreases b.len() - i,
{
    lemma_link_step(b, i);
    if let LinkStep::Skip(k) = link_step(b, i) {
        lemma_link_begins(b, k);
    }
}

/// The same alternate link is found, where it has gone, if it does not stand
/// in the stretch.
pub proof fn lemma_alternate(b: Seq<u8>, a: int, c: int, rep: Seq<u8>)
    requires
        fits_between(b, a, c, rep),
        is_word(encode_utf8("link"@)),
        tags_clear(b, encode_utf8("link"@), a, c),
        scan::alternate_at(b, 0) matches Some((s, end)) ==> s < a || c <= s,
    ensures
        match scan::alternate_at(b, 0) {
            Some((s, end)) => {
                let s1 = start_moved(a, c, rep.len() as int, s);
                let end1 = end_moved(a, c, rep.len() as int, end);
                &&& scan::alternate_at(spliced(b, a, c, rep), 0) == Some((s1, end1))
                &&& spliced(b, a, c, rep).subrange(s1, end1) == b.subrange(s, end)
            },
            None => scan::alternate_at(spliced(b, a, c, rep), 0) is None,
        },
{
    reveal(found_link);
    lemma_link_moved(b, a, c, rep, 0);
}

pub proof fn lemma_alternate_begins(b: Seq<u8>)
    requires
        is_word(encode_utf8("link"@)),
    ensures
        scan::alternate_at(b, 0) matches Some((s, end)) ==> 0 <= s < end <= b.len(),
{
    reveal(found_link);
    lemma_link_begins(b, 0);
}

/// An opening tag after the splice is one from before it, and ends where that
/// did, or where that has gone.
pub proof fn lemma_opens_before(
    b: Seq<u8>,
    a: int,
    c: int,
    rep: Seq<u8>,
    name: Seq<u8>,
    t: int,
) -> (from: int)
    requires
        fits_between(b, a, c, rep),
        is_word(name),
        tags_clear(b, name, a, c),
        opens(spliced(b, a, c, rep), name, t),
    ensures
        opens(b, name, from),
        from < a || c <= from,
        t == start_moved(a, c, rep.len() as int, from),
        from < a ==> scan::tag_end_from(spliced(b, a, c, rep), t + 1, 0) == scan::tag_end_from(
            b,
            from + 1,
            0,
        ),
        c <= from ==> scan::tag_end_from(spliced(b, a, c, rep), t + 1, 0) == (
        match scan::tag_end_from(b, from + 1, 0) {
            Some(end) => Some(end - (c - a) + rep.len()),
            None => None,
        }),
        scan::tag_end_from(b, from + 1, 0) matches Some(end) ==> from < end,
{
    let n = rep.len() as int;
    let by = n - (c - a);
    let after = spliced(b, a, c, rep);
    let open = scan::opening(name);
    lemma_tag_texts(name);
    lemma_over_name(after, name, t);
    if a <= t < a + n {
        lemma_stands_not(b, a, c, rep, open, t);
    }
    let from = if t < a {
        t
    } else {
        t - by
    };
    scan::lemma_tag_end(b, from + 1, 0);
    if t < a {
        lemma_stands_left(b, a, c, rep, open, t);
        lemma_left_tag(b, a, c, rep, name, t);
        lemma_over_name(b, name, t);
        assert(opens(b, name, t));
    } else {
        lemma_stands_right(b, a, c, rep, open, from);
        lemma_tail(b, a, c, rep);
        lemma_tag_end_right(b, after, c, by, from + 1, 0);
        if from + open.len() < b.len() {
            assert(b[from + open.len()] == after[t + open.len()]);
        }
    }
    from
}

// ---------------------------------------------------------------------------
// Texts in texts
// ---------------------------------------------------------------------------

pub proof fn lemma_tag_end_within(b: Seq<u8>, x: int, y: int, j: int, quote: u8)
    requires
        0 <= x <= y <= b.len(),
        0 <= j,
    ensures
        scan::tag_end_from(b.subrange(x, y), j, quote) matches Some(end)
            ==> scan::tag_end_from(b, x + j, quote) == Some(x + end),
        scan::tag_end_from(b, x + j, quote) matches Some(end) ==> end <= y
            ==> scan::tag_end_from(b.subrange(x, y), j, quote) == Some(end - x),
    decreases y - x - j,
{
    let sub = b.subrange(x, y);
    scan::lemma_tag_end(b, x + j, quote);
    if j < sub.len() {
        assert(sub[j] == b[x + j]);
        if quote != 0 {
            lemma_tag_end_within(b, x, y, j + 1, if sub[j] == quote { 0 } else { quote });
        } else if sub[j] == scan::QUOTE || sub[j] == scan::APOSTROPHE {
            lemma_tag_end_within(b, x, y, j + 1, sub[j]);
        } else if sub[j] != GT {
            lemma_tag_end_within(b, x, y, j + 1, 0);
        }
    }
}

pub proof fn lemma_stands_within(b: Seq<u8>, x: int, y: int, p: Seq<u8>, i: int)
    requires
        0 <= x <= y <= b.len(),
        0 <= i,
    ensures
        text::stands_at(b.subrange(x, y), p, i) <==> text::stands_at(b, p, x + i) && x + i
            + p.len() <= y,
{
    let sub = b.subrange(x, y);
    if x + i + p.len() <= y {
        assert(sub.subrange(i, i + p.len()) =~= b.subrange(x + i, x + i + p.len()));
    }
}

/// An opening tag of a text within a text that ends with `>` is one of the
/// whole text.
pub proof fn lemma_opens_within(b: Seq<u8>, x: int, y: int, name: Seq<u8>, s: int)
    requires
        0 <= x < y <= b.len(),
        b[y - 1] == GT,
        is_word(name),
        opens(b.subrange(x, y), name, s),
    ensures
        opens(b, name, x + s),
        s + scan::opening(name).len() < y - x,
{
    let sub = b.subrange(x, y);
    let open = scan::opening(name);
    lemma_tag_texts(name);
    lemma_stands_within(b, x, y, open, s);
    if s + open.len() == sub.len() {
        assert(sub.subrange(s, s + open.len())[open.len() - 1] == b[y - 1]);
    }
    assert(sub[s + open.len()] == b[x + s + open.len()]);
}

/// What holds of a splice in a text holds in a part of it that ends with `>`
/// and reaches over the stretch on both sides.
pub proof fn lemma_part(b: Seq<u8>, a: int, c: int, rep: Seq<u8>, x: int, y: int)
    requires
        fits_between(b, a, c, rep),
        0 <= x < a,
        c < y <= b.len(),
        b[y - 1] == GT,
    ensures
        fits_between(b.subrange(x, y), a - x, c - x, rep),
        spliced(b.subrange(x, y), a - x, c - x, rep) == spliced(b, a, c, rep).subrange(
            x,
            y - (c - a) + rep.len(),
        ),
        forall|name: Seq<u8>|
            is_word(name) && tags_clear(b, name, a, c) ==> #[trigger] tags_clear(
                b.subrange(x, y),
                name,
                a - x,
                c - x,
            ),
{
    let sub = b.subrange(x, y);
    assert(spliced(sub, a - x, c - x, rep) =~= spliced(b, a, c, rep).subrange(
        x,
        y - (c - a) + rep.len(),
    ));
    assert forall|name: Seq<u8>| is_word(name) && tags_clear(b, name, a, c) implies #[trigger]
        tags_clear(sub, name, a - x, c - x) by {
        assert forall|s: int| #[trigger] opens(sub, name, s) implies tag_clear(
            sub,
            s,
            a - x,
            c - x,
        ) by {
            lemma_opens_within(b, x, y, name, s);
            assert(tag_clear(b, x + s, a, c));
            lemma_tag_end_within(b, x, y, s + 1, 0);
        }
    }
}

} // verus!
