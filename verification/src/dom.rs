//! A page as a tree of nodes. kuchiki parses, selects and writes; what is here
//! says what becomes of the tree.

use vstd::prelude::*;
use vstd::utf8::*;

use kuchiki::traits::TendrilSink;

verus! {

/// How far the buffers grow in which the parser keeps text, in bytes.
pub const MAX_BUFFER: u64 = 0x8000_0000;

// ---------------------------------------------------------------------------
// How long a text may be
// ---------------------------------------------------------------------------

/// `&nLt;` or `&nGt;`: the two character references that stand for more bytes
/// than they take, six for five.
pub open spec fn is_growing_reference(bytes: Seq<u8>, i: int) -> bool {
    &&& 0 <= i && i + 5 <= bytes.len()
    &&& bytes[i] == 0x26
    &&& bytes[i + 1] == 0x6e
    &&& (bytes[i + 2] == 0x4c || bytes[i + 2] == 0x47)
    &&& bytes[i + 3] == 0x74
    &&& bytes[i + 4] == 0x3b
}

/// How much room the parser may need for the byte at `i`. A NUL becomes the
/// three bytes of U+FFFD.
pub open spec fn byte_room(bytes: Seq<u8>, i: int) -> nat {
    if bytes[i] == 0x00 {
        3
    } else if is_growing_reference(bytes, i) {
        2
    } else {
        1
    }
}

/// How much room the parser may need for a text from `i` on.
pub open spec fn room_from(bytes: Seq<u8>, i: int) -> nat
    decreases bytes.len() - i,
{
    if i < 0 || i >= bytes.len() {
        0
    } else {
        byte_room(bytes, i) + room_from(bytes, i + 1)
    }
}

/// The text is not too long to be parsed.
pub open spec fn can_be_parsed(html: Seq<char>) -> bool {
    room_from(encode_utf8(html), 0) <= MAX_BUFFER
}

proof fn lemma_encoded_both(a: Seq<char>, b: Seq<char>)
    ensures
        encode_utf8(a + b) == encode_utf8(a) + encode_utf8(b),
    decreases a.len(),
{
    if a.len() == 0 {
        assert(a + b =~= b);
    } else {
        assert((a + b).drop_first() =~= a.drop_first() + b);
        lemma_encoded_both(a.drop_first(), b);
        assert(encode_utf8(a + b) =~= encode_utf8(a) + encode_utf8(b));
    }
}

proof fn lemma_same_room(a: Seq<u8>, b: Seq<u8>, i: int)
    requires
        a.len() == b.len(),
        0 <= i,
        forall|k: int| 0 <= k < a.len() ==> #[trigger] byte_room(a, k) == byte_room(b, k),
    ensures
        room_from(a, i) == room_from(b, i),
    decreases a.len() - i,
{
    if i < a.len() {
        assert(byte_room(a, i) == byte_room(b, i));
        lemma_same_room(a, b, i + 1);
    }
}

/// The bytes of a text in three parts, of which the middle one is ASCII, and
/// the others meet it with a quote.
proof fn lemma_encoded_between(head: Seq<char>, s: Seq<char>, tail: Seq<char>)
    requires
        head.len() > 0 && head.last() == '"',
        tail.len() > 0 && tail[0] == '"',
        is_ascii_chars(s),
    ensures
        ({
            let x = encode_utf8(head);
            let y = encode_utf8(tail);
            let all = encode_utf8(head + s + tail);
            &&& x.len() > 0 && x.last() == 0x22
            &&& y.len() > 0 && y[0] == 0x22
            &&& all.len() == x.len() + s.len() + y.len()
            &&& forall|k: int| 0 <= k < x.len() ==> #[trigger] all[k] == x[k]
            &&& forall|k: int|
                x.len() <= k < x.len() + s.len() ==> #[trigger] all[k] == s[k - x.len()] as u8
            &&& forall|k: int|
                x.len() + s.len() <= k < all.len() ==> #[trigger] all[k] == y[k - x.len()
                    - s.len()]
        }),
{
    let quote = seq!['"'];
    lemma_encoded_both(head + s, tail);
    lemma_encoded_both(head, s);
    is_ascii_chars_encode_utf8(s);
    assert(is_ascii_chars(quote));
    is_ascii_chars_encode_utf8(quote);
    assert(quote[0] as u8 == encode_utf8(quote)[0]);
    lemma_encoded_both(head.drop_last(), quote);
    assert(head.drop_last() + quote =~= head);
    lemma_encoded_both(quote, tail.drop_first());
    assert(quote + tail.drop_first() =~= tail);
    let x = encode_utf8(head);
    let all = encode_utf8(head + s + tail);
    assert(all =~= x + encode_utf8(s) + encode_utf8(tail));
    assert forall|k: int| x.len() <= k < x.len() + s.len() implies #[trigger] all[k] == s[k
        - x.len()] as u8 by {
        assert(encode_utf8(s)[k - x.len()] == s[k - x.len()] as u8);
    }
}

/// Whether a text can be parsed does not depend on which ASCII characters, but
/// for NUL and `&`, stand between two quotes in it.
pub proof fn lemma_same_length_same_room(
    head: Seq<char>,
    a: Seq<char>,
    b: Seq<char>,
    tail: Seq<char>,
)
    requires
        head.len() > 0 && head.last() == '"',
        tail.len() > 0 && tail[0] == '"',
        a.len() == b.len(),
        forall|i: int| 0 <= i < a.len() ==> '\0' < #[trigger] a[i] <= '\u{7f}' && a[i] != '&',
        forall|i: int| 0 <= i < b.len() ==> '\0' < #[trigger] b[i] <= '\u{7f}' && b[i] != '&',
    ensures
        can_be_parsed(head + a + tail) == can_be_parsed(head + b + tail),
{
    assert(is_ascii_chars(a));
    assert(is_ascii_chars(b));
    lemma_encoded_between(head, a, tail);
    lemma_encoded_between(head, b, tail);
    let with_a = encode_utf8(head + a + tail);
    let with_b = encode_utf8(head + b + tail);
    let from = encode_utf8(head).len() as int;
    let to = from + a.len();
    assert(with_a[from - 1] == 0x22 && with_b[from - 1] == 0x22);
    assert forall|k: int| 0 <= k < with_a.len() implies #[trigger] byte_room(with_a, k)
        == byte_room(with_b, k) by {
        if from <= k < to {
            assert(with_a[k] == a[k - from] as u8);
            assert(with_b[k] == b[k - from] as u8);
        } else {
            assert(with_a[k] == with_b[k]);
            if k < from {
                assert(k <= from - 1 < k + 5 ==> !is_growing_reference(with_a, k)
                    && !is_growing_reference(with_b, k));
            }
            if k + 5 <= with_a.len() && (k + 5 <= from || to <= k) {
                assert(with_a[k + 1] == with_b[k + 1]);
                assert(with_a[k + 2] == with_b[k + 2]);
                assert(with_a[k + 3] == with_b[k + 3]);
                assert(with_a[k + 4] == with_b[k + 4]);
            }
        }
    }
    lemma_same_room(with_a, with_b, 0);
}

/// Whether a text is not too long to be parsed.
pub fn fits_parser(html: &str) -> (r: bool)
    ensures
        r == can_be_parsed(html@),
{
    let bytes = html.as_bytes();
    let mut total: u64 = 0;
    for i in 0..bytes.len()
        invariant
            bytes@ == encode_utf8(html@),
            total + room_from(bytes@, i as int) == room_from(bytes@, 0),
            total <= MAX_BUFFER,
    {
        let byte: u8 = bytes[i];
        let more: u64 = if byte == 0x00 {
            3
        } else if byte == 0x26 && bytes.len() - i >= 5 && bytes[i + 1] == 0x6e && (bytes[i + 2]
            == 0x4c || bytes[i + 2] == 0x47) && bytes[i + 3] == 0x74 && bytes[i + 4] == 0x3b {
            2
        } else {
            1
        };
        total = total + more;
        if total > MAX_BUFFER {
            return false;
        }
    }
    true
}

// ---------------------------------------------------------------------------
// The model
// ---------------------------------------------------------------------------

/// A node of a page. The nodes of a page are numbered, and a node names its
/// children by their numbers.
#[verifier::ext_equal]
pub struct DomNode {
    /// The attributes without a namespace, where the node is an element.
    pub attributes: Option<Map<Seq<char>, Seq<char>>>,
    pub children: Seq<int>,
    /// Everything else: the kind of the node, the name of an element and its
    /// attributes in a namespace, the text of a text node or a comment.
    pub rest: Seq<char>,
}

/// Children are nodes of the page.
pub open spec fn in_table(dom: Seq<DomNode>) -> bool {
    forall|i: int, k: int|
        #![trigger dom[i].children[k]]
        0 <= i < dom.len() && 0 <= k < dom[i].children.len() ==> 0 <= dom[i].children[k]
            < dom.len()
}

/// A node has one place at most.
pub open spec fn one_place(dom: Seq<DomNode>) -> bool {
    forall|i: int, k: int, j: int, l: int|
        #![trigger dom[i].children[k], dom[j].children[l]]
        0 <= i < dom.len() && 0 <= k < dom[i].children.len() && 0 <= j < dom.len() && 0 <= l
            < dom[j].children.len() && dom[i].children[k] == dom[j].children[l] ==> i == j && k == l
}

pub open spec fn shaped(dom: Seq<DomNode>) -> bool {
    &&& dom.len() > 0
    &&& in_table(dom)
    &&& one_place(dom)
}

/// Nodes from `base` on have no children before it.
pub open spec fn separated(dom: Seq<DomNode>, base: int) -> bool {
    forall|i: int, k: int|
        #![trigger dom[i].children[k]]
        base <= i < dom.len() && 0 <= k < dom[i].children.len() ==> base <= dom[i].children[k]
}

/// The set holds, with a node, the children of the node.
pub open spec fn closed_under_children(dom: Seq<DomNode>, set: Set<int>) -> bool {
    forall|i: int, k: int|
        #![trigger dom[i].children[k]]
        set.contains(i) && 0 <= i < dom.len() && 0 <= k < dom[i].children.len() ==> set.contains(
            dom[i].children[k],
        )
}

/// The nodes under other numbers.
pub open spec fn shifted(dom: Seq<DomNode>, by: int) -> Seq<DomNode> {
    dom.map_values(
        |n: DomNode| DomNode { children: n.children.map_values(|c: int| c + by), ..n },
    )
}

/// A node with other children.
pub open spec fn with_children(dom: Seq<DomNode>, node: int, children: Seq<int>) -> Seq<DomNode> {
    dom.update(node, DomNode { children, ..dom[node] })
}

/// A node with other attributes.
pub open spec fn with_attributes(
    dom: Seq<DomNode>,
    node: int,
    attributes: Map<Seq<char>, Seq<char>>,
) -> Seq<DomNode> {
    dom.update(node, DomNode { attributes: Some(attributes), ..dom[node] })
}

/// The numbers, without one of them.
pub open spec fn without(numbers: Seq<int>, n: int) -> Seq<int>
    decreases numbers.len(),
{
    if numbers.len() == 0 {
        numbers
    } else if numbers.last() == n {
        without(numbers.drop_last(), n)
    } else {
        without(numbers.drop_last(), n).push(numbers.last())
    }
}

/// The nodes, with one taken from its place.
pub open spec fn detached(dom: Seq<DomNode>, node: int) -> Seq<DomNode> {
    dom.map_values(|n: DomNode| DomNode { children: without(n.children, node), ..n })
}

/// The nodes, with one moved behind the children of another.
pub open spec fn appended(dom: Seq<DomNode>, parent: int, child: int) -> Seq<DomNode> {
    let dom = detached(dom, child);
    with_children(dom, parent, dom[parent].children.push(child))
}

// ---------------------------------------------------------------------------
// kuchiki
// ---------------------------------------------------------------------------

/// A handle on a node that kuchiki holds.
#[verifier::external_type_specification]
#[verifier::external_body]
pub struct ExNodeRef(kuchiki::NodeRef);

/// The nodes that a table of handles stands for, each under its place in the
/// table.
pub uninterp spec fn tree(nodes: Vec<kuchiki::NodeRef>) -> Seq<DomNode>;

/// The nodes of a parsed text in tree order, the document first.
pub uninterp spec fn parsed(html: Seq<char>) -> Seq<DomNode>;

/// Whether a text is a list of CSS selectors.
pub uninterp spec fn is_selector(text: Seq<char>) -> bool;

/// The nodes under a root that match a list of CSS selectors, in tree order.
pub uninterp spec fn matching(dom: Seq<DomNode>, root: int, selector: Seq<char>) -> Seq<int>;

/// A node in HTML syntax.
pub uninterp spec fn written(dom: Seq<DomNode>, node: int) -> Seq<char>;

/// `parse_html().one` of kuchiki, and `inclusive_descendants` of the document
/// that it gives. The nodes form a tree, apart from the nodes that were in the
/// table before. The parser panics where a buffer outgrows 2^31 bytes, which it
/// does for no text that needs no more room.
#[verifier::external_body]
fn parse_into(nodes: &mut Vec<kuchiki::NodeRef>, html: &str)
    requires
        can_be_parsed(html@),
        old(nodes)@.len() > 0 ==> shaped(tree(*old(nodes))) && tree(*old(nodes)).len() == old(
            nodes,
        )@.len(),
    ensures
        tree(*final(nodes)) == (if old(nodes)@.len() > 0 {
            tree(*old(nodes))
        } else {
            Seq::empty()
        }) + shifted(parsed(html@), old(nodes)@.len() as int),
        tree(*final(nodes)).len() == final(nodes)@.len(),
        final(nodes)@.len() > old(nodes)@.len(),
        shaped(tree(*final(nodes))),
        separated(tree(*final(nodes)), old(nodes)@.len() as int),
{
    nodes.extend(kuchiki::parse_html().one(html).inclusive_descendants());
}

/// `Selectors::compile` of kuchiki. Whether it succeeds depends on the text
/// alone.
#[verifier::external_body]
pub(crate) fn compiles(selector: &str) -> (r: bool)
    ensures
        r == is_selector(selector@),
{
    kuchiki::Selectors::compile(selector).is_ok()
}

/// `NodeRef::select` of kuchiki. It compiles the selectors, and fails exactly
/// where that does. It walks the root and its descendants, and gives elements,
/// each once. Nodes are handed out by their place in the table.
#[verifier::external_body]
fn select_under(nodes: &Vec<kuchiki::NodeRef>, root: usize, selector: &str) -> (r: Option<
    Vec<usize>,
>)
    requires
        root < nodes@.len(),
        tree(*nodes).len() == nodes@.len(),
    ensures
        r is Some <==> is_selector(selector@),
        r is Some ==> r->0@.map_values(|i: usize| i as int) == matching(
            tree(*nodes),
            root as int,
            selector@,
        ),
        r is Some ==> r->0@.no_duplicates(),
        r is Some ==> forall|k: int|
            0 <= k < r->0@.len() ==> {
                &&& #[trigger] r->0@[k] < nodes@.len()
                &&& tree(*nodes)[r->0@[k] as int].attributes is Some
            },
        r is Some ==> forall|set: Set<int>, k: int|
            #![trigger closed_under_children(tree(*nodes), set), r->0@[k]]
            closed_under_children(tree(*nodes), set) && set.contains(root as int) && 0 <= k
                < r->0@.len() ==> set.contains(r->0@[k] as int),
{
    let found = nodes[root].select(selector).ok()?;
    Some(found.map(|m| nodes.iter().position(|n| n == m.as_node()).unwrap()).collect())
}

/// `Node::as_element` of kuchiki.
#[verifier::external_body]
fn node_is_element(nodes: &Vec<kuchiki::NodeRef>, node: usize) -> (r: bool)
    requires
        node < nodes@.len(),
        tree(*nodes).len() == nodes@.len(),
    ensures
        r == (tree(*nodes)[node as int].attributes is Some),
{
    nodes[node].as_element().is_some()
}

/// `Attributes::get` of kuchiki: the value of an attribute without a
/// namespace.
#[verifier::external_body]
fn get_attribute(nodes: &Vec<kuchiki::NodeRef>, node: usize, name: &str) -> (r: Option<String>)
    requires
        node < nodes@.len(),
        tree(*nodes).len() == nodes@.len(),
        tree(*nodes)[node as int].attributes is Some,
    ensures
        r is Some <==> tree(*nodes)[node as int].attributes->0.contains_key(name@),
        r is Some ==> r->0@ == tree(*nodes)[node as int].attributes->0[name@],
{
    let element = nodes[node].as_element().unwrap();
    let attributes = element.attributes.borrow();
    attributes.get(name).map(str::to_string)
}

/// `Attributes::insert` of kuchiki: sets an attribute without a namespace, and
/// leaves the rest of the tree as it is.
#[verifier::external_body]
fn insert_attribute(
    nodes: &mut Vec<kuchiki::NodeRef>,
    node: usize,
    name: &str,
    value: String,
)
    requires
        node < old(nodes)@.len(),
        tree(*old(nodes)).len() == old(nodes)@.len(),
        tree(*old(nodes))[node as int].attributes is Some,
    ensures
        tree(*final(nodes)) == with_attributes(
            tree(*old(nodes)),
            node as int,
            tree(*old(nodes))[node as int].attributes->0.insert(name@, value@),
        ),
        final(nodes)@.len() == old(nodes)@.len(),
{
    let element = nodes[node].as_element().unwrap();
    element.attributes.borrow_mut().insert(name, value);
}

/// `Attributes::remove` of kuchiki: removes an attribute without a namespace,
/// if it is there, and leaves the rest of the tree as it is.
#[verifier::external_body]
fn delete_attribute(nodes: &mut Vec<kuchiki::NodeRef>, node: usize, name: &str)
    requires
        node < old(nodes)@.len(),
        tree(*old(nodes)).len() == old(nodes)@.len(),
        tree(*old(nodes))[node as int].attributes is Some,
    ensures
        tree(*final(nodes)) == with_attributes(
            tree(*old(nodes)),
            node as int,
            tree(*old(nodes))[node as int].attributes->0.remove(name@),
        ),
        final(nodes)@.len() == old(nodes)@.len(),
{
    let element = nodes[node].as_element().unwrap();
    element.attributes.borrow_mut().remove(name);
}

/// `NodeRef::children` of kuchiki, by their places in the table.
#[verifier::external_body]
fn list_children(nodes: &Vec<kuchiki::NodeRef>, node: usize) -> (r: Vec<usize>)
    requires
        node < nodes@.len(),
        tree(*nodes).len() == nodes@.len(),
    ensures
        r@.map_values(|i: usize| i as int) == tree(*nodes)[node as int].children,
        forall|k: int| 0 <= k < r@.len() ==> #[trigger] r@[k] < nodes@.len(),
{
    nodes[node].children().map(|c| nodes.iter().position(|n| *n == c).unwrap()).collect()
}

/// `ToString` of kuchiki's `NodeRef`: the node and its descendants in HTML
/// syntax.
#[verifier::external_body]
fn write_node(nodes: &Vec<kuchiki::NodeRef>, node: usize) -> (s: String)
    requires
        node < nodes@.len(),
        tree(*nodes).len() == nodes@.len(),
    ensures
        s@ == written(tree(*nodes), node as int),
{
    nodes[node].to_string()
}

/// `Node::detach` of kuchiki: takes a node, with what is below it, from its
/// parent, and leaves the rest of the tree as it is.
#[verifier::external_body]
fn detach_node(nodes: &mut Vec<kuchiki::NodeRef>, node: usize)
    requires
        node < old(nodes)@.len(),
        tree(*old(nodes)).len() == old(nodes)@.len(),
    ensures
        tree(*final(nodes)) == detached(tree(*old(nodes)), node as int),
        final(nodes)@.len() == old(nodes)@.len(),
{
    nodes[node].detach();
}

/// `NodeRef::append` of kuchiki: moves a node, with what is below it, behind
/// the children of another, and leaves the rest of the tree as it is. The other
/// may not lie below it.
#[verifier::external_body]
fn append_node(nodes: &mut Vec<kuchiki::NodeRef>, parent: usize, child: usize)
    requires
        parent < old(nodes)@.len(),
        child < old(nodes)@.len(),
        tree(*old(nodes)).len() == old(nodes)@.len(),
        exists|set: Set<int>|
            {
                &&& #[trigger] closed_under_children(tree(*old(nodes)), set)
                &&& set.contains(child as int)
                &&& !set.contains(parent as int)
            },
    ensures
        tree(*final(nodes)) == appended(tree(*old(nodes)), parent as int, child as int),
        final(nodes)@.len() == old(nodes)@.len(),
{
    let moved = nodes[child].clone();
    nodes[parent].append(moved);
}

// ---------------------------------------------------------------------------
// Pages
// ---------------------------------------------------------------------------

/// A page. Its nodes have numbers; the document is the first.
pub struct Page {
    nodes: Vec<kuchiki::NodeRef>,
}

impl View for Page {
    type V = Seq<DomNode>;

    closed spec fn view(&self) -> Seq<DomNode> {
        tree(self.nodes)
    }
}

pub open spec fn as_ints(numbers: Seq<usize>) -> Seq<int> {
    numbers.map_values(|i: usize| i as int)
}

/// The attributes of an element.
pub open spec fn attributes_of(dom: Seq<DomNode>, node: int) -> Map<Seq<char>, Seq<char>> {
    dom[node].attributes->0
}

/// A node is an element.
pub open spec fn is_element(dom: Seq<DomNode>, node: int) -> bool {
    dom[node].attributes is Some
}

impl Page {
    spec fn table_fits(&self) -> bool {
        self.nodes@.len() == tree(self.nodes).len()
    }

    pub closed spec fn wf(&self) -> bool {
        &&& shaped(self@)
        &&& self.table_fits()
    }

    /// Parses a page.
    pub fn parse(html: &str) -> (r: Option<Page>)
        ensures
            r is Some <==> can_be_parsed(html@),
            r is Some ==> r->0.wf() && r->0@ == parsed(html@) && r->0@.len() > 0,
    {
        if !fits_parser(html) {
            return None;
        }
        let mut nodes: Vec<kuchiki::NodeRef> = Vec::new();
        parse_into(&mut nodes, html);
        proof {
            lemma_not_shifted(parsed(html@));
        }
        Some(Page { nodes })
    }

    /// How many nodes there are.
    pub fn len(&self) -> (n: usize)
        requires
            self.wf(),
        ensures
            n == self@.len(),
            n > 0,
    {
        self.nodes.len()
    }

    /// The nodes under a root that match a list of CSS selectors, in tree
    /// order, where the text is such a list.
    pub fn select(&self, root: usize, selector: &str) -> (r: Option<Vec<usize>>)
        requires
            self.wf(),
            root < self@.len(),
        ensures
            r is Some <==> is_selector(selector@),
            r is Some ==> as_ints(r->0@) == matching(self@, root as int, selector@),
            r is Some ==> r->0@.no_duplicates(),
            r is Some ==> forall|k: int|
                0 <= k < r->0@.len() ==> (#[trigger] r->0@[k] as int) < self@.len() && is_element(
                    self@,
                    r->0@[k] as int,
                ),
    {
        select_under(&self.nodes, root, selector)
    }

    pub fn is_element(&self, node: usize) -> (r: bool)
        requires
            self.wf(),
            node < self@.len(),
        ensures
            r == is_element(self@, node as int),
    {
        node_is_element(&self.nodes, node)
    }

    pub fn attribute(&self, node: usize, name: &str) -> (r: Option<String>)
        requires
            self.wf(),
            node < self@.len(),
            is_element(self@, node as int),
        ensures
            r is Some <==> attributes_of(self@, node as int).contains_key(name@),
            r is Some ==> r->0@ == attributes_of(self@, node as int)[name@],
    {
        get_attribute(&self.nodes, node, name)
    }

    pub fn set_attribute(&mut self, node: usize, name: &str, value: String)
        requires
            old(self).wf(),
            node < old(self)@.len(),
            is_element(old(self)@, node as int),
        ensures
            final(self).wf(),
            final(self)@ == with_attributes(
                old(self)@,
                node as int,
                attributes_of(old(self)@, node as int).insert(name@, value@),
            ),
    {
        insert_attribute(&mut self.nodes, node, name, value);
        proof {
            lemma_attributes_keep_shape(
                old(self)@,
                node as int,
                attributes_of(old(self)@, node as int).insert(name@, value@),
            );
        }
    }

    pub fn remove_attribute(&mut self, node: usize, name: &str)
        requires
            old(self).wf(),
            node < old(self)@.len(),
            is_element(old(self)@, node as int),
        ensures
            final(self).wf(),
            final(self)@ == with_attributes(
                old(self)@,
                node as int,
                attributes_of(old(self)@, node as int).remove(name@),
            ),
    {
        delete_attribute(&mut self.nodes, node, name);
        proof {
            lemma_attributes_keep_shape(
                old(self)@,
                node as int,
                attributes_of(old(self)@, node as int).remove(name@),
            );
        }
    }

    /// The children of a node.
    pub fn children(&self, node: usize) -> (r: Vec<usize>)
        requires
            self.wf(),
            node < self@.len(),
        ensures
            as_ints(r@) == self@[node as int].children,
            forall|k: int| 0 <= k < r@.len() ==> (#[trigger] r@[k] as int) < self@.len(),
    {
        list_children(&self.nodes, node)
    }

    /// A node and what is below it, in HTML syntax.
    pub fn write(&self, node: usize) -> (s: String)
        requires
            self.wf(),
            node < self@.len(),
        ensures
            s@ == written(self@, node as int),
    {
        write_node(&self.nodes, node)
    }
}

proof fn lemma_not_shifted(dom: Seq<DomNode>)
    ensures
        shifted(dom, 0) == dom,
        Seq::<DomNode>::empty() + dom == dom,
{
    assert forall|i: int| 0 <= i < dom.len() implies shifted(dom, 0)[i] == #[trigger] dom[i] by {
        assert(dom[i].children.map_values(|c: int| c + 0) =~= dom[i].children);
    }
    assert(shifted(dom, 0) =~= dom);
    assert(Seq::<DomNode>::empty() + dom =~= dom);
}

proof fn lemma_attributes_keep_shape(
    dom: Seq<DomNode>,
    node: int,
    attributes: Map<Seq<char>, Seq<char>>,
)
    requires
        shaped(dom),
        0 <= node < dom.len(),
    ensures
        shaped(with_attributes(dom, node, attributes)),
{
    let after = with_attributes(dom, node, attributes);
    assert forall|i: int| 0 <= i < dom.len() implies #[trigger] after[i].children
        == dom[i].children by {}
    assert forall|i: int, k: int|
        #![trigger after[i].children[k]]
        0 <= i < after.len() && 0 <= k < after[i].children.len() implies 0
        <= after[i].children[k] < after.len() by {
        assert(after[i].children[k] == dom[i].children[k]);
    }
    assert forall|i: int, k: int, j: int, l: int|
        #![trigger after[i].children[k], after[j].children[l]]
        0 <= i < after.len() && 0 <= k < after[i].children.len() && 0 <= j < after.len() && 0 <= l
            < after[j].children.len() && after[i].children[k] == after[j].children[l] implies i
        == j && k == l by {
        assert(after[i].children[k] == dom[i].children[k]);
        assert(after[j].children[l] == dom[j].children[l]);
    }
}

proof fn lemma_without_absent(numbers: Seq<int>, n: int)
    requires
        !numbers.contains(n),
    ensures
        without(numbers, n) == numbers,
    decreases numbers.len(),
{
    if numbers.len() > 0 {
        let shorter = numbers.drop_last();
        assert(!shorter.contains(n)) by {
            if shorter.contains(n) {
                let k = choose|k: int| 0 <= k < shorter.len() && shorter[k] == n;
                assert(numbers[k] == n);
            }
        }
        assert(numbers[numbers.len() - 1] != n);
        lemma_without_absent(shorter, n);
        assert(shorter.push(numbers.last()) =~= numbers);
    }
}

proof fn lemma_without_first(numbers: Seq<int>)
    requires
        numbers.len() > 0,
        numbers.no_duplicates(),
    ensures
        without(numbers, numbers[0]) == numbers.drop_first(),
    decreases numbers.len(),
{
    let shorter = numbers.drop_last();
    if numbers.len() == 1 {
        assert(numbers.drop_first() =~= Seq::<int>::empty());
        assert(without(shorter, numbers[0]) == shorter);
        assert(shorter =~= Seq::<int>::empty());
    } else {
        assert(shorter[0] == numbers[0]);
        lemma_without_first(shorter);
        assert(numbers[numbers.len() - 1] != numbers[0]);
        assert(shorter.drop_first().push(numbers.last()) =~= numbers.drop_first());
    }
}

/// Taking the first child from its place.
proof fn lemma_detach_first(dom: Seq<DomNode>, parent: int)
    requires
        shaped(dom),
        0 <= parent < dom.len(),
        dom[parent].children.len() > 0,
    ensures
        detached(dom, dom[parent].children[0]) == with_children(
            dom,
            parent,
            dom[parent].children.drop_first(),
        ),
        shaped(with_children(dom, parent, dom[parent].children.drop_first())),
        forall|i: int|
            0 <= i < dom.len() ==> !(#[trigger] with_children(
                dom,
                parent,
                dom[parent].children.drop_first(),
            )[i]).children.contains(dom[parent].children[0]),
{
    let child = dom[parent].children[0];
    let after = with_children(dom, parent, dom[parent].children.drop_first());
    assert forall|i: int| 0 <= i < dom.len() implies #[trigger] detached(dom, child)[i]
        == after[i] by {
        if i == parent {
            assert(dom[i].children.no_duplicates()) by {
                assert forall|k: int, l: int|
                    0 <= k < dom[i].children.len() && 0 <= l < dom[i].children.len() && k
                        != l implies dom[i].children[k] != dom[i].children[l] by {}
            }
            lemma_without_first(dom[i].children);
        } else {
            assert(!dom[i].children.contains(child)) by {
                if dom[i].children.contains(child) {
                    let k = choose|k: int|
                        0 <= k < dom[i].children.len() && dom[i].children[k] == child;
                    assert(dom[i].children[k] == dom[parent].children[0]);
                }
            }
            lemma_without_absent(dom[i].children, child);
        }
    }
    assert(detached(dom, child) =~= after);
    assert forall|i: int, k: int|
        0 <= i < after.len() && 0 <= k < after[i].children.len() implies #[trigger]
    after[i].children[k] == dom[i].children[if i == parent {
        k + 1
    } else {
        k
    }] by {}
    assert(in_table(after));
    assert(one_place(after));
    assert forall|i: int| 0 <= i < dom.len() implies !(
    #[trigger] after[i]).children.contains(child) by {
        if after[i].children.contains(child) {
            let k = choose|k: int|
                0 <= k < after[i].children.len() && after[i].children[k] == child;
            assert(after[i].children[k] == dom[parent].children[0]);
        }
    }
}

/// Adding a child that has no place.
proof fn lemma_add_child(dom: Seq<DomNode>, parent: int, child: int)
    requires
        shaped(dom),
        0 <= parent < dom.len(),
        0 <= child < dom.len(),
        forall|i: int| 0 <= i < dom.len() ==> !(#[trigger] dom[i]).children.contains(child),
    ensures
        shaped(with_children(dom, parent, dom[parent].children.push(child))),
{
    let after = with_children(dom, parent, dom[parent].children.push(child));
    assert forall|i: int, k: int|
        0 <= i < after.len() && 0 <= k < after[i].children.len() implies #[trigger]
    after[i].children[k] == if k < dom[i].children.len() {
        dom[i].children[k]
    } else {
        child
    } by {}
    assert forall|i: int, k: int| 0 <= i < dom.len() && 0 <= k < dom[i].children.len() implies (
    #[trigger] dom[i].children[k]) != child by {
        assert(dom[i].children.contains(dom[i].children[k]));
    }
    assert(in_table(after));
    assert forall|i: int, k: int, j: int, l: int|
        #![trigger after[i].children[k], after[j].children[l]]
        0 <= i < after.len() && 0 <= k < after[i].children.len() && 0 <= j < after.len() && 0 <= l
            < after[j].children.len() && after[i].children[k] == after[j].children[l] implies i
        == j && k == l by {
        if k < dom[i].children.len() && l < dom[j].children.len() {
            assert(dom[i].children[k] == dom[j].children[l]);
        }
    }
}

impl Page {
    /// Takes all children of a node from it.
    pub fn clear(&mut self, node: usize)
        requires
            old(self).wf(),
            node < old(self)@.len(),
        ensures
            final(self).wf(),
            final(self)@ == with_children(old(self)@, node as int, Seq::empty()),
    {
        let ghost dom = self@;
        let ghost all = dom[node as int].children;
        let children = self.children(node);
        proof {
            assert(all.skip(0) =~= all);
            assert(with_children(dom, node as int, all) =~= dom);
        }
        for k in 0..children.len()
            invariant
                self.wf(),
                node < dom.len(),
                all == dom[node as int].children,
                as_ints(children@) == all,
                self@ == with_children(dom, node as int, all.skip(k as int)),
                forall|k: int|
                    0 <= k < children@.len() ==> (#[trigger] children@[k] as int) < dom.len(),
        {
            proof {
                assert(all[k as int] == as_ints(children@)[k as int]);
                assert(all.skip(k as int)[0] == children[k as int]);
                lemma_detach_first(self@, node as int);
                assert(all.skip(k as int).drop_first() =~= all.skip(k + 1));
                assert(with_children(self@, node as int, all.skip(k + 1)) =~= with_children(
                    dom,
                    node as int,
                    all.skip(k + 1),
                ));
            }
            detach_node(&mut self.nodes, children[k]);
        }
        proof {
            assert(all.skip(all.len() as int) =~= Seq::<int>::empty());
        }
    }
}

/// The first node under the root of a parsed text that is its body, or else
/// the root itself.
pub open spec fn body_of(dom: Seq<DomNode>, root: int) -> int {
    if is_selector("body"@) && matching(dom, root, "body"@).len() > 0 {
        matching(dom, root, "body"@)[0]
    } else {
        root
    }
}

/// The nodes, with what the body of a text holds moved behind the children of
/// a node.
pub open spec fn filled(dom: Seq<DomNode>, node: int, html: Seq<char>) -> Seq<DomNode> {
    let all = dom + shifted(parsed(html), dom.len() as int);
    let source = body_of(all, dom.len() as int);
    with_children(
        with_children(all, source, Seq::empty()),
        node,
        all[node].children + all[source].children,
    )
}

impl Page {
    /// Parses a text, and moves what its body holds behind the children of a
    /// node.
    pub fn fill(&mut self, node: usize, html: &str)
        requires
            old(self).wf(),
            node < old(self)@.len(),
            can_be_parsed(html@),
        ensures
            final(self).wf(),
            final(self)@ == filled(old(self)@, node as int, html@),
            final(self)@.len() > old(self)@.len(),
            forall|k: int|
                old(self)@[node as int].children.len() <= k
                    < final(self)@[node as int].children.len() ==> old(self)@.len() <= (
                #[trigger] final(self)@[node as int].children[k]) < final(self)@.len(),
            forall|i: int|
                0 <= i < old(self)@.len() && i != node ==> #[trigger] final(self)@[i] == old(
                    self,
                )@[i],
            final(self)@[node as int].attributes == old(self)@[node as int].attributes,
    {
        let base: usize = self.nodes.len();
        let ghost before = self@;
        parse_into(&mut self.nodes, html);
        let ghost all = self@;
        let ghost set = Set::new(|i: int| base <= i);
        proof {
            assert(all == before + shifted(parsed(html@), base as int));
            assert(closed_under_children(all, set)) by {
                assert forall|i: int, k: int|
                    #![trigger all[i].children[k]]
                    set.contains(i) && 0 <= i < all.len() && 0 <= k
                        < all[i].children.len() implies set.contains(all[i].children[k]) by {}
            }
        }
        let source: usize = match select_under(&self.nodes, base, "body") {
            Some(found) => if found.len() > 0 {
                proof {
                    assert(found@.map_values(|i: usize| i as int)[0] == found@[0] as int);
                    assert(set.contains(found@[0] as int));
                }
                found[0]
            } else {
                base
            },
            None => base,
        };
        let ghost kept = all[node as int].children;
        let ghost moved = all[source as int].children;
        let children = self.children(source);
        proof {
            assert(moved.skip(0) =~= moved);
            assert(kept + moved.take(0) =~= kept);
            assert(with_children(with_children(all, source as int, moved), node as int, kept)
                =~= all);
        }
        for k in 0..children.len()
            invariant
                self.wf(),
                node < base <= source < all.len(),
                kept == all[node as int].children,
                moved == all[source as int].children,
                as_ints(children@) == moved,
                set == Set::new(|i: int| base <= i),
                closed_under_children(all, set),
                self@ == with_children(
                    with_children(all, source as int, moved.skip(k as int)),
                    node as int,
                    kept + moved.take(k as int),
                ),
                forall|k: int|
                    0 <= k < children@.len() ==> (#[trigger] children@[k] as int) < all.len(),
        {
            let ghost now = self@;
            let ghost child = children@[k as int] as int;
            proof {
                assert(moved[k as int] == as_ints(children@)[k as int]);
                assert(now[source as int].children == moved.skip(k as int));
                assert(moved.skip(k as int)[0] == child);
                assert(all[source as int].children[k as int] == child);
                assert(set.contains(child));
                assert(closed_under_children(now, set)) by {
                    assert forall|i: int, j: int|
                        #![trigger now[i].children[j]]
                        set.contains(i) && 0 <= i < now.len() && 0 <= j
                            < now[i].children.len() implies set.contains(now[i].children[j]) by {
                        if i == source {
                            assert(now[i].children[j] == all[i].children[j + k]);
                        } else {
                            assert(now[i].children[j] == all[i].children[j]);
                        }
                    }
                }
                lemma_detach_first(now, source as int);
                let loose = with_children(
                    now,
                    source as int,
                    now[source as int].children.drop_first(),
                );
                assert(loose == detached(now, child));
                lemma_add_child(loose, node as int, child);
                assert(moved.skip(k as int).drop_first() =~= moved.skip(k + 1));
                assert((kept + moved.take(k as int)).push(child) =~= kept + moved.take(k + 1));
                assert(appended(now, node as int, child) =~= with_children(
                    with_children(all, source as int, moved.skip(k + 1)),
                    node as int,
                    kept + moved.take(k + 1),
                ));
            }
            append_node(&mut self.nodes, node, children[k]);
        }
        proof {
            assert(moved.skip(moved.len() as int) =~= Seq::<int>::empty());
            assert(moved.take(moved.len() as int) =~= moved);
            assert forall|k: int|
                kept.len() <= k < self@[node as int].children.len() implies base <= (
            #[trigger] self@[node as int].children[k]) by {
                assert(self@[node as int].children[k] == all[source as int].children[k
                    - kept.len()]);
            }
        }
    }
}

// ---------------------------------------------------------------------------
// Laws
// ---------------------------------------------------------------------------

/// Every byte of a text takes room: a NUL three bytes, `&nLt;` and `&nGt;` one
/// byte more than they have, and anything else as many bytes as it has.
pub proof fn law_room(bytes: Seq<u8>, i: int)
    requires
        0 <= i < bytes.len(),
    ensures
        room_from(bytes, bytes.len() as int) == 0,
        bytes[i] == 0 ==> room_from(bytes, i) == 3 + room_from(bytes, i + 1),
        i + 5 <= bytes.len() && (bytes.subrange(i, i + 5) == seq![
            0x26u8,
            0x6e,
            0x4c,
            0x74,
            0x3b,
        ] || bytes.subrange(i, i + 5) == seq![0x26u8, 0x6e, 0x47, 0x74, 0x3b]) ==> room_from(
            bytes,
            i,
        ) == 2 + room_from(bytes, i + 1),
        bytes[i] != 0 && bytes[i] != 0x26 ==> room_from(bytes, i) == 1 + room_from(bytes, i + 1),
        bytes[i] == 0x26 && !(i + 5 <= bytes.len() && (bytes.subrange(i, i + 5) == seq![
            0x26u8,
            0x6e,
            0x4c,
            0x74,
            0x3b,
        ] || bytes.subrange(i, i + 5) == seq![0x26u8, 0x6e, 0x47, 0x74, 0x3b])) ==> room_from(
            bytes,
            i,
        ) == 1 + room_from(bytes, i + 1),
{
    if i + 5 <= bytes.len() {
        let here = bytes.subrange(i, i + 5);
        let less = seq![0x26u8, 0x6e, 0x4c, 0x74, 0x3b];
        let more = seq![0x26u8, 0x6e, 0x47, 0x74, 0x3b];
        assert(here[0] == bytes[i] && here[1] == bytes[i + 1] && here[2] == bytes[i + 2] && here[3]
            == bytes[i + 3] && here[4] == bytes[i + 4]);
        if is_growing_reference(bytes, i) {
            assert(here =~= less || here =~= more);
        }
        if here == less || here == more {
            assert(is_growing_reference(bytes, i));
        }
    }
}

proof fn lemma_room_bounds(bytes: Seq<u8>, i: int)
    requires
        0 <= i <= bytes.len(),
    ensures
        bytes.len() - i <= room_from(bytes, i) <= 3 * (bytes.len() - i),
    decreases bytes.len() - i,
{
    if i < bytes.len() {
        lemma_room_bounds(bytes, i + 1);
    }
}

/// A text of up to a third of 2 GiB can be parsed, and one of more than 2 GiB
/// cannot; and what is told is so.
pub proof fn law_which_texts_can_be_parsed(html: &str, r: bool)
    requires
        call_ensures(fits_parser, (html,), r),
    ensures
        r == can_be_parsed(html@),
        r <==> room_from(encode_utf8(html@), 0) <= 0x8000_0000,
        3 * encode_utf8(html@).len() <= 0x8000_0000 ==> r,
        encode_utf8(html@).len() > 0x8000_0000 ==> !r,
{
    lemma_room_bounds(encode_utf8(html@), 0);
}

/// The body of a text is the first `body` under its root, and the root itself
/// where there is none.
pub proof fn law_body(dom: Seq<DomNode>, root: int)
    ensures
        is_selector("body"@) && matching(dom, root, "body"@).len() > 0 ==> body_of(dom, root)
            == matching(dom, root, "body"@)[0],
        matching(dom, root, "body"@).len() == 0 ==> body_of(dom, root) == root,
{
}

/// What the body of a text holds is moved behind the children of the node, in
/// its order; no other node of the page changes.
pub proof fn law_filling(dom: Seq<DomNode>, node: int, html: Seq<char>)
    requires
        0 <= node < dom.len(),
    ensures
        ({
            let new = parsed(html);
            let n = dom.len() as int;
            let all = dom + Seq::new(
                new.len(),
                |i: int|
                    DomNode {
                        children: Seq::new(
                            new[i].children.len(),
                            |k: int| new[i].children[k] + n,
                        ),
                        ..new[i]
                    },
            );
            let source = body_of(all, n);
            let after = filled(dom, node, html);
            n <= source < all.len() ==> {
                &&& after.len() == all.len()
                &&& after[node].children == dom[node].children + all[source].children
                &&& after[node].attributes == dom[node].attributes
                &&& after[node].rest == dom[node].rest
                &&& after[source].children.len() == 0
                &&& forall|i: int|
                    0 <= i < all.len() && i != node && i != source ==> #[trigger] after[i] == all[i]
            }
        }),
{
    let new = parsed(html);
    let n = dom.len() as int;
    let all = dom + Seq::new(
        new.len(),
        |i: int|
            DomNode {
                children: Seq::new(new[i].children.len(), |k: int| new[i].children[k] + n),
                ..new[i]
            },
    );
    let moved = dom + shifted(new, n);
    assert forall|i: int| 0 <= i < all.len() implies #[trigger] all[i] == moved[i] by {
        if i >= n {
            assert(all[i].children =~= moved[i].children);
        }
    }
    assert(all =~= moved);
}

} // verus!
