//! What becomes of one node that a rule matches: its content is encrypted, and
//! the payload is put on the page.

use vstd::prelude::*;
use vstd::string::*;
use vstd::utf8::*;

use crate::config;
use crate::config::{Config, Rule};
use crate::crypto;
use crate::crypto::{encrypt, Encrypted, FORMAT_VERSION};
use crate::dom;
use crate::dom::{fits_parser, DomNode, Page};
use crate::env;
use crate::env::env_name_for_alias;
use crate::markup;
use crate::markup::build_unlock_markup;
use crate::secrets::Secret;
use crate::text;
use crate::text::decimal;

verus! {

// ---------------------------------------------------------------------------
// Faults
// ---------------------------------------------------------------------------

/// Why a node could not be encrypted.
pub enum NodeFault {
    NotAnElement,
    /// The node lacks the attribute that holds the password id.
    NoPasswordId(Seq<char>),
    /// No password has this id.
    UnknownPassword(Seq<char>),
    BadContentSelector(Seq<char>),
    NoContent(Seq<char>),
    ManyContents(Seq<char>),
    /// The content is longer than the cipher takes.
    TooLong,
    /// The unlock form is longer than the parser takes.
    FormTooLong,
}

/// Why a node could not be encrypted.
#[derive(Debug)]
pub enum NodeError {
    NotAnElement,
    NoPasswordId(String),
    UnknownPassword(String),
    BadContentSelector(String),
    NoContent(String),
    ManyContents(String),
    TooLong,
    FormTooLong,
}

impl View for NodeError {
    type V = NodeFault;

    open spec fn view(&self) -> NodeFault {
        match self {
            NodeError::NotAnElement => NodeFault::NotAnElement,
            NodeError::NoPasswordId(s) => NodeFault::NoPasswordId(s@),
            NodeError::UnknownPassword(s) => NodeFault::UnknownPassword(s@),
            NodeError::BadContentSelector(s) => NodeFault::BadContentSelector(s@),
            NodeError::NoContent(s) => NodeFault::NoContent(s@),
            NodeError::ManyContents(s) => NodeFault::ManyContents(s@),
            NodeError::TooLong => NodeFault::TooLong,
            NodeError::FormTooLong => NodeFault::FormTooLong,
        }
    }
}

/// What is said of a fault. Where a password is missing, it names both places
/// to give one.
pub open spec fn fault_text(fault: NodeFault) -> Seq<char> {
    match fault {
        NodeFault::NotAnElement => "selected node is not an element"@,
        NodeFault::NoPasswordId(name) => "missing password attribute '"@ + name + "'"@,
        NodeFault::UnknownPassword(id) => "no password configured for password id '"@ + id
            + "'; add it to [passwords] in the config or set "@ + env::env_name(id),
        NodeFault::BadContentSelector(selector) => "invalid content selector: "@ + selector,
        NodeFault::NoContent(selector) => "content selector matched nothing: "@ + selector,
        NodeFault::ManyContents(selector) =>
            "content selector matched more than one node (expected exactly one): "@ + selector,
        NodeFault::TooLong => "AES-GCM encryption failed"@,
        NodeFault::FormTooLong => "the unlock form is too long to be parsed"@,
    }
}

fn joined(a: &str, b: &str) -> (s: String)
    ensures
        s@ == a@ + b@,
{
    let mut s = a.to_string();
    s.append(b);
    s
}

impl NodeError {
    pub fn message(&self) -> (s: String)
        ensures
            s@ == fault_text(self@),
    {
        match self {
            NodeError::NotAnElement => "selected node is not an element".to_string(),
            NodeError::NoPasswordId(name) => {
                let mut s = joined("missing password attribute '", name.as_str());
                s.append("'");
                s
            },
            NodeError::UnknownPassword(id) => {
                let mut s = joined("no password configured for password id '", id.as_str());
                s.append("'; add it to [passwords] in the config or set ");
                s.append(env_name_for_alias(id.as_str()).as_str());
                s
            },
            NodeError::BadContentSelector(selector) => {
                joined("invalid content selector: ", selector.as_str())
            },
            NodeError::NoContent(selector) => {
                joined("content selector matched nothing: ", selector.as_str())
            },
            NodeError::ManyContents(selector) => joined(
                "content selector matched more than one node (expected exactly one): ",
                selector.as_str(),
            ),
            NodeError::TooLong => "AES-GCM encryption failed".to_string(),
            NodeError::FormTooLong => "the unlock form is too long to be parsed".to_string(),
        }
    }
}

// ---------------------------------------------------------------------------
// What is to be done
// ---------------------------------------------------------------------------

/// The attribute by which a node is known to carry a payload.
pub open spec fn ciphertext_name() -> Seq<char> {
    "data-site-encrypt-ciphertext"@
}

/// What is to be done with a node.
pub enum Plan {
    /// It carries a payload already.
    Skip,
    Fault(NodeFault),
    /// The children of `content` are to be encrypted under the password.
    Encrypt { content: int, password: Seq<char> },
}

/// The node whose children are to be encrypted, as the rule has it.
pub open spec fn content_plan(
    dom: Seq<DomNode>,
    node: int,
    rule: Rule,
    password: Seq<char>,
) -> Plan {
    match rule.content_selector {
        None => Plan::Encrypt { content: node, password },
        Some(selector) => {
            let found = dom::matching(dom, 0, selector@);
            if !dom::is_selector(selector@) {
                Plan::Fault(NodeFault::BadContentSelector(selector@))
            } else if found.len() == 0 {
                Plan::Fault(NodeFault::NoContent(selector@))
            } else if found.len() > 1 {
                Plan::Fault(NodeFault::ManyContents(selector@))
            } else {
                Plan::Encrypt { content: found[0], password }
            }
        },
    }
}

/// What is to be done with a node that a rule matches.
pub open spec fn plan(
    dom: Seq<DomNode>,
    node: int,
    rule: Rule,
    passwords: Map<Seq<char>, Seq<char>>,
) -> Plan {
    let attributes = dom::attributes_of(dom, node);
    let name = rule.password_id_attribute@;
    if !dom::is_element(dom, node) {
        Plan::Fault(NodeFault::NotAnElement)
    } else if attributes.contains_key(ciphertext_name()) {
        Plan::Skip
    } else if !attributes.contains_key(name) {
        Plan::Fault(NodeFault::NoPasswordId(name))
    } else if !passwords.contains_key(attributes[name]) {
        Plan::Fault(NodeFault::UnknownPassword(attributes[name]))
    } else {
        content_plan(dom, node, rule, passwords[attributes[name]])
    }
}

/// Nodes in HTML syntax, one behind the other.
pub open spec fn written_all(dom: Seq<DomNode>, nodes: Seq<int>) -> Seq<char>
    decreases nodes.len(),
{
    if nodes.len() == 0 {
        Seq::empty()
    } else {
        written_all(dom, nodes.drop_last()) + dom::written(dom, nodes.last())
    }
}

/// What a node holds, in HTML syntax.
pub open spec fn inner(dom: Seq<DomNode>, node: int) -> Seq<char> {
    written_all(dom, dom[node].children)
}

fn find_content(page: &Page, node: usize, rule: &Rule) -> (r: Result<usize, NodeError>)
    requires
        page.wf(),
        node < page@.len(),
    ensures
        r is Ok ==> r->Ok_0 < page@.len(),
        forall|password: Seq<char>| #[trigger]
            content_plan(page@, node as int, *rule, password) == (match r {
                Ok(content) => Plan::Encrypt { content: content as int, password },
                Err(error) => Plan::Fault(error@),
            }),
{
    match &rule.content_selector {
        None => Ok(node),
        Some(selector) => {
            match page.select(0, selector.as_str()) {
                None => Err(NodeError::BadContentSelector(selector.as_str().to_string())),
                Some(found) => {
                    proof {
                        assert(dom::as_ints(found@).len() == found@.len());
                    }
                    if found.len() == 0 {
                        Err(NodeError::NoContent(selector.as_str().to_string()))
                    } else if found.len() > 1 {
                        Err(NodeError::ManyContents(selector.as_str().to_string()))
                    } else {
                        proof {
                            assert(dom::as_ints(found@)[0] == found@[0] as int);
                        }
                        Ok(found[0])
                    }
                },
            }
        },
    }
}

/// What is to be done with a node that a rule matches: nothing, or to encrypt
/// the children of a node under a password.
pub fn plan_node<'a>(page: &Page, node: usize, rule: &Rule, config: &'a Config) -> (r: Result<
    Option<(usize, &'a Secret)>,
    NodeError,
>)
    requires
        page.wf(),
        node < page@.len(),
    ensures
        match r {
            Ok(None) => plan(page@, node as int, *rule, config.passwords@) == Plan::Skip,
            Ok(Some((content, password))) => {
                &&& content < page@.len()
                &&& dom::is_element(page@, node as int)
                &&& plan(page@, node as int, *rule, config.passwords@) == (Plan::Encrypt {
                    content: content as int,
                    password: password@,
                })
            },
            Err(error) => plan(page@, node as int, *rule, config.passwords@) == Plan::Fault(error@),
        },
{
    if !page.is_element(node) {
        return Err(NodeError::NotAnElement);
    }
    if page.attribute(node, "data-site-encrypt-ciphertext").is_some() {
        return Ok(None);
    }
    let id = match page.attribute(node, rule.password_id_attribute.as_str()) {
        Some(id) => id,
        None => {
            return Err(
                NodeError::NoPasswordId(rule.password_id_attribute.as_str().to_string()),
            );
        },
    };
    let password = match config.passwords.get(id.as_str()) {
        Some(password) => password,
        None => {
            return Err(NodeError::UnknownPassword(id));
        },
    };
    match find_content(page, node, rule) {
        Ok(content) => Ok(Some((content, password))),
        Err(error) => Err(error),
    }
}

/// What a node holds, in HTML syntax.
pub fn inner_markup(page: &Page, node: usize) -> (s: String)
    requires
        page.wf(),
        node < page@.len(),
    ensures
        s@ == inner(page@, node as int),
{
    let children = page.children(node);
    let ghost all = page@[node as int].children;
    let mut s = String::new();
    for k in 0..children.len()
        invariant
            page.wf(),
            dom::as_ints(children@) == all,
            forall|k: int|
                0 <= k < children@.len() ==> (#[trigger] children@[k] as int) < page@.len(),
            s@ == written_all(page@, all.take(k as int)),
    {
        proof {
            assert(all.take(k + 1).drop_last() =~= all.take(k as int));
            assert(all[k as int] == dom::as_ints(children@)[k as int]);
            assert(all.take(k + 1).last() == children@[k as int] as int);
        }
        s.append(page.write(children[k]).as_str());
    }
    proof {
        assert(all.take(all.len() as int) =~= all);
    }
    s
}

// ---------------------------------------------------------------------------
// The payload on the page
// ---------------------------------------------------------------------------

/// Attributes, with those by which the browser finds and decrypts the payload.
pub open spec fn with_payload(
    attributes: Map<Seq<char>, Seq<char>>,
    payload: Encrypted,
    target: Seq<char>,
) -> Map<Seq<char>, Seq<char>> {
    attributes.insert("data-site-encrypt"@, "1"@).insert(
        "data-site-encrypt-version"@,
        text::decimal_of(FORMAT_VERSION as nat),
    ).insert("data-site-encrypt-kdf"@, "pbkdf2-sha256"@).insert(
        "data-site-encrypt-iterations"@,
        text::decimal_of(payload.iterations as nat),
    ).insert("data-site-encrypt-salt"@, payload.salt@).insert(
        "data-site-encrypt-nonce"@,
        payload.nonce@,
    ).insert(ciphertext_name(), payload.ciphertext@).insert("data-site-encrypt-target"@, target)
}

/// Attributes, without those that served at build time alone.
pub open spec fn without_sources(
    attributes: Map<Seq<char>, Seq<char>>,
    rule: Rule,
) -> Map<Seq<char>, Seq<char>> {
    let attributes = attributes.remove(rule.password_id_attribute@);
    match rule.hint_attribute {
        Some(name) => attributes.remove(name@),
        None => attributes,
    }
}

/// The hint that a node gives.
pub open spec fn hint_of(attributes: Map<Seq<char>, Seq<char>>, rule: Rule) -> Option<Seq<char>> {
    match rule.hint_attribute {
        Some(name) => if attributes.contains_key(name@) {
            Some(attributes[name@])
        } else {
            None
        },
        None => None,
    }
}

/// The unlock form for a node.
pub open spec fn form_for(
    dom: Seq<DomNode>,
    node: int,
    rule: Rule,
    config: Config,
    payload: Encrypted,
) -> Seq<char> {
    markup::unlock_markup(
        payload,
        hint_of(dom::attributes_of(dom, node), rule),
        config.output.class_name@,
        config.output.ui,
    )
}

/// The page brings its own form: the content is gone, and the payload stands on
/// the matched node.
pub open spec fn with_own_form(
    dom: Seq<DomNode>,
    node: int,
    content: int,
    rule: Rule,
    target: Seq<char>,
    payload: Encrypted,
) -> Seq<DomNode> {
    dom::with_attributes(
        dom::with_children(dom, content, Seq::empty()),
        node,
        without_sources(with_payload(dom::attributes_of(dom, node), payload, target), rule),
    )
}

/// The page gets a form: it takes the place of the content, and the payload
/// stands in it.
pub open spec fn with_new_form(
    dom: Seq<DomNode>,
    node: int,
    rule: Rule,
    form: Seq<char>,
) -> Seq<DomNode> {
    dom::with_attributes(
        dom::filled(dom::with_children(dom, node, Seq::empty()), node, form),
        node,
        without_sources(dom::attributes_of(dom, node), rule),
    )
}

fn remove_sources(page: &mut Page, node: usize, rule: &Rule)
    requires
        old(page).wf(),
        node < old(page)@.len(),
        dom::is_element(old(page)@, node as int),
    ensures
        final(page).wf(),
        final(page)@ == dom::with_attributes(
            old(page)@,
            node as int,
            without_sources(dom::attributes_of(old(page)@, node as int), *rule),
        ),
{
    let ghost dom = page@;
    page.remove_attribute(node, rule.password_id_attribute.as_str());
    match &rule.hint_attribute {
        Some(name) => {
            page.remove_attribute(node, name.as_str());
        },
        None => {},
    }
    proof {
        assert(page@ =~= dom::with_attributes(
            dom,
            node as int,
            without_sources(dom::attributes_of(dom, node as int), *rule),
        ));
    }
}

/// Takes the content away and puts the payload on the matched node, for a page
/// that brings its own unlock form.
pub fn publish_on_node(
    page: &mut Page,
    node: usize,
    content: usize,
    rule: &Rule,
    target: &str,
    payload: Encrypted,
)
    requires
        old(page).wf(),
        node < old(page)@.len(),
        content < old(page)@.len(),
        dom::is_element(old(page)@, node as int),
    ensures
        final(page).wf(),
        final(page)@ == with_own_form(
            old(page)@,
            node as int,
            content as int,
            *rule,
            target@,
            payload,
        ),
{
    let ghost dom = page@;
    page.clear(content);
    page.set_attribute(node, "data-site-encrypt", "1".to_string());
    page.set_attribute(node, "data-site-encrypt-version", decimal(FORMAT_VERSION as u64));
    page.set_attribute(node, "data-site-encrypt-kdf", "pbkdf2-sha256".to_string());
    page.set_attribute(node, "data-site-encrypt-iterations", decimal(payload.iterations as u64));
    page.set_attribute(node, "data-site-encrypt-salt", payload.salt);
    page.set_attribute(node, "data-site-encrypt-nonce", payload.nonce);
    page.set_attribute(node, "data-site-encrypt-ciphertext", payload.ciphertext);
    page.set_attribute(node, "data-site-encrypt-target", target.to_string());
    remove_sources(page, node, rule);
    proof {
        assert(page@ =~= with_own_form(dom, node as int, content as int, *rule, target@, payload));
    }
}

/// Nothing that the node holds was on the page before.
pub open spec fn holds_only_new(dom: Seq<DomNode>, node: int, old_len: nat) -> bool {
    forall|k: int|
        0 <= k < dom[node].children.len() ==> old_len <= (#[trigger] dom[node].children[k])
            < dom.len()
}

/// Puts the unlock form, with the payload in it, in the place of what the node
/// holds. A form that is too long to be parsed is not put there.
pub fn publish_form(
    page: &mut Page,
    node: usize,
    rule: &Rule,
    config: &Config,
    payload: &Encrypted,
) -> (r: bool)
    requires
        old(page).wf(),
        node < old(page)@.len(),
        dom::is_element(old(page)@, node as int),
    ensures
        final(page).wf(),
        r == dom::can_be_parsed(form_for(old(page)@, node as int, *rule, *config, *payload)),
        r ==> final(page)@ == with_new_form(
            old(page)@,
            node as int,
            *rule,
            form_for(old(page)@, node as int, *rule, *config, *payload),
        ),
        !r ==> *final(page) == *old(page),
        final(page)@.len() >= old(page)@.len(),
        forall|i: int|
            0 <= i < old(page)@.len() && i != node ==> #[trigger] final(page)@[i] == old(page)@[i],
        r ==> holds_only_new(final(page)@, node as int, old(page)@.len()),
        r ==> final(page)@[node as int].attributes == Some(
            without_sources(dom::attributes_of(old(page)@, node as int), *rule),
        ),
{
    let ghost dom = page@;
    let hint = match &rule.hint_attribute {
        Some(name) => page.attribute(node, name.as_str()),
        None => None,
    };
    let hint = match &hint {
        Some(hint) => Some(hint.as_str()),
        None => None,
    };
    let form = build_unlock_markup(
        payload,
        hint,
        config.output.class_name.as_str(),
        &config.output.ui,
    );
    proof {
        assert(markup::hint_view(hint) == hint_of(dom::attributes_of(dom, node as int), *rule));
    }
    if !fits_parser(form.as_str()) {
        return false;
    }
    page.clear(node);
    page.fill(node, form.as_str());
    remove_sources(page, node, rule);
    proof {
        assert(page@ =~= with_new_form(dom, node as int, *rule, form@));
    }
    true
}

// ---------------------------------------------------------------------------
// Encrypting a node
// ---------------------------------------------------------------------------

/// What comes of a node, given the payload of its content.
pub open spec fn node_outcome(
    dom: Seq<DomNode>,
    node: int,
    rule: Rule,
    config: Config,
    payload: Encrypted,
) -> Result<bool, NodeFault> {
    match plan(dom, node, rule, config.passwords@) {
        Plan::Skip => Ok(false),
        Plan::Fault(fault) => Err(fault),
        Plan::Encrypt { content, password } => {
            if !crypto::fits(inner(dom, content)) {
                Err(NodeFault::TooLong)
            } else if rule.content_selector is None && !dom::can_be_parsed(
                form_for(dom, node, rule, config, payload),
            ) {
                Err(NodeFault::FormTooLong)
            } else {
                Ok(true)
            }
        },
    }
}

/// What comes of the page, given the payload of the node's content.
pub open spec fn node_dom(
    dom: Seq<DomNode>,
    node: int,
    rule: Rule,
    config: Config,
    payload: Encrypted,
) -> Seq<DomNode> {
    if node_outcome(dom, node, rule, config, payload) != Ok::<bool, NodeFault>(true) {
        dom
    } else {
        match rule.content_selector {
            Some(target) => with_own_form(
                dom,
                node,
                plan(dom, node, rule, config.passwords@)->content,
                rule,
                target@,
                payload,
            ),
            None => with_new_form(dom, node, rule, form_for(dom, node, rule, config, payload)),
        }
    }
}

/// The payload is one of the node's content under its password, if the node is
/// to be encrypted at all.
pub open spec fn is_payload_for(
    payload: Encrypted,
    dom: Seq<DomNode>,
    node: int,
    rule: Rule,
    config: Config,
) -> bool {
    match plan(dom, node, rule, config.passwords@) {
        Plan::Encrypt { content, password } => crypto::fits(inner(dom, content))
            ==> crypto::encrypts(
            payload,
            inner(dom, content),
            password,
            config.encryption.iterations,
        ),
        _ => true,
    }
}

/// A result as a mathematical value.
pub open spec fn outcome_view(r: Result<bool, NodeError>) -> Result<bool, NodeFault> {
    match r {
        Ok(encrypted) => Ok(encrypted),
        Err(error) => Err(error@),
    }
}

/// What a node came to: the outcome and the page, for some payload of the
/// content.
pub open spec fn node_came_to(
    before: Seq<DomNode>,
    node: int,
    rule: Rule,
    config: Config,
    outcome: Result<bool, NodeFault>,
    after: Seq<DomNode>,
) -> bool {
    exists|payload: Encrypted|
        {
            &&& #[trigger] is_payload_for(payload, before, node, rule, config)
            &&& outcome == node_outcome(before, node, rule, config, payload)
            &&& after == node_dom(before, node, rule, config, payload)
        }
}

/// The node is the one whose children are to be encrypted.
pub open spec fn is_content(
    dom: Seq<DomNode>,
    node: int,
    rule: Rule,
    passwords: Map<Seq<char>, Seq<char>>,
    content: int,
) -> bool {
    plan(dom, node, rule, passwords) matches Plan::Encrypt { content: c, .. } && c == content
}

/// The node has no attribute that served at build time alone.
pub open spec fn lacks_sources(dom: Seq<DomNode>, node: int, rule: Rule) -> bool {
    &&& dom::is_element(dom, node)
    &&& !dom::attributes_of(dom, node).contains_key(rule.password_id_attribute@)
    &&& rule.hint_attribute matches Some(name) ==> !dom::attributes_of(dom, node).contains_key(
        name@,
    )
}

/// The rule does not use the attribute of the ciphertext for its own ends.
pub open spec fn keeps_ciphertext(rule: Rule) -> bool {
    &&& rule.password_id_attribute@ != ciphertext_name()
    &&& rule.hint_attribute matches Some(name) ==> name@ != ciphertext_name()
}

/// The names of the attributes by which the browser finds and decrypts a
/// payload.
pub open spec fn is_discovery_name(name: Seq<char>) -> bool {
    ||| name == "data-site-encrypt"@
    ||| name == "data-site-encrypt-version"@
    ||| name == "data-site-encrypt-kdf"@
    ||| name == "data-site-encrypt-iterations"@
    ||| name == "data-site-encrypt-salt"@
    ||| name == "data-site-encrypt-nonce"@
    ||| name == "data-site-encrypt-ciphertext"@
    ||| name == "data-site-encrypt-target"@
}

/// The rule uses none of these attributes for its own ends.
pub open spec fn keeps_discovery(rule: Rule) -> bool {
    &&& !is_discovery_name(rule.password_id_attribute@)
    &&& rule.hint_attribute matches Some(name) ==> !is_discovery_name(name@)
}

/// What the browser reads from the attributes of a node: they ask for so many
/// iterations, and the password opens what they hold to the content.
pub open spec fn opens_in_browser(
    attributes: Map<Seq<char>, Seq<char>>,
    iterations: u32,
    password: Seq<char>,
    content: Seq<char>,
) -> bool {
    &&& forall|name: Seq<char>| #[trigger]
        is_discovery_name(name) ==> attributes.contains_key(name)
    &&& text::number_in(attributes["data-site-encrypt-iterations"@]) == Some(iterations as nat)
    &&& crypto::decrypted(
        attributes["data-site-encrypt-salt"@],
        attributes["data-site-encrypt-nonce"@],
        attributes["data-site-encrypt-ciphertext"@],
        iterations,
        password,
    ) == Some(encode_utf8(content))
}

/// The node carries what it was to be encrypted for: the browser, given the
/// password, gets the content back.
pub open spec fn gives_content_back(
    before: Seq<DomNode>,
    after: Seq<DomNode>,
    node: int,
    rule: Rule,
    config: Config,
) -> bool {
    plan(before, node, rule, config.passwords@) matches Plan::Encrypt { content, password }
        && dom::is_element(after, node) && opens_in_browser(
        dom::attributes_of(after, node),
        config.encryption.iterations,
        password,
        inner(before, content),
    )
}

/// Encrypts the content of a node that a rule matches. The outcome is whether
/// it was encrypted: a node that carries a payload already is left as it is.
///
/// The content is gone from the page. With a form of the page's own, the
/// browser gets it back from the attributes of the node, given the password;
/// with a form that was put there, nothing that the node held before is under
/// it.
///
/// Nodes but the matched one and the one that held the content stay as they
/// are. A second run on the outcome encrypts nothing: with a form of the page's
/// own the node is left as it is, and with a form that was put there it is an
/// error, since the password id is gone.
pub fn encrypt_node(page: &mut Page, node: usize, rule: &Rule, config: &Config) -> (r: Result<
    bool,
    NodeError,
>)
    requires
        old(page).wf(),
        node < old(page)@.len(),
    ensures
        final(page).wf(),
        node_came_to(
            old(page)@,
            node as int,
            *rule,
            *config,
            outcome_view(r),
            final(page)@,
        ),
        final(page)@.len() >= old(page)@.len(),
        r != Ok::<bool, NodeError>(true) ==> *final(page) == *old(page),
        forall|i: int|
            0 <= i < old(page)@.len() && i != node && !is_content(
                old(page)@,
                node as int,
                *rule,
                config.passwords@,
                i,
            ) ==> #[trigger] final(page)@[i] == old(page)@[i],
        r == Ok::<bool, NodeError>(true) && rule.content_selector is Some ==> forall|i: int|
            is_content(old(page)@, node as int, *rule, config.passwords@, i) ==> (
            #[trigger] final(page)@[i]).children.len() == 0,
        r == Ok::<bool, NodeError>(true) ==> lacks_sources(final(page)@, node as int, *rule),
        r == Ok::<bool, NodeError>(true) && rule.content_selector is Some
            && keeps_ciphertext(*rule) ==> plan(
            final(page)@,
            node as int,
            *rule,
            config.passwords@,
        ) == Plan::Skip,
        r == Ok::<bool, NodeError>(true) && rule.content_selector is None ==> plan(
            final(page)@,
            node as int,
            *rule,
            config.passwords@,
        ) == Plan::Fault(NodeFault::NoPasswordId(rule.password_id_attribute@)),
        r == Ok::<bool, NodeError>(true) && rule.content_selector is Some && keeps_discovery(*rule)
            ==> gives_content_back(old(page)@, final(page)@, node as int, *rule, *config),
        r == Ok::<bool, NodeError>(true) && rule.content_selector is None ==> holds_only_new(
            final(page)@,
            node as int,
            old(page)@.len(),
        ),
{
    let ghost dom = page@;
    match plan_node(page, node, rule, config) {
        Err(error) => {
            proof {
                assert(is_payload_for(arbitrary(), dom, node as int, *rule, *config));
            }
            Err(error)
        },
        Ok(None) => {
            proof {
                assert(is_payload_for(arbitrary(), dom, node as int, *rule, *config));
            }
            Ok(false)
        },
        Ok(Some((content, password))) => {
            let plaintext = inner_markup(page, content);
            match encrypt(plaintext.as_str(), password.expose(), config.encryption.iterations) {
                Err(_) => {
                    proof {
                        assert(is_payload_for(arbitrary(), dom, node as int, *rule, *config));
                    }
                    Err(NodeError::TooLong)
                },
                Ok(payload) => {
                    proof {
                        assert(is_payload_for(payload, dom, node as int, *rule, *config));
                    }
                    match &rule.content_selector {
                        Some(target) => {
                            proof {
                                if keeps_discovery(*rule) {
                                    law_payload_can_be_discovered(
                                        dom::attributes_of(dom, node as int),
                                        *rule,
                                        target@,
                                        payload,
                                    );
                                }
                            }
                            publish_on_node(page, node, content, rule, target.as_str(), payload);
                            Ok(true)
                        },
                        None => if publish_form(page, node, rule, config, &payload) {
                            Ok(true)
                        } else {
                            Err(NodeError::FormTooLong)
                        },
                    }
                },
            }
        },
    }
}

// ---------------------------------------------------------------------------
// Laws
// ---------------------------------------------------------------------------

/// Passwords reach the page through the payload alone: with other passwords
/// under the same aliases, the same payload gives the same outcome and page.
pub proof fn law_passwords_stay_off_the_page(
    dom: Seq<DomNode>,
    node: int,
    rule: Rule,
    a: Config,
    b: Config,
    payload: Encrypted,
)
    requires
        a.passwords@.dom() == b.passwords@.dom(),
        a.output == b.output,
    ensures
        node_outcome(dom, node, rule, a, payload) == node_outcome(dom, node, rule, b, payload),
        node_dom(dom, node, rule, a, payload) == node_dom(dom, node, rule, b, payload),
{
    let id = dom::attributes_of(dom, node)[rule.password_id_attribute@];
    assert(a.passwords@.dom().contains(id) == b.passwords@.dom().contains(id));
}

/// Attributes that are the same, but for the ciphertext.
pub open spec fn differ_in_ciphertext(
    a: Map<Seq<char>, Seq<char>>,
    b: Map<Seq<char>, Seq<char>>,
) -> bool {
    a.remove(ciphertext_name()) == b.remove(ciphertext_name())
}

/// Pages that are the same, but for the ciphertext that a node carries.
pub open spec fn differ_in_ciphertext_at(a: Seq<DomNode>, b: Seq<DomNode>, node: int) -> bool {
    &&& a.len() == b.len()
    &&& forall|i: int| 0 <= i < a.len() && i != node ==> #[trigger] a[i] == b[i]
    &&& a[node].children == b[node].children
    &&& a[node].rest == b[node].rest
    &&& dom::is_element(a, node) == dom::is_element(b, node)
    &&& dom::is_element(a, node) ==> differ_in_ciphertext(
        dom::attributes_of(a, node),
        dom::attributes_of(b, node),
    )
}

/// Texts that are the same, but for one stretch in each.
pub open spec fn differ_in_stretch(
    a: Seq<char>,
    b: Seq<char>,
    in_a: Seq<char>,
    in_b: Seq<char>,
) -> bool {
    &&& in_a.len() == in_b.len()
    &&& exists|head: Seq<char>, tail: Seq<char>|
        a == #[trigger] (head + in_a + tail) && b == head + in_b + tail
}

proof fn lemma_forms_differ_in_ciphertext(
    dom: Seq<DomNode>,
    node: int,
    rule: Rule,
    a: Config,
    b: Config,
    for_a: Encrypted,
    for_b: Encrypted,
)
    requires
        a.output == b.output,
        for_a.salt@ == for_b.salt@,
        for_a.nonce@ == for_b.nonce@,
        for_a.iterations == for_b.iterations,
        for_a.ciphertext@.len() == for_b.ciphertext@.len(),
        crypto::is_attribute_safe(for_a),
        crypto::is_attribute_safe(for_b),
    ensures
        differ_in_stretch(
            form_for(dom, node, rule, a, for_a),
            form_for(dom, node, rule, b, for_b),
            for_a.ciphertext@,
            for_b.ciphertext@,
        ),
        dom::can_be_parsed(form_for(dom, node, rule, a, for_a)) == dom::can_be_parsed(
            form_for(dom, node, rule, b, for_b),
        ),
{
    let hint = hint_of(dom::attributes_of(dom, node), rule);
    let class_name = a.output.class_name@;
    markup::law_ciphertext_stands_alone(for_a, hint, class_name, a.output.ui);
    markup::law_ciphertext_stands_alone(for_b, hint, class_name, a.output.ui);
    let head = markup::root_head(for_a, class_name);
    let tail = markup::after_ciphertext(hint, class_name, a.output.ui);
    assert(head == markup::root_head(for_b, class_name));
    assert(form_for(dom, node, rule, a, for_a) == head + for_a.ciphertext@ + tail);
    assert(form_for(dom, node, rule, b, for_b) == head + for_b.ciphertext@ + tail);
    assert forall|i: int| 0 <= i < for_a.ciphertext@.len() implies '\0'
        < #[trigger] for_a.ciphertext@[i] <= '\u{7f}' && for_a.ciphertext@[i] != '&' by {
        assert(crypto::is_base64_url(for_a.ciphertext@[i]));
    }
    assert forall|i: int| 0 <= i < for_b.ciphertext@.len() implies '\0'
        < #[trigger] for_b.ciphertext@[i] <= '\u{7f}' && for_b.ciphertext@[i] != '&' by {
        assert(crypto::is_base64_url(for_b.ciphertext@[i]));
    }
    reveal_strlit("\" data-site-encrypt-ciphertext=\"");
    reveal_strlit("\">");
    dom::lemma_same_length_same_room(head, for_a.ciphertext@, for_b.ciphertext@, tail);
}

/// Passwords tell on the page in the ciphertext alone: with other passwords
/// under the same aliases, and the same salt and nonce, the outcome is the
/// same, and so is the page, but for as many characters of ciphertext. With a
/// form that is put there, this holds of the form as it goes to the parser.
pub proof fn law_passwords_tell_in_ciphertext_alone(
    dom: Seq<DomNode>,
    node: int,
    rule: Rule,
    a: Config,
    b: Config,
    for_a: Encrypted,
    for_b: Encrypted,
)
    requires
        0 <= node < dom.len(),
        plan(dom, node, rule, a.passwords@) matches Plan::Encrypt { content, .. } ==> 0 <= content
            < dom.len(),
        a.passwords@.dom() == b.passwords@.dom(),
        a.output == b.output,
        a.encryption == b.encryption,
        is_payload_for(for_a, dom, node, rule, a),
        is_payload_for(for_b, dom, node, rule, b),
        for_a.salt@ == for_b.salt@,
        for_a.nonce@ == for_b.nonce@,
    ensures
        node_outcome(dom, node, rule, a, for_a) == node_outcome(dom, node, rule, b, for_b),
        rule.content_selector is Some ==> differ_in_ciphertext_at(
            node_dom(dom, node, rule, a, for_a),
            node_dom(dom, node, rule, b, for_b),
            node,
        ),
        rule.content_selector is None && node_outcome(dom, node, rule, a, for_a) == Ok::<
            bool,
            NodeFault,
        >(true) ==> differ_in_stretch(
            form_for(dom, node, rule, a, for_a),
            form_for(dom, node, rule, b, for_b),
            for_a.ciphertext@,
            for_b.ciphertext@,
        ),
{
    let id = dom::attributes_of(dom, node)[rule.password_id_attribute@];
    assert(a.passwords@.dom().contains(id) == b.passwords@.dom().contains(id));
    match plan(dom, node, rule, a.passwords@) {
        Plan::Encrypt { content, .. } => {
            if crypto::fits(inner(dom, content)) {
                lemma_forms_differ_in_ciphertext(dom, node, rule, a, b, for_a, for_b);
                match rule.content_selector {
                    Some(target) => {
                        lemma_attributes_differ_in_ciphertext(
                            dom::attributes_of(dom, node),
                            rule,
                            target@,
                            for_a,
                            for_b,
                        );
                    },
                    None => {},
                }
            }
        },
        _ => {},
    }
}

proof fn lemma_attributes_differ_in_ciphertext(
    attributes: Map<Seq<char>, Seq<char>>,
    rule: Rule,
    target: Seq<char>,
    for_a: Encrypted,
    for_b: Encrypted,
)
    requires
        for_a.salt@ == for_b.salt@,
        for_a.nonce@ == for_b.nonce@,
        for_a.iterations == for_b.iterations,
    ensures
        differ_in_ciphertext(
            without_sources(with_payload(attributes, for_a, target), rule),
            without_sources(with_payload(attributes, for_b, target), rule),
        ),
{
    assert(without_sources(with_payload(attributes, for_a, target), rule).remove(ciphertext_name())
        =~= without_sources(with_payload(attributes, for_b, target), rule).remove(
        ciphertext_name(),
    ));
}

/// A node that was encrypted can be decrypted: the payload that goes on the
/// page opens, under the password of the node, to what the content held.
pub proof fn law_payload_opens_to_the_content(
    dom: Seq<DomNode>,
    node: int,
    rule: Rule,
    config: Config,
    payload: Encrypted,
)
    requires
        is_payload_for(payload, dom, node, rule, config),
        node_outcome(dom, node, rule, config, payload) == Ok::<bool, NodeFault>(true),
    ensures
        plan(dom, node, rule, config.passwords@) matches Plan::Encrypt { content, password }
            && crypto::opens_to(payload, password, inner(dom, content)),
{
}

/// With a configuration that was accepted, every payload asks the browser for
/// as many iterations as the configuration does, and for enough of them.
pub proof fn law_enough_iterations(
    dom: Seq<DomNode>,
    node: int,
    rule: Rule,
    config: Config,
    payload: Encrypted,
)
    requires
        config::config_fault(config) is None,
        is_payload_for(payload, dom, node, rule, config),
        node_outcome(dom, node, rule, config, payload) == Ok::<bool, NodeFault>(true),
    ensures
        payload.iterations == config.encryption.iterations,
        payload.iterations >= config::MIN_ITERATIONS,
{
}

/// The matched node carries the whole payload, under the names that the
/// browser looks for, whatever it carried before.
pub proof fn law_payload_can_be_discovered(
    attributes: Map<Seq<char>, Seq<char>>,
    rule: Rule,
    target: Seq<char>,
    payload: Encrypted,
)
    requires
        keeps_discovery(rule),
    ensures
        ({
            let after = without_sources(with_payload(attributes, payload, target), rule);
            &&& forall|name: Seq<char>| #[trigger]
                is_discovery_name(name) ==> after.contains_key(name)
            &&& after["data-site-encrypt"@] == "1"@
            &&& after["data-site-encrypt-version"@] == "1"@
            &&& after["data-site-encrypt-kdf"@] == "pbkdf2-sha256"@
            &&& text::number_in(after["data-site-encrypt-iterations"@]) == Some(
                payload.iterations as nat,
            )
            &&& after["data-site-encrypt-salt"@] == payload.salt@
            &&& after["data-site-encrypt-nonce"@] == payload.nonce@
            &&& after["data-site-encrypt-ciphertext"@] == payload.ciphertext@
            &&& after["data-site-encrypt-target"@] == target
        }),
{
    reveal_strlit("data-site-encrypt");
    reveal_strlit("data-site-encrypt-version");
    reveal_strlit("data-site-encrypt-kdf");
    reveal_strlit("data-site-encrypt-iterations");
    reveal_strlit("data-site-encrypt-salt");
    reveal_strlit("data-site-encrypt-nonce");
    reveal_strlit("data-site-encrypt-ciphertext");
    reveal_strlit("data-site-encrypt-target");
    reveal_strlit("1");
    assert("data-site-encrypt"@.len() == 17);
    assert("data-site-encrypt-version"@.len() == 25);
    assert("data-site-encrypt-kdf"@.len() == 21);
    assert("data-site-encrypt-iterations"@.len() == 28);
    assert("data-site-encrypt-salt"@.len() == 22);
    assert("data-site-encrypt-nonce"@.len() == 23);
    assert("data-site-encrypt-target"@.len() == 24);
    assert("data-site-encrypt-ciphertext"@.len() == 28);
    assert("data-site-encrypt-iterations"@[18] != "data-site-encrypt-ciphertext"@[18]);
    text::law_decimal_says_the_number(payload.iterations as nat);
    assert(text::decimal_of(1) =~= "1"@);
}

/// The cuts part the text into as many pieces as there are nodes, each piece
/// the node of the same number in HTML syntax.
pub open spec fn cuts_into_nodes(
    text: Seq<char>,
    dom: Seq<DomNode>,
    nodes: Seq<int>,
    cuts: Seq<int>,
) -> bool {
    &&& cuts.len() == nodes.len() + 1
    &&& cuts[0] == 0
    &&& cuts.last() == text.len()
    &&& forall|k: int|
        0 <= k < nodes.len() ==> 0 <= #[trigger] cuts[k] <= cuts[k + 1] <= text.len()
            && text.subrange(cuts[k], cuts[k + 1]) == dom::written(dom, nodes[k])
}

proof fn lemma_cuts(dom: Seq<DomNode>, nodes: Seq<int>) -> (cuts: Seq<int>)
    ensures
        cuts_into_nodes(written_all(dom, nodes), dom, nodes, cuts),
    decreases nodes.len(),
{
    let text = written_all(dom, nodes);
    if nodes.len() == 0 {
        seq![0int]
    } else {
        let shorter = nodes.drop_last();
        let before = written_all(dom, shorter);
        let earlier = lemma_cuts(dom, shorter);
        let cuts = earlier.push(text.len() as int);
        assert forall|k: int| 0 <= k < nodes.len() implies 0 <= #[trigger] cuts[k] <= cuts[k + 1]
            <= text.len() && text.subrange(cuts[k], cuts[k + 1]) == dom::written(
            dom,
            nodes[k],
        ) by {
            assert(cuts[k] == earlier[k]);
            if k < shorter.len() {
                assert(cuts[k + 1] == earlier[k + 1]);
                assert(text.subrange(cuts[k], cuts[k + 1]) =~= before.subrange(
                    earlier[k],
                    earlier[k + 1],
                ));
                assert(shorter[k] == nodes[k]);
            } else {
                assert(text.subrange(cuts[k], cuts[k + 1]) =~= dom::written(dom, nodes.last()));
            }
        }
        cuts
    }
}

/// What is encrypted is all that the node holds: every child in HTML syntax,
/// in their order, and nothing besides.
pub proof fn law_inner_is_all_children(dom: Seq<DomNode>, node: int)
    ensures
        exists|cuts: Seq<int>| #[trigger]
            cuts_into_nodes(inner(dom, node), dom, dom[node].children, cuts),
        dom[node].children.len() == 0 ==> inner(dom, node).len() == 0,
        dom[node].children.len() == 1 ==> inner(dom, node) == dom::written(
            dom,
            dom[node].children[0],
        ),
        dom[node].children.len() == 2 ==> inner(dom, node) == dom::written(
            dom,
            dom[node].children[0],
        ) + dom::written(dom, dom[node].children[1]),
{
    let children = dom[node].children;
    let cuts = lemma_cuts(dom, children);
    assert(cuts_into_nodes(inner(dom, node), dom, dom[node].children, cuts));
    if children.len() == 1 {
        assert(0 <= cuts[0] <= cuts[0 + 1int]);
        assert(inner(dom, node).subrange(cuts[0], cuts[1]) =~= inner(dom, node));
    }
    if children.len() == 2 {
        assert(0 <= cuts[0] <= cuts[0 + 1int]);
        assert(0 <= cuts[1] <= cuts[1 + 1int]);
        let text = inner(dom, node);
        assert(text.subrange(0, cuts[1]) + text.subrange(cuts[1], cuts[2]) =~= text);
    }
}

/// Nodes that are written one behind the other can be written in two parts.
pub proof fn law_written_in_parts(dom: Seq<DomNode>, xs: Seq<int>, ys: Seq<int>)
    ensures
        written_all(dom, xs + ys) == written_all(dom, xs) + written_all(dom, ys),
        forall|node: int| written_all(dom, seq![node]) == #[trigger] dom::written(dom, node),
    decreases ys.len(),
{
    assert forall|node: int| written_all(dom, seq![node]) == #[trigger] dom::written(
        dom,
        node,
    ) by {
        assert(seq![node].drop_last() =~= Seq::<int>::empty());
        assert(written_all(dom, Seq::<int>::empty()) == Seq::<char>::empty());
        assert(written_all(dom, seq![node]) =~= dom::written(dom, node));
    }
    if ys.len() == 0 {
        assert(xs + ys =~= xs);
        assert(written_all(dom, xs) + written_all(dom, ys) =~= written_all(dom, xs));
    } else {
        law_written_in_parts(dom, xs, ys.drop_last());
        assert((xs + ys).drop_last() =~= xs + ys.drop_last());
        assert(written_all(dom, xs + ys) =~= written_all(dom, xs) + written_all(dom, ys));
    }
}

/// A node is left alone exactly where it is an element that carries a
/// ciphertext already.
pub proof fn law_when_a_node_is_skipped(
    dom: Seq<DomNode>,
    node: int,
    rule: Rule,
    passwords: Map<Seq<char>, Seq<char>>,
)
    ensures
        plan(dom, node, rule, passwords) is Skip <==> (dom[node].attributes matches Some(attributes)
            && attributes.contains_key("data-site-encrypt-ciphertext"@)),
{
}

/// A node is encrypted exactly where it is an element without a ciphertext, its
/// attribute names a password that is known, and the rule has no content
/// selector or one that matches one node of the page. The password is the one
/// that it names, and the content is the node itself or the one that is matched.
pub proof fn law_when_a_node_is_encrypted(
    dom: Seq<DomNode>,
    node: int,
    rule: Rule,
    passwords: Map<Seq<char>, Seq<char>>,
)
    ensures
        plan(dom, node, rule, passwords) is Encrypt <==> {
            &&& dom[node].attributes is Some
            &&& !dom[node].attributes->0.contains_key("data-site-encrypt-ciphertext"@)
            &&& dom[node].attributes->0.contains_key(rule.password_id_attribute@)
            &&& passwords.contains_key(dom[node].attributes->0[rule.password_id_attribute@])
            &&& rule.content_selector matches Some(selector) ==> dom::is_selector(selector@)
                && dom::matching(dom, 0, selector@).len() == 1
        },
        plan(dom, node, rule, passwords) matches Plan::Encrypt { content, password } ==> {
            &&& password == passwords[dom[node].attributes->0[rule.password_id_attribute@]]
            &&& rule.content_selector is None ==> content == node
            &&& rule.content_selector matches Some(selector) ==> content == dom::matching(
                dom,
                0,
                selector@,
            )[0]
        },
{
}

/// A fault of a node is true of it, and the first that is: what the node lacks
/// comes before what the passwords lack, and that before the content.
pub proof fn law_node_faults_are_true(
    dom: Seq<DomNode>,
    node: int,
    rule: Rule,
    passwords: Map<Seq<char>, Seq<char>>,
)
    ensures
        plan(dom, node, rule, passwords) == Plan::Fault(NodeFault::NotAnElement)
            <==> dom[node].attributes is None,
        forall|name: Seq<char>|
            plan(dom, node, rule, passwords) == Plan::Fault(NodeFault::NoPasswordId(name)) <==> {
                &&& name == rule.password_id_attribute@
                &&& dom[node].attributes is Some
                &&& !dom[node].attributes->0.contains_key("data-site-encrypt-ciphertext"@)
                &&& !dom[node].attributes->0.contains_key(name)
            },
        forall|id: Seq<char>|
            plan(dom, node, rule, passwords) == Plan::Fault(NodeFault::UnknownPassword(id)) <==> {
                &&& dom[node].attributes is Some
                &&& !dom[node].attributes->0.contains_key("data-site-encrypt-ciphertext"@)
                &&& dom[node].attributes->0.contains_key(rule.password_id_attribute@)
                &&& dom[node].attributes->0[rule.password_id_attribute@] == id
                &&& !passwords.contains_key(id)
            },
        forall|selector: Seq<char>|
            plan(dom, node, rule, passwords) == Plan::Fault(NodeFault::BadContentSelector(selector))
                ==> (rule.content_selector matches Some(s) && s@ == selector && !dom::is_selector(
                selector,
            )),
        forall|selector: Seq<char>|
            plan(dom, node, rule, passwords) == Plan::Fault(NodeFault::NoContent(selector))
                ==> (rule.content_selector matches Some(s) && s@ == selector && dom::is_selector(
                selector,
            ) && dom::matching(dom, 0, selector).len() == 0),
        forall|selector: Seq<char>|
            plan(dom, node, rule, passwords) == Plan::Fault(NodeFault::ManyContents(selector))
                ==> (rule.content_selector matches Some(s) && s@ == selector && dom::is_selector(
                selector,
            ) && dom::matching(dom, 0, selector).len() > 1),
        plan(dom, node, rule, passwords) != Plan::Fault(NodeFault::TooLong),
        plan(dom, node, rule, passwords) != Plan::Fault(NodeFault::FormTooLong),
{
}

/// The outcome follows the plan: a node that is to be encrypted is, unless its
/// content has more than 64 GiB, or the form cannot be parsed.
pub proof fn law_outcome_follows_the_plan(
    dom: Seq<DomNode>,
    node: int,
    rule: Rule,
    config: Config,
    payload: Encrypted,
)
    ensures
        match plan(dom, node, rule, config.passwords@) {
            Plan::Skip => node_outcome(dom, node, rule, config, payload) == Ok::<bool, NodeFault>(
                false,
            ),
            Plan::Fault(fault) => node_outcome(dom, node, rule, config, payload) == Err::<
                bool,
                NodeFault,
            >(fault),
            Plan::Encrypt { content, .. } => {
                let outcome = node_outcome(dom, node, rule, config, payload);
                let long = encode_utf8(inner(dom, content)).len() > 0x10_0000_0000;
                &&& outcome == Err::<bool, NodeFault>(NodeFault::TooLong) <==> long
                &&& outcome == Ok::<bool, NodeFault>(true) <==> !long && (
                rule.content_selector is None ==> dom::can_be_parsed(
                    form_for(dom, node, rule, config, payload),
                ))
                &&& outcome is Ok || outcome == Err::<bool, NodeFault>(NodeFault::TooLong)
                    || outcome == Err::<bool, NodeFault>(NodeFault::FormTooLong)
            },
        },
        node_outcome(dom, node, rule, config, payload) != Ok::<bool, NodeFault>(true) ==> node_dom(
            dom,
            node,
            rule,
            config,
            payload,
        ) == dom,
{
}

/// What is encrypted is what the content holds, under the password that the
/// node names and with the iterations of the configuration.
pub proof fn law_payload_is_of_the_content(
    dom: Seq<DomNode>,
    node: int,
    rule: Rule,
    config: Config,
    payload: Encrypted,
)
    requires
        is_payload_for(payload, dom, node, rule, config),
        node_outcome(dom, node, rule, config, payload) == Ok::<bool, NodeFault>(true),
    ensures
        crypto::encrypts(
            payload,
            inner(
                dom,
                match rule.content_selector {
                    Some(selector) => dom::matching(dom, 0, selector@)[0],
                    None => node,
                },
            ),
            config.passwords@[dom[node].attributes->0[rule.password_id_attribute@]],
            config.encryption.iterations,
        ),
{
}

/// The attributes that a rule takes its facts from go; every other one stays as
/// it is.
pub proof fn law_other_attributes_stay(
    attributes: Map<Seq<char>, Seq<char>>,
    rule: Rule,
    name: Seq<char>,
)
    ensures
        without_sources(attributes, rule).contains_key(name) <==> {
            &&& attributes.contains_key(name)
            &&& name != rule.password_id_attribute@
            &&& rule.hint_attribute matches Some(hint) ==> name != hint@
        },
        without_sources(attributes, rule).contains_key(name) ==> without_sources(
            attributes,
            rule,
        )[name] == attributes[name],
{
}

/// A payload touches the attributes with its own names alone.
pub proof fn law_payload_touches_its_own_names(
    attributes: Map<Seq<char>, Seq<char>>,
    payload: Encrypted,
    target: Seq<char>,
    name: Seq<char>,
)
    requires
        !is_discovery_name(name),
    ensures
        with_payload(attributes, payload, target).contains_key(name) == attributes.contains_key(
            name,
        ),
        attributes.contains_key(name) ==> with_payload(attributes, payload, target)[name]
            == attributes[name],
{
}

/// The hint is what the attribute that the rule names holds, where the rule
/// names one and the node has it.
pub proof fn law_hint(attributes: Map<Seq<char>, Seq<char>>, rule: Rule, hint: Seq<char>)
    ensures
        hint_of(attributes, rule) == Some(hint) <==> (rule.hint_attribute matches Some(name)
            && attributes.contains_key(name@) && attributes[name@] == hint),
{
}

/// With a form of the page's own, the content is empty afterwards, the node has
/// the payload in place of its sources, and all else is as it was.
pub proof fn law_own_form(
    dom: Seq<DomNode>,
    node: int,
    content: int,
    rule: Rule,
    target: Seq<char>,
    payload: Encrypted,
)
    requires
        0 <= node < dom.len(),
        0 <= content < dom.len(),
    ensures
        ({
            let after = with_own_form(dom, node, content, rule, target, payload);
            &&& after.len() == dom.len()
            &&& after[content].children.len() == 0
            &&& node != content ==> after[node].children == dom[node].children
                && after[content].attributes == dom[content].attributes
            &&& after[node].attributes == Some(
                without_sources(with_payload(dom::attributes_of(dom, node), payload, target), rule),
            )
            &&& after[node].rest == dom[node].rest
            &&& after[content].rest == dom[content].rest
            &&& forall|i: int|
                0 <= i < dom.len() && i != node && i != content ==> #[trigger] after[i] == dom[i]
        }),
{
}

/// With a form that is put there, what the node held is out of it, what the
/// body of the form holds is in it, and its attributes are those that it had,
/// without its sources.
pub proof fn law_new_form(dom: Seq<DomNode>, node: int, rule: Rule, form: Seq<char>)
    requires
        0 <= node < dom.len(),
    ensures
        ({
            let cleared = dom.update(node, DomNode { children: Seq::empty(), ..dom[node] });
            let all = cleared + dom::shifted(dom::parsed(form), dom.len() as int);
            let source = dom::body_of(all, dom.len() as int);
            let after = with_new_form(dom, node, rule, form);
            dom.len() <= source < all.len() ==> {
                &&& after.len() == dom.len() + dom::parsed(form).len()
                &&& after[node].children == all[source].children
                &&& after[node].attributes == Some(
                    without_sources(dom::attributes_of(dom, node), rule),
                )
                &&& after[node].rest == dom[node].rest
                &&& forall|i: int|
                    0 <= i < dom.len() && i != node ==> #[trigger] after[i] == dom[i]
                &&& forall|i: int|
                    dom.len() <= i < after.len() && i != source ==> #[trigger] after[i] == all[i]
            }
        }),
{
    let cleared = dom.update(node, DomNode { children: Seq::empty(), ..dom[node] });
    let all = cleared + dom::shifted(dom::parsed(form), dom.len() as int);
    let source = dom::body_of(all, dom.len() as int);
    let after = with_new_form(dom, node, rule, form);
    assert(cleared == dom::with_children(dom, node, Seq::empty()));
    if dom.len() <= source < all.len() {
        assert(all[node].children =~= Seq::<int>::empty());
        assert(all[node].children + all[source].children =~= all[source].children);
        assert(after[node].children == all[source].children);
        assert forall|i: int| 0 <= i < dom.len() && i != node implies #[trigger] after[i]
            == dom[i] by {
            assert(all[i] == cleared[i]);
        }
    }
}

/// The text of a fault names what the fault is about; where a password is
/// missing, also the variable that it can be given in.
pub proof fn law_fault_text_names_its_subject(subject: Seq<char>)
    ensures
        exists|p: int| text::stands_at(fault_text(NodeFault::NoPasswordId(subject)), subject, p),
        exists|p: int| text::stands_at(fault_text(NodeFault::UnknownPassword(subject)), subject, p),
        exists|p: int|
            text::stands_at(
                fault_text(NodeFault::UnknownPassword(subject)),
                env::env_name(subject),
                p,
            ),
        exists|p: int|
            text::stands_at(fault_text(NodeFault::BadContentSelector(subject)), subject, p),
        exists|p: int| text::stands_at(fault_text(NodeFault::NoContent(subject)), subject, p),
        exists|p: int| text::stands_at(fault_text(NodeFault::ManyContents(subject)), subject, p),
{
    let head = "no password configured for password id '"@;
    let middle = "'; add it to [passwords] in the config or set "@;
    let name = env::env_name(subject);
    lemma_stands_inside("missing password attribute '"@, subject, "'"@);
    let at = "missing password attribute '"@.len() as int;
    assert(text::stands_at(fault_text(NodeFault::NoPasswordId(subject)), subject, at));
    lemma_stands_inside(head, subject, middle + name);
    assert(head + subject + (middle + name) =~= head + subject + middle + name);
    let at = head.len() as int;
    assert(text::stands_at(fault_text(NodeFault::UnknownPassword(subject)), subject, at));
    lemma_stands_at_end(head + subject + middle, name);
    let at = (head + subject + middle).len() as int;
    assert(text::stands_at(fault_text(NodeFault::UnknownPassword(subject)), name, at));
    lemma_stands_at_end("invalid content selector: "@, subject);
    let at = "invalid content selector: "@.len() as int;
    assert(text::stands_at(fault_text(NodeFault::BadContentSelector(subject)), subject, at));
    lemma_stands_at_end("content selector matched nothing: "@, subject);
    let at = "content selector matched nothing: "@.len() as int;
    assert(text::stands_at(fault_text(NodeFault::NoContent(subject)), subject, at));
    let many = "content selector matched more than one node (expected exactly one): "@;
    lemma_stands_at_end(many, subject);
    let at = many.len() as int;
    assert(text::stands_at(fault_text(NodeFault::ManyContents(subject)), subject, at));
}

proof fn lemma_stands_at_end(head: Seq<char>, part: Seq<char>)
    ensures
        text::stands_at(head + part, part, head.len() as int),
{
    lemma_stands_inside(head, part, Seq::empty());
    assert(head + part + Seq::<char>::empty() =~= head + part);
}

proof fn lemma_stands_inside(head: Seq<char>, part: Seq<char>, tail: Seq<char>)
    ensures
        text::stands_at(head + part + tail, part, head.len() as int),
{
    let whole = head + part + tail;
    assert(whole.subrange(head.len() as int, (head.len() + part.len()) as int) =~= part);
}

/// What is told of a node's content is all its children in HTML syntax.
pub proof fn law_told_content(page: &Page, node: usize, s: String)
    requires
        page.wf(),
        node < page@.len(),
        call_ensures(inner_markup, (page, node), s),
    ensures
        exists|cuts: Seq<int>| #[trigger]
            cuts_into_nodes(s@, page@, page@[node as int].children, cuts),
{
    law_inner_is_all_children(page@, node as int);
    let cuts = choose|cuts: Seq<int>| #[trigger]
        cuts_into_nodes(inner(page@, node as int), page@, page@[node as int].children, cuts);
    assert(cuts_into_nodes(s@, page@, page@[node as int].children, cuts));
}

/// What is to be done with a node is told as it is planned.
pub proof fn law_told_plan<'a>(
    page: &Page,
    node: usize,
    rule: &Rule,
    config: &'a Config,
    r: Result<Option<(usize, &'a Secret)>, NodeError>,
)
    requires
        page.wf(),
        node < page@.len(),
        call_ensures(plan_node, (page, node, rule, config), r),
    ensures
        match plan(page@, node as int, *rule, config.passwords@) {
            Plan::Skip => r matches Ok(None),
            Plan::Fault(fault) => r matches Err(error) && error@ == fault,
            Plan::Encrypt { content, password } => r matches Ok(Some(found)) && found.0 == content
                && found.1@ == password,
        },
{
}

/// What becomes of the page where a node is encrypted: with a content selector,
/// the matched content is emptied and the node carries the payload and the
/// selector; without one, the form with the payload, and with the hint of the
/// node, takes the place of what the node holds.
pub proof fn law_page_after_a_node(
    dom: Seq<DomNode>,
    node: int,
    rule: Rule,
    config: Config,
    payload: Encrypted,
)
    requires
        node_outcome(dom, node, rule, config, payload) == Ok::<bool, NodeFault>(true),
    ensures
        rule.content_selector matches Some(selector) ==> node_dom(dom, node, rule, config, payload)
            == with_own_form(
            dom,
            node,
            dom::matching(dom, 0, selector@)[0],
            rule,
            selector@,
            payload,
        ),
        rule.content_selector is None ==> node_dom(dom, node, rule, config, payload)
            == with_new_form(
            dom,
            node,
            rule,
            markup::unlock_markup(
                payload,
                match rule.hint_attribute {
                    Some(name) => if dom[node].attributes->0.contains_key(name@) {
                        Some(dom[node].attributes->0[name@])
                    } else {
                        None
                    },
                    None => None,
                },
                config.output.class_name@,
                config.output.ui,
            ),
        ),
{
}

/// Encrypting a node: nothing happens exactly where it carries a ciphertext
/// already; where it is encrypted, a payload of all that its content held, under
/// the password that it names, is what the page gets; a fault leaves the page as
/// it is.
pub proof fn law_encrypting_a_node(
    page: &mut Page,
    node: usize,
    rule: &Rule,
    config: &Config,
    r: Result<bool, NodeError>,
)
    requires
        old(page).wf(),
        node < old(page)@.len(),
        call_ensures(encrypt_node, (page, node, rule, config), r),
    ensures
        r == Ok::<bool, NodeError>(false) <==> plan(
            old(page)@,
            node as int,
            *rule,
            config.passwords@,
        ) is Skip,
        plan(old(page)@, node as int, *rule, config.passwords@) matches Plan::Fault(fault) ==> (
        r matches Err(error) && error@ == fault),
        r != Ok::<bool, NodeError>(true) ==> *final(page) == *old(page),
        r == Ok::<bool, NodeError>(true) ==> exists|payload: Encrypted|
            {
                &&& #[trigger] is_payload_for(payload, old(page)@, node as int, *rule, *config)
                &&& crypto::encrypts(
                    payload,
                    inner(
                        old(page)@,
                        match rule.content_selector {
                            Some(selector) => dom::matching(old(page)@, 0, selector@)[0],
                            None => node as int,
                        },
                    ),
                    config.passwords@[old(page)@[node as int].attributes->0[rule.password_id_attribute@]],
                    config.encryption.iterations,
                )
                &&& final(page)@ == node_dom(old(page)@, node as int, *rule, *config, payload)
            },
{
    let before = old(page)@;
    let payload = choose|payload: Encrypted|
        {
            &&& #[trigger] is_payload_for(payload, before, node as int, *rule, *config)
            &&& outcome_view(r) == node_outcome(before, node as int, *rule, *config, payload)
            &&& final(page)@ == node_dom(before, node as int, *rule, *config, payload)
        };
    law_outcome_follows_the_plan(before, node as int, *rule, *config, payload);
    if r == Ok::<bool, NodeError>(true) {
        law_payload_is_of_the_content(before, node as int, *rule, *config, payload);
    }
}

/// What is told of a fault is its text.
pub proof fn law_told_fault(error: &NodeError, s: String)
    requires
        call_ensures(NodeError::message, (error,), s),
    ensures
        s@ == fault_text(error@),
{
}

} // verus!
