//! A whole page: every node that a rule matches is encrypted.

use vstd::prelude::*;
use vstd::string::*;
use vstd::utf8::*;

use crate::config::{Config, Rule};
use crate::crypto::Encrypted;
use crate::dom;
use crate::dom::{compiles, DomNode, Page};
use crate::node;
use crate::node::{encrypt_node, NodeFault};

verus! {

// ---------------------------------------------------------------------------
// Selectors
// ---------------------------------------------------------------------------

/// A selector of a rule that is no list of CSS selectors.
#[derive(Debug)]
pub enum SelectorError {
    Selector(String),
    Content(String),
}

pub enum SelectorFault {
    Selector(Seq<char>),
    Content(Seq<char>),
}

impl View for SelectorError {
    type V = SelectorFault;

    open spec fn view(&self) -> SelectorFault {
        match self {
            SelectorError::Selector(s) => SelectorFault::Selector(s@),
            SelectorError::Content(s) => SelectorFault::Content(s@),
        }
    }
}

pub open spec fn selector_fault_text(fault: SelectorFault) -> Seq<char> {
    match fault {
        SelectorFault::Selector(s) => "invalid CSS selector: "@ + s,
        SelectorFault::Content(s) => "invalid content selector: "@ + s,
    }
}

impl SelectorError {
    pub fn message(&self) -> (s: String)
        ensures
            s@ == selector_fault_text(self@),
    {
        match self {
            SelectorError::Selector(selector) => {
                let mut s = "invalid CSS selector: ".to_string();
                s.append(selector.as_str());
                s
            },
            SelectorError::Content(selector) => {
                let mut s = "invalid content selector: ".to_string();
                s.append(selector.as_str());
                s
            },
        }
    }
}

pub open spec fn selector_fault(rule: Rule) -> Option<SelectorFault> {
    if !dom::is_selector(rule.selector@) {
        Some(SelectorFault::Selector(rule.selector@))
    } else {
        match rule.content_selector {
            Some(selector) => if !dom::is_selector(selector@) {
                Some(SelectorFault::Content(selector@))
            } else {
                None
            },
            None => None,
        }
    }
}

/// The first selector of the rules that is none.
pub open spec fn selectors_fault(rules: Seq<Rule>) -> Option<SelectorFault>
    decreases rules.len(),
{
    if rules.len() == 0 {
        None
    } else if selector_fault(rules[0]) is Some {
        selector_fault(rules[0])
    } else {
        selectors_fault(rules.drop_first())
    }
}

/// Finds a selector that is none before any page is read, so that it is not
/// reported once for every page.
pub fn validate_selectors(config: &Config) -> (r: Result<(), SelectorError>)
    ensures
        match selectors_fault(config.scanner.rules@) {
            Some(fault) => r is Err && r->Err_0@ == fault,
            None => r is Ok,
        },
{
    let ghost rules = config.scanner.rules@;
    proof {
        assert(rules.skip(0) =~= rules);
    }
    for i in 0..config.scanner.rules.len()
        invariant
            rules == config.scanner.rules@,
            selectors_fault(rules) == selectors_fault(rules.skip(i as int)),
    {
        let rule = &config.scanner.rules[i];
        proof {
            assert(rules.skip(i as int)[0] == rules[i as int]);
            assert(rules.skip(i as int).drop_first() =~= rules.skip(i + 1));
        }
        if !compiles(rule.selector.as_str()) {
            return Err(SelectorError::Selector(rule.selector.as_str().to_string()));
        }
        match &rule.content_selector {
            Some(selector) => {
                if !compiles(selector.as_str()) {
                    return Err(SelectorError::Content(selector.as_str().to_string()));
                }
            },
            None => {},
        }
    }
    Ok(())
}

// ---------------------------------------------------------------------------
// Targets
// ---------------------------------------------------------------------------

/// The nodes that one rule matches, each with the number of the rule.
pub open spec fn rule_targets(dom: Seq<DomNode>, rules: Seq<Rule>, k: int) -> Seq<(int, int)> {
    dom::matching(dom, 0, rules[k].selector@).map_values(|node: int| (node, k))
}

/// The nodes that the first rules match, rule by rule.
pub open spec fn all_targets(dom: Seq<DomNode>, rules: Seq<Rule>, k: int) -> Seq<(int, int)>
    decreases k,
{
    if k <= 0 {
        Seq::empty()
    } else {
        all_targets(dom, rules, k - 1) + rule_targets(dom, rules, k - 1)
    }
}

pub open spec fn has_node(targets: Seq<(int, int)>, node: int) -> bool {
    exists|i: int| 0 <= i < targets.len() && (#[trigger] targets[i]).0 == node
}

/// The targets, each node once: the first rule that matches it counts.
pub open spec fn each_once(targets: Seq<(int, int)>) -> Seq<(int, int)>
    decreases targets.len(),
{
    if targets.len() == 0 {
        targets
    } else {
        let before = each_once(targets.drop_last());
        if has_node(before, targets.last().0) {
            before
        } else {
            before.push(targets.last())
        }
    }
}

/// The nodes of a page that are to be encrypted, each with its rule.
pub open spec fn targets(dom: Seq<DomNode>, rules: Seq<Rule>) -> Seq<(int, int)> {
    each_once(all_targets(dom, rules, rules.len() as int))
}

/// The first rule whose selector is none.
pub open spec fn bad_selector(rules: Seq<Rule>) -> Option<Seq<char>>
    decreases rules.len(),
{
    if rules.len() == 0 {
        None
    } else if !dom::is_selector(rules[0].selector@) {
        Some(rules[0].selector@)
    } else {
        bad_selector(rules.drop_first())
    }
}

pub open spec fn pairs_view(pairs: Seq<(usize, usize)>) -> Seq<(int, int)> {
    pairs.map_values(|p: (usize, usize)| (p.0 as int, p.1 as int))
}

fn known(found: &Vec<(usize, usize)>, node: usize) -> (r: bool)
    ensures
        r == has_node(pairs_view(found@), node as int),
{
    for i in 0..found.len()
        invariant
            forall|j: int| 0 <= j < i ==> (#[trigger] found@[j]).0 != node,
    {
        if found[i].0 == node {
            proof {
                assert(pairs_view(found@)[i as int].0 == node);
            }
            return true;
        }
    }
    proof {
        if has_node(pairs_view(found@), node as int) {
            let i = choose|i: int|
                0 <= i < pairs_view(found@).len() && (#[trigger] pairs_view(found@)[i]).0 == node;
            assert(found@[i].0 == node);
        }
    }
    false
}

proof fn lemma_each_once_of_more(before: Seq<(int, int)>, more: Seq<(int, int)>, k: int)
    requires
        0 <= k < more.len(),
    ensures
        each_once(before + more.take(k + 1)) == (if has_node(
            each_once(before + more.take(k)),
            more[k].0,
        ) {
            each_once(before + more.take(k))
        } else {
            each_once(before + more.take(k)).push(more[k])
        }),
{
    let all = before + more.take(k + 1);
    assert(all.drop_last() =~= before + more.take(k));
    assert(all.last() == more[k]);
}

/// The nodes of a page that are to be encrypted, each with the number of its
/// rule, or else the first selector that is none.
pub fn find_targets(page: &Page, rules: &Vec<Rule>) -> (r: Result<Vec<(usize, usize)>, String>)
    requires
        page.wf(),
        page@.len() > 0,
    ensures
        match bad_selector(rules@) {
            Some(selector) => r is Err && r->Err_0@ == selector,
            None => r is Ok && pairs_view(r->Ok_0@) == targets(page@, rules@),
        },
        r is Ok ==> forall|i: int|
            0 <= i < r->Ok_0@.len() ==> {
                &&& (#[trigger] r->Ok_0@[i]).0 < page@.len()
                &&& r->Ok_0@[i].1 < rules@.len()
            },
{
    let mut found: Vec<(usize, usize)> = Vec::new();
    proof {
        assert(rules@.skip(0) =~= rules@);
        assert(pairs_view(found@) =~= each_once(all_targets(page@, rules@, 0)));
    }
    for k in 0..rules.len()
        invariant
            page.wf(),
            page@.len() > 0,
            bad_selector(rules@) == bad_selector(rules@.skip(k as int)),
            pairs_view(found@) == each_once(all_targets(page@, rules@, k as int)),
            forall|i: int|
                0 <= i < found@.len() ==> {
                    &&& (#[trigger] found@[i]).0 < page@.len()
                    &&& found@[i].1 < rules@.len()
                },
    {
        proof {
            assert(rules@.skip(k as int)[0] == rules@[k as int]);
            assert(rules@.skip(k as int).drop_first() =~= rules@.skip(k + 1));
        }
        let selected = match page.select(0, rules[k].selector.as_str()) {
            Some(selected) => selected,
            None => {
                return Err(rules[k].selector.as_str().to_string());
            },
        };
        let ghost before = all_targets(page@, rules@, k as int);
        let ghost more = rule_targets(page@, rules@, k as int);
        proof {
            assert(before + more.take(0) =~= before);
        }
        for i in 0..selected.len()
            invariant
                page.wf(),
                k < rules@.len(),
                dom::as_ints(selected@) == dom::matching(page@, 0, rules@[k as int].selector@),
                more == rule_targets(page@, rules@, k as int),
                pairs_view(found@) == each_once(before + more.take(i as int)),
                forall|i: int|
                    0 <= i < selected@.len() ==> (#[trigger] selected@[i] as int) < page@.len(),
                forall|i: int|
                    0 <= i < found@.len() ==> {
                        &&& (#[trigger] found@[i]).0 < page@.len()
                        &&& found@[i].1 < rules@.len()
                    },
        {
            proof {
                assert(dom::as_ints(selected@)[i as int] == selected@[i as int] as int);
                assert(more[i as int] == (selected@[i as int] as int, k as int));
                lemma_each_once_of_more(before, more, i as int);
            }
            if !known(&found, selected[i]) {
                proof {
                    assert(pairs_view(found@.push((selected@[i as int], k))) =~= pairs_view(
                        found@,
                    ).push((selected@[i as int] as int, k as int)));
                }
                found.push((selected[i], k));
            }
        }
        proof {
            assert(more.take(more.len() as int) =~= more);
        }
    }
    Ok(found)
}

// ---------------------------------------------------------------------------
// The page
// ---------------------------------------------------------------------------

/// The page after its first targets were encrypted, given their payloads.
pub open spec fn after_targets(
    dom: Seq<DomNode>,
    targets: Seq<(int, int)>,
    config: Config,
    payloads: Seq<Encrypted>,
) -> Seq<DomNode>
    decreases payloads.len(),
{
    if payloads.len() == 0 {
        dom
    } else {
        let k = payloads.len() - 1;
        node::node_dom(
            after_targets(dom, targets, config, payloads.drop_last()),
            targets[k].0,
            config.scanner.rules@[targets[k].1],
            config,
            payloads.last(),
        )
    }
}

/// What the first targets came to, given their payloads.
pub open spec fn target_outcomes(
    dom: Seq<DomNode>,
    targets: Seq<(int, int)>,
    config: Config,
    payloads: Seq<Encrypted>,
) -> Seq<Result<bool, NodeFault>>
    decreases payloads.len(),
{
    if payloads.len() == 0 {
        Seq::empty()
    } else {
        let k = payloads.len() - 1;
        target_outcomes(dom, targets, config, payloads.drop_last()).push(
            node::node_outcome(
                after_targets(dom, targets, config, payloads.drop_last()),
                targets[k].0,
                config.scanner.rules@[targets[k].1],
                config,
                payloads.last(),
            ),
        )
    }
}

/// The payloads are those of the first targets, each taken from the page as
/// the targets before it left it.
pub open spec fn are_payloads(
    dom: Seq<DomNode>,
    targets: Seq<(int, int)>,
    config: Config,
    payloads: Seq<Encrypted>,
) -> bool
    decreases payloads.len(),
{
    payloads.len() > 0 ==> {
        let k = payloads.len() - 1;
        &&& are_payloads(dom, targets, config, payloads.drop_last())
        &&& node::is_payload_for(
            payloads.last(),
            after_targets(dom, targets, config, payloads.drop_last()),
            targets[k].0,
            config.scanner.rules@[targets[k].1],
            config,
        )
    }
}

/// How many targets were encrypted.
pub open spec fn encrypted_count(outcomes: Seq<Result<bool, NodeFault>>) -> nat
    decreases outcomes.len(),
{
    if outcomes.len() == 0 {
        0
    } else {
        encrypted_count(outcomes.drop_last()) + (if outcomes.last() == Ok::<bool, NodeFault>(
            true,
        ) {
            1nat
        } else {
            0nat
        })
    }
}

/// What is said of a target that could not be encrypted.
pub open spec fn fault_line(rule: Rule, fault: NodeFault) -> Seq<char> {
    "rule '"@ + rule.selector@ + "': "@ + node::fault_text(fault)
}

/// What is said of the targets that could not be encrypted, one by one.
pub open spec fn fault_lines(
    outcomes: Seq<Result<bool, NodeFault>>,
    targets: Seq<(int, int)>,
    rules: Seq<Rule>,
) -> Seq<Seq<char>>
    decreases outcomes.len(),
{
    if outcomes.len() == 0 {
        Seq::empty()
    } else {
        let before = fault_lines(outcomes.drop_last(), targets, rules);
        match outcomes.last() {
            Ok(_) => before,
            Err(fault) => before.push(
                fault_line(rules[targets[outcomes.len() - 1].1], fault),
            ),
        }
    }
}

/// Texts, with a semicolon between them.
pub open spec fn listed(lines: Seq<Seq<char>>) -> Seq<char>
    decreases lines.len(),
{
    if lines.len() == 0 {
        Seq::empty()
    } else if lines.len() == 1 {
        lines[0]
    } else {
        listed(lines.drop_last()) + "; "@ + lines.last()
    }
}

pub open spec fn lines_view(lines: Seq<String>) -> Seq<Seq<char>> {
    lines.map_values(|s: String| s@)
}

/// Why a page could not be processed.
#[derive(Debug)]
pub enum PageError {
    /// The page is longer than the parser takes.
    TooLong,
    /// The selector of a rule is none.
    BadSelector(String),
    /// Nodes that could not be encrypted, one text for each.
    Nodes(Vec<String>),
}

pub enum PageFault {
    TooLong,
    BadSelector(Seq<char>),
    Nodes(Seq<Seq<char>>),
}

impl View for PageError {
    type V = PageFault;

    open spec fn view(&self) -> PageFault {
        match self {
            PageError::TooLong => PageFault::TooLong,
            PageError::BadSelector(s) => PageFault::BadSelector(s@),
            PageError::Nodes(lines) => PageFault::Nodes(lines_view(lines@)),
        }
    }
}

pub open spec fn page_fault_text(fault: PageFault) -> Seq<char> {
    match fault {
        PageFault::TooLong => "the page is too long to be parsed"@,
        PageFault::BadSelector(selector) => "invalid CSS selector: "@ + selector,
        PageFault::Nodes(lines) => listed(lines),
    }
}

fn list(lines: &Vec<String>) -> (s: String)
    ensures
        s@ == listed(lines_view(lines@)),
{
    let ghost all = lines_view(lines@);
    let mut s = String::new();
    for i in 0..lines.len()
        invariant
            all == lines_view(lines@),
            s@ == listed(all.take(i as int)),
    {
        proof {
            assert(all.take(i + 1).drop_last() =~= all.take(i as int));
            assert(all.take(i + 1).last() == lines@[i as int]@);
        }
        if i > 0 {
            s.append("; ");
        } else {
            proof {
                assert(s@ + lines@[0]@ =~= all.take(1)[0]);
            }
        }
        s.append(lines[i].as_str());
    }
    proof {
        assert(all.take(all.len() as int) =~= all);
    }
    s
}

impl PageError {
    pub fn message(&self) -> (s: String)
        ensures
            s@ == page_fault_text(self@),
    {
        match self {
            PageError::TooLong => "the page is too long to be parsed".to_string(),
            PageError::BadSelector(selector) => {
                let mut s = "invalid CSS selector: ".to_string();
                s.append(selector.as_str());
                s
            },
            PageError::Nodes(lines) => list(lines),
        }
    }
}

/// What came of a page.
pub struct PageOutcome {
    /// How many nodes were encrypted.
    pub encrypted: usize,
    /// The page to write, where there is one to write.
    pub rewritten: Option<String>,
}

/// What came of a page, given the payloads of its targets.
pub open spec fn page_came_to(
    dom: Seq<DomNode>,
    config: Config,
    dry_run: bool,
    payloads: Seq<Encrypted>,
    r: Result<PageOutcome, PageError>,
) -> bool {
    let targets = targets(dom, config.scanner.rules@);
    let outcomes = target_outcomes(dom, targets, config, payloads);
    let lines = fault_lines(outcomes, targets, config.scanner.rules@);
    let after = after_targets(dom, targets, config, payloads);
    &&& payloads.len() == targets.len()
    &&& are_payloads(dom, targets, config, payloads)
    &&& if lines.len() > 0 {
        r is Err && r->Err_0@ == PageFault::Nodes(lines)
    } else {
        &&& r is Ok
        &&& r->Ok_0.encrypted == encrypted_count(outcomes)
        &&& match r->Ok_0.rewritten {
            Some(html) => {
                &&& !dry_run && encrypted_count(outcomes) > 0
                &&& html@ == dom::written(after, 0)
            },
            None => dry_run || encrypted_count(outcomes) == 0,
        }
    }
}

/// Encrypts every node of a page that a rule matches. Where a node cannot be
/// encrypted the others are still looked at, so that all faults of the page are
/// told at once, and there is nothing to write.
pub fn process_page(html: &str, config: &Config, dry_run: bool) -> (r: Result<
    PageOutcome,
    PageError,
>)
    ensures
        if !dom::can_be_parsed(html@) {
            r is Err && r->Err_0@ == PageFault::TooLong
        } else {
            match bad_selector(config.scanner.rules@) {
                Some(selector) => r is Err && r->Err_0@ == PageFault::BadSelector(selector),
                None => exists|payloads: Seq<Encrypted>| #[trigger]
                    page_came_to(dom::parsed(html@), *config, dry_run, payloads, r),
            }
        },
        dry_run ==> (r matches Ok(outcome) ==> outcome.rewritten is None),
{
    let mut page = match Page::parse(html) {
        Some(page) => page,
        None => {
            return Err(PageError::TooLong);
        },
    };
    let ghost dom = page@;
    let rules = &config.scanner.rules;
    let found = match find_targets(&page, rules) {
        Ok(found) => found,
        Err(selector) => {
            return Err(PageError::BadSelector(selector));
        },
    };
    let ghost all = targets(dom, rules@);
    let ghost mut payloads = Seq::<Encrypted>::empty();
    let mut encrypted: usize = 0;
    let mut lines: Vec<String> = Vec::new();
    proof {
        assert(lines_view(lines@) =~= Seq::<Seq<char>>::empty());
    }
    for k in 0..found.len()
        invariant
            page.wf(),
            rules@ == config.scanner.rules@,
            all == pairs_view(found@),
            page@.len() > 0,
            forall|i: int|
                0 <= i < found@.len() ==> {
                    &&& (#[trigger] found@[i]).0 < page@.len()
                    &&& found@[i].1 < rules@.len()
                },
            payloads.len() == k,
            are_payloads(dom, all, *config, payloads),
            page@ == after_targets(dom, all, *config, payloads),
            encrypted == encrypted_count(target_outcomes(dom, all, *config, payloads)),
            encrypted <= k,
            lines_view(lines@) == fault_lines(
                target_outcomes(dom, all, *config, payloads),
                all,
                rules@,
            ),
            target_outcomes(dom, all, *config, payloads).len() == k,
    {
        let node: usize = found[k].0;
        let rule = &rules[found[k].1];
        let ghost before = page@;
        let ghost earlier = payloads;
        let outcome = encrypt_node(&mut page, node, rule, config);
        proof {
            assert(all[k as int] == (found@[k as int].0 as int, found@[k as int].1 as int));
            let payload = choose|payload: Encrypted|
                {
                    &&& #[trigger] node::is_payload_for(
                        payload,
                        before,
                        node as int,
                        *rule,
                        *config,
                    )
                    &&& node::outcome_view(outcome) == node::node_outcome(
                        before,
                        node as int,
                        *rule,
                        *config,
                        payload,
                    )
                    &&& page@ == node::node_dom(before, node as int, *rule, *config, payload)
                };
            payloads = payloads.push(payload);
            assert(payloads.drop_last() =~= earlier);
            let outcomes = target_outcomes(dom, all, *config, payloads);
            assert(outcomes.drop_last() =~= target_outcomes(dom, all, *config, earlier));
            assert(outcomes.last() == node::outcome_view(outcome));
        }
        match outcome {
            Ok(true) => {
                encrypted = encrypted + 1;
            },
            Ok(false) => {},
            Err(error) => {
                let mut line = "rule '".to_string();
                line.append(rule.selector.as_str());
                line.append("': ");
                line.append(error.message().as_str());
                proof {
                    assert(lines_view(lines@.push(line)) =~= lines_view(lines@).push(line@));
                }
                lines.push(line);
            },
        }
    }
    let r = if lines.len() > 0 {
        Err(PageError::Nodes(lines))
    } else {
        let rewritten = if !dry_run && encrypted > 0 {
            Some(page.write(0))
        } else {
            None
        };
        Ok(PageOutcome { encrypted, rewritten })
    };
    proof {
        assert(page_came_to(dom, *config, dry_run, payloads, r));
    }
    r
}

// ---------------------------------------------------------------------------
// Laws
// ---------------------------------------------------------------------------

/// Selectors that were found valid once are never found invalid on a page.
pub proof fn law_valid_selectors_stay_valid(
    rules: Seq<Rule>,
    dom: Seq<DomNode>,
    node: int,
    k: int,
    passwords: Map<Seq<char>, Seq<char>>,
)
    requires
        selectors_fault(rules) is None,
        0 <= k < rules.len(),
    ensures
        bad_selector(rules) is None,
        !(node::plan(dom, node, rules[k], passwords) matches node::Plan::Fault(fault)
            && fault is BadContentSelector),
    decreases rules.len(),
{
    if k > 0 {
        assert(rules.drop_first()[k - 1] == rules[k]);
        law_valid_selectors_stay_valid(rules.drop_first(), dom, node, k - 1, passwords);
    } else {
        lemma_no_bad_selector(rules);
    }
}

proof fn lemma_no_bad_selector(rules: Seq<Rule>)
    requires
        selectors_fault(rules) is None,
    ensures
        bad_selector(rules) is None,
    decreases rules.len(),
{
    if rules.len() > 0 {
        lemma_no_bad_selector(rules.drop_first());
    }
}

/// Passwords reach a page through the payloads alone: with other passwords
/// under the same aliases, the same payloads give the same outcomes and page.
pub proof fn law_passwords_stay_off_the_page(
    dom: Seq<DomNode>,
    targets: Seq<(int, int)>,
    a: Config,
    b: Config,
    payloads: Seq<Encrypted>,
)
    requires
        a.passwords@.dom() == b.passwords@.dom(),
        a.scanner == b.scanner,
        a.output == b.output,
    ensures
        after_targets(dom, targets, a, payloads) == after_targets(dom, targets, b, payloads),
        target_outcomes(dom, targets, a, payloads) == target_outcomes(dom, targets, b, payloads),
    decreases payloads.len(),
{
    if payloads.len() > 0 {
        law_passwords_stay_off_the_page(dom, targets, a, b, payloads.drop_last());
        let k = payloads.len() - 1;
        node::law_passwords_stay_off_the_page(
            after_targets(dom, targets, a, payloads.drop_last()),
            targets[k].0,
            a.scanner.rules@[targets[k].1],
            a,
            b,
            payloads.last(),
        );
    }
}

/// No node is a target twice.
pub proof fn law_each_node_once(targets: Seq<(int, int)>)
    ensures
        forall|i: int, j: int|
            0 <= i < j < each_once(targets).len() ==> (#[trigger] each_once(targets)[i]).0 != (
            #[trigger] each_once(targets)[j]).0,
        forall|node: int| has_node(targets, node) <==> #[trigger] has_node(
            each_once(targets),
            node,
        ),
    decreases targets.len(),
{
    if targets.len() > 0 {
        let shorter = targets.drop_last();
        law_each_node_once(shorter);
        let before = each_once(shorter);
        let all = each_once(targets);
        assert forall|i: int, j: int| 0 <= i < j < all.len() implies (#[trigger] all[i]).0 != (
        #[trigger] all[j]).0 by {
            assert(all[i] == before[i]);
            if j < before.len() {
                assert(all[j] == before[j]);
            }
        }
        assert forall|node: int| has_node(targets, node) <==> #[trigger] has_node(all, node) by {
            if has_node(targets, node) {
                let i = choose|i: int| 0 <= i < targets.len() && (#[trigger] targets[i]).0 == node;
                if i < shorter.len() {
                    assert(shorter[i].0 == node);
                    assert(has_node(before, node));
                    let j = choose|j: int|
                        0 <= j < before.len() && (#[trigger] before[j]).0 == node;
                    assert(all[j].0 == node);
                } else if has_node(before, node) {
                    let j = choose|j: int|
                        0 <= j < before.len() && (#[trigger] before[j]).0 == node;
                    assert(all[j].0 == node);
                } else {
                    assert(all[all.len() - 1].0 == node);
                }
            }
            if has_node(all, node) {
                let j = choose|j: int| 0 <= j < all.len() && (#[trigger] all[j]).0 == node;
                if j < before.len() {
                    assert(before[j].0 == node);
                    assert(has_node(before, node));
                    let i = choose|i: int|
                        0 <= i < shorter.len() && (#[trigger] shorter[i]).0 == node;
                    assert(targets[i].0 == node);
                } else {
                    assert(targets[targets.len() - 1].0 == node);
                }
            }
        }
    }
}

/// The pair is the match at `a` of the rule numbered `k`.
pub open spec fn is_match(
    dom: Seq<DomNode>,
    rules: Seq<Rule>,
    k: int,
    a: int,
    pair: (int, int),
) -> bool {
    &&& 0 <= k < rules.len()
    &&& 0 <= a < dom::matching(dom, 0, rules[k].selector@).len()
    &&& pair == (dom::matching(dom, 0, rules[k].selector@)[a], k)
}

proof fn lemma_earlier_targets(dom: Seq<DomNode>, rules: Seq<Rule>, j: int, k: int)
    requires
        0 <= j <= k,
    ensures
        all_targets(dom, rules, j).len() <= all_targets(dom, rules, k).len(),
        all_targets(dom, rules, j) == all_targets(dom, rules, k).take(
            all_targets(dom, rules, j).len() as int,
        ),
    decreases k,
{
    let short = all_targets(dom, rules, j);
    let long = all_targets(dom, rules, k);
    if j < k {
        lemma_earlier_targets(dom, rules, j, k - 1);
        let middle = all_targets(dom, rules, k - 1);
        assert(middle.take(short.len() as int) =~= long.take(short.len() as int));
    } else {
        assert(long.take(long.len() as int) =~= long);
    }
}

proof fn lemma_match_is_listed(dom: Seq<DomNode>, rules: Seq<Rule>, k: int, a: int)
    requires
        0 <= k < rules.len(),
        0 <= a < dom::matching(dom, 0, rules[k].selector@).len(),
    ensures
        ({
            let all = all_targets(dom, rules, rules.len() as int);
            let at = all_targets(dom, rules, k).len() + a;
            0 <= at < all.len() && all[at] == (dom::matching(dom, 0, rules[k].selector@)[a], k)
        }),
{
    lemma_earlier_targets(dom, rules, k + 1, rules.len() as int);
    let upto = all_targets(dom, rules, k + 1);
    let at = all_targets(dom, rules, k).len() + a;
    assert(upto[at] == rule_targets(dom, rules, k)[a]);
    assert(all_targets(dom, rules, rules.len() as int).take(upto.len() as int)[at] == upto[at]);
}

proof fn lemma_listed_is_match(dom: Seq<DomNode>, rules: Seq<Rule>, n: int, p: int) -> (r: (
    int,
    int,
))
    requires
        0 <= n <= rules.len(),
        0 <= p < all_targets(dom, rules, n).len(),
    ensures
        r.0 < n,
        is_match(dom, rules, r.0, r.1, all_targets(dom, rules, n)[p]),
        p == all_targets(dom, rules, r.0).len() + r.1,
    decreases n,
{
    let before = all_targets(dom, rules, n - 1);
    if p < before.len() {
        lemma_listed_is_match(dom, rules, n - 1, p)
    } else {
        let a = p - before.len();
        assert(all_targets(dom, rules, n)[p] == rule_targets(dom, rules, n - 1)[a]);
        (n - 1, a)
    }
}

/// Where the targets that count stand among all targets: each at the first
/// place that has its node, and in the order that they had.
proof fn lemma_first_places(all: Seq<(int, int)>) -> (places: Seq<int>)
    ensures
        places.len() == each_once(all).len(),
        forall|i: int|
            0 <= i < places.len() ==> {
                &&& 0 <= #[trigger] places[i] < all.len()
                &&& each_once(all)[i] == all[places[i]]
                &&& forall|q: int| 0 <= q < places[i] ==> (#[trigger] all[q]).0 != all[places[i]].0
            },
        forall|i: int, j: int|
            0 <= i < j < places.len() ==> #[trigger] places[i] < #[trigger] places[j],
    decreases all.len(),
{
    if all.len() == 0 {
        Seq::empty()
    } else {
        let shorter = all.drop_last();
        let before = lemma_first_places(shorter);
        let n = all.len() - 1;
        let places = if has_node(each_once(shorter), all.last().0) {
            before
        } else {
            before.push(n)
        };
        law_each_node_once(shorter);
        assert forall|i: int| 0 <= i < places.len() implies {
            &&& 0 <= #[trigger] places[i] < all.len()
            &&& each_once(all)[i] == all[places[i]]
            &&& forall|q: int| 0 <= q < places[i] ==> (#[trigger] all[q]).0 != all[places[i]].0
        } by {
            if i < before.len() {
                assert(places[i] == before[i]);
                assert(shorter[before[i]] == all[before[i]]);
                assert forall|q: int| 0 <= q < places[i] implies (#[trigger] all[q]).0
                    != all[places[i]].0 by {
                    assert(shorter[q] == all[q]);
                }
            } else {
                assert(places[i] == n);
                assert forall|q: int| 0 <= q < n implies (#[trigger] all[q]).0 != all[n].0 by {
                    assert(shorter[q] == all[q]);
                    if all[q].0 == all[n].0 {
                        assert(has_node(shorter, all[n].0));
                    }
                }
            }
        }
        places
    }
}

/// Every node that a rule matches is a target.
pub proof fn law_every_match_is_a_target(
    dom: Seq<DomNode>,
    rules: Seq<Rule>,
    k: int,
    node: int,
)
    requires
        0 <= k < rules.len(),
    ensures
        dom::matching(dom, 0, rules[k].selector@).contains(node) ==> exists|i: int|
            0 <= i < targets(dom, rules).len() && (#[trigger] targets(dom, rules)[i]).0 == node,
{
    let found = dom::matching(dom, 0, rules[k].selector@);
    if found.contains(node) {
        let a = choose|a: int| 0 <= a < found.len() && found[a] == node;
        let all = all_targets(dom, rules, rules.len() as int);
        lemma_match_is_listed(dom, rules, k, a);
        assert(all[all_targets(dom, rules, k).len() + a].0 == node);
        assert(has_node(all, node));
        law_each_node_once(all);
        assert(has_node(targets(dom, rules), node));
        let i = choose|i: int|
            0 <= i < targets(dom, rules).len() && (#[trigger] targets(dom, rules)[i]).0 == node;
        assert(targets(dom, rules)[i].0 == node);
    }
}

/// Every target is a node that its rule matches, and that no rule before it
/// does.
pub proof fn law_targets_are_first_matches(dom: Seq<DomNode>, rules: Seq<Rule>, i: int)
    requires
        0 <= i < targets(dom, rules).len(),
    ensures
        ({
            let (node, k) = targets(dom, rules)[i];
            &&& 0 <= k < rules.len()
            &&& dom::matching(dom, 0, rules[k].selector@).contains(node)
            &&& forall|j: int|
                0 <= j < k ==> !(#[trigger] dom::matching(dom, 0, rules[j].selector@)).contains(
                    node,
                )
        }),
{
    let all = all_targets(dom, rules, rules.len() as int);
    let places = lemma_first_places(all);
    let p = places[i];
    let (k, a) = lemma_listed_is_match(dom, rules, rules.len() as int, p);
    let node = all[p].0;
    assert(dom::matching(dom, 0, rules[k].selector@)[a] == node);
    assert forall|j: int| 0 <= j < k implies !(#[trigger] dom::matching(
        dom,
        0,
        rules[j].selector@,
    )).contains(node) by {
        let earlier = dom::matching(dom, 0, rules[j].selector@);
        if earlier.contains(node) {
            let b = choose|b: int| 0 <= b < earlier.len() && earlier[b] == node;
            lemma_match_is_listed(dom, rules, j, b);
            lemma_earlier_targets(dom, rules, j + 1, k);
            assert(all_targets(dom, rules, j + 1).len() == all_targets(dom, rules, j).len()
                + earlier.len());
            assert(all[all_targets(dom, rules, j).len() + b].0 == node);
        }
    }
}

/// Targets stand in the order of their rules, and those of one rule in the
/// order in which it matches them.
pub proof fn law_targets_in_order(dom: Seq<DomNode>, rules: Seq<Rule>, i: int, j: int)
    requires
        0 <= i < j < targets(dom, rules).len(),
    ensures
        targets(dom, rules)[i].0 != targets(dom, rules)[j].0,
        targets(dom, rules)[i].1 <= targets(dom, rules)[j].1,
        targets(dom, rules)[i].1 == targets(dom, rules)[j].1 ==> exists|a: int, b: int|
            0 <= a < b && #[trigger] is_match(
                dom,
                rules,
                targets(dom, rules)[i].1,
                a,
                targets(dom, rules)[i],
            ) && #[trigger] is_match(
                dom,
                rules,
                targets(dom, rules)[i].1,
                b,
                targets(dom, rules)[j],
            ),
{
    let all = all_targets(dom, rules, rules.len() as int);
    let places = lemma_first_places(all);
    assert(places[i] < places[j]);
    let (k, a) = lemma_listed_is_match(dom, rules, rules.len() as int, places[i]);
    let (l, b) = lemma_listed_is_match(dom, rules, rules.len() as int, places[j]);
    law_each_node_once(all);
    if l < k {
        lemma_earlier_targets(dom, rules, l + 1, k);
        assert(all_targets(dom, rules, l + 1).len() == all_targets(dom, rules, l).len()
            + dom::matching(dom, 0, rules[l].selector@).len());
    }
    assert(is_match(dom, rules, k, a, all[places[i]]));
    assert(is_match(dom, rules, l, b, all[places[j]]));
}

/// A page is searched unless a selector is none; the first such one is told.
pub proof fn law_first_bad_selector(rules: Seq<Rule>)
    ensures
        bad_selector(rules) is None <==> forall|i: int|
            0 <= i < rules.len() ==> dom::is_selector(#[trigger] rules[i].selector@),
        bad_selector(rules) matches Some(selector) ==> exists|i: int|
            {
                &&& 0 <= i < rules.len()
                &&& #[trigger] rules[i].selector@ == selector
                &&& !dom::is_selector(selector)
                &&& forall|j: int| 0 <= j < i ==> dom::is_selector(#[trigger] rules[j].selector@)
            },
    decreases rules.len(),
{
    if rules.len() > 0 {
        let rest = rules.drop_first();
        law_first_bad_selector(rest);
        assert forall|i: int| 0 < i < rules.len() implies #[trigger] rules[i].selector@ == rest[i
            - 1].selector@ by {}
        if dom::is_selector(rules[0].selector@) {
            if bad_selector(rest) is Some {
                let selector = bad_selector(rest)->0;
                let i = choose|i: int|
                    {
                        &&& 0 <= i < rest.len()
                        &&& #[trigger] rest[i].selector@ == selector
                        &&& !dom::is_selector(selector)
                        &&& forall|j: int|
                            0 <= j < i ==> dom::is_selector(#[trigger] rest[j].selector@)
                    };
                assert(rules[i + 1].selector@ == selector);
                assert forall|j: int| 0 <= j < i + 1 implies dom::is_selector(
                    #[trigger] rules[j].selector@,
                ) by {
                    if j > 0 {
                        assert(rest[j - 1].selector@ == rules[j].selector@);
                    }
                }
            } else {
                assert forall|i: int| 0 <= i < rules.len() implies dom::is_selector(
                    #[trigger] rules[i].selector@,
                ) by {
                    if i > 0 {
                        assert(dom::is_selector(rest[i - 1].selector@));
                    }
                }
            }
        } else {
            assert(rules[0].selector@ == bad_selector(rules)->0);
        }
    }
}

/// Every selector of every rule can be compiled, the content selectors too.
pub open spec fn all_compile(rules: Seq<Rule>) -> bool {
    forall|i: int|
        0 <= i < rules.len() ==> dom::is_selector((#[trigger] rules[i]).selector@) && (
        rules[i].content_selector matches Some(selector) ==> dom::is_selector(selector@))
}

/// The selectors are accepted exactly where all of them can be compiled, and
/// what is told otherwise is a selector of some rule that cannot.
pub proof fn law_which_selectors_are_accepted(rules: Seq<Rule>)
    ensures
        selectors_fault(rules) is None <==> all_compile(rules),
        selectors_fault(rules) matches Some(SelectorFault::Selector(selector)) ==> exists|i: int|
            0 <= i < rules.len() && (#[trigger] rules[i]).selector@ == selector
                && !dom::is_selector(selector) && all_compile(rules.take(i)),
        selectors_fault(rules) matches Some(SelectorFault::Content(selector)) ==> exists|i: int|
            0 <= i < rules.len() && ((#[trigger] rules[i]).content_selector matches Some(s) && s@
                == selector) && dom::is_selector(rules[i].selector@) && !dom::is_selector(selector)
                && all_compile(rules.take(i)),
    decreases rules.len(),
{
    if rules.len() > 0 {
        let rest = rules.drop_first();
        law_which_selectors_are_accepted(rest);
        if selector_fault(rules[0]) is None {
            if all_compile(rest) {
                assert forall|i: int| 0 <= i < rules.len() implies dom::is_selector(
                    (#[trigger] rules[i]).selector@,
                ) && (rules[i].content_selector matches Some(selector) ==> dom::is_selector(
                    selector@,
                )) by {
                    if i > 0 {
                        assert(rest[i - 1] == rules[i]);
                    }
                }
            }
            if all_compile(rules) {
                assert forall|i: int| 0 <= i < rest.len() implies dom::is_selector(
                    (#[trigger] rest[i]).selector@,
                ) && (rest[i].content_selector matches Some(selector) ==> dom::is_selector(
                    selector@,
                )) by {
                    assert(rules[i + 1] == rest[i]);
                }
            }
            assert forall|i: int| 0 <= i < rest.len() && all_compile(
                #[trigger] rest.take(i),
            ) implies all_compile(rules.take(i + 1)) && rules[i + 1] == rest[i] by {
                let upto = rules.take(i + 1);
                assert forall|j: int| 0 <= j < upto.len() implies dom::is_selector(
                    (#[trigger] upto[j]).selector@,
                ) && (upto[j].content_selector matches Some(selector) ==> dom::is_selector(
                    selector@,
                )) by {
                    if j > 0 {
                        assert(rest.take(i)[j - 1] == upto[j]);
                    }
                }
            }
            match selectors_fault(rest) {
                Some(SelectorFault::Selector(selector)) => {
                    let i = choose|i: int|
                        0 <= i < rest.len() && (#[trigger] rest[i]).selector@ == selector
                            && !dom::is_selector(selector) && all_compile(rest.take(i));
                    assert(all_compile(rules.take(i + 1)));
                    assert(rules[i + 1].selector@ == selector);
                },
                Some(SelectorFault::Content(selector)) => {
                    let i = choose|i: int|
                        0 <= i < rest.len() && ((#[trigger] rest[i]).content_selector matches Some(
                            s,
                        ) && s@ == selector) && dom::is_selector(rest[i].selector@)
                            && !dom::is_selector(selector) && all_compile(rest.take(i));
                    assert(all_compile(rules.take(i + 1)));
                    assert(rules[i + 1] == rest[i]);
                },
                None => {},
            }
        } else {
            assert(all_compile(rules.take(0)));
            assert(rules[0].selector@ == rules[0].selector@);
        }
    }
}

/// The nodes that count as encrypted are those, and all those, that were.
pub proof fn law_encrypted_are_counted(outcomes: Seq<Result<bool, NodeFault>>)
    ensures
        encrypted_count(outcomes) == outcomes.filter(
            |outcome: Result<bool, NodeFault>| outcome == Ok::<bool, NodeFault>(true),
        ).len(),
        encrypted_count(outcomes) == 0 <==> forall|i: int|
            0 <= i < outcomes.len() ==> #[trigger] outcomes[i] != Ok::<bool, NodeFault>(true),
    decreases outcomes.len(),
{
    reveal(Seq::filter);
    if outcomes.len() > 0 {
        let shorter = outcomes.drop_last();
        law_encrypted_are_counted(shorter);
        assert forall|i: int| 0 <= i < shorter.len() implies #[trigger] shorter[i]
            == outcomes[i] by {}
        if encrypted_count(outcomes) == 0 {
            assert forall|i: int| 0 <= i < outcomes.len() implies #[trigger] outcomes[i] != Ok::<
                bool,
                NodeFault,
            >(true) by {
                if i < shorter.len() {
                    assert(shorter[i] == outcomes[i]);
                }
            }
        } else if encrypted_count(shorter) > 0 {
            let i = choose|i: int|
                0 <= i < shorter.len() && #[trigger] shorter[i] == Ok::<bool, NodeFault>(true);
            assert(outcomes[i] == Ok::<bool, NodeFault>(true));
        } else {
            assert(outcomes[outcomes.len() - 1] == Ok::<bool, NodeFault>(true));
        }
    }
}

/// One target more: a fault adds one line, which names the selector of the
/// target's rule and says what is wrong, and nothing else adds one.
pub proof fn law_each_fault_is_told(
    outcomes: Seq<Result<bool, NodeFault>>,
    targets: Seq<(int, int)>,
    rules: Seq<Rule>,
    outcome: Result<bool, NodeFault>,
)
    ensures
        fault_lines(Seq::empty(), targets, rules).len() == 0,
        fault_lines(outcomes.push(outcome), targets, rules) == (match outcome {
            Ok(_) => fault_lines(outcomes, targets, rules),
            Err(fault) => fault_lines(outcomes, targets, rules).push(
                "rule '"@ + rules[targets[outcomes.len() as int].1].selector@ + "': "@
                    + node::fault_text(fault),
            ),
        }),
{
    assert(outcomes.push(outcome).drop_last() =~= outcomes);
}

proof fn lemma_no_lines(
    outcomes: Seq<Result<bool, NodeFault>>,
    targets: Seq<(int, int)>,
    rules: Seq<Rule>,
)
    ensures
        fault_lines(outcomes, targets, rules).len() == 0 <==> forall|i: int|
            0 <= i < outcomes.len() ==> (#[trigger] outcomes[i]) is Ok,
    decreases outcomes.len(),
{
    if outcomes.len() > 0 {
        let shorter = outcomes.drop_last();
        lemma_no_lines(shorter, targets, rules);
        assert forall|i: int| 0 <= i < shorter.len() implies #[trigger] shorter[i]
            == outcomes[i] by {}
        if fault_lines(outcomes, targets, rules).len() == 0 {
            assert forall|i: int| 0 <= i < outcomes.len() implies (
            #[trigger] outcomes[i]) is Ok by {
                if i < shorter.len() {
                    assert(shorter[i] == outcomes[i]);
                }
            }
        } else if fault_lines(shorter, targets, rules).len() > 0 {
            let i = choose|i: int| 0 <= i < shorter.len() && (#[trigger] shorter[i]) is Err;
            assert(outcomes[i] is Err);
        } else {
            assert(outcomes[outcomes.len() - 1] is Err);
        }
    }
}

/// All lines are told, one behind the other.
pub proof fn law_all_lines_are_told(lines: Seq<Seq<char>>, line: Seq<char>)
    ensures
        listed(Seq::empty()).len() == 0,
        listed(seq![line]) == line,
        lines.len() > 0 ==> listed(lines.push(line)) == listed(lines) + "; "@ + line,
{
    assert(lines.push(line).drop_last() =~= lines);
}

/// One target after the other: each is encrypted on the page as those before
/// it left it, under the rule that it was found by.
pub proof fn law_target_by_target(
    dom: Seq<DomNode>,
    targets: Seq<(int, int)>,
    config: Config,
    payloads: Seq<Encrypted>,
    payload: Encrypted,
)
    ensures
        after_targets(dom, targets, config, Seq::empty()) == dom,
        target_outcomes(dom, targets, config, payloads).len() == payloads.len(),
        ({
            let page = after_targets(dom, targets, config, payloads);
            let node = targets[payloads.len() as int].0;
            let rule = config.scanner.rules@[targets[payloads.len() as int].1];
            &&& after_targets(dom, targets, config, payloads.push(payload)) == node::node_dom(
                page,
                node,
                rule,
                config,
                payload,
            )
            &&& target_outcomes(dom, targets, config, payloads.push(payload)) == target_outcomes(
                dom,
                targets,
                config,
                payloads,
            ).push(node::node_outcome(page, node, rule, config, payload))
            &&& are_payloads(dom, targets, config, payloads.push(payload)) <==> are_payloads(
                dom,
                targets,
                config,
                payloads,
            ) && node::is_payload_for(payload, page, node, rule, config)
        }),
    decreases payloads.len(),
{
    assert(payloads.push(payload).drop_last() =~= payloads);
    if payloads.len() > 0 {
        law_target_by_target(dom, targets, config, payloads.drop_last(), payloads.last());
    }
}

/// A page succeeds exactly where every target does. Then as many nodes count as
/// were encrypted, and the page is written, with all of them, unless none was
/// or the run is dry. A page on which a target fails is not written at all.
pub proof fn law_what_comes_of_a_page(
    dom: Seq<DomNode>,
    config: Config,
    dry_run: bool,
    payloads: Seq<Encrypted>,
    r: Result<PageOutcome, PageError>,
)
    requires
        page_came_to(dom, config, dry_run, payloads, r),
    ensures
        ({
            let found = targets(dom, config.scanner.rules@);
            let outcomes = target_outcomes(dom, found, config, payloads);
            &&& outcomes.len() == found.len()
            &&& r is Ok <==> forall|i: int|
                0 <= i < outcomes.len() ==> (#[trigger] outcomes[i]) is Ok
            &&& r matches Ok(outcome) ==> {
                &&& outcome.encrypted == outcomes.filter(
                    |outcome: Result<bool, NodeFault>| outcome == Ok::<bool, NodeFault>(true),
                ).len()
                &&& outcome.rewritten is Some <==> !dry_run && exists|i: int|
                    0 <= i < outcomes.len() && #[trigger] outcomes[i] == Ok::<bool, NodeFault>(true)
                &&& outcome.rewritten matches Some(html) ==> html@ == dom::written(
                    after_targets(dom, found, config, payloads),
                    0,
                )
            }
            &&& r matches Err(error) ==> error@ == PageFault::Nodes(
                fault_lines(outcomes, found, config.scanner.rules@),
            )
        }),
{
    let found = targets(dom, config.scanner.rules@);
    let outcomes = target_outcomes(dom, found, config, payloads);
    lemma_no_lines(outcomes, found, config.scanner.rules@);
    law_encrypted_are_counted(outcomes);
    law_target_by_target(dom, found, config, payloads, arbitrary());
}

/// What finding the targets of a page gives: every node that a rule matches, by
/// the first rule that does, and no other node; unless a selector is none.
pub proof fn law_what_is_found(
    page: &Page,
    rules: &Vec<Rule>,
    r: Result<Vec<(usize, usize)>, String>,
)
    requires
        page.wf(),
        page@.len() > 0,
        call_ensures(find_targets, (page, rules), r),
    ensures
        r is Ok <==> forall|i: int|
            0 <= i < rules@.len() ==> dom::is_selector(#[trigger] rules@[i].selector@),
        r matches Ok(found) ==> {
            &&& forall|k: int, node: int|
                0 <= k < rules@.len() && #[trigger] dom::matching(
                    page@,
                    0,
                    rules@[k].selector@,
                ).contains(node) ==> exists|i: int|
                    0 <= i < found@.len() && (#[trigger] found@[i]).0 == node
            &&& forall|i: int|
                0 <= i < found@.len() ==> {
                    let (node, k) = #[trigger] found@[i];
                    &&& k < rules@.len()
                    &&& dom::matching(page@, 0, rules@[k as int].selector@).contains(node as int)
                    &&& forall|j: int|
                        0 <= j < k ==> !(#[trigger] dom::matching(
                            page@,
                            0,
                            rules@[j].selector@,
                        )).contains(node as int)
                }
        },
{
    law_first_bad_selector(rules@);
    if let Ok(found) = r {
        let all = targets(page@, rules@);
        assert(all == pairs_view(found@));
        assert forall|k: int, node: int|
            0 <= k < rules@.len() && #[trigger] dom::matching(
                page@,
                0,
                rules@[k].selector@,
            ).contains(node) implies exists|i: int|
            0 <= i < found@.len() && (#[trigger] found@[i]).0 == node by {
            law_every_match_is_a_target(page@, rules@, k, node);
            let i = choose|i: int|
                0 <= i < targets(page@, rules@).len() && (#[trigger] targets(
                    page@,
                    rules@,
                )[i]).0 == node;
            assert(all[i] == (found@[i].0 as int, found@[i].1 as int));
            assert(found@[i].0 == node);
        }
        assert forall|i: int| 0 <= i < found@.len() implies {
            let (node, k) = #[trigger] found@[i];
            &&& k < rules@.len()
            &&& dom::matching(page@, 0, rules@[k as int].selector@).contains(node as int)
            &&& forall|j: int|
                0 <= j < k ==> !(#[trigger] dom::matching(
                    page@,
                    0,
                    rules@[j].selector@,
                )).contains(node as int)
        } by {
            assert(all[i] == (found@[i].0 as int, found@[i].1 as int));
            law_targets_are_first_matches(page@, rules@, i);
        }
    }
}

/// Selectors are accepted exactly where all of them can be compiled.
pub proof fn law_checking_selectors(config: &Config, r: Result<(), SelectorError>)
    requires
        call_ensures(validate_selectors, (config,), r),
    ensures
        r is Ok <==> all_compile(config.scanner.rules@),
        r matches Err(error) ==> selectors_fault(config.scanner.rules@) == Some(error@),
{
    law_which_selectors_are_accepted(config.scanner.rules@);
}

/// A page that is too long to be parsed is refused, and so is a selector that is
/// none; any other page comes to what its targets come to.
pub proof fn law_processing_a_page(
    html: &str,
    config: &Config,
    dry_run: bool,
    r: Result<PageOutcome, PageError>,
)
    requires
        call_ensures(process_page, (html, config, dry_run), r),
    ensures
        !dom::can_be_parsed(html@) ==> (r matches Err(error) && error@ == PageFault::TooLong),
        dom::can_be_parsed(html@) && bad_selector(config.scanner.rules@) is Some ==> (
        r matches Err(error) && error@ == PageFault::BadSelector(
            bad_selector(config.scanner.rules@)->0,
        )),
        dom::can_be_parsed(html@) && bad_selector(config.scanner.rules@) is None ==> exists|
            payloads: Seq<Encrypted>,
        |
            #![trigger are_payloads(
                dom::parsed(html@),
                targets(dom::parsed(html@), config.scanner.rules@),
                *config,
                payloads,
            )]
            {
                let dom = dom::parsed(html@);
                let found = targets(dom, config.scanner.rules@);
                let outcomes = target_outcomes(dom, found, *config, payloads);
                &&& payloads.len() == found.len()
                &&& are_payloads(dom, found, *config, payloads)
                &&& r is Ok <==> forall|i: int|
                    0 <= i < outcomes.len() ==> (#[trigger] outcomes[i]) is Ok
                &&& r matches Ok(outcome) ==> {
                    &&& outcome.encrypted == outcomes.filter(
                        |outcome: Result<bool, NodeFault>| outcome == Ok::<bool, NodeFault>(true),
                    ).len()
                    &&& outcome.rewritten is Some <==> !dry_run && exists|i: int|
                        0 <= i < outcomes.len() && #[trigger] outcomes[i] == Ok::<bool, NodeFault>(
                            true,
                        )
                    &&& outcome.rewritten matches Some(html) ==> html@ == dom::written(
                        after_targets(dom, found, *config, payloads),
                        0,
                    )
                }
                &&& r matches Err(error) ==> error@ == PageFault::Nodes(
                    fault_lines(outcomes, found, config.scanner.rules@),
                )
            },
{
    if dom::can_be_parsed(html@) && bad_selector(config.scanner.rules@) is None {
        let dom = dom::parsed(html@);
        let payloads = choose|payloads: Seq<Encrypted>| #[trigger]
            page_came_to(dom, *config, dry_run, payloads, r);
        law_what_comes_of_a_page(dom, *config, dry_run, payloads, r);
        assert(are_payloads(dom, targets(dom, config.scanner.rules@), *config, payloads));
    }
}

/// The text of a selector that is none names the selector, and says whether it
/// is that of a rule or of its content.
pub proof fn law_selector_fault_text(selector: Seq<char>)
    ensures
        selector_fault_text(SelectorFault::Selector(selector)) == "invalid CSS selector: "@
            + selector,
        selector_fault_text(SelectorFault::Content(selector)) == "invalid content selector: "@
            + selector,
{
}

/// What is told of a page that failed: every line of its nodes, or the selector
/// that is none.
pub proof fn law_told_page_fault(error: &PageError, s: String)
    requires
        call_ensures(PageError::message, (error,), s),
    ensures
        error@ matches PageFault::Nodes(lines) ==> s@ == listed(lines),
        error@ matches PageFault::BadSelector(selector) ==> s@ == "invalid CSS selector: "@
            + selector,
{
}

} // verus!
