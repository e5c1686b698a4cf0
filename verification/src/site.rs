//! A whole site: which files are looked at, what is told of them, and whether
//! the feeds may be redacted.

use vstd::prelude::*;
use vstd::string::*;

use crate::config::{Config, FeedsConfig};
use crate::glob;
use crate::glob::{is_excluded, matches_any};
use crate::paths;
use crate::paths::is_supported_html;
use crate::text;
use crate::text::decimal;
use crate::url::FileSet;

verus! {

// ---------------------------------------------------------------------------
// Pages
// ---------------------------------------------------------------------------

/// Whether a file is a page to look at. A page that is not looked at has an
/// extension that is not listed, or its path is excluded.
pub fn wants_page(path: &str, rel: &str, config: &Config) -> (r: bool)
    ensures
        glob::matched_by_any(rel@, config.scanner.exclude@) ==> !r,
        paths::has_sure_name(path@) ==> r == (!glob::matched_by_any(
            rel@,
            config.scanner.exclude@,
        ) && (match paths::path_extension(path@) {
            Some(extension) => paths::is_listed_extension(extension, config.scanner.extensions@),
            None => false,
        })),
{
    is_supported_html(path, &config.scanner.extensions) && !is_excluded(
        rel,
        config.scanner.exclude.as_slice(),
    )
}

/// What is known of the pages so far.
pub struct PagesState {
    pub files: nat,
    pub encrypted: nat,
    pub encrypted_files: Set<Seq<char>>,
    pub errors: Seq<Seq<char>>,
}

pub open spec fn no_pages() -> PagesState {
    PagesState {
        files: 0,
        encrypted: 0,
        encrypted_files: Set::empty(),
        errors: Seq::empty(),
    }
}

/// What came of one page: how many nodes were encrypted, or what went wrong.
pub type PageEvent = (Seq<char>, Result<nat, Seq<char>>);

/// What is known after one page more.
pub open spec fn after_page(state: PagesState, event: PageEvent) -> PagesState {
    match event.1 {
        Ok(n) => PagesState {
            files: state.files + 1,
            encrypted: state.encrypted + n,
            encrypted_files: if n > 0 {
                state.encrypted_files.insert(event.0)
            } else {
                state.encrypted_files
            },
            ..state
        },
        Err(error) => PagesState {
            files: state.files + 1,
            errors: state.errors.push(event.0 + ": "@ + error),
            ..state
        },
    }
}

/// What is known after all pages.
pub open spec fn after_pages(events: Seq<PageEvent>) -> PagesState
    decreases events.len(),
{
    if events.len() == 0 {
        no_pages()
    } else {
        after_page(after_pages(events.drop_last()), events.last())
    }
}

/// What is known of the pages: one page that fails is told, and the others are
/// still processed.
pub struct Pages {
    pub files: usize,
    pub encrypted: usize,
    pub encrypted_files: FileSet,
    pub errors: Vec<String>,
}

pub open spec fn outcome_event(rel: Seq<char>, outcome: Result<usize, String>) -> PageEvent {
    (
        rel,
        match outcome {
            Ok(n) => Ok(n as nat),
            Err(error) => Err(error@),
        },
    )
}

impl View for Pages {
    type V = PagesState;

    open spec fn view(&self) -> PagesState {
        PagesState {
            files: self.files as nat,
            encrypted: self.encrypted as nat,
            encrypted_files: self.encrypted_files@,
            errors: self.errors@.map_values(|s: String| s@),
        }
    }
}

impl Pages {
    pub fn new() -> (pages: Pages)
        ensures
            pages@ == no_pages(),
    {
        let pages = Pages {
            files: 0,
            encrypted: 0,
            encrypted_files: FileSet::new(),
            errors: Vec::new(),
        };
        proof {
            assert(pages@.errors =~= Seq::<Seq<char>>::empty());
        }
        pages
    }

    /// Notes what came of a page.
    pub fn record(&mut self, rel: String, outcome: Result<usize, String>)
        requires
            old(self).files < usize::MAX,
            outcome matches Ok(n) ==> old(self).encrypted + n <= usize::MAX,
        ensures
            final(self)@ == after_page(old(self)@, outcome_event(rel@, outcome)),
    {
        let ghost before = self@;
        self.files = self.files + 1;
        match outcome {
            Ok(n) => {
                if n > 0 {
                    self.encrypted_files.insert(rel);
                }
                self.encrypted = self.encrypted + n;
            },
            Err(error) => {
                let mut line = rel;
                line.append(": ");
                line.append(error.as_str());
                self.errors.push(line);
                proof {
                    assert(self@.errors =~= before.errors.push(line@));
                }
            },
        }
    }
}

/// Every page is counted, every failure is told once, and the pages known as
/// encrypted are those in which a node was.
pub proof fn law_every_page_counts(events: Seq<PageEvent>)
    ensures
        after_pages(events).files == events.len(),
        after_pages(events).errors.len() == failures(events),
        forall|rel: Seq<char>| #[trigger]
            after_pages(events).encrypted_files.contains(rel) <==> exists|i: int|
                0 <= i < events.len() && (#[trigger] events[i]).0 == rel && (
                events[i].1 matches Ok(n) && n > 0),
    decreases events.len(),
{
    if events.len() > 0 {
        let shorter = events.drop_last();
        law_every_page_counts(shorter);
        let last = events.len() - 1;
        assert forall|rel: Seq<char>| #[trigger]
            after_pages(events).encrypted_files.contains(rel) <==> exists|i: int|
                0 <= i < events.len() && (#[trigger] events[i]).0 == rel && (
                events[i].1 matches Ok(n) && n > 0) by {
            if after_pages(shorter).encrypted_files.contains(rel) {
                let i = choose|i: int|
                    0 <= i < shorter.len() && (#[trigger] shorter[i]).0 == rel && (
                    shorter[i].1 matches Ok(n) && n > 0);
                assert(events[i] == shorter[i]);
            }
            if exists|i: int|
                0 <= i < events.len() && (#[trigger] events[i]).0 == rel && (
                events[i].1 matches Ok(n) && n > 0) {
                let i = choose|i: int|
                    0 <= i < events.len() && (#[trigger] events[i]).0 == rel && (
                    events[i].1 matches Ok(n) && n > 0);
                if i < last {
                    assert(shorter[i] == events[i]);
                }
            }
            if after_pages(events).encrypted_files.contains(rel) && !after_pages(
                shorter,
            ).encrypted_files.contains(rel) {
                assert(events[last].0 == rel);
            }
        }
    }
}

/// How many pages failed.
pub open spec fn failures(events: Seq<PageEvent>) -> nat
    decreases events.len(),
{
    if events.len() == 0 {
        0
    } else {
        failures(events.drop_last()) + (if events.last().1 is Err {
            1nat
        } else {
            0nat
        })
    }
}

// ---------------------------------------------------------------------------
// Feeds
// ---------------------------------------------------------------------------

/// What is to be done with the feeds.
#[derive(Debug, Clone, Copy, PartialEq, Eq, Structural)]
pub enum FeedsPlan {
    /// A page failed, so the pages known as encrypted may not be all: an entry
    /// could be taken for a public one.
    SkipAfterErrors,
    /// Redaction is off, or no page is encrypted.
    Nothing,
    Redact,
}

pub open spec fn feeds_plan(pages: PagesState, enabled: bool) -> FeedsPlan {
    if pages.errors.len() > 0 {
        FeedsPlan::SkipAfterErrors
    } else if !enabled || pages.encrypted_files.is_empty() {
        FeedsPlan::Nothing
    } else {
        FeedsPlan::Redact
    }
}

/// What is to be done with the feeds, once all pages were processed.
pub fn plan_feeds(pages: &Pages, feeds: &FeedsConfig) -> (r: FeedsPlan)
    ensures
        r == feeds_plan(pages@, feeds.enabled),
{
    if pages.errors.len() > 0 {
        FeedsPlan::SkipAfterErrors
    } else if !feeds.enabled || pages.encrypted_files.is_empty() {
        FeedsPlan::Nothing
    } else {
        FeedsPlan::Redact
    }
}

/// Feeds are never redacted from an incomplete set of encrypted pages: where a
/// page failed, none is touched.
pub proof fn law_no_redaction_after_a_failure(events: Seq<PageEvent>, i: int, enabled: bool)
    requires
        0 <= i < events.len(),
        events[i].1 is Err,
    ensures
        feeds_plan(after_pages(events), enabled) == FeedsPlan::SkipAfterErrors,
    decreases events.len(),
{
    if i < events.len() - 1 {
        assert(events.drop_last()[i] == events[i]);
        law_no_redaction_after_a_failure(events.drop_last(), i, enabled);
    }
}

/// Whether a file is a feed to redact: one of the patterns matches it, and it
/// is not excluded.
pub fn wants_feed(rel: &str, config: &Config) -> (r: bool)
    ensures
        r == (glob::matched_by_any(rel@, config.feeds.paths@) && !glob::matched_by_any(
            rel@,
            config.scanner.exclude@,
        )),
{
    matches_any(rel, config.feeds.paths.as_slice()) && !is_excluded(
        rel,
        config.scanner.exclude.as_slice(),
    )
}

// ---------------------------------------------------------------------------
// Texts
// ---------------------------------------------------------------------------

/// What is told at the end of a run.
pub fn summary(pages: &Pages, redacted: usize, dry_run: bool) -> (s: String)
    ensures
        s@ == "Processed "@ + text::decimal_of(pages.files as nat) + " HTML files; encrypted "@
            + text::decimal_of(pages.encrypted as nat) + " node(s); redacted "@ + text::decimal_of(
            redacted as nat,
        ) + " feed entrie(s)."@ + (if dry_run {
            " (dry run)"@
        } else {
            ""@
        }),
{
    let mut s = "Processed ".to_string();
    s.append(decimal(pages.files as u64).as_str());
    s.append(" HTML files; encrypted ");
    s.append(decimal(pages.encrypted as u64).as_str());
    s.append(" node(s); redacted ");
    s.append(decimal(redacted as u64).as_str());
    s.append(" feed entrie(s).");
    s.append(
        if dry_run {
            " (dry run)"
        } else {
            ""
        },
    );
    s
}

/// What is told where feeds are left alone because pages failed.
pub fn skipped_feeds_warning(pages: &Pages) -> (s: String)
    ensures
        s@ == "warning: skipping feed redaction due to "@ + text::decimal_of(pages.errors@.len())
            + " HTML error(s)"@,
{
    let mut s = "warning: skipping feed redaction due to ".to_string();
    s.append(decimal(pages.errors.len() as u64).as_str());
    s.append(" HTML error(s)");
    s
}

/// What a run ends with where pages failed, and `None` where none did.
pub fn failure(pages: &Pages) -> (r: Option<String>)
    ensures
        r is Some <==> pages@.errors.len() > 0,
        r is Some ==> r->0@ == text::decimal_of(pages.errors@.len())
            + " HTML file(s) failed; output may be partially processed \u{2014} fix the errors, rebuild from clean, and re-run"@,
{
    if pages.errors.len() == 0 {
        return None;
    }
    let mut s = decimal(pages.errors.len() as u64);
    s.append(
        " HTML file(s) failed; output may be partially processed \u{2014} fix the errors, rebuild from clean, and re-run",
    );
    Some(s)
}

// ---------------------------------------------------------------------------
// Laws
// ---------------------------------------------------------------------------

/// How many nodes the pages had encrypted, together.
pub open spec fn total_encrypted(events: Seq<PageEvent>) -> nat
    decreases events.len(),
{
    if events.len() == 0 {
        0
    } else {
        (match events[0].1 {
            Ok(n) => n,
            Err(_) => 0nat,
        }) + total_encrypted(events.drop_first())
    }
}

proof fn lemma_total_of_last(events: Seq<PageEvent>)
    requires
        events.len() > 0,
    ensures
        total_encrypted(events) == total_encrypted(events.drop_last()) + (match events.last().1 {
            Ok(n) => n,
            Err(_) => 0nat,
        }),
    decreases events.len(),
{
    if events.len() > 1 {
        lemma_total_of_last(events.drop_first());
        assert(events.drop_first().drop_last() =~= events.drop_last().drop_first());
        assert(events.drop_last()[0] == events[0]);
        assert(events.drop_first().last() == events.last());
    } else {
        assert(events.drop_first() =~= Seq::<PageEvent>::empty());
        assert(events.drop_last() =~= Seq::<PageEvent>::empty());
    }
}

/// What is known of the pages adds up: all encrypted nodes of all pages are
/// counted.
pub proof fn law_encrypted_nodes_add_up(events: Seq<PageEvent>)
    ensures
        after_pages(events).encrypted == total_encrypted(events),
    decreases events.len(),
{
    if events.len() > 0 {
        law_encrypted_nodes_add_up(events.drop_last());
        lemma_total_of_last(events);
    }
}

/// Each failure is told, with the path of its page, in the order of the pages:
/// a page more adds its line at the end if it failed, and nothing otherwise.
pub proof fn law_failures_are_told(events: Seq<PageEvent>, rel: Seq<char>, error: Seq<char>, n: nat)
    ensures
        after_pages(events.push((rel, Err(error)))).errors == after_pages(events).errors.push(
            rel + ": "@ + error,
        ),
        after_pages(events.push((rel, Ok(n)))).errors == after_pages(events).errors,
        after_pages(Seq::empty()).errors.len() == 0,
{
    let failed: PageEvent = (rel, Err(error));
    let went: PageEvent = (rel, Ok(n));
    assert(events.push(failed).drop_last() =~= events);
    assert(events.push(went).drop_last() =~= events);
}

/// Feeds are redacted exactly where redaction is on, no page failed, and a node
/// of some page was encrypted. They are left alone for want of work only where
/// redaction is off or no page has an encrypted node.
pub proof fn law_when_feeds_are_redacted(events: Seq<PageEvent>, enabled: bool)
    ensures
        feeds_plan(after_pages(events), enabled) == FeedsPlan::Redact <==> {
            &&& enabled
            &&& forall|i: int| 0 <= i < events.len() ==> (#[trigger] events[i]).1 is Ok
            &&& exists|i: int|
                0 <= i < events.len() && ((#[trigger] events[i]).1 matches Ok(n) && n > 0)
        },
        feeds_plan(after_pages(events), enabled) == FeedsPlan::SkipAfterErrors <==> exists|i: int|
            0 <= i < events.len() && (#[trigger] events[i]).1 is Err,
        feeds_plan(after_pages(events), enabled) == FeedsPlan::Nothing ==> !enabled || forall|
            i: int,
        |
            0 <= i < events.len() ==> (#[trigger] events[i]).1 == Ok::<nat, Seq<char>>(0),
{
    let pages = after_pages(events);
    law_every_page_counts(events);
    lemma_failures(events);
    if exists|i: int| 0 <= i < events.len() && ((#[trigger] events[i]).1 matches Ok(n) && n > 0) {
        let i = choose|i: int|
            0 <= i < events.len() && ((#[trigger] events[i]).1 matches Ok(n) && n > 0);
        assert(pages.encrypted_files.contains(events[i].0));
    }
    if !pages.encrypted_files.is_empty() {
        let rel = pages.encrypted_files.choose();
        assert(pages.encrypted_files.contains(rel)) by {
            if forall|rel: Seq<char>| !pages.encrypted_files.contains(rel) {
                assert(pages.encrypted_files =~= Set::<Seq<char>>::empty());
            }
        }
    }
    if feeds_plan(pages, enabled) == FeedsPlan::Nothing && enabled {
        assert forall|i: int| 0 <= i < events.len() implies (#[trigger] events[i]).1 == Ok::<
            nat,
            Seq<char>,
        >(0) by {
            if events[i].1 is Ok && events[i].1->Ok_0 > 0 {
                assert(pages.encrypted_files.contains(events[i].0));
            }
        }
    }
}

proof fn lemma_failures(events: Seq<PageEvent>)
    ensures
        failures(events) == 0 <==> forall|i: int|
            0 <= i < events.len() ==> (#[trigger] events[i]).1 is Ok,
    decreases events.len(),
{
    if events.len() > 0 {
        let shorter = events.drop_last();
        lemma_failures(shorter);
        assert forall|i: int| 0 <= i < shorter.len() implies #[trigger] shorter[i]
            == events[i] by {}
        if failures(events) == 0 {
            assert forall|i: int| 0 <= i < events.len() implies (#[trigger] events[i]).1 is Ok by {
                if i < shorter.len() {
                    assert(shorter[i].1 is Ok);
                }
            }
        } else if failures(shorter) > 0 {
            let i = choose|i: int| 0 <= i < shorter.len() && (#[trigger] shorter[i]).1 is Err;
            assert(events[i].1 is Err);
        } else {
            assert(events[events.len() - 1].1 is Err);
        }
    }
}

/// A page is looked at exactly where its extension is listed and no exclusion
/// matches its path.
pub proof fn law_which_pages_are_wanted(path: &str, rel: &str, config: &Config, r: bool)
    requires
        call_ensures(wants_page, (path, rel, config), r),
    ensures
        (exists|k: int|
            0 <= k < config.scanner.exclude@.len() && glob::glob_matches(
                #[trigger] config.scanner.exclude@[k]@,
                rel@,
            )) ==> !r,
        paths::has_sure_name(path@) ==> (r <==> {
            &&& forall|k: int|
                0 <= k < config.scanner.exclude@.len() ==> !glob::glob_matches(
                    #[trigger] config.scanner.exclude@[k]@,
                    rel@,
                )
            &&& paths::path_extension(path@) matches Some(extension)
            &&& paths::is_listed_extension(extension, config.scanner.extensions@)
        }),
{
}

/// A file is a feed to redact exactly where some pattern of the feeds matches
/// its path and no exclusion does.
pub proof fn law_which_feeds_are_wanted(rel: &str, config: &Config, r: bool)
    requires
        call_ensures(wants_feed, (rel, config), r),
    ensures
        r <==> {
            &&& exists|k: int|
                0 <= k < config.feeds.paths@.len() && glob::glob_matches(
                    #[trigger] config.feeds.paths@[k]@,
                    rel@,
                )
            &&& forall|k: int|
                0 <= k < config.scanner.exclude@.len() ==> !glob::glob_matches(
                    #[trigger] config.scanner.exclude@[k]@,
                    rel@,
                )
        },
{
}

/// What is told of the feeds, and at the end, follows from what came of the
/// pages: feeds are redacted exactly where redaction is on, none failed and a
/// node was encrypted; and the run fails exactly where a page did.
pub proof fn law_what_a_run_comes_to(
    pages: &Pages,
    feeds: &FeedsConfig,
    events: Seq<PageEvent>,
    plan: FeedsPlan,
    end: Option<String>,
)
    requires
        pages@ == after_pages(events),
        call_ensures(plan_feeds, (pages, feeds), plan),
        call_ensures(failure, (pages,), end),
    ensures
        plan == FeedsPlan::Redact <==> {
            &&& feeds.enabled
            &&& forall|i: int| 0 <= i < events.len() ==> (#[trigger] events[i]).1 is Ok
            &&& exists|i: int|
                0 <= i < events.len() && ((#[trigger] events[i]).1 matches Ok(n) && n > 0)
        },
        plan == FeedsPlan::SkipAfterErrors <==> end is Some,
        end is Some <==> exists|i: int| 0 <= i < events.len() && (#[trigger] events[i]).1 is Err,
{
    law_when_feeds_are_redacted(events, feeds.enabled);
}

/// The summary tells the three numbers in decimal notation, and a dry run as
/// such.
pub proof fn law_summary(pages: &Pages, redacted: usize, dry_run: bool, s: String)
    requires
        call_ensures(summary, (pages, redacted, dry_run), s),
    ensures
        s@ == "Processed "@ + text::decimal_of(pages@.files) + " HTML files; encrypted "@
            + text::decimal_of(pages@.encrypted) + " node(s); redacted "@ + text::decimal_of(
            redacted as nat,
        ) + " feed entrie(s)."@ + (if dry_run {
            " (dry run)"@
        } else {
            ""@
        }),
{
}

/// Noting a page counts it, adds what it had encrypted, keeps its path where it
/// had anything encrypted, and tells its failure with its path, behind those
/// that were told before.
pub proof fn law_noting_a_page(pages: &mut Pages, rel: String, outcome: Result<usize, String>)
    requires
        call_ensures(Pages::record, (pages, rel, outcome), ()),
    ensures
        final(pages)@.files == old(pages)@.files + 1,
        outcome matches Ok(n) ==> {
            &&& final(pages)@.encrypted == old(pages)@.encrypted + n
            &&& final(pages)@.errors == old(pages)@.errors
            &&& n > 0 ==> final(pages)@.encrypted_files == old(pages)@.encrypted_files.insert(rel@)
            &&& n == 0 ==> final(pages)@.encrypted_files == old(pages)@.encrypted_files
        },
        outcome matches Err(error) ==> {
            &&& final(pages)@.encrypted == old(pages)@.encrypted
            &&& final(pages)@.encrypted_files == old(pages)@.encrypted_files
            &&& final(pages)@.errors == old(pages)@.errors.push(rel@ + ": "@ + error@)
        },
{
}

/// Where pages failed, both texts tell how many.
pub proof fn law_failures_are_numbered(pages: &Pages, warning: String, end: Option<String>)
    requires
        call_ensures(skipped_feeds_warning, (pages,), warning),
        call_ensures(failure, (pages,), end),
    ensures
        warning@ == "warning: skipping feed redaction due to "@ + text::decimal_of(
            pages@.errors.len(),
        ) + " HTML error(s)"@,
        end matches Some(end) ==> end@.len() >= text::decimal_of(pages@.errors.len()).len()
            && end@.take(text::decimal_of(pages@.errors.len()).len() as int) == text::decimal_of(
            pages@.errors.len(),
        ),
        end is None <==> pages@.errors.len() == 0,
{
    if let Some(end) = end {
        let n = text::decimal_of(pages@.errors.len());
        assert(end@.take(n.len() as int) =~= n);
    }
}

/// At the beginning, nothing is known of any page.
pub proof fn law_no_pages_yet(pages: Pages)
    requires
        call_ensures(Pages::new, (), pages),
    ensures
        pages@ == after_pages(Seq::empty()),
        pages@.files == 0,
        pages@.encrypted == 0,
        pages@.errors.len() == 0,
        forall|rel: Seq<char>| !#[trigger] pages@.encrypted_files.contains(rel),
{
}

} // verus!
