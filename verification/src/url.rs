//! From the address of a feed entry back to the page it shows.

use vstd::hash_set::StringHashSet;
use vstd::prelude::*;
use vstd::string::*;

use crate::paths;
use crate::text;
use crate::text::{chars_of, find_chars, trim, Strip};

verus! {

/// The pages of a site that were encrypted, by path relative to the input
/// directory.
pub struct FileSet {
    files: StringHashSet,
}

impl FileSet {
    pub closed spec fn view(&self) -> Set<Seq<char>> {
        self.files@
    }

    /// No page yet.
    pub fn new() -> (set: FileSet)
        ensures
            set@ == Set::<Seq<char>>::empty(),
    {
        FileSet { files: StringHashSet::new() }
    }

    /// Records a page.
    pub fn insert(&mut self, rel: String)
        ensures
            final(self)@ == old(self)@.insert(rel@),
    {
        let _ = self.files.insert(rel);
    }

    /// Is this page among the encrypted ones?
    pub fn contains(&self, rel: &str) -> (r: bool)
        ensures
            r == self@.contains(rel@),
    {
        self.files.contains(rel)
    }

    /// Was no page encrypted?
    pub fn is_empty(&self) -> (r: bool)
        ensures
            r == self@.is_empty(),
    {
        self.files.is_empty()
    }

    /// How many pages were encrypted?
    pub fn len(&self) -> (r: usize)
        ensures
            r == self@.len(),
    {
        self.files.len()
    }
}

// ---------------------------------------------------------------------------
// The path of an address
// ---------------------------------------------------------------------------

/// The part of an address before its query string and fragment.
pub open spec fn before_suffix(u: Seq<char>) -> Seq<char>
    decreases u.len(),
{
    if u.len() == 0 || u[0] == '#' || u[0] == '?' {
        Seq::empty()
    } else {
        seq![u[0]] + before_suffix(u.drop_first())
    }
}

/// From the first `/` on; nothing where there is none.
pub open spec fn from_first_slash(s: Seq<char>) -> Seq<char> {
    match text::found_from(s, seq!['/'], 0) {
        Some(i) => s.skip(i),
        None => Seq::empty(),
    }
}

pub open spec fn scheme_mark() -> Seq<char> {
    seq![':', '/', '/']
}

/// Where the mark behind the scheme of an address stands, if the address
/// begins with a scheme. A scheme holds no slash.
pub open spec fn scheme_end(u: Seq<char>) -> Option<int> {
    match text::found_from(u, scheme_mark(), 0) {
        Some(i) => if u.take(i).contains('/') {
            None
        } else {
            Some(i)
        },
        None => None,
    }
}

/// The path of an address without query string and fragment: what follows
/// `scheme://host`, or a leading `//host`; an address with neither is a path.
pub open spec fn path_of(u: Seq<char>) -> Seq<char> {
    match scheme_end(u) {
        Some(i) => from_first_slash(u.skip(i + 3)),
        None => if u.len() >= 2 && u[0] == '/' && u[1] == '/' {
            from_first_slash(u.skip(2))
        } else {
            u
        },
    }
}

/// The path that an address names.
pub open spec fn address_path(url: Seq<char>) -> Seq<char> {
    path_of(before_suffix(text::trimmed(url, Strip::White)))
}

/// The address without its query string and fragment.
pub fn strip_url_suffix<'a>(u: &'a str) -> (r: &'a str)
    ensures
        r@ == before_suffix(u@),
{
    let chars = chars_of(u);
    let mut end: usize = 0;
    proof {
        assert(u@.take(0) + u@.skip(0) == u@);
        assert(u@.skip(0) == u@);
        assert(u@.take(0) + before_suffix(u@) == before_suffix(u@));
    }
    while end < chars.len() && chars[end] != '#' && chars[end] != '?'
        invariant
            chars@ == u@,
            end <= chars@.len(),
            before_suffix(u@) == u@.take(end as int) + before_suffix(u@.skip(end as int)),
        decreases chars@.len() - end,
    {
        proof {
            let rest = u@.skip(end as int);
            assert(rest.drop_first() == u@.skip(end + 1));
            assert(u@.take(end as int) + (seq![rest[0]] + before_suffix(rest.drop_first()))
                == u@.take(end + 1) + before_suffix(u@.skip(end + 1)));
        }
        end = end + 1;
    }
    proof {
        let rest = u@.skip(end as int);
        assert(rest.len() > 0 ==> rest[0] == u@[end as int]);
        assert(before_suffix(rest) == Seq::<char>::empty());
        assert(u@.take(end as int) + Seq::<char>::empty() == u@.subrange(0, end as int));
    }
    u.substring_char(0, end)
}

fn slash_on<'a>(u: &'a str, chars: &Vec<char>, from: usize) -> (r: &'a str)
    requires
        chars@ == u@,
        from <= u@.len(),
    ensures
        r@ == from_first_slash(u@.skip(from as int)),
{
    let tail = vstd::slice::slice_subrange(chars.as_slice(), from, chars.len());
    let slash: [char; 1] = ['/'];
    proof {
        assert(tail@ == u@.skip(from as int));
        assert(slash@ == seq!['/']);
    }
    match find_chars(tail, &slash, 0) {
        Some(i) => {
            proof {
                text::lemma_found_from(tail@, seq!['/'], 0);
                assert(u@.skip(from as int).skip(i as int) == u@.subrange(
                    from + i,
                    u@.len() as int,
                ));
            }
            u.substring_char(from + i, chars.len())
        },
        None => {
            proof {
                assert(u@.subrange(0, 0) == Seq::<char>::empty());
            }
            u.substring_char(0, 0)
        },
    }
}

fn scheme_in(chars: &Vec<char>) -> (r: Option<usize>)
    ensures
        match r {
            Some(i) => scheme_end(chars@) == Some(i as int) && i + 3 <= chars@.len(),
            None => scheme_end(chars@) is None,
        },
{
    let mark: [char; 3] = [':', '/', '/'];
    proof {
        assert(mark@ == scheme_mark());
        text::lemma_found_from(chars@, scheme_mark(), 0);
    }
    let i: usize = match find_chars(chars.as_slice(), &mark, 0) {
        Some(i) => i,
        None => {
            return None;
        },
    };
    assert(i + 3 <= chars.len());
    for k in 0..i
        invariant
            i <= chars@.len(),
            text::found_from(chars@, scheme_mark(), 0) == Some(i as int),
            forall|j: int| 0 <= j < k ==> #[trigger] chars@[j] != '/',
    {
        if chars[k] == '/' {
            proof {
                assert(chars@.take(i as int)[k as int] == '/');
            }
            return None;
        }
    }
    Some(i)
}

/// The path component of an address: without `scheme://host` or `//host`,
/// query string and fragment. A bare path passes through unchanged.
pub fn url_path<'a>(url: &'a str) -> (r: &'a str)
    ensures
        r@ == address_path(url@),
{
    let u = strip_url_suffix(trim(url, Strip::White));
    let chars = chars_of(u);
    match scheme_in(&chars) {
        Some(i) => {
            assert(i + 3 <= chars.len());
            slash_on(u, &chars, i + 3)
        },
        None => {
            if chars.len() >= 2 && chars[0] == '/' && chars[1] == '/' {
                slash_on(u, &chars, 2)
            } else {
                u
            }
        },
    }
}

// ---------------------------------------------------------------------------
// Pages
// ---------------------------------------------------------------------------

/// One of the files that can serve the path `rel` was encrypted: the index
/// page of the directory, the page of that name, or the file itself.
pub open spec fn serves_encrypted(rel: Seq<char>, files: Set<Seq<char>>) -> bool {
    if rel.len() == 0 {
        files.contains("index.html"@)
    } else {
        ||| files.contains(rel + "/index.html"@)
        ||| files.contains(rel + ".html"@)
        ||| files.contains(rel)
    }
}

/// A segment of the path `rel` begins at position `k`.
pub open spec fn segment_begins(rel: Seq<char>, k: int) -> bool {
    0 <= k < rel.len() && (k == 0 || rel[k - 1] == '/')
}

/// `rel` itself, or what is left of it when leading segments are peeled off,
/// is served by an encrypted file. The empty path is the home page.
pub open spec fn tail_serves_encrypted(rel: Seq<char>, files: Set<Seq<char>>) -> bool {
    if rel.len() == 0 {
        serves_encrypted(rel, files)
    } else {
        exists|k: int| #[trigger]
            segment_begins(rel, k) && serves_encrypted(rel.skip(k), files)
    }
}

/// Does the address lead to an encrypted page of the site? Only its path
/// counts. With a prefix, the site lives below exactly that subpath; without
/// one it may live below any.
pub open spec fn leads_to_encrypted(
    strip_prefix: Seq<char>,
    url: Seq<char>,
    files: Set<Seq<char>>,
) -> bool {
    let rel = text::trimmed(address_path(url), Strip::Only('/'));
    let base = text::trimmed(strip_prefix, Strip::Only('/'));
    if base.len() == 0 {
        tail_serves_encrypted(rel, files)
    } else if rel == base {
        serves_encrypted(Seq::empty(), files)
    } else if (base + seq!['/']).is_prefix_of(rel) {
        serves_encrypted(rel.skip(base.len() as int + 1), files)
    } else {
        false
    }
}

fn serves(rel: &str, files: &FileSet) -> (r: bool)
    ensures
        r == serves_encrypted(rel@, files@),
{
    if rel.is_empty() {
        return files.contains("index.html");
    }
    let mut index = rel.to_string();
    index.append("/index.html");
    let mut page = rel.to_string();
    page.append(".html");
    files.contains(index.as_str()) || files.contains(page.as_str()) || files.contains(rel)
}

fn tail_serves(rel: &str, files: &FileSet) -> (r: bool)
    ensures
        r == tail_serves_encrypted(rel@, files@),
{
    if rel.is_empty() {
        return serves(rel, files);
    }
    let chars = chars_of(rel);
    for k in 0..chars.len()
        invariant
            chars@ == rel@,
            rel@.len() > 0,
            forall|j: int|
                0 <= j < k && #[trigger] segment_begins(rel@, j) ==> !serves_encrypted(
                    rel@.skip(j),
                    files@,
                ),
    {
        if k == 0 || chars[k - 1] == '/' {
            proof {
                assert(segment_begins(rel@, k as int));
                assert(rel@.skip(k as int) == rel@.subrange(k as int, rel@.len() as int));
            }
            if serves(rel.substring_char(k, chars.len()), files) {
                return true;
            }
        }
    }
    false
}

/// Does the address of a feed entry lead to a page that was encrypted?
pub fn is_encrypted_url(strip_prefix: &str, url: &str, encrypted_files: &FileSet) -> (r: bool)
    ensures
        r == leads_to_encrypted(strip_prefix@, url@, encrypted_files@),
{
    let rel = trim(url_path(url), Strip::Only('/'));
    let base = trim(strip_prefix, Strip::Only('/'));
    if base.is_empty() {
        return tail_serves(rel, encrypted_files);
    }
    let r = chars_of(rel);
    let b = chars_of(base);
    let n: usize = b.len();
    if r.len() < n {
        return false;
    }
    for i in 0..n
        invariant
            r@ == rel@,
            b@ == base@,
            n == b@.len(),
            n <= r@.len(),
            base@ == text::trimmed(strip_prefix@, Strip::Only('/')),
            rel@ == text::trimmed(address_path(url@), Strip::Only('/')),
            base@.len() > 0,
            forall|j: int| 0 <= j < i ==> r@[j] == b@[j],
    {
        if r[i] != b[i] {
            proof {
                if (base@ + seq!['/']).is_prefix_of(rel@) {
                    assert((base@ + seq!['/'])[i as int] == rel@[i as int]);
                }
            }
            return false;
        }
    }
    if r.len() == n {
        proof {
            assert(rel@ =~= base@);
            assert(""@ =~= Seq::<char>::empty()) by {
                reveal_strlit("");
            }
        }
        return serves("", encrypted_files);
    }
    if r[n] != '/' {
        proof {
            if (base@ + seq!['/']).is_prefix_of(rel@) {
                assert((base@ + seq!['/'])[n as int] == rel@[n as int]);
            }
        }
        return false;
    }
    proof {
        assert((base@ + seq!['/']) =~= rel@.subrange(0, n + 1));
        assert(rel@.skip(n + 1) == rel@.subrange(n + 1, rel@.len() as int));
    }
    serves(rel.substring_char(n + 1, r.len()), encrypted_files)
}

// ---------------------------------------------------------------------------
// Laws
// ---------------------------------------------------------------------------

/// Characters that end neither the host of an address nor the address before
/// its query string.
pub open spec fn is_plain_part(s: Seq<char>) -> bool {
    !s.contains('/') && !s.contains('#') && !s.contains('?')
}

proof fn lemma_trimmed_start_keeps(s: Seq<char>, set: Strip)
    requires
        s.len() > 0,
        !text::strips(set, s[0]),
    ensures
        text::trimmed_start(s, set) == s,
{
}

proof fn lemma_trimmed_end_keeps_head(head: Seq<char>, tail: Seq<char>, set: Strip)
    requires
        tail.len() > 0,
        !text::strips(set, tail[0]),
    ensures
        text::trimmed_end(head + tail, set) == head + text::trimmed_end(tail, set),
        text::trimmed_end(tail, set).len() > 0,
        text::trimmed_end(tail, set)[0] == tail[0],
    decreases tail.len(),
{
    assert((head + tail).last() == tail.last());
    if text::strips(set, tail.last()) {
        assert(tail.len() > 1);
        assert((head + tail).drop_last() == head + tail.drop_last());
        lemma_trimmed_end_keeps_head(head, tail.drop_last(), set);
    }
}

proof fn lemma_before_suffix_keeps_head(head: Seq<char>, tail: Seq<char>)
    requires
        !head.contains('#'),
        !head.contains('?'),
    ensures
        before_suffix(head + tail) == head + before_suffix(tail),
    decreases head.len(),
{
    if head.len() == 0 {
        assert(head + tail == tail);
        assert(head + before_suffix(tail) == before_suffix(tail));
    } else {
        assert(head.contains(head[0]));
        let rest = head.drop_first();
        assert forall|c: char| rest.contains(c) implies head.contains(c) by {
            let k = choose|k: int| 0 <= k < rest.len() && rest[k] == c;
            assert(head[k + 1] == c);
        }
        lemma_before_suffix_keeps_head(rest, tail);
        assert((head + tail).drop_first() == rest + tail);
        assert(seq![head[0]] + (rest + before_suffix(tail)) == head + before_suffix(tail));
    }
}

proof fn lemma_first_slash(host: Seq<char>, path: Seq<char>)
    requires
        !host.contains('/'),
        path.len() > 0,
        path[0] == '/',
    ensures
        from_first_slash(host + path) == path,
{
    let s = host + path;
    let slash = seq!['/'];
    assert(s.subrange(host.len() as int, host.len() as int + 1) == slash);
    assert forall|i: int| 0 <= i < host.len() implies !text::stands_at(s, slash, i) by {
        assert(s.subrange(i, i + 1)[0] == host[i]);
        assert(host.contains(host[i]));
    }
    text::lemma_found_from_is(s, slash, 0, host.len() as int);
    assert(s.skip(host.len() as int) == path);
}

/// Whatever the scheme and the host of an absolute address, its path is what
/// follows the host, without query string and fragment.
pub proof fn law_path_of_absolute(scheme: Seq<char>, host: Seq<char>, path: Seq<char>)
    requires
        is_plain_part(scheme),
        scheme.len() > 0 ==> !text::is_white(scheme[0]),
        is_plain_part(host),
        path.len() > 0,
        path[0] == '/',
    ensures
        address_path(scheme + scheme_mark() + host + path) == before_suffix(
            text::trimmed(path, Strip::White),
        ),
{
    let head = scheme + scheme_mark() + host;
    let url = head + path;
    let white = Strip::White;
    lemma_trimmed_start_keeps(url, white);
    lemma_trimmed_start_keeps(path, white);
    lemma_trimmed_end_keeps_head(head, path, white);
    let kept = text::trimmed_end(path, white);
    assert(text::trimmed(path, white) == kept);
    assert forall|k: int| 0 <= k < head.len() implies head[k] != '#' && head[k] != '?' by {
        if k < scheme.len() {
            assert(head[k] == scheme[k]);
            assert(scheme.contains(scheme[k]));
        } else if k >= scheme.len() + 3 {
            assert(head[k] == host[k - scheme.len() - 3]);
            assert(host.contains(host[k - scheme.len() - 3]));
        }
    }
    lemma_before_suffix_keeps_head(head, kept);
    let bare = before_suffix(kept);
    assert(bare.len() > 0 && bare[0] == '/');
    let u = head + bare;
    let n = scheme.len() as int;
    assert(u.subrange(n, n + 3) == scheme_mark());
    assert forall|i: int| 0 <= i < n implies !text::stands_at(u, scheme_mark(), i) by {
        let window = u.subrange(i, i + 3);
        if i + 3 <= u.len() && window == scheme_mark() {
            assert(window[1] == u[i + 1]);
            if i + 1 < n {
                assert(scheme.contains(scheme[i + 1]));
            }
        }
    }
    text::lemma_found_from_is(u, scheme_mark(), 0, n);
    assert(u.take(n) == scheme);
    assert(u.skip(n + 3) == host + bare);
    lemma_first_slash(host, bare);
}

/// A bare path passes through unchanged: one that begins with a single slash,
/// whatever stands further on.
pub proof fn law_bare_path_passes_through(path: Seq<char>)
    requires
        path.len() > 0,
        path[0] == '/',
        path.len() > 1 ==> path[1] != '/',
        !path.contains('#'),
        !path.contains('?'),
        !text::is_white(path.last()),
    ensures
        address_path(path) == path,
{
    lemma_trimmed_start_keeps(path, Strip::White);
    assert(text::trimmed(path, Strip::White) == path);
    lemma_no_suffix(path);
    text::lemma_found_from(path, scheme_mark(), 0);
    if let Some(i) = text::found_from(path, scheme_mark(), 0) {
        assert(path.subrange(i, i + 3)[0] == path[i]);
        assert(path.take(i)[0] == '/');
    }
}

/// Scheme and host of an absolute address do not matter, so a local preview
/// and the deployed site are redacted alike.
pub proof fn law_host_is_ignored(
    strip_prefix: Seq<char>,
    scheme: Seq<char>,
    host: Seq<char>,
    other_scheme: Seq<char>,
    other_host: Seq<char>,
    path: Seq<char>,
    files: Set<Seq<char>>,
)
    requires
        is_plain_part(scheme),
        scheme.len() > 0 ==> !text::is_white(scheme[0]),
        is_plain_part(host),
        is_plain_part(other_scheme),
        other_scheme.len() > 0 ==> !text::is_white(other_scheme[0]),
        is_plain_part(other_host),
        path.len() > 0,
        path[0] == '/',
    ensures
        leads_to_encrypted(strip_prefix, scheme + scheme_mark() + host + path, files)
            == leads_to_encrypted(
            strip_prefix,
            other_scheme + scheme_mark() + other_host + path,
            files,
        ),
{
    law_path_of_absolute(scheme, host, path);
    law_path_of_absolute(other_scheme, other_host, path);
}

/// A query string or a fragment behind an address does not matter.
pub proof fn law_suffix_is_ignored(
    strip_prefix: Seq<char>,
    url: Seq<char>,
    suffix: Seq<char>,
    files: Set<Seq<char>>,
)
    requires
        text::trimmed_end(url, Strip::White) == url,
        suffix.len() > 0,
        suffix[0] == '?' || suffix[0] == '#',
    ensures
        leads_to_encrypted(strip_prefix, url + suffix, files) == leads_to_encrypted(
            strip_prefix,
            url,
            files,
        ),
{
    let white = Strip::White;
    lemma_trimmed_start_of_sum(url, suffix, white);
    let head = text::trimmed_start(url, white);
    lemma_trimmed_end_keeps_head(head, suffix, white);
    lemma_trimmed_start_end(url);
    let kept = text::trimmed_end(suffix, white);
    lemma_before_suffix_stops(head, kept);
}

proof fn lemma_trimmed_start_of_sum(url: Seq<char>, suffix: Seq<char>, set: Strip)
    requires
        suffix.len() > 0,
        !text::strips(set, suffix[0]),
    ensures
        text::trimmed_start(url + suffix, set) == text::trimmed_start(url, set) + suffix,
    decreases url.len(),
{
    if url.len() == 0 {
        assert(url + suffix == suffix);
    } else if text::strips(set, url[0]) {
        assert((url + suffix).drop_first() == url.drop_first() + suffix);
        lemma_trimmed_start_of_sum(url.drop_first(), suffix, set);
    }
}

proof fn lemma_trimmed_start_end(url: Seq<char>)
    requires
        text::trimmed_end(url, Strip::White) == url,
    ensures
        text::trimmed(url, Strip::White) == text::trimmed_start(url, Strip::White),
    decreases url.len(),
{
    lemma_trimmed_end_fixed(url);
    if url.len() > 0 && text::is_white(url[0]) {
        let rest = url.drop_first();
        assert(rest.len() > 0 ==> rest.last() == url.last());
        lemma_trimmed_start_end(rest);
    }
}

proof fn lemma_trimmed_end_fixed(url: Seq<char>)
    requires
        text::trimmed_end(url, Strip::White) == url,
    ensures
        url.len() > 0 ==> !text::is_white(url.last()),
{
    if url.len() > 0 && text::is_white(url.last()) {
        lemma_trimmed_end_len(url.drop_last());
    }
}

proof fn lemma_trimmed_end_len(s: Seq<char>)
    ensures
        text::trimmed_end(s, Strip::White).len() <= s.len(),
    decreases s.len(),
{
    if s.len() > 0 {
        lemma_trimmed_end_len(s.drop_last());
    }
}

proof fn lemma_before_suffix_stops(head: Seq<char>, suffix: Seq<char>)
    requires
        suffix.len() > 0,
        suffix[0] == '?' || suffix[0] == '#',
    ensures
        before_suffix(head + suffix) == before_suffix(head),
    decreases head.len(),
{
    if head.len() > 0 {
        assert((head + suffix).drop_first() == head.drop_first() + suffix);
        lemma_before_suffix_stops(head.drop_first(), suffix);
    } else {
        assert(head + suffix == suffix);
    }
}

/// Without a prefix, a page that is found at some path is found below any
/// directory too: a deployment under a subpath needs no configuration, and a
/// public page with the same tail is treated as encrypted.
pub proof fn law_any_subpath(dir: Seq<char>, rel: Seq<char>, files: Set<Seq<char>>)
    requires
        rel.len() > 0,
        tail_serves_encrypted(rel, files),
    ensures
        tail_serves_encrypted(dir + seq!['/'] + rel, files),
{
    let whole = dir + seq!['/'] + rel;
    let k = choose|k: int| #[trigger]
        segment_begins(rel, k) && serves_encrypted(rel.skip(k), files);
    let at = dir.len() as int + 1 + k;
    assert(k > 0 ==> whole[at - 1] == rel[k - 1]);
    assert(segment_begins(whole, at));
    assert(whole.skip(at) == rel.skip(k));
}

proof fn lemma_trimmed_start_last(s: Seq<char>, set: Strip)
    requires
        s.len() > 0,
    ensures
        text::trimmed_start(s, set).len() > 0 ==> text::trimmed_start(s, set).last() == s.last(),
    decreases s.len(),
{
    if text::strips(set, s[0]) {
        if s.len() > 1 {
            lemma_trimmed_start_last(s.drop_first(), set);
        } else {
            assert(text::trimmed_start(s.drop_first(), set).len() == 0);
        }
    }
}

proof fn lemma_no_suffix(s: Seq<char>)
    requires
        !s.contains('#'),
        !s.contains('?'),
    ensures
        before_suffix(s) == s,
{
    lemma_before_suffix_keeps_head(s, Seq::empty());
    assert(s + Seq::<char>::empty() == s);
    assert(s + before_suffix(Seq::empty()) == s);
}

/// An address of an encrypted page leads to it: on any host, below any
/// subpath, and with or without a slash at its end.
pub proof fn law_encrypted_page_is_found(
    scheme: Seq<char>,
    host: Seq<char>,
    subpath: Seq<char>,
    rel: Seq<char>,
    slash: bool,
    files: Set<Seq<char>>,
)
    requires
        is_plain_part(scheme),
        scheme.len() > 0 ==> !text::is_white(scheme[0]),
        is_plain_part(host),
        subpath.len() > 0 ==> subpath[0] == '/',
        !subpath.contains('#') && !subpath.contains('?'),
        rel.len() > 0,
        !rel.contains('#') && !rel.contains('?'),
        rel[0] != '/' && rel.last() != '/' && !text::is_white(rel.last()),
        serves_encrypted(rel, files),
    ensures
        leads_to_encrypted(
            Seq::empty(),
            scheme + scheme_mark() + host + (subpath + seq!['/'] + rel + (if slash {
                seq!['/']
            } else {
                seq![]
            })),
            files,
        ),
{
    let end: Seq<char> = if slash {
        seq!['/']
    } else {
        seq![]
    };
    let only = Strip::Only('/');
    let x = subpath + seq!['/'];
    let tail = rel + end;
    let path = x + rel + end;
    assert(path == x + tail);
    law_path_of_absolute(scheme, host, path);
    assert(!text::is_white(path.last()));
    assert(text::trimmed(path, Strip::White) == path);
    assert forall|k: int| 0 <= k < path.len() implies path[k] != '#' && path[k] != '?' by {
        if k < subpath.len() {
            assert(subpath.contains(subpath[k]));
        } else if x.len() <= k < x.len() + rel.len() {
            assert(path[k] == rel[k - x.len()]);
            assert(rel.contains(rel[k - x.len()]));
        }
    }
    lemma_no_suffix(path);
    lemma_trimmed_start_of_sum(x, tail, only);
    lemma_trimmed_start_last(x, only);
    let before = text::trimmed_start(x, only);
    lemma_trimmed_end_keeps_head(before, tail, only);
    if slash {
        assert(tail.drop_last() == rel);
        assert(text::trimmed_end(tail, only) == text::trimmed_end(rel, only));
    } else {
        assert(tail == rel);
    }
    assert(text::trimmed_end(rel, only) == rel);
    let found = before + rel;
    assert(text::trimmed(path, only) == found);
    assert(segment_begins(found, before.len() as int));
    assert(found.skip(before.len() as int) == rel);
    assert(text::trimmed(Seq::<char>::empty(), only).len() == 0);
}

/// The root of a host leads to the home page, and to no other page.
pub proof fn law_root_is_the_home_page(scheme: Seq<char>, host: Seq<char>, files: Set<Seq<char>>)
    requires
        is_plain_part(scheme),
        scheme.len() > 0 ==> !text::is_white(scheme[0]),
        is_plain_part(host),
    ensures
        leads_to_encrypted(Seq::empty(), scheme + scheme_mark() + host + seq!['/'], files)
            == files.contains("index.html"@),
{
    let path = seq!['/'];
    let only = Strip::Only('/');
    law_path_of_absolute(scheme, host, path);
    assert(text::trimmed(path, Strip::White) == path);
    lemma_no_suffix(path);
    assert(path.drop_first() == Seq::<char>::empty());
    assert(text::trimmed_start(path.drop_first(), only) == Seq::<char>::empty());
    assert(text::trimmed(path, only).len() == 0);
    assert(text::trimmed(Seq::<char>::empty(), only).len() == 0);
}

/// What stands behind the last slash of a path.
pub open spec fn last_segment(rel: Seq<char>) -> Seq<char> {
    match paths::last_of(rel, '/') {
        Some(i) => rel.skip(i + 1),
        None => rel,
    }
}

proof fn lemma_last_segment(rel: Seq<char>, k: int)
    requires
        segment_begins(rel, k),
        !rel.skip(k).contains('/'),
    ensures
        last_segment(rel) == rel.skip(k),
{
    paths::lemma_last_of(rel, '/');
    match paths::last_of(rel, '/') {
        Some(i) => {
            if i >= k {
                assert(rel.skip(k)[i - k] == '/');
            } else if k > 0 && i < k - 1 {
                assert(rel[k - 1] != '/');
            }
        },
        None => {
            assert(k == 0);
            assert(rel.skip(0) =~= rel);
        },
    }
}

/// The home page is what the empty path names. Of all other paths, those that
/// end with the segment `index` or `index.html` are taken for it, and no others.
pub proof fn law_home_page(rel: Seq<char>)
    requires
        rel.len() > 0,
    ensures
        tail_serves_encrypted(Seq::empty(), set!["index.html"@]),
        tail_serves_encrypted(rel, set!["index.html"@]) <==> (last_segment(rel) == "index"@
            || last_segment(rel) == "index.html"@),
{
    let files = set!["index.html"@];
    reveal_strlit("index.html");
    reveal_strlit("/index.html");
    reveal_strlit(".html");
    reveal_strlit("index");
    assert("index"@ + ".html"@ =~= "index.html"@);
    if tail_serves_encrypted(rel, files) {
        let k = choose|k: int| #[trigger]
            segment_begins(rel, k) && serves_encrypted(rel.skip(k), files);
        let tail = rel.skip(k);
        if tail + "/index.html"@ == "index.html"@ {
            assert((tail + "/index.html"@).len() == "index.html"@.len());
        }
        if tail + ".html"@ == "index.html"@ {
            assert(tail =~= (tail + ".html"@).take(tail.len() as int));
            assert("index"@ =~= "index.html"@.take(5));
        }
        assert(tail == "index"@ || tail == "index.html"@);
        assert(!tail.contains('/'));
        lemma_last_segment(rel, k);
    }
    if last_segment(rel) == "index"@ || last_segment(rel) == "index.html"@ {
        paths::lemma_last_of(rel, '/');
        let k = match paths::last_of(rel, '/') {
            Some(i) => i + 1,
            None => 0,
        };
        assert(rel.skip(0) =~= rel);
        assert(rel.skip(k) == last_segment(rel));
        assert(segment_begins(rel, k));
    }
}

/// The part of an address that counts reaches up to the first `#` or `?`.
pub proof fn law_before_suffix(head: Seq<char>, rest: Seq<char>)
    requires
        forall|k: int| 0 <= k < head.len() ==> #[trigger] head[k] != '#' && head[k] != '?',
        rest.len() > 0 ==> rest[0] == '#' || rest[0] == '?',
    ensures
        before_suffix(head + rest) == head,
    decreases head.len(),
{
    let u = head + rest;
    if head.len() == 0 {
        assert(u =~= rest);
        assert(before_suffix(u) =~= head);
    } else {
        assert(u.drop_first() =~= head.drop_first() + rest);
        assert(u[0] == head[0]);
        law_before_suffix(head.drop_first(), rest);
        assert(seq![head[0]] + head.drop_first() =~= head);
    }
}

/// White space around an address does not matter, nor does a query string or a
/// fragment: the path is that of what stands before them.
pub proof fn law_address_path(
    before: Seq<char>,
    head: Seq<char>,
    rest: Seq<char>,
    behind: Seq<char>,
)
    requires
        forall|i: int| 0 <= i < before.len() ==> text::is_white(#[trigger] before[i]),
        forall|i: int| 0 <= i < behind.len() ==> text::is_white(#[trigger] behind[i]),
        forall|k: int| 0 <= k < head.len() ==> #[trigger] head[k] != '#' && head[k] != '?',
        rest.len() > 0 ==> rest[0] == '#' || rest[0] == '?',
        (head + rest).len() > 0 ==> !text::is_white((head + rest)[0]) && !text::is_white(
            (head + rest).last(),
        ),
    ensures
        address_path(before + (head + rest) + behind) == path_of(head),
{
    text::law_trimmed_is(before, head + rest, behind, Strip::White);
    law_before_suffix(head, rest);
}

/// From position `from` on, the first slash stands at `at`, or nowhere.
pub open spec fn is_next_slash(u: Seq<char>, from: int, at: Option<int>) -> bool {
    match at {
        Some(at) => from <= at < u.len() && u[at] == '/' && forall|k: int|
            from <= k < at ==> #[trigger] u[k] != '/',
        None => forall|k: int| from <= k < u.len() ==> #[trigger] u[k] != '/',
    }
}

proof fn lemma_next_slash(u: Seq<char>, from: int, at: Option<int>)
    requires
        0 <= from <= u.len(),
        is_next_slash(u, from, at),
    ensures
        from_first_slash(u.skip(from)) == (match at {
            Some(at) => u.skip(at),
            None => Seq::<char>::empty(),
        }),
{
    let tail = u.skip(from);
    let slash = seq!['/'];
    text::lemma_found_from(tail, slash, 0);
    assert forall|i: int| 0 <= i < tail.len() implies text::stands_at(tail, slash, i) == (u[from
        + i] == '/') by {
        assert(tail.subrange(i, i + 1)[0] == u[from + i]);
        if u[from + i] == '/' {
            assert(tail.subrange(i, i + 1) =~= slash);
        }
    }
    match at {
        Some(at) => {
            assert(text::stands_at(tail, slash, at - from));
            let i = text::found_from(tail, slash, 0)->0;
            assert(u[from + i] == '/');
            assert(i == at - from);
            assert(tail.skip(i) =~= u.skip(at));
        },
        None => {
            if text::found_from(tail, slash, 0) is Some {
                let i = text::found_from(tail, slash, 0)->0;
                assert(text::stands_at(tail, slash, i));
                assert(u[from + i] == '/');
            }
        },
    }
}

/// Behind a scheme, which holds no slash and ends with `://`, the path is what
/// stands from the next slash on, or nothing where there is none.
pub proof fn law_path_behind_scheme(u: Seq<char>, i: int, at: Option<int>)
    requires
        0 <= i && i + 3 <= u.len(),
        u[i] == ':' && u[i + 1] == '/' && u[i + 2] == '/',
        forall|k: int| 0 <= k < i ==> #[trigger] u[k] != '/',
        is_next_slash(u, i + 3, at),
    ensures
        path_of(u) == (match at {
            Some(at) => u.skip(at),
            None => Seq::<char>::empty(),
        }),
{
    let mark = scheme_mark();
    assert(u.subrange(i, i + 3) =~= mark);
    assert forall|k: int| 0 <= k < i implies !text::stands_at(u, mark, k) by {
        if text::stands_at(u, mark, k) {
            assert(u.subrange(k, k + 3)[1] == '/');
            assert(u[k + 1] == '/');
        }
    }
    text::lemma_found_from_is(u, mark, 0, i);
    assert(!u.take(i).contains('/'));
    lemma_next_slash(u, i + 3, at);
}

/// Behind two slashes at the beginning, the path is what stands from the next
/// slash on, or nothing where there is none.
pub proof fn law_path_behind_host(u: Seq<char>, at: Option<int>)
    requires
        u.len() >= 2 && u[0] == '/' && u[1] == '/',
        is_next_slash(u, 2, at),
    ensures
        path_of(u) == (match at {
            Some(at) => u.skip(at),
            None => Seq::<char>::empty(),
        }),
{
    text::lemma_found_from(u, scheme_mark(), 0);
    if let Some(i) = text::found_from(u, scheme_mark(), 0) {
        assert(u.subrange(i, i + 3)[0] == u[i]);
        assert(u.take(i)[0] == '/');
    }
    lemma_next_slash(u, 2, at);
}

/// An address with neither is a path.
pub proof fn law_path_alone(u: Seq<char>)
    requires
        forall|i: int|
            0 <= i && i + 3 <= u.len() && #[trigger] u[i] == ':' && u[i + 1] == '/' && u[i + 2]
                == '/' ==> exists|k: int| 0 <= k < i && #[trigger] u[k] == '/',
        !(u.len() >= 2 && u[0] == '/' && u[1] == '/'),
    ensures
        path_of(u) == u,
{
    text::lemma_found_from(u, scheme_mark(), 0);
    if let Some(i) = text::found_from(u, scheme_mark(), 0) {
        let window = u.subrange(i, i + 3);
        assert(window[0] == u[i] && window[1] == u[i + 1] && window[2] == u[i + 2]);
        let k = choose|k: int| 0 <= k < i && #[trigger] u[k] == '/';
        assert(u.take(i)[k] == '/');
    }
}

/// The file is one that a server answers the path with: the index page of the
/// directory, the page of that name, or the file of that name; for the empty
/// path the home page.
pub open spec fn answers(rel: Seq<char>, file: Seq<char>) -> bool {
    if rel.len() == 0 {
        file == "index.html"@
    } else {
        file == rel + "/index.html"@ || file == rel + ".html"@ || file == rel
    }
}

proof fn lemma_serves(rel: Seq<char>, files: Set<Seq<char>>)
    ensures
        serves_encrypted(rel, files) <==> exists|file: Seq<char>|
            files.contains(file) && #[trigger] answers(rel, file),
{
    if serves_encrypted(rel, files) {
        let file = if rel.len() == 0 {
            "index.html"@
        } else if files.contains(rel + "/index.html"@) {
            rel + "/index.html"@
        } else if files.contains(rel + ".html"@) {
            rel + ".html"@
        } else {
            rel
        };
        assert(files.contains(file) && answers(rel, file));
    }
}

/// Without a prefix, an address leads to an encrypted page exactly where some
/// encrypted file answers its path, or a rest of the path that begins behind a
/// slash.
pub proof fn law_addresses_without_prefix(
    strip_prefix: &str,
    url: &str,
    files: &FileSet,
    r: bool,
)
    requires
        call_ensures(is_encrypted_url, (strip_prefix, url, files), r),
        forall|i: int| 0 <= i < strip_prefix@.len() ==> #[trigger] strip_prefix@[i] == '/',
    ensures
        ({
            let rel = text::trimmed(address_path(url@), Strip::Only('/'));
            r <==> exists|k: int, file: Seq<char>|
                {
                    &&& 0 <= k <= rel.len()
                    &&& k == 0 || (k < rel.len() && rel[k - 1] == '/')
                    &&& files@.contains(file)
                    &&& #[trigger] answers(rel.skip(k), file)
                }
        }),
{
    let rel = text::trimmed(address_path(url@), Strip::Only('/'));
    text::law_trimmed_is(strip_prefix@, Seq::empty(), Seq::empty(), Strip::Only('/'));
    assert(strip_prefix@ + Seq::<char>::empty() + Seq::<char>::empty() =~= strip_prefix@);
    assert(rel.skip(0) =~= rel);
    if r {
        if rel.len() == 0 {
            lemma_serves(rel, files@);
            let file = choose|file: Seq<char>|
                files@.contains(file) && #[trigger] answers(rel, file);
            assert(answers(rel.skip(0), file));
        } else {
            let k = choose|k: int| #[trigger]
                segment_begins(rel, k) && serves_encrypted(rel.skip(k), files@);
            lemma_serves(rel.skip(k), files@);
            let file = choose|file: Seq<char>|
                files@.contains(file) && #[trigger] answers(rel.skip(k), file);
            assert(answers(rel.skip(k), file));
        }
    }
    if exists|k: int, file: Seq<char>|
        {
            &&& 0 <= k <= rel.len()
            &&& k == 0 || (k < rel.len() && rel[k - 1] == '/')
            &&& files@.contains(file)
            &&& #[trigger] answers(rel.skip(k), file)
        } {
        let (k, file) = choose|k: int, file: Seq<char>|
            {
                &&& 0 <= k <= rel.len()
                &&& k == 0 || (k < rel.len() && rel[k - 1] == '/')
                &&& files@.contains(file)
                &&& #[trigger] answers(rel.skip(k), file)
            };
        lemma_serves(rel.skip(k), files@);
        assert(serves_encrypted(rel.skip(k), files@));
        if rel.len() > 0 {
            assert(segment_begins(rel, k));
        }
    }
}

/// With a prefix, an address leads to an encrypted page exactly where its path
/// is the prefix and the home page is encrypted, or the prefix, a slash, and a
/// path that some encrypted file answers.
pub proof fn law_addresses_with_prefix(
    strip_prefix: &str,
    url: &str,
    files: &FileSet,
    r: bool,
)
    requires
        call_ensures(is_encrypted_url, (strip_prefix, url, files), r),
        exists|i: int| 0 <= i < strip_prefix@.len() && #[trigger] strip_prefix@[i] != '/',
    ensures
        ({
            let rel = text::trimmed(address_path(url@), Strip::Only('/'));
            let base = text::trimmed(strip_prefix@, Strip::Only('/'));
            r <==> (rel == base && files@.contains("index.html"@)) || exists|
                tail: Seq<char>,
                file: Seq<char>,
            |
                {
                    &&& rel == base + seq!['/'] + tail
                    &&& files@.contains(file)
                    &&& #[trigger] answers(tail, file)
                }
        }),
{
    let rel = text::trimmed(address_path(url@), Strip::Only('/'));
    let base = text::trimmed(strip_prefix@, Strip::Only('/'));
    let (a, c) = text::lemma_trimmed_ends(strip_prefix@, Strip::Only('/'));
    let at = choose|i: int| 0 <= i < strip_prefix@.len() && #[trigger] strip_prefix@[i] != '/';
    assert(!text::strips(Strip::Only('/'), strip_prefix@[at]));
    assert(base.len() > 0);
    let head = base + seq!['/'];
    if r && rel != base {
        assert(head.is_prefix_of(rel));
        let tail = rel.skip(base.len() as int + 1);
        assert(rel =~= head + tail);
        lemma_serves(tail, files@);
        let file = choose|file: Seq<char>|
            files@.contains(file) && #[trigger] answers(tail, file);
        assert(answers(tail, file));
    }
    if exists|tail: Seq<char>, file: Seq<char>|
        {
            &&& rel == base + seq!['/'] + tail
            &&& files@.contains(file)
            &&& #[trigger] answers(tail, file)
        } {
        let (tail, file) = choose|tail: Seq<char>, file: Seq<char>|
            {
                &&& rel == base + seq!['/'] + tail
                &&& files@.contains(file)
                &&& #[trigger] answers(tail, file)
            };
        lemma_serves(tail, files@);
        assert(head.is_prefix_of(rel)) by {
            assert(rel.subrange(0, head.len() as int) =~= head);
        }
        assert(rel.skip(base.len() as int + 1) =~= tail);
        assert(rel.len() != base.len());
    }
}

/// The path that is told is that of the address.
pub proof fn law_told_path(url: &str, r: &str)
    requires
        call_ensures(url_path, (url,), r),
    ensures
        exists|u: Seq<char>|
            {
                &&& r@ == #[trigger] path_of(before_suffix(u))
                &&& u == text::trimmed(url@, Strip::White)
            },
        forall|i: int| 0 <= i < r@.len() ==> #[trigger] r@[i] != '#' && r@[i] != '?',
{
    let u = text::trimmed(url@, Strip::White);
    let v = before_suffix(u);
    assert(r@ == path_of(before_suffix(u)));
    lemma_no_marks(u);
    match scheme_end(v) {
        Some(i) => {
            text::lemma_found_from(v, scheme_mark(), 0);
            lemma_slash_part(v, i + 3);
        },
        None => {
            if v.len() >= 2 {
                lemma_slash_part(v, 2);
            }
        },
    }
}

proof fn lemma_no_marks(u: Seq<char>)
    ensures
        forall|i: int|
            0 <= i < before_suffix(u).len() ==> #[trigger] before_suffix(u)[i] != '#'
                && before_suffix(u)[i] != '?',
    decreases u.len(),
{
    if u.len() > 0 && u[0] != '#' && u[0] != '?' {
        lemma_no_marks(u.drop_first());
        let rest = before_suffix(u.drop_first());
        let all = before_suffix(u);
        assert forall|i: int| 0 <= i < all.len() implies #[trigger] all[i] != '#' && all[i]
            != '?' by {
            if i > 0 {
                assert(all[i] == rest[i - 1]);
            }
        }
    }
}

proof fn lemma_slash_part(v: Seq<char>, from: int)
    requires
        0 <= from <= v.len(),
        forall|i: int| 0 <= i < v.len() ==> #[trigger] v[i] != '#' && v[i] != '?',
    ensures
        ({
            let part = from_first_slash(v.skip(from));
            forall|i: int| 0 <= i < part.len() ==> #[trigger] part[i] != '#' && part[i] != '?'
        }),
{
    let tail = v.skip(from);
    let part = from_first_slash(tail);
    text::lemma_found_from(tail, seq!['/'], 0);
    assert forall|i: int| 0 <= i < part.len() implies #[trigger] part[i] != '#' && part[i]
        != '?' by {
        let at = text::found_from(tail, seq!['/'], 0)->0;
        assert(part[i] == v[from + at + i]);
    }
}

/// A page that was recorded is among the encrypted ones, and so is every page
/// that was before, and no other.
pub proof fn law_recorded_pages(files: &mut FileSet, rel: String, other: Seq<char>)
    requires
        call_ensures(FileSet::insert, (files, rel), ()),
    ensures
        final(files)@.contains(other) <==> other == rel@ || old(files)@.contains(other),
{
}

/// What is told of the encrypted pages is so.
pub proof fn law_told_pages(files: &FileSet, rel: &str, has: bool, none: bool)
    requires
        call_ensures(FileSet::contains, (files, rel), has),
        call_ensures(FileSet::is_empty, (files,), none),
    ensures
        has == files@.contains(rel@),
        has ==> !none,
        none <==> files@ == Set::<Seq<char>>::empty(),
{
    if none {
        assert(files@ =~= Set::<Seq<char>>::empty());
    }
}

} // verus!
