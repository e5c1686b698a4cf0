//! Paths of files: relative to the input, and by their extension.

use vstd::prelude::*;
use vstd::string::*;

use crate::text;
use crate::text::{chars_of, string_of, trim_start, Strip};

verus! {

// ---------------------------------------------------------------------------
// Relative paths
// ---------------------------------------------------------------------------

/// A path with forward slashes in the place of backslashes.
pub open spec fn slashed(p: Seq<char>) -> Seq<char> {
    p.map_values(
        |c: char|
            if c == '\\' {
                '/'
            } else {
                c
            },
    )
}

/// A text that means the same path everywhere: it has forward slashes alone,
/// none of them at its end, and neither an empty segment nor a `.` behind the
/// first. It may begin with a slash, and does not begin with a drive letter.
pub open spec fn is_plain_path(p: Seq<char>) -> bool {
    &&& p.len() > 0
    &&& p.last() != '/'
    &&& !(p.len() > 1 && p[1] == ':')
    &&& forall|i: int| 0 <= i < p.len() ==> #[trigger] p[i] != '\\'
    &&& forall|i: int|
        0 < i < p.len() && p[i - 1] == '/' ==> #[trigger] p[i] != '/' && !is_dot_segment(p, i)
}

pub open spec fn is_dot_segment(p: Seq<char>, i: int) -> bool {
    p[i] == '.' && (i + 1 == p.len() || p[i + 1] == '/')
}

/// A path without the slashes at its end.
pub open spec fn unslashed(p: Seq<char>) -> Seq<char>
    decreases p.len(),
{
    if p.len() > 1 && p.last() == '/' {
        unslashed(p.drop_last())
    } else {
        p
    }
}

/// Without the empty segments and the `.` at the beginning.
pub open spec fn without_leading(p: Seq<char>) -> Seq<char>
    decreases p.len(),
{
    if p.len() > 0 && p[0] == '/' {
        without_leading(p.drop_first())
    } else if p.len() == 1 && p[0] == '.' {
        Seq::empty()
    } else if p.len() > 1 && p[0] == '.' && p[1] == '/' {
        without_leading(p.skip(2))
    } else {
        p
    }
}

/// Without the empty segments and the `.` at the end, behind the first segment.
pub open spec fn without_trailing(p: Seq<char>) -> Seq<char>
    decreases p.len(),
{
    if p.len() > 0 && p.last() == '/' {
        without_trailing(p.drop_last())
    } else if p.len() > 1 && p.last() == '.' && p[p.len() - 2] == '/' {
        without_trailing(p.take(p.len() - 2))
    } else {
        p
    }
}

/// What is left of a path below a base, if its text begins with the base.
pub open spec fn below(base: Seq<char>, path: Seq<char>) -> Option<Seq<char>> {
    if path == base {
        Some(Seq::empty())
    } else if base == seq!['/'] && path.len() > 0 && path[0] == '/' {
        Some(path.skip(1))
    } else if path.len() > base.len() && path.take(base.len() as int + 1) == base.push('/') {
        Some(path.skip(base.len() as int + 1))
    } else {
        None
    }
}

/// The path by which a file is matched and reported: what is left of the path
/// below the input, or else the whole path.
pub open spec fn relative(input: Seq<char>, path: Seq<char>) -> Seq<char> {
    match below(unslashed(input), path) {
        Some(rest) => without_trailing(without_leading(rest)),
        None => path,
    }
}

/// The text begins with two separators, as a path on a network does on some
/// platforms.
pub open spec fn has_network_start(p: Seq<char>) -> bool {
    p.len() > 1 && slashed(p)[0] == '/' && slashed(p)[1] == '/'
}

/// A base whose text is taken apart in the same way everywhere: it is not
/// empty, not on a network, and not a drive alone.
pub open spec fn is_sure_base(base: Seq<char>) -> bool {
    &&& base.len() > 0
    &&& !has_network_start(base)
    &&& !(unslashed(base).len() == 2 && base[1] == ':')
}

/// The first and the last segment are neither empty nor `.`, whether or not a
/// backslash separates segments.
pub open spec fn has_sure_ends(p: Seq<char>) -> bool {
    p.len() > 0 ==> {
        let s = slashed(p);
        &&& s[0] != '/'
        &&& s.last() != '/'
        &&& !is_dot_segment(s, 0)
        &&& !(s.len() > 1 && s.last() == '.' && s[s.len() - 2] == '/')
    }
}

/// What is left of the path below the input does not depend on the platform.
pub open spec fn is_sure_relative(input: Seq<char>, path: Seq<char>) -> bool {
    if below(unslashed(input), path) is Some {
        &&& is_sure_base(input)
        &&& !has_network_start(path)
        &&& has_sure_ends(relative(input, path))
    } else {
        is_plain_path(unslashed(input)) && is_plain_path(path)
    }
}

/// `Path::strip_prefix` of std, on paths as texts. Paths are compared segment
/// by segment. What is left is the part of the path behind the base, without
/// the separators and the `.` at its ends, which do not count as segments. What
/// it gives where the platform has a say is left open: where a backslash or a
/// drive decides, or a text on a network.
#[verifier::external_body]
fn strip_base(base: &str, path: &str) -> (r: Option<String>)
    ensures
        is_sure_relative(base@, path@) ==> (match r {
            Some(rest) => below(unslashed(base@), path@) is Some && rest@ == relative(
                base@,
                path@,
            ),
            None => below(unslashed(base@), path@) is None,
        }),
{
    let rest = std::path::Path::new(path).strip_prefix(base).ok()?;
    Some(rest.to_string_lossy().into_owned())
}

fn with_slashes(p: &str) -> (r: String)
    ensures
        r@ == slashed(p@),
{
    let chars = chars_of(p);
    let mut r = String::new();
    for i in 0..chars.len()
        invariant
            chars@ == p@,
            r@ == slashed(p@.take(i as int)),
    {
        let c: char = chars[i];
        proof {
            assert(slashed(p@.take(i + 1)) =~= slashed(p@.take(i as int)).push(
                slashed(p@)[i as int],
            ));
        }
        r.push(
            if c == '\\' {
                '/'
            } else {
                c
            },
        );
    }
    proof {
        assert(p@.take(p@.len() as int) =~= p@);
    }
    r
}

/// The path by which a file is matched and reported, given what is left of it
/// without the input: `None` if the path does not lie below the input.
pub fn rel_path_from(stripped: Option<&str>, path: &str) -> (r: String)
    ensures
        r@ == slashed(
            match stripped {
                Some(rest) => rest@,
                None => path@,
            },
        ),
{
    match stripped {
        Some(rest) => with_slashes(rest),
        None => with_slashes(path),
    }
}

/// Input-relative path with forward slashes, for matching and reporting.
pub fn rel_path(input: &str, path: &str) -> (r: String)
    ensures
        forall|i: int| 0 <= i < r@.len() ==> #[trigger] r@[i] != '\\',
        is_sure_relative(input@, path@) ==> r@ == slashed(relative(input@, path@)),
{
    match strip_base(input, path) {
        Some(rest) => rel_path_from(Some(rest.as_str()), path),
        None => rel_path_from(None, path),
    }
}

/// A path below the input comes back without it, whether or not the input ends
/// with a slash.
pub proof fn law_rel_path_of_joined(input: Seq<char>, rest: Seq<char>)
    requires
        input.len() > 0,
        input.last() != '/',
        without_leading(rest) == rest,
        without_trailing(rest) == rest,
    ensures
        relative(input, input + seq!['/'] + rest) == rest,
        relative(input.push('/'), input + seq!['/'] + rest) == rest,
{
    let path = input + seq!['/'] + rest;
    assert(input.push('/').drop_last() =~= input);
    assert(unslashed(input.push('/')) == unslashed(input));
    assert(path.take(input.len() as int + 1) =~= input.push('/'));
    assert(path.skip(input.len() as int + 1) =~= rest);
    assert(input != seq!['/']) by {
        assert(seq!['/'].last() == '/');
    }
}

proof fn lemma_plain_ends(p: Seq<char>)
    requires
        p.len() > 0,
        p[0] != '/',
        p.last() != '/',
        forall|i: int| 0 <= i < p.len() ==> #[trigger] p[i] != '\\',
        forall|i: int|
            0 <= i < p.len() && (i == 0 || p[i - 1] == '/') ==> !#[trigger] is_dot_segment(p, i),
    ensures
        without_leading(p) == p,
        without_trailing(p) == p,
        slashed(p) == p,
        has_sure_ends(p),
{
    assert(!is_dot_segment(p, 0));
    assert(!is_dot_segment(p, p.len() - 1) || p.len() > 1);
    assert(p.len() > 1 && p[p.len() - 2] == '/' ==> !is_dot_segment(p, p.len() - 1));
    assert(slashed(p) =~= p);
}

/// Of plain paths everything is known: what is left of the path is the same
/// everywhere.
pub proof fn law_plain_paths_are_sure(input: Seq<char>, path: Seq<char>)
    requires
        is_plain_path(input),
        is_plain_path(path),
    ensures
        is_sure_relative(input, path),
        match below(input, path) {
            Some(rest) => slashed(relative(input, path)) == rest,
            None => slashed(relative(input, path)) == path,
        },
{
    assert(slashed(path) =~= path);
    assert(slashed(input) =~= input);
    assert(input != seq!['/']) by {
        assert(seq!['/'].last() == '/');
    }
    if input.len() > 1 && input[0] == '/' {
        assert(input[1] != '/');
    }
    if path.len() > 1 && path[0] == '/' {
        assert(path[1] != '/');
    }
    if let Some(rest) = below(input, path) {
        if path == input {
            assert(slashed(rest) =~= rest);
        } else {
            let n = input.len() as int + 1;
            assert(path.take(n)[n - 1] == '/');
            assert forall|i: int| 0 <= i < rest.len() implies #[trigger] rest[i] != '\\' by {
                assert(rest[i] == path[n + i]);
            }
            assert(rest.len() > 0);
            assert(rest[0] == path[n]);
            assert forall|i: int|
                0 <= i < rest.len() && (i == 0 || rest[i - 1] == '/') implies !#[trigger]
            is_dot_segment(rest, i) by {
                assert(rest[i] == path[n + i]);
                assert(path[n + i - 1] == '/');
                if i + 1 < rest.len() {
                    assert(rest[i + 1] == path[n + i + 1]);
                }
                assert(!is_dot_segment(path, n + i));
            }
            lemma_plain_ends(rest);
        }
    }
}

// ---------------------------------------------------------------------------
// Extensions
// ---------------------------------------------------------------------------

/// Where the last of a character stands.
pub open spec fn last_of(s: Seq<char>, c: char) -> Option<int>
    decreases s.len(),
{
    if s.len() == 0 {
        None
    } else if s.last() == c {
        Some(s.len() - 1)
    } else {
        last_of(s.drop_last(), c)
    }
}

pub proof fn lemma_last_of(s: Seq<char>, c: char)
    ensures
        match last_of(s, c) {
            Some(i) => {
                &&& 0 <= i < s.len()
                &&& s[i] == c
                &&& forall|j: int| i < j < s.len() ==> #[trigger] s[j] != c
            },
            None => forall|j: int| 0 <= j < s.len() ==> #[trigger] s[j] != c,
        },
    decreases s.len(),
{
    if s.len() > 0 && s.last() != c {
        let shorter = s.drop_last();
        lemma_last_of(shorter, c);
        assert forall|j: int|
            (last_of(shorter, c) matches Some(i) ==> i < j) && 0 <= j < s.len() implies
            #[trigger] s[j] != c by {
            if j < shorter.len() {
                assert(shorter[j] == s[j]);
            }
        }
    }
}

/// The last segment of a path: the name of the file there.
pub open spec fn file_name(path: Seq<char>) -> Seq<char> {
    let path = without_trailing(path);
    match last_of(path, '/') {
        Some(i) => path.skip(i + 1),
        None => path,
    }
}

/// What stands behind the last dot of a name, if the dot does not begin it.
pub open spec fn name_extension(name: Seq<char>) -> Option<Seq<char>> {
    match last_of(name, '.') {
        Some(i) => if i > 0 {
            Some(name.skip(i + 1))
        } else {
            None
        },
        None => None,
    }
}

/// The extension of the file at a path. The directory above has none.
pub open spec fn path_extension(path: Seq<char>) -> Option<Seq<char>> {
    if file_name(path) == ".."@ {
        None
    } else {
        name_extension(file_name(path))
    }
}

/// The name of the file at the path does not depend on the platform: no
/// backslash stands in it, no drive before it, and the path is not on a
/// network.
pub open spec fn has_sure_name(path: Seq<char>) -> bool {
    &&& !has_network_start(path)
    &&& !file_name(path).contains('\\')
    &&& without_trailing(path).contains('/') || !(path.len() > 1 && path[1] == ':')
}

/// `Path::extension` of std, on a path as a text. What it gives where the
/// platform has a say in what the name of the file is, is left open.
#[verifier::external_body]
fn extension_of(path: &str) -> (r: Option<String>)
    ensures
        has_sure_name(path@) ==> (match r {
            Some(extension) => path_extension(path@) == Some(extension@),
            None => path_extension(path@) is None,
        }),
{
    let extension = std::path::Path::new(path).extension()?;
    extension.to_str().map(str::to_string)
}

pub open spec fn ascii_lower(c: char) -> char {
    if 'A' <= c <= 'Z' {
        (c as int + 32) as char
    } else {
        c
    }
}

pub open spec fn lowered(s: Seq<char>) -> Seq<char> {
    s.map_values(|c: char| ascii_lower(c))
}

fn lower(c: char) -> (r: char)
    ensures
        r == ascii_lower(c),
{
    if 'A' <= c && c <= 'Z' {
        (c as u8 + 32) as char
    } else {
        c
    }
}

fn same_ignoring_case(a: &str, b: &str) -> (r: bool)
    ensures
        r == (lowered(a@) == lowered(b@)),
{
    let a_chars = chars_of(a);
    let b_chars = chars_of(b);
    if a_chars.len() != b_chars.len() {
        proof {
            assert(lowered(a@).len() != lowered(b@).len());
        }
        return false;
    }
    for i in 0..a_chars.len()
        invariant
            a_chars@ == a@,
            b_chars@ == b@,
            a@.len() == b@.len(),
            forall|j: int| 0 <= j < i ==> ascii_lower(#[trigger] a@[j]) == ascii_lower(b@[j]),
    {
        if lower(a_chars[i]) != lower(b_chars[i]) {
            proof {
                assert(lowered(a@)[i as int] != lowered(b@)[i as int]);
            }
            return false;
        }
    }
    proof {
        assert(lowered(a@) =~= lowered(b@));
    }
    true
}

/// The extension is one of those in the list, where case and leading dots do
/// not count.
pub open spec fn is_listed_extension(extension: Seq<char>, extensions: Seq<String>) -> bool {
    exists|i: int|
        0 <= i < extensions.len() && lowered(
            text::trimmed_start((#[trigger] extensions[i])@, Strip::Only('.')),
        ) == lowered(extension)
}

fn is_in_list(extension: &str, extensions: &Vec<String>) -> (r: bool)
    ensures
        r == is_listed_extension(extension@, extensions@),
{
    for i in 0..extensions.len()
        invariant
            forall|j: int|
                0 <= j < i ==> lowered(
                    text::trimmed_start((#[trigger] extensions@[j])@, Strip::Only('.')),
                ) != lowered(extension@),
    {
        let listed = trim_start(extensions[i].as_str(), Strip::Only('.'));
        if same_ignoring_case(listed, extension) {
            return true;
        }
    }
    false
}

/// Whether files of an extension are to be processed. `None` is a file without
/// one.
pub fn is_supported_extension(extension: Option<&str>, extensions: &Vec<String>) -> (r: bool)
    ensures
        r == (match extension {
            Some(extension) => is_listed_extension(extension@, extensions@),
            None => false,
        }),
{
    match extension {
        Some(extension) => is_in_list(extension, extensions),
        None => false,
    }
}

/// Whether a file is to be processed, by its extension.
pub fn is_supported_html(path: &str, extensions: &Vec<String>) -> (r: bool)
    ensures
        has_sure_name(path@) ==> r == (match path_extension(path@) {
            Some(extension) => is_listed_extension(extension, extensions@),
            None => false,
        }),
        extensions@.len() == 0 ==> !r,
{
    match extension_of(path) {
        Some(extension) => is_supported_extension(Some(extension.as_str()), extensions),
        None => is_supported_extension(None, extensions),
    }
}

// ---------------------------------------------------------------------------
// Laws
// ---------------------------------------------------------------------------

/// A path is told with `/` for every backslash, and otherwise as it is: what is
/// left of it below the input, or the whole path where it does not lie there.
pub proof fn law_told_path(stripped: Option<&str>, path: &str, r: String, i: int)
    requires
        call_ensures(rel_path_from, (stripped, path), r),
    ensures
        ({
            let told = match stripped {
                Some(rest) => rest@,
                None => path@,
            };
            &&& r@.len() == told.len()
            &&& 0 <= i < told.len() ==> r@[i] == (if told[i] == '\\' {
                '/'
            } else {
                told[i]
            })
        }),
{
}

/// The extension of a name is what stands behind its last dot, unless the dot
/// begins the name.
pub proof fn law_extension(stem: Seq<char>, extension: Seq<char>)
    requires
        !extension.contains('.'),
    ensures
        stem.len() > 0 ==> name_extension(stem + seq!['.'] + extension) == Some(extension),
        name_extension(seq!['.'] + extension) is None,
        name_extension(extension) is None,
{
    let name = stem + seq!['.'] + extension;
    let hidden = seq!['.'] + extension;
    lemma_last_of(name, '.');
    lemma_last_of(hidden, '.');
    lemma_last_of(extension, '.');
    assert(name[stem.len() as int] == '.');
    assert(hidden[0] == '.');
    assert forall|k: int| 0 <= k < extension.len() implies #[trigger] extension[k] != '.' by {
        assert(extension.contains(extension[k]));
    }
    if let Some(i) = last_of(name, '.') {
        if i > stem.len() {
            assert(name[i] == extension[i - stem.len() - 1]);
        }
        assert(i == stem.len());
        assert(name.skip(i + 1) =~= extension);
    }
    if let Some(i) = last_of(hidden, '.') {
        if i > 0 {
            assert(hidden[i] == extension[i - 1]);
        }
    }
}

/// The extension of a path is that of its last segment, as long as that is a
/// name: it is not empty, and neither `.` nor `..`.
pub proof fn law_extension_of_path(dir: Seq<char>, name: Seq<char>)
    requires
        name.len() > 0,
        !name.contains('/'),
        name != "."@ && name != ".."@,
    ensures
        path_extension(dir + seq!['/'] + name) == name_extension(name),
        path_extension(name) == name_extension(name),
{
    reveal_strlit(".");
    reveal_strlit("..");
    let path = dir + seq!['/'] + name;
    assert forall|k: int| 0 <= k < name.len() implies #[trigger] name[k] != '/' by {
        assert(name.contains(name[k]));
    }
    assert(path.last() == name.last());
    if name.len() == 1 {
        assert(name[0] != '.') by {
            if name[0] == '.' {
                assert(name =~= "."@);
            }
        }
    } else {
        assert(path[path.len() - 2] == name[name.len() - 2]);
    }
    assert(without_trailing(path) == path);
    assert(without_trailing(name) == name);
    lemma_last_of(path, '/');
    lemma_last_of(name, '/');
    assert(path[dir.len() as int] == '/');
    if let Some(i) = last_of(path, '/') {
        if i > dir.len() {
            assert(path[i] == name[i - dir.len() - 1]);
        }
        assert(path.skip(i + 1) =~= name);
    }
}

/// The letters are the same, but perhaps for the case of a letter of ASCII.
pub open spec fn same_letter(c: char, d: char) -> bool {
    ||| c == d
    ||| 'A' <= c <= 'Z' && d as int == c as int + 32
    ||| 'A' <= d <= 'Z' && c as int == d as int + 32
}

/// Files of an extension are processed exactly where the list has it, with dots
/// before it or without, and whatever the case of its letters. A file without an
/// extension is not.
pub proof fn law_which_extensions_are_listed(
    extension: Option<&str>,
    extensions: &Vec<String>,
    r: bool,
)
    requires
        call_ensures(is_supported_extension, (extension, extensions), r),
    ensures
        r <==> extension is Some && exists|i: int, dots: int|
            {
                &&& 0 <= i < extensions@.len()
                &&& #[trigger] is_listed_as(extension->0@, extensions@[i]@, dots)
            },
{
    if let Some(e) = extension {
        if r {
            let i = choose|i: int|
                0 <= i < extensions@.len() && lowered(
                    text::trimmed_start((#[trigger] extensions@[i])@, Strip::Only('.')),
                ) == lowered(e@);
            let listed = extensions@[i]@;
            text::law_trimmed_start(listed, '.');
            let dots = choose|a: int|
                {
                    &&& 0 <= a <= listed.len()
                    &&& text::trimmed_start(listed, Strip::Only('.')) == #[trigger] listed.skip(a)
                    &&& forall|k: int| 0 <= k < a ==> #[trigger] listed[k] == '.'
                    &&& a < listed.len() ==> listed[a] != '.'
                };
            lemma_lowered(listed.skip(dots), e@);
            assert(is_listed_as(e@, listed, dots));
        }
        if exists|i: int, dots: int|
            {
                &&& 0 <= i < extensions@.len()
                &&& #[trigger] is_listed_as(e@, extensions@[i]@, dots)
            } {
            let (i, dots) = choose|i: int, dots: int|
                {
                    &&& 0 <= i < extensions@.len()
                    &&& #[trigger] is_listed_as(e@, extensions@[i]@, dots)
                };
            let listed = extensions@[i]@;
            text::law_trimmed_start(listed, '.');
            let a = choose|a: int|
                {
                    &&& 0 <= a <= listed.len()
                    &&& text::trimmed_start(listed, Strip::Only('.')) == #[trigger] listed.skip(a)
                    &&& forall|k: int| 0 <= k < a ==> #[trigger] listed[k] == '.'
                    &&& a < listed.len() ==> listed[a] != '.'
                };
            assert(a == dots) by {
                if a < dots {
                    assert(listed[a] == '.');
                }
                if dots < a {
                    assert(listed[dots] == '.');
                }
            }
            lemma_lowered(listed.skip(dots), e@);
            assert(lowered(text::trimmed_start(extensions@[i]@, Strip::Only('.'))) == lowered(e@));
        }
    }
}

/// Behind so many dots, and no more, the listed text is the extension, but
/// perhaps for the case of letters.
pub open spec fn is_listed_as(extension: Seq<char>, listed: Seq<char>, dots: int) -> bool {
    &&& 0 <= dots <= listed.len()
    &&& forall|k: int| 0 <= k < dots ==> #[trigger] listed[k] == '.'
    &&& dots < listed.len() ==> listed[dots] != '.'
    &&& listed.len() - dots == extension.len()
    &&& forall|k: int|
        0 <= k < extension.len() ==> same_letter(listed[dots + k], #[trigger] extension[k])
}

proof fn lemma_lowered(a: Seq<char>, b: Seq<char>)
    ensures
        lowered(a) == lowered(b) <==> a.len() == b.len() && forall|k: int|
            0 <= k < b.len() ==> same_letter(a[k], #[trigger] b[k]),
{
    if lowered(a) == lowered(b) {
        assert(lowered(a).len() == a.len());
        assert(lowered(b).len() == b.len());
        assert forall|k: int| 0 <= k < b.len() implies same_letter(a[k], #[trigger] b[k]) by {
            assert(lowered(a)[k] == lowered(b)[k]);
        }
    }
    if a.len() == b.len() && forall|k: int|
        0 <= k < b.len() ==> same_letter(a[k], #[trigger] b[k]) {
        assert forall|k: int| 0 <= k < a.len() implies lowered(a)[k] == lowered(b)[k] by {
            assert(same_letter(a[k], b[k]));
        }
        assert(lowered(a) =~= lowered(b));
    }
}

/// Whether a page is processed follows from its extension alone.
pub proof fn law_supported_by_extension(
    path: &str,
    extensions: &Vec<String>,
    r: bool,
)
    requires
        call_ensures(is_supported_html, (path, extensions), r),
        has_sure_name(path@),
    ensures
        r <==> (path_extension(path@) matches Some(extension) && exists|i: int|
            0 <= i < extensions@.len() && lowered(
                text::trimmed_start((#[trigger] extensions@[i])@, Strip::Only('.')),
            ) == lowered(extension)),
{
}

/// Slashes and `.` segments at the beginning of what is left are passed over,
/// and nothing else.
pub proof fn law_leading_segments(p: Seq<char>)
    ensures
        without_leading(seq!['/'] + p) == without_leading(p),
        without_leading(seq!['.', '/'] + p) == without_leading(p),
        without_leading(seq!['.']).len() == 0,
        p.len() > 0 && p[0] != '/' && !(p[0] == '.' && (p.len() == 1 || p[1] == '/'))
            ==> without_leading(p) == p,
{
    assert((seq!['/'] + p).drop_first() =~= p);
    let dotted = seq!['.', '/'] + p;
    assert(dotted[0] == '.' && dotted[1] == '/');
    assert(dotted.skip(2) =~= p);
}

/// Slashes and `.` segments at the end of what is left are passed over, and
/// nothing else.
pub proof fn law_trailing_segments(p: Seq<char>)
    ensures
        without_trailing(p + seq!['/']) == without_trailing(p),
        without_trailing(p + seq!['/', '.']) == without_trailing(p),
        p.len() > 0 && p.last() != '/' && !(p.last() == '.' && p.len() > 1 && p[p.len() - 2] == '/')
            ==> without_trailing(p) == p,
{
    assert((p + seq!['/']).drop_last() =~= p);
    let dotted = p + seq!['/', '.'];
    assert(dotted.last() == '.' && dotted[dotted.len() - 2] == '/');
    assert(dotted.take(dotted.len() - 2) =~= p);
}

/// A path that does not lie below the input is told whole: it neither is the
/// input nor begins with it and a slash.
pub proof fn law_path_beside_the_input(input: Seq<char>, path: Seq<char>)
    requires
        input.len() > 0,
        input.last() != '/',
        path != input,
        !(path.len() > input.len() && path.take(input.len() as int) == input
            && path[input.len() as int] == '/'),
    ensures
        relative(input, path) == path,
        relative(input.push('/'), path) == path,
{
    assert(input.push('/').drop_last() =~= input);
    assert(unslashed(input.push('/')) == unslashed(input));
    assert(unslashed(input) == input);
    if input == seq!['/'] {
        assert(input.last() == '/');
    }
    if path.len() > input.len() && path.take(input.len() as int + 1) == input.push('/') {
        let head = path.take(input.len() as int + 1);
        assert(head[input.len() as int] == '/');
        assert(path.take(input.len() as int) =~= head.take(input.len() as int));
        assert(head.take(input.len() as int) =~= input);
    }
}

/// The path that is told lies below the input, wherever that does not depend on
/// the platform.
pub proof fn law_told_relative_path(input: &str, path: &str, r: String)
    requires
        call_ensures(rel_path, (input, path), r),
        is_sure_relative(input@, path@),
    ensures
        r@ == slashed(relative(input@, path@)),
        forall|i: int| 0 <= i < r@.len() ==> #[trigger] r@[i] != '\\',
{
}

/// A path that is the input, a slash and a rest comes back as the rest, where
/// all of it is written with slashes and neither begins with two of them nor
/// with a drive, and the rest has no slash and no `.` segment at its ends.
pub proof fn law_path_below_the_input(input: &str, path: &str, rest: Seq<char>, r: String)
    requires
        call_ensures(rel_path, (input, path), r),
        path@ == input@ + seq!['/'] + rest,
        input@.len() > 0 && input@.last() != '/',
        forall|i: int| 0 <= i < path@.len() ==> #[trigger] path@[i] != '\\',
        !(path@[0] == '/' && path@[1] == '/'),
        path@[1] != ':',
        rest.len() > 0 && rest[0] != '/' && rest.last() != '/',
        !(rest[0] == '.' && (rest.len() == 1 || rest[1] == '/')),
        !(rest.last() == '.' && rest.len() > 1 && rest[rest.len() - 2] == '/'),
    ensures
        r@ == rest,
{
    let n = input@.len() as int;
    law_leading_segments(rest);
    law_trailing_segments(rest);
    law_rel_path_of_joined(input@, rest);
    assert(unslashed(input@) == input@);
    assert forall|i: int| 0 <= i < n implies #[trigger] input@[i] != '\\' by {
        assert(path@[i] == input@[i]);
    }
    assert forall|i: int| 0 <= i < rest.len() implies #[trigger] rest[i] != '\\' by {
        assert(path@[n + 1 + i] == rest[i]);
    }
    assert(slashed(input@) =~= input@);
    assert(slashed(path@) =~= path@);
    assert(slashed(rest) =~= rest);
    if input@.len() > 1 {
        assert(path@[0] == input@[0] && path@[1] == input@[1]);
    }
    assert(path@.take(n + 1) =~= input@.push('/'));
    assert(input@ != seq!['/']) by {
        assert(seq!['/'].last() == '/');
    }
    assert(below(unslashed(input@), path@) is Some);
}

/// A file is processed exactly where the extension of its name is listed, for a
/// path that is written with slashes and does not begin with two of them.
pub proof fn law_file_with_extension(
    path: &str,
    dir: Seq<char>,
    stem: Seq<char>,
    extension: Seq<char>,
    extensions: &Vec<String>,
    r: bool,
)
    requires
        call_ensures(is_supported_html, (path, extensions), r),
        path@ == dir + seq!['/'] + (stem + seq!['.'] + extension),
        forall|i: int| 0 <= i < path@.len() ==> #[trigger] path@[i] != '\\',
        !(path@[0] == '/' && path@[1] == '/'),
        stem.len() > 0 && !stem.contains('/'),
        !extension.contains('/') && !extension.contains('.'),
        stem + seq!['.'] + extension != ".."@,
    ensures
        r <==> exists|i: int|
            0 <= i < extensions@.len() && lowered(
                text::trimmed_start((#[trigger] extensions@[i])@, Strip::Only('.')),
            ) == lowered(extension),
{
    let name = stem + seq!['.'] + extension;
    reveal_strlit(".");
    assert(name.len() > 1);
    assert forall|k: int| 0 <= k < name.len() implies #[trigger] name[k] != '/' by {
        if k < stem.len() {
            assert(stem.contains(stem[k]));
        } else if k > stem.len() {
            assert(name[k] == extension[k - stem.len() - 1]);
            assert(extension.contains(extension[k - stem.len() - 1]));
        }
    }
    assert(!name.contains('/'));
    law_extension_of_path(dir, name);
    law_extension(stem, extension);
    assert(slashed(path@) =~= path@);
    law_trailing_segments(path@);
    assert(path@.last() == name.last());
    assert(path@[path@.len() - 2] == name[name.len() - 2]);
    assert(without_trailing(path@) == path@);
    assert(path@[dir.len() as int] == '/');
    assert(path@.contains('/'));
    let file = file_name(path@);
    lemma_last_of(path@, '/');
    assert(!file.contains('\\')) by {
        if file.contains('\\') {
            let k = choose|k: int| 0 <= k < file.len() && file[k] == '\\';
            let at = last_of(path@, '/')->0;
            assert(file[k] == path@[at + 1 + k]);
        }
    }
}

} // verus!
