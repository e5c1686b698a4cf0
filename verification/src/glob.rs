//! Glob patterns over `/`-separated paths.

use vstd::prelude::*;
use vstd::slice::slice_subrange;

use crate::text::chars_of;

verus! {

/// No path separator among these characters.
pub open spec fn within_segment(s: Seq<char>) -> bool {
    !s.contains('/')
}

/// The pattern without the stars that it begins with.
pub open spec fn after_stars(pattern: Seq<char>) -> Seq<char>
    decreases pattern.len(),
{
    if pattern.len() > 0 && pattern[0] == '*' {
        after_stars(pattern.drop_first())
    } else {
        pattern
    }
}

/// Taking the leading stars away makes a pattern no longer, and shorter where
/// there is one.
pub proof fn lemma_after_stars_len(pattern: Seq<char>)
    ensures
        after_stars(pattern).len() <= pattern.len(),
        pattern.len() > 0 && pattern[0] == '*' ==> after_stars(pattern).len() < pattern.len(),
    decreases pattern.len(),
{
    if pattern.len() > 0 && pattern[0] == '*' {
        lemma_after_stars_len(pattern.drop_first());
    }
}

/// The paths that a pattern stands for: `*` is any run of characters within a
/// segment, `?` one character other than `/`, two or more stars any run of
/// characters at all. A `/` right behind such stars may also be left out, so
/// that `**/x` stands for `x` too.
pub open spec fn glob_matches(pattern: Seq<char>, path: Seq<char>) -> bool
    decreases pattern.len(),
{
    if pattern.len() == 0 {
        path.len() == 0
    } else if pattern[0] == '*' && pattern.len() > 1 && pattern[1] == '*' {
        let rest = after_stars(pattern);
        proof {
            lemma_after_stars_len(pattern);
        }
        exists|i: int|
            0 <= i <= path.len() && {
                ||| glob_matches(rest, #[trigger] path.skip(i))
                ||| rest.len() > 0 && rest[0] == '/' && glob_matches(
                    rest.drop_first(),
                    path.skip(i),
                )
            }
    } else if pattern[0] == '*' {
        exists|i: int|
            0 <= i <= path.len() && within_segment(path.take(i)) && glob_matches(
                pattern.drop_first(),
                #[trigger] path.skip(i),
            )
    } else if path.len() == 0 {
        false
    } else if pattern[0] == '?' {
        path[0] != '/' && glob_matches(pattern.drop_first(), path.drop_first())
    } else {
        path[0] == pattern[0] && glob_matches(pattern.drop_first(), path.drop_first())
    }
}

fn tail_from(s: &[char], i: usize) -> (r: &[char])
    requires
        i <= s@.len(),
    ensures
        r@ == s@.skip(i as int),
{
    proof {
        assert(s@.subrange(i as int, s@.len() as int) == s@.skip(i as int));
    }
    slice_subrange(s, i, s.len())
}

fn skip_stars(pattern: &[char]) -> (rest: &[char])
    ensures
        rest@ == after_stars(pattern@),
{
    let mut k: usize = 0;
    proof {
        assert(pattern@.skip(0) == pattern@);
    }
    while k < pattern.len() && pattern[k] == '*'
        invariant
            k <= pattern@.len(),
            after_stars(pattern@) == after_stars(pattern@.skip(k as int)),
        decreases pattern@.len() - k,
    {
        proof {
            assert(pattern@.skip(k as int).drop_first() == pattern@.skip(k + 1));
        }
        k = k + 1;
    }
    tail_from(pattern, k)
}

fn go(pattern: &[char], path: &[char]) -> (r: bool)
    ensures
        r == glob_matches(pattern@, path@),
    decreases pattern@.len(),
{
    if pattern.len() == 0 {
        return path.len() == 0;
    }
    if pattern[0] == '*' {
        if pattern.len() > 1 && pattern[1] == '*' {
            let rest = skip_stars(pattern);
            proof {
                lemma_after_stars_len(pattern@);
            }
            let optional_slash = rest.len() > 0 && rest[0] == '/';
            let mut i: usize = 0;
            loop
                invariant
                    i <= path@.len(),
                    rest@ == after_stars(pattern@),
                    rest@.len() < pattern@.len(),
                    pattern@.len() > 1,
                    pattern@[0] == '*',
                    pattern@[1] == '*',
                    optional_slash == (rest@.len() > 0 && rest@[0] == '/'),
                    forall|j: int|
                        0 <= j < i ==> !glob_matches(rest@, #[trigger] path@.skip(j)) && !(
                        optional_slash && glob_matches(rest@.drop_first(), path@.skip(j))),
                decreases path@.len() - i,
            {
                let tail = tail_from(path, i);
                if go(rest, tail) {
                    return true;
                }
                if optional_slash {
                    let past = tail_from(rest, 1);
                    proof {
                        assert(past@ == rest@.drop_first());
                    }
                    if go(past, tail) {
                        return true;
                    }
                }
                if i == path.len() {
                    return false;
                }
                i = i + 1;
            }
        }
        let rest = tail_from(pattern, 1);
        proof {
            assert(rest@ == pattern@.drop_first());
        }
        let mut i: usize = 0;
        loop
            invariant
                i <= path@.len(),
                rest@ == pattern@.drop_first(),
                pattern@.len() > 0,
                pattern@[0] == '*',
                !(pattern@.len() > 1 && pattern@[1] == '*'),
                within_segment(path@.take(i as int)),
                forall|j: int|
                    0 <= j < i ==> !glob_matches(rest@, #[trigger] path@.skip(j)),
            decreases path@.len() - i,
        {
            if go(rest, tail_from(path, i)) {
                return true;
            }
            if i == path.len() || path[i] == '/' {
                proof {
                    assert forall|j: int| i < j <= path@.len() implies !within_segment(
                        #[trigger] path@.take(j),
                    ) by {
                        assert(path@.take(j)[i as int] == '/');
                    }
                }
                return false;
            }
            proof {
                let next = path@.take(i + 1);
                assert forall|k: int| 0 <= k < next.len() implies next[k] != '/' by {
                    if k < i {
                        assert(path@.take(i as int)[k] == next[k]);
                    }
                }
            }
            i = i + 1;
        }
    }
    if path.len() == 0 {
        return false;
    }
    if pattern[0] == '?' {
        if path[0] == '/' {
            return false;
        }
    } else if path[0] != pattern[0] {
        return false;
    }
    proof {
        assert(pattern@.skip(1) == pattern@.drop_first());
        assert(path@.skip(1) == path@.drop_first());
    }
    go(tail_from(pattern, 1), tail_from(path, 1))
}

/// Does the path match the pattern?
pub fn glob_match(pattern: &str, path: &str) -> (r: bool)
    ensures
        r == glob_matches(pattern@, path@),
{
    let p = chars_of(pattern);
    let s = chars_of(path);
    go(p.as_slice(), s.as_slice())
}

/// Some pattern of the list matches the path.
pub open spec fn matched_by_any(path: Seq<char>, patterns: Seq<String>) -> bool {
    exists|k: int| 0 <= k < patterns.len() && glob_matches(#[trigger] patterns[k]@, path)
}

/// Does some pattern of the list match the path?
pub fn matches_any(rel: &str, patterns: &[String]) -> (r: bool)
    ensures
        r == matched_by_any(rel@, patterns@),
{
    for k in 0..patterns.len()
        invariant
            forall|j: int| 0 <= j < k ==> !glob_matches(#[trigger] patterns@[j]@, rel@),
    {
        if glob_match(patterns[k].as_str(), rel) {
            return true;
        }
    }
    false
}

/// Is the path, relative to the input directory, one to leave alone?
pub fn is_excluded(rel: &str, patterns: &[String]) -> (r: bool)
    ensures
        r == matched_by_any(rel@, patterns@),
{
    matches_any(rel, patterns)
}

// ---------------------------------------------------------------------------
// Laws
// ---------------------------------------------------------------------------

/// A pattern without wildcards.
pub open spec fn is_literal(pattern: Seq<char>) -> bool {
    !pattern.contains('*') && !pattern.contains('?')
}

/// Wildcard-free text at the head of a pattern stands for itself: the path has
/// to begin with it, and the rest of the path is left to the rest of the
/// pattern.
pub proof fn law_literal_head(head: Seq<char>, rest: Seq<char>, path: Seq<char>)
    requires
        is_literal(head),
    ensures
        glob_matches(head + rest, path) <==> {
            &&& head.len() <= path.len()
            &&& path.take(head.len() as int) == head
            &&& glob_matches(rest, path.skip(head.len() as int))
        },
    decreases head.len(),
{
    let whole = head + rest;
    if head.len() == 0 {
        assert(whole == rest);
        assert(path.take(0) == head);
        assert(path.skip(0) == path);
    } else {
        let c = head[0];
        assert(whole[0] == c);
        assert(head.contains(c));
        assert(whole.drop_first() == head.drop_first() + rest);
        assert forall|d: char| head.drop_first().contains(d) implies head.contains(d) by {
            let k = choose|k: int| 0 <= k < head.drop_first().len() && head.drop_first()[k] == d;
            assert(head[k + 1] == d);
        }
        if path.len() > 0 {
            law_literal_head(head.drop_first(), rest, path.drop_first());
            let n = head.len() as int;
            if n <= path.len() {
                assert(path.drop_first().skip(n - 1) == path.skip(n));
                if path[0] == c && path.drop_first().take(n - 1) == head.drop_first() {
                    assert forall|i: int| 0 <= i < n implies path.take(n)[i] == head[i] by {
                        if i > 0 {
                            assert(path.drop_first().take(n - 1)[i - 1] == head.drop_first()[i - 1]);
                        }
                    }
                    assert(path.take(n) =~= head);
                }
                if path.take(n) == head {
                    assert(path.take(n)[0] == path[0]);
                    assert forall|i: int| 0 <= i < n - 1 implies path.drop_first().take(n - 1)[i]
                        == head.drop_first()[i] by {
                        assert(path.take(n)[i + 1] == head[i + 1]);
                    }
                    assert(path.drop_first().take(n - 1) =~= head.drop_first());
                }
            }
        }
    }
}

/// A pattern without wildcards matches exactly the path that it spells.
pub proof fn law_literal(pattern: Seq<char>, path: Seq<char>)
    requires
        is_literal(pattern),
    ensures
        glob_matches(pattern, path) <==> pattern == path,
{
    let none = Seq::<char>::empty();
    assert(pattern + none == pattern);
    law_literal_head(pattern, none, path);
    if pattern.len() <= path.len() && path.skip(pattern.len() as int).len() == 0 {
        assert(path.take(pattern.len() as int) == path);
    }
    if pattern == path {
        assert(path.take(pattern.len() as int) == path);
        assert(path.skip(pattern.len() as int) == none);
    }
}

/// A wildcard-free head followed by `**` matches exactly the paths that begin
/// with the head, however deep they go.
pub proof fn law_everything_under(head: Seq<char>, path: Seq<char>)
    requires
        is_literal(head),
    ensures
        glob_matches(head + seq!['*', '*'], path) <==> head.is_prefix_of(path),
{
    let stars = seq!['*', '*'];
    law_literal_head(head, stars, path);
    if head.len() <= path.len() {
        let tail = path.skip(head.len() as int);
        reveal_with_fuel(after_stars, 3);
        assert(after_stars(stars) =~= Seq::<char>::empty());
        assert(tail.skip(tail.len() as int).len() == 0);
        assert(glob_matches(Seq::<char>::empty(), tail.skip(tail.len() as int)));
        assert(glob_matches(stars, tail));
        assert(path.take(head.len() as int) == path.subrange(0, head.len() as int));
    }
}

/// `*` followed by wildcard-free text matches exactly the paths that end in
/// that text and have no separator before it: a single star stays within its
/// segment.
pub proof fn law_star_stays_in_segment(tail: Seq<char>, path: Seq<char>)
    requires
        is_literal(tail),
    ensures
        glob_matches(seq!['*'] + tail, path) <==> {
            &&& tail.len() <= path.len()
            &&& path.skip(path.len() - tail.len()) == tail
            &&& within_segment(path.take(path.len() - tail.len()))
        },
{
    let pattern = seq!['*'] + tail;
    assert(pattern.drop_first() == tail);
    assert(tail.len() > 0 ==> tail.contains(tail[0]) && pattern[1] == tail[0]);
    if glob_matches(pattern, path) {
        let i = choose|i: int|
            0 <= i <= path.len() && within_segment(path.take(i)) && glob_matches(
                pattern.drop_first(),
                #[trigger] path.skip(i),
            );
        law_literal(tail, path.skip(i));
    }
    if tail.len() <= path.len() {
        law_literal(tail, path.skip(path.len() - tail.len()));
    }
}

/// `**/` before wildcard-free text finds that text at the top of the tree and
/// in every directory below.
pub proof fn law_any_depth(name: Seq<char>, dir: Seq<char>)
    requires
        is_literal(name),
    ensures
        glob_matches(seq!['*', '*', '/'] + name, name),
        glob_matches(seq!['*', '*', '/'] + name, dir + seq!['/'] + name),
{
    let pattern = seq!['*', '*', '/'] + name;
    let rest = seq!['/'] + name;
    assert(pattern.drop_first().drop_first() == rest);
    reveal_with_fuel(after_stars, 3);
    assert(after_stars(pattern) == rest);
    assert(rest.drop_first() == name);
    law_literal(name, name);
    assert(name.skip(0) == name);
    assert(glob_matches(rest.drop_first(), name.skip(0)));
    let path = dir + seq!['/'] + name;
    assert(path.skip(dir.len() as int) == rest);
    assert(is_literal(rest)) by {
        assert forall|k: int| 0 <= k < rest.len() implies rest[k] != '*' && rest[k] != '?' by {
            if k > 0 {
                assert(name.contains(name[k - 1]));
            }
        }
    }
    law_literal(rest, rest);
    assert(glob_matches(rest, path.skip(dir.len() as int)));
}

/// The empty pattern stands for the empty path alone.
pub proof fn law_empty_pattern(path: Seq<char>)
    ensures
        glob_matches(Seq::empty(), path) <==> path.len() == 0,
{
}

/// A question mark stands for one character other than `/`, whatever follows.
pub proof fn law_question_mark(rest: Seq<char>, path: Seq<char>)
    ensures
        glob_matches(seq!['?'] + rest, path) <==> path.len() > 0 && path[0] != '/' && glob_matches(
            rest,
            path.drop_first(),
        ),
{
    let pattern = seq!['?'] + rest;
    assert(pattern[0] == '?');
    assert(pattern.drop_first() =~= rest);
}

/// One star stands for any run of characters without a `/`, whatever follows.
pub proof fn law_star(rest: Seq<char>, path: Seq<char>)
    requires
        rest.len() > 0 ==> rest[0] != '*',
    ensures
        glob_matches(seq!['*'] + rest, path) <==> exists|head: Seq<char>, tail: Seq<char>|
            {
                &&& path == #[trigger] (head + tail)
                &&& forall|i: int| 0 <= i < head.len() ==> #[trigger] head[i] != '/'
                &&& glob_matches(rest, tail)
            },
{
    let pattern = seq!['*'] + rest;
    assert(pattern[0] == '*');
    assert(pattern.len() > 1 ==> pattern[1] == rest[0]);
    assert(pattern.drop_first() =~= rest);
    if glob_matches(pattern, path) {
        let i = choose|i: int|
            0 <= i <= path.len() && within_segment(path.take(i)) && glob_matches(
                pattern.drop_first(),
                #[trigger] path.skip(i),
            );
        assert(path =~= path.take(i) + path.skip(i));
        assert forall|k: int| 0 <= k < i implies #[trigger] path.take(i)[k] != '/' by {
            assert(path.take(i).contains(path.take(i)[k]));
        }
    }
    if exists|head: Seq<char>, tail: Seq<char>|
        {
            &&& path == #[trigger] (head + tail)
            &&& forall|i: int| 0 <= i < head.len() ==> #[trigger] head[i] != '/'
            &&& glob_matches(rest, tail)
        } {
        let (head, tail) = choose|head: Seq<char>, tail: Seq<char>|
            {
                &&& path == #[trigger] (head + tail)
                &&& forall|i: int| 0 <= i < head.len() ==> #[trigger] head[i] != '/'
                &&& glob_matches(rest, tail)
            };
        let i = head.len() as int;
        assert(path.take(i) =~= head);
        assert(path.skip(i) =~= tail);
    }
}

proof fn lemma_stars_taken(stars: Seq<char>, rest: Seq<char>)
    requires
        forall|i: int| 0 <= i < stars.len() ==> #[trigger] stars[i] == '*',
        rest.len() > 0 ==> rest[0] != '*',
    ensures
        after_stars(stars + rest) == rest,
    decreases stars.len(),
{
    if stars.len() == 0 {
        assert(stars + rest =~= rest);
    } else {
        assert((stars + rest).drop_first() =~= stars.drop_first() + rest);
        assert((stars + rest)[0] == stars[0]);
        lemma_stars_taken(stars.drop_first(), rest);
    }
}

/// Two stars or more stand for any run of characters at all, whatever follows;
/// a slash right behind them may be left out.
pub proof fn law_stars(stars: Seq<char>, rest: Seq<char>, path: Seq<char>)
    requires
        stars.len() >= 2,
        forall|i: int| 0 <= i < stars.len() ==> #[trigger] stars[i] == '*',
        rest.len() > 0 ==> rest[0] != '*',
    ensures
        glob_matches(stars + rest, path) <==> exists|head: Seq<char>, tail: Seq<char>|
            {
                &&& path == #[trigger] (head + tail)
                &&& glob_matches(rest, tail) || (rest.len() > 0 && rest[0] == '/' && glob_matches(
                    rest.drop_first(),
                    tail,
                ))
            },
{
    let pattern = stars + rest;
    assert(pattern[0] == stars[0] && pattern[1] == stars[1]);
    lemma_stars_taken(stars, rest);
    if glob_matches(pattern, path) {
        let i = choose|i: int|
            0 <= i <= path.len() && {
                ||| glob_matches(rest, #[trigger] path.skip(i))
                ||| rest.len() > 0 && rest[0] == '/' && glob_matches(
                    rest.drop_first(),
                    path.skip(i),
                )
            };
        assert(path =~= path.take(i) + path.skip(i));
    }
    if exists|head: Seq<char>, tail: Seq<char>|
        {
            &&& path == #[trigger] (head + tail)
            &&& glob_matches(rest, tail) || (rest.len() > 0 && rest[0] == '/' && glob_matches(
                rest.drop_first(),
                tail,
            ))
        } {
        let (head, tail) = choose|head: Seq<char>, tail: Seq<char>|
            {
                &&& path == #[trigger] (head + tail)
                &&& glob_matches(rest, tail) || (rest.len() > 0 && rest[0] == '/' && glob_matches(
                    rest.drop_first(),
                    tail,
                ))
            };
        assert(path.skip(head.len() as int) =~= tail);
    }
}

/// A path is matched, or excluded, exactly where some pattern of the list
/// stands for it; and one pattern stands for what the list of it alone does.
pub proof fn law_some_pattern_matches(
    rel: &str,
    patterns: &[String],
    matched: bool,
    excluded: bool,
    pattern: &str,
    one: bool,
)
    requires
        call_ensures(matches_any, (rel, patterns), matched),
        call_ensures(is_excluded, (rel, patterns), excluded),
        call_ensures(glob_match, (pattern, rel), one),
    ensures
        matched <==> exists|k: int|
            0 <= k < patterns@.len() && glob_matches(#[trigger] patterns@[k]@, rel@),
        excluded == matched,
        one == glob_matches(pattern@, rel@),
{
}

} // verus!
