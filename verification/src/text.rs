//! Character and byte sequences: searching, trimming, joining, numbers.

use vstd::prelude::*;
use vstd::utf8::*;

verus! {

/// `String::push` of std appends the character to the string.
pub assume_specification[ String::push ](s: &mut String, c: char)
    ensures
        final(s)@ == old(s)@.push(c),
;

/// What `String::from_utf8` of std returns for bytes that are not UTF-8.
#[verifier::external_type_specification]
#[verifier::external_body]
pub struct ExFromUtf8Error(std::string::FromUtf8Error);

/// `String::from_utf8` of std succeeds exactly on valid UTF-8 and keeps the
/// bytes.
pub assume_specification[ String::from_utf8 ](bytes: Vec<u8>) -> (r: Result<
    String,
    std::string::FromUtf8Error,
>)
    ensures
        r is Ok <==> valid_utf8(bytes@),
        r is Ok ==> encode_utf8(r->Ok_0@) == bytes@,
;

/// The characters of a string, one by one.
pub fn chars_of(s: &str) -> (chars: Vec<char>)
    ensures
        chars@ == s@,
{
    let mut chars: Vec<char> = Vec::new();
    for c in it: s.chars()
        invariant
            it.seq() == s@,
            chars@ == it.seq().take(it.index()),
    {
        proof {
            assert(it.seq().take(it.index() + 1) == it.seq().take(it.index()).push(c));
        }
        chars.push(c);
    }
    proof {
        assert(s@.take(s@.len() as int) == s@);
    }
    chars
}

/// The string that these characters make up.
pub fn string_of(chars: &[char]) -> (s: String)
    ensures
        s@ == chars@,
{
    let mut s = String::new();
    for i in 0..chars.len()
        invariant
            s@ == chars@.take(i as int),
    {
        proof {
            assert(chars@.take(i + 1) == chars@.take(i as int).push(chars@[i as int]));
        }
        s.push(chars[i]);
    }
    proof {
        assert(chars@.take(chars@.len() as int) == chars@);
    }
    s
}

/// The string that these bytes encode.
pub fn string_from(bytes: Vec<u8>) -> (s: String)
    requires
        valid_utf8(bytes@),
    ensures
        encode_utf8(s@) == bytes@,
        s@ == decode_utf8(bytes@),
{
    let made = String::from_utf8(bytes);
    proof {
        broadcast use encode_utf8_decode_utf8;

    }
    match made {
        Ok(s) => s,
        Err(_) => String::new(),
    }
}

// ---------------------------------------------------------------------------
// Searching
// ---------------------------------------------------------------------------

/// `part` stands in `whole` at position `i`.
pub open spec fn stands_at<T>(whole: Seq<T>, part: Seq<T>, i: int) -> bool {
    &&& 0 <= i
    &&& i + part.len() <= whole.len()
    &&& whole.subrange(i, i + part.len()) == part
}

/// The first position at or after `from` where `part` stands in `whole`.
pub open spec fn found_from<T>(whole: Seq<T>, part: Seq<T>, from: int) -> Option<int>
    decreases whole.len() - from + 1,
{
    if from < 0 || from + part.len() > whole.len() {
        None
    } else if stands_at(whole, part, from) {
        Some(from)
    } else {
        found_from(whole, part, from + 1)
    }
}

/// What `found_from` returns is the least position, and `None` means that
/// there is no position at all.
pub proof fn lemma_found_from<T>(whole: Seq<T>, part: Seq<T>, from: int)
    requires
        0 <= from,
    ensures
        match found_from(whole, part, from) {
            Some(at) => {
                &&& from <= at
                &&& stands_at(whole, part, at)
                &&& forall|i: int| from <= i < at ==> !stands_at(whole, part, i)
            },
            None => forall|i: int| from <= i ==> !stands_at(whole, part, i),
        },
    decreases whole.len() - from + 1,
{
    if from + part.len() <= whole.len() && !stands_at(whole, part, from) {
        lemma_found_from(whole, part, from + 1);
    }
}

/// A position with nothing before it is the one that `found_from` returns.
pub proof fn lemma_found_from_is<T>(whole: Seq<T>, part: Seq<T>, from: int, at: int)
    requires
        0 <= from <= at,
        stands_at(whole, part, at),
        forall|i: int| from <= i < at ==> !stands_at(whole, part, i),
    ensures
        found_from(whole, part, from) == Some(at),
    decreases at - from,
{
    if from < at {
        lemma_found_from_is(whole, part, from + 1, at);
    }
}

fn bytes_stand_at(whole: &[u8], part: &[u8], i: usize) -> (r: bool)
    requires
        i + part@.len() <= whole@.len(),
    ensures
        r == stands_at(whole@, part@, i as int),
{
    for k in 0..part.len()
        invariant
            i + part@.len() <= whole.len(),
            forall|j: int| 0 <= j < k ==> whole@[i + j] == part@[j],
    {
        if whole[i + k] != part[k] {
            proof {
                assert(whole@.subrange(i as int, i + part@.len())[k as int] != part@[k as int]);
            }
            return false;
        }
    }
    proof {
        assert(whole@.subrange(i as int, i + part@.len()) =~= part@);
    }
    true
}

/// The first position at or after `from` where the bytes `part` stand.
pub fn find_bytes(whole: &[u8], part: &[u8], from: usize) -> (r: Option<usize>)
    ensures
        match r {
            Some(at) => found_from(whole@, part@, from as int) == Some(at as int),
            None => found_from(whole@, part@, from as int) is None,
        },
{
    if part.len() > whole.len() || from > whole.len() - part.len() {
        return None;
    }
    let last: usize = whole.len() - part.len();
    let mut i: usize = from;
    loop
        invariant
            from <= i <= last,
            last + part@.len() == whole@.len(),
            found_from(whole@, part@, from as int) == found_from(whole@, part@, i as int),
        decreases last - i,
    {
        if bytes_stand_at(whole, part, i) {
            return Some(i);
        }
        if i == last {
            proof {
                assert(found_from(whole@, part@, i + 1) is None);
            }
            return None;
        }
        i = i + 1;
    }
}

fn chars_stand_at(whole: &[char], part: &[char], i: usize) -> (r: bool)
    requires
        i + part@.len() <= whole@.len(),
    ensures
        r == stands_at(whole@, part@, i as int),
{
    for k in 0..part.len()
        invariant
            i + part@.len() <= whole.len(),
            forall|j: int| 0 <= j < k ==> whole@[i + j] == part@[j],
    {
        if whole[i + k] != part[k] {
            proof {
                assert(whole@.subrange(i as int, i + part@.len())[k as int] != part@[k as int]);
            }
            return false;
        }
    }
    proof {
        assert(whole@.subrange(i as int, i + part@.len()) =~= part@);
    }
    true
}

/// The first position at or after `from` where the characters `part` stand.
pub fn find_chars(whole: &[char], part: &[char], from: usize) -> (r: Option<usize>)
    ensures
        match r {
            Some(at) => found_from(whole@, part@, from as int) == Some(at as int),
            None => found_from(whole@, part@, from as int) is None,
        },
{
    if part.len() > whole.len() || from > whole.len() - part.len() {
        return None;
    }
    let last: usize = whole.len() - part.len();
    let mut i: usize = from;
    loop
        invariant
            from <= i <= last,
            last + part@.len() == whole@.len(),
            found_from(whole@, part@, from as int) == found_from(whole@, part@, i as int),
        decreases last - i,
    {
        if chars_stand_at(whole, part, i) {
            return Some(i);
        }
        if i == last {
            proof {
                assert(found_from(whole@, part@, i + 1) is None);
            }
            return None;
        }
        i = i + 1;
    }
}

// ---------------------------------------------------------------------------
// Trimming
// ---------------------------------------------------------------------------

/// The characters of the Unicode property White_Space.
pub open spec fn is_white(c: char) -> bool {
    ||| '\u{9}' <= c <= '\u{d}'
    ||| c == ' '
    ||| c == '\u{85}'
    ||| c == '\u{a0}'
    ||| c == '\u{1680}'
    ||| '\u{2000}' <= c <= '\u{200a}'
    ||| c == '\u{2028}'
    ||| c == '\u{2029}'
    ||| c == '\u{202f}'
    ||| c == '\u{205f}'
    ||| c == '\u{3000}'
}

/// Which characters a trim takes away: white space, or one character.
pub enum Strip {
    White,
    Only(char),
}

pub open spec fn strips(set: Strip, c: char) -> bool {
    match set {
        Strip::White => is_white(c),
        Strip::Only(only) => c == only,
    }
}

/// `s` without the characters of `set` that it begins with.
pub open spec fn trimmed_start(s: Seq<char>, set: Strip) -> Seq<char>
    decreases s.len(),
{
    if s.len() > 0 && strips(set, s.first()) {
        trimmed_start(s.drop_first(), set)
    } else {
        s
    }
}

/// `s` without the characters of `set` that it ends with.
pub open spec fn trimmed_end(s: Seq<char>, set: Strip) -> Seq<char>
    decreases s.len(),
{
    if s.len() > 0 && strips(set, s.last()) {
        trimmed_end(s.drop_last(), set)
    } else {
        s
    }
}

/// `s` without the characters of `set` at either end.
pub open spec fn trimmed(s: Seq<char>, set: Strip) -> Seq<char> {
    trimmed_end(trimmed_start(s, set), set)
}

/// Nothing but white space, or nothing at all.
pub open spec fn is_blank(s: Seq<char>) -> bool {
    forall|i: int| 0 <= i < s.len() ==> is_white(#[trigger] s[i])
}

fn strip_has(set: &Strip, c: char) -> (r: bool)
    ensures
        r == strips(*set, c),
{
    match set {
        Strip::White => {
            ('\u{9}' <= c && c <= '\u{d}') || c == ' ' || c == '\u{85}' || c == '\u{a0}' || c
                == '\u{1680}' || ('\u{2000}' <= c && c <= '\u{200a}') || c == '\u{2028}' || c
                == '\u{2029}' || c == '\u{202f}' || c == '\u{205f}' || c == '\u{3000}'
        },
        Strip::Only(only) => c == *only,
    }
}

/// `s` without the characters of `set` that it begins with.
pub fn trim_start<'a>(s: &'a str, set: Strip) -> (r: &'a str)
    ensures
        r@ == trimmed_start(s@, set),
{
    let chars = chars_of(s);
    let mut lo: usize = 0;
    proof {
        assert(s@.skip(0) == s@);
    }
    while lo < chars.len() && strip_has(&set, chars[lo])
        invariant
            chars@ == s@,
            0 <= lo <= chars@.len(),
            trimmed_start(s@, set) == trimmed_start(s@.skip(lo as int), set),
        decreases chars@.len() - lo,
    {
        proof {
            assert(s@.skip(lo as int).drop_first() == s@.skip(lo + 1));
        }
        lo = lo + 1;
    }
    proof {
        assert(s@.skip(lo as int) == s@.subrange(lo as int, s@.len() as int));
        assert(lo < chars@.len() ==> s@.skip(lo as int).first() == s@[lo as int]);
    }
    s.substring_char(lo, chars.len())
}

/// `s` without the characters of `set` at either end.
pub fn trim<'a>(s: &'a str, set: Strip) -> (r: &'a str)
    ensures
        r@ == trimmed(s@, set),
{
    let chars = chars_of(s);
    let mut lo: usize = 0;
    proof {
        assert(s@.skip(0) == s@);
    }
    while lo < chars.len() && strip_has(&set, chars[lo])
        invariant
            chars@ == s@,
            0 <= lo <= chars@.len(),
            trimmed_start(s@, set) == trimmed_start(s@.skip(lo as int), set),
        decreases chars@.len() - lo,
    {
        proof {
            assert(s@.skip(lo as int).drop_first() == s@.skip(lo + 1));
        }
        lo = lo + 1;
    }
    let mut hi: usize = chars.len();
    proof {
        assert(lo < chars@.len() ==> s@.skip(lo as int).first() == s@[lo as int]);
        assert(s@.skip(lo as int) == s@.subrange(lo as int, hi as int));
    }
    while hi > lo && strip_has(&set, chars[hi - 1])
        invariant
            chars@ == s@,
            lo <= hi <= chars@.len(),
            trimmed(s@, set) == trimmed_end(s@.subrange(lo as int, hi as int), set),
        decreases hi,
    {
        proof {
            assert(s@.subrange(lo as int, hi as int).drop_last() == s@.subrange(
                lo as int,
                hi - 1,
            ));
        }
        hi = hi - 1;
    }
    proof {
        assert(hi > lo ==> s@.subrange(lo as int, hi as int).last() == s@[hi - 1]);
    }
    s.substring_char(lo, hi)
}

/// Is there nothing but white space in `s`?
pub fn is_blank_str(s: &str) -> (r: bool)
    ensures
        r == is_blank(s@),
{
    let chars = chars_of(s);
    for i in 0..chars.len()
        invariant
            chars@ == s@,
            forall|j: int| 0 <= j < i ==> is_white(#[trigger] s@[j]),
    {
        if !strip_has(&Strip::White, chars[i]) {
            return false;
        }
    }
    true
}

/// Whether two texts are the same.
pub fn same(a: &str, b: &str) -> (r: bool)
    ensures
        r == (a@ == b@),
{
    a.to_string() == b.to_string()
}

// ---------------------------------------------------------------------------
// Numbers
// ---------------------------------------------------------------------------

pub open spec fn digit_char(d: nat) -> char {
    (d + 0x30) as char
}

/// A number in decimal notation.
pub open spec fn decimal_of(n: nat) -> Seq<char>
    decreases n,
{
    if n < 10 {
        seq![digit_char(n)]
    } else {
        decimal_of(n / 10).push(digit_char(n % 10))
    }
}

fn digit(d: u64) -> (c: char)
    requires
        d < 10,
    ensures
        c == digit_char(d as nat),
{
    match d {
        0 => '0',
        1 => '1',
        2 => '2',
        3 => '3',
        4 => '4',
        5 => '5',
        6 => '6',
        7 => '7',
        8 => '8',
        _ => '9',
    }
}

/// The number in decimal notation.
pub fn decimal(n: u64) -> (s: String)
    ensures
        s@ == decimal_of(n as nat),
    decreases n,
{
    if n < 10 {
        let mut s = String::new();
        s.push(digit(n));
        proof {
            assert(s@ =~= seq![digit_char(n as nat)]);
        }
        s
    } else {
        let mut s = decimal(n / 10);
        s.push(digit(n % 10));
        s
    }
}

pub open spec fn is_digit(c: char) -> bool {
    '0' <= c <= '9'
}

/// What the digits say, as a number.
pub open spec fn digits_value(s: Seq<char>) -> nat
    decreases s.len(),
{
    if s.len() == 0 {
        0
    } else {
        digits_value(s.drop_last()) * 10 + (s.last() as nat - 0x30) as nat
    }
}

pub open spec fn all_digits(s: Seq<char>) -> bool {
    &&& s.len() > 0
    &&& forall|i: int| 0 <= i < s.len() ==> is_digit(#[trigger] s[i])
}

/// The number that a text says: digits, after a `+` or nothing.
pub open spec fn number_in(s: Seq<char>) -> Option<nat> {
    let digits = if s.len() > 0 && s[0] == '+' {
        s.drop_first()
    } else {
        s
    };
    if all_digits(digits) {
        Some(digits_value(digits))
    } else {
        None
    }
}

/// The number of 32 bits that the text says.
pub fn parse_u32(s: &str) -> (r: Option<u32>)
    ensures
        match r {
            Some(n) => number_in(s@) == Some(n as nat),
            None => match number_in(s@) {
                Some(n) => n > u32::MAX,
                None => true,
            },
        },
{
    let chars = chars_of(s);
    if chars.len() > 0 && chars[0] == '+' {
        proof {
            assert(s@.drop_first() == s@.skip(1));
        }
        parse_digits(&chars, 1)
    } else {
        proof {
            assert(s@ == s@.skip(0));
        }
        parse_digits(&chars, 0)
    }
}

fn parse_digits(chars: &Vec<char>, start: usize) -> (r: Option<u32>)
    requires
        start <= chars@.len(),
    ensures
        r is Some ==> all_digits(chars@.skip(start as int)) && r->0 == digits_value(
            chars@.skip(start as int),
        ),
        r is None ==> !all_digits(chars@.skip(start as int)) || digits_value(
            chars@.skip(start as int),
        ) > u32::MAX,
{
    let ghost digits = chars@.skip(start as int);
    if start == chars.len() {
        return None;
    }
    let mut n: u32 = 0;
    for i in start..chars.len()
        invariant
            start <= i,
            start < chars@.len(),
            digits == chars@.skip(start as int),
            forall|j: int| 0 <= j < i - start ==> is_digit(#[trigger] digits[j]),
            n == digits_value(digits.take(i - start)),
    {
        let c: char = chars[i];
        proof {
            assert(digits[i - start] == c);
        }
        if c < '0' || c > '9' {
            return None;
        }
        let d: u32 = c as u32 - 0x30;
        proof {
            assert(digits.take(i - start + 1).drop_last() == digits.take(i - start));
            assert(digits.take(i - start + 1).last() == c);
            lemma_digits_value_grows(digits, i - start + 1);
        }
        n = match n.checked_mul(10) {
            Some(tens) => match tens.checked_add(d) {
                Some(sum) => sum,
                None => {
                    return None;
                },
            },
            None => {
                return None;
            },
        };
    }
    proof {
        assert(digits.take(digits.len() as int) == digits);
    }
    Some(n)
}

proof fn lemma_digits_value_grows(digits: Seq<char>, k: int)
    requires
        0 <= k <= digits.len(),
    ensures
        digits_value(digits.take(k)) <= digits_value(digits),
    decreases digits.len() - k,
{
    if k == digits.len() {
        assert(digits.take(k) == digits);
    } else {
        lemma_digits_value_grows(digits, k + 1);
        assert(digits.take(k + 1).drop_last() == digits.take(k));
    }
}

/// The decimal notation of a number says that number.
pub proof fn law_decimal_says_the_number(n: nat)
    ensures
        number_in(decimal_of(n)) == Some(n),
{
    lemma_decimal(n);
    let s = decimal_of(n);
    assert(is_digit(s[0]));
}

proof fn lemma_decimal(n: nat)
    ensures
        decimal_of(n).len() > 0,
        forall|i: int| 0 <= i < decimal_of(n).len() ==> is_digit(#[trigger] decimal_of(n)[i]),
        digits_value(decimal_of(n)) == n,
    decreases n,
{
    let s = decimal_of(n);
    if n < 10 {
        assert(s.drop_last() == Seq::<char>::empty());
        assert(digits_value(s.drop_last()) == 0);
    } else {
        lemma_decimal(n / 10);
        assert(s.drop_last() == decimal_of(n / 10));
    }
}

// ---------------------------------------------------------------------------
// UTF-8
// ---------------------------------------------------------------------------

/// A position next to an ASCII byte, or at either end.
pub open spec fn ascii_cut(b: Seq<u8>, i: int) -> bool {
    &&& 0 <= i <= b.len()
    &&& i == 0 || i == b.len() || b[i] < 0x80 || b[i - 1] < 0x80
}

/// A piece of UTF-8 text that is cut out next to ASCII bytes is UTF-8 text.
pub proof fn lemma_ascii_cuts(b: Seq<u8>, s: int, e: int)
    requires
        valid_utf8(b),
        ascii_cut(b, s),
        ascii_cut(b, e),
        s <= e,
    ensures
        valid_utf8(b.subrange(s, e)),
{
    lemma_cut_suffix(b, s);
    let tail = b.subrange(s, b.len() as int);
    if s < e {
        assert(ascii_cut(tail, e - s)) by {
            assert(e < b.len() ==> tail[e - s] == b[e]);
            assert(tail[e - s - 1] == b[e - 1]);
        }
        lemma_cut_prefix(tail, e - s);
        assert(tail.subrange(0, e - s) == b.subrange(s, e));
    }
}

proof fn lemma_cut_suffix(b: Seq<u8>, i: int)
    requires
        valid_utf8(b),
        ascii_cut(b, i),
    ensures
        valid_utf8(b.subrange(i, b.len() as int)),
{
    if i == 0 {
        assert(b.subrange(0, b.len() as int) == b);
    } else if i == b.len() {
    } else if b[i] < 0x80 {
        is_char_boundary_iff_not_is_continuation_byte(b, i);
        valid_utf8_split(b, i);
    } else {
        is_char_boundary_iff_not_is_continuation_byte(b, i - 1);
        valid_utf8_split(b, i - 1);
        let from = b.subrange(i - 1, b.len() as int);
        assert(from[0] == b[i - 1]);
        assert(pop_first_scalar(from) == b.subrange(i, b.len() as int));
    }
}

proof fn lemma_cut_prefix(b: Seq<u8>, i: int)
    requires
        valid_utf8(b),
        ascii_cut(b, i),
    ensures
        valid_utf8(b.subrange(0, i)),
{
    if i == b.len() {
        assert(b.subrange(0, i) == b);
    } else if i > 0 {
        lemma_cut_suffix(b, i);
        let rest = b.subrange(i, b.len() as int);
        assert(valid_first_scalar(rest));
        assert(rest[0] == b[i]);
        is_char_boundary_iff_not_is_continuation_byte(b, i);
        valid_utf8_split(b, i);
    }
}

// ---------------------------------------------------------------------------
// Laws
// ---------------------------------------------------------------------------

proof fn lemma_trimmed_start_at(s: Seq<char>, set: Strip) -> (a: int)
    ensures
        0 <= a <= s.len(),
        trimmed_start(s, set) == s.skip(a),
        forall|i: int| 0 <= i < a ==> strips(set, #[trigger] s[i]),
        a < s.len() ==> !strips(set, s[a]),
    decreases s.len(),
{
    if s.len() > 0 && strips(set, s.first()) {
        let rest = s.drop_first();
        let a = 1 + lemma_trimmed_start_at(rest, set);
        assert(rest.skip(a - 1) =~= s.skip(a));
        assert forall|i: int| 0 <= i < a implies strips(set, #[trigger] s[i]) by {
            if i > 0 {
                assert(rest[i - 1] == s[i]);
            }
        }
        if a < s.len() {
            assert(rest[a - 1] == s[a]);
        }
        a
    } else {
        assert(s.skip(0) =~= s);
        0
    }
}

proof fn lemma_trimmed_end_at(s: Seq<char>, set: Strip) -> (c: int)
    ensures
        0 <= c <= s.len(),
        trimmed_end(s, set) == s.take(c),
        forall|i: int| c <= i < s.len() ==> strips(set, #[trigger] s[i]),
        c > 0 ==> !strips(set, s[c - 1]),
    decreases s.len(),
{
    if s.len() > 0 && strips(set, s.last()) {
        let rest = s.drop_last();
        let c = lemma_trimmed_end_at(rest, set);
        assert(rest.take(c) =~= s.take(c));
        assert forall|i: int| c <= i < s.len() implies strips(set, #[trigger] s[i]) by {
            if i < rest.len() {
                assert(rest[i] == s[i]);
            }
        }
        if c > 0 {
            assert(rest[c - 1] == s[c - 1]);
        }
        c
    } else {
        assert(s.take(s.len() as int) =~= s);
        s.len() as int
    }
}

/// Where what is left of a trimmed text stands in it.
pub proof fn lemma_trimmed_ends(s: Seq<char>, set: Strip) -> (r: (int, int))
    ensures
        0 <= r.0 <= r.1 <= s.len(),
        trimmed(s, set) == s.subrange(r.0, r.1),
        forall|i: int|
            0 <= i < s.len() && (i < r.0 || r.1 <= i) ==> strips(set, #[trigger] s[i]),
        r.0 < r.1 ==> !strips(set, s[r.0]) && !strips(set, s[r.1 - 1]),
{
    let a = lemma_trimmed_start_at(s, set);
    let rest = s.skip(a);
    let c = lemma_trimmed_end_at(rest, set);
    assert(rest.take(c) =~= s.subrange(a, a + c));
    assert forall|i: int| 0 <= i < s.len() && (i < a || a + c <= i) implies strips(
        set,
        #[trigger] s[i],
    ) by {
        if a + c <= i {
            assert(rest[i - a] == s[i]);
        }
    }
    if c > 0 {
        assert(rest[c - 1] == s[a + c - 1]);
        assert(rest[0] == s[a]);
        if strips(set, s[a]) {
            assert(a < s.len());
        }
    }
    (a, a + c)
}

/// Trimming takes characters of the set from both ends, and nothing else: what
/// is left is one piece of the text, it neither begins nor ends with such a
/// character, and all that was around it is such characters.
pub proof fn law_trimmed(s: Seq<char>, set: Strip)
    ensures
        exists|a: int, c: int|
            {
                &&& 0 <= a <= c <= s.len()
                &&& trimmed(s, set) == #[trigger] s.subrange(a, c)
                &&& forall|i: int|
                    0 <= i < s.len() && (i < a || c <= i) ==> (match set {
                        Strip::White => is_white(#[trigger] s[i]),
                        Strip::Only(only) => s[i] == only,
                    })
            },
        trimmed(s, set).len() > 0 ==> (match set {
            Strip::White => !is_white(trimmed(s, set)[0]) && !is_white(trimmed(s, set).last()),
            Strip::Only(only) => trimmed(s, set)[0] != only && trimmed(s, set).last() != only,
        }),
{
    let (a, c) = lemma_trimmed_ends(s, set);
    assert(trimmed(s, set) == s.subrange(a, c));
    assert forall|i: int| 0 <= i < s.len() && (i < a || c <= i) implies (match set {
        Strip::White => is_white(#[trigger] s[i]),
        Strip::Only(only) => s[i] == only,
    }) by {
        assert(strips(set, s[i]));
    }
}

/// Trimming the beginning alone leaves the end as it is.
pub proof fn law_trimmed_start(s: Seq<char>, only: char)
    ensures
        exists|a: int|
            {
                &&& 0 <= a <= s.len()
                &&& trimmed_start(s, Strip::Only(only)) == #[trigger] s.skip(a)
                &&& forall|i: int| 0 <= i < a ==> #[trigger] s[i] == only
                &&& a < s.len() ==> s[a] != only
            },
{
    let a = lemma_trimmed_start_at(s, Strip::Only(only));
    assert(trimmed_start(s, Strip::Only(only)) == s.skip(a));
    assert forall|i: int| 0 <= i < a implies #[trigger] s[i] == only by {
        assert(strips(Strip::Only(only), s[i]));
    }
}

/// White space is, of ASCII, the space and the characters from tab to carriage
/// return; of the rest, the next line, the spaces and the separators of lines
/// and paragraphs.
pub proof fn law_white_space(c: char)
    ensures
        c as u32 <= 0x7f ==> (is_white(c) <==> c as u32 == 0x20 || 0x09 <= c as u32 <= 0x0d),
        c as u32 > 0x7f ==> (is_white(c) <==> 0x2000 <= c as u32 <= 0x200a || set![
            0x85u32,
            0xa0,
            0x1680,
            0x2028,
            0x2029,
            0x202f,
            0x205f,
            0x3000,
        ].contains(c as u32)),
{
}

/// A text is blank exactly where trimming white space leaves nothing.
pub proof fn law_blank_is_nothing_trimmed(s: Seq<char>)
    ensures
        is_blank(s) <==> trimmed(s, Strip::White).len() == 0,
        is_blank(s) <==> forall|i: int| 0 <= i < s.len() ==> is_white(#[trigger] s[i]),
{
    let (a, c) = lemma_trimmed_ends(s, Strip::White);
    if a < c {
        assert(!is_white(s[a]));
    } else {
        assert forall|i: int| 0 <= i < s.len() implies is_white(#[trigger] s[i]) by {
            assert(strips(Strip::White, s[i]));
        }
    }
}

/// Decimal notation has the digit of the units at its end, before it the
/// notation of the tens, and no digit where there are no tens.
pub proof fn law_decimal_digits(n: nat, d: nat)
    requires
        d < 10,
    ensures
        decimal_of(d).len() == 1 && decimal_of(d)[0] as u32 == 0x30 + d,
        n > 0 ==> decimal_of(10 * n + d).len() == decimal_of(n).len() + 1,
        n > 0 ==> decimal_of(10 * n + d).drop_last() == decimal_of(n),
        n > 0 ==> decimal_of(10 * n + d).last() as u32 == 0x30 + d,
{
    if n > 0 {
        assert((10 * n + d) / 10 == n);
        assert((10 * n + d) % 10 == d);
        assert(decimal_of(10 * n + d) == decimal_of(n).push(digit_char(d)));
        assert(decimal_of(n).push(digit_char(d)).drop_last() =~= decimal_of(n));
    }
}

/// Read from left to right, each digit counts for ten times what was read and
/// itself; a leading `+` says nothing, and whatever holds another character, or
/// no digit at all, is no number.
pub proof fn law_number_in(s: Seq<char>, c: char)
    ensures
        '0' <= c <= '9' ==> number_in(seq![c]) == Some((c as u32 - 0x30) as nat),
        '0' <= c <= '9' && number_in(s) is Some ==> number_in(s.push(c)) == Some(
            (10 * number_in(s)->0 + (c as u32 - 0x30)) as nat,
        ),
        !('0' <= c <= '9') && s.len() > 0 ==> number_in(s.push(c)) is None,
        s.len() > 0 && s[0] != '+' ==> number_in(seq!['+'] + s) == number_in(s),
        number_in(Seq::empty()) is None,
        number_in(seq!['+']) is None,
        forall|i: int|
            0 < i < s.len() && !('0' <= #[trigger] s[i] <= '9') ==> number_in(s) is None,
{
    let digits = if s.len() > 0 && s[0] == '+' {
        s.drop_first()
    } else {
        s
    };
    let longer = s.push(c);
    assert(seq![c].drop_last() =~= Seq::<char>::empty());
    assert(digits_value(Seq::<char>::empty()) == 0);
    assert(digits_value(seq![c]) == (c as nat - 0x30) as nat);
    if '0' <= c <= '9' {
        assert(all_digits(seq![c]));
    }
    if s.len() > 0 {
        let digits1 = if longer[0] == '+' {
            longer.drop_first()
        } else {
            longer
        };
        assert(digits1 =~= digits.push(c));
        assert(digits1.drop_last() =~= digits);
        if '0' <= c <= '9' && number_in(s) is Some {
            assert(all_digits(digits1));
        }
        if !('0' <= c <= '9') {
            assert(digits1[digits1.len() - 1] == c);
            assert(!all_digits(digits1));
        }
        assert((seq!['+'] + s).drop_first() =~= s);
        assert forall|i: int| 0 < i < s.len() && !('0' <= #[trigger] s[i] <= '9') implies number_in(
            s,
        ) is None by {
            if s[0] == '+' {
                assert(digits[i - 1] == s[i]);
            }
            assert(!all_digits(digits));
        }
    }
    assert(seq!['+'].drop_first() =~= Seq::<char>::empty());
    assert(number_in(Seq::<char>::empty()) is None);
}

/// What is trimmed is what stands between characters of the set, as long as it
/// begins and ends with none of them.
pub proof fn law_trimmed_is(before: Seq<char>, s: Seq<char>, behind: Seq<char>, set: Strip)
    requires
        forall|i: int| 0 <= i < before.len() ==> strips(set, #[trigger] before[i]),
        forall|i: int| 0 <= i < behind.len() ==> strips(set, #[trigger] behind[i]),
        s.len() > 0 ==> !strips(set, s[0]) && !strips(set, s.last()),
    ensures
        trimmed(before + s + behind, set) == s,
{
    let whole = before + s + behind;
    let (a, c) = lemma_trimmed_ends(whole, set);
    let n = before.len() as int;
    let m = n + s.len();
    if s.len() == 0 {
        if a < c {
            assert(whole[a] == (if a < n {
                before[a]
            } else {
                behind[a - n]
            }));
        }
        assert(whole.subrange(a, c) =~= s);
    } else {
        assert(whole[n] == s[0]);
        assert(whole[m - 1] == s.last());
        assert(!(n < a || c <= n));
        assert(!(m - 1 < a || c <= m - 1));
        if a < n {
            assert(whole[a] == before[a]);
        }
        if m < c {
            assert(whole[c - 1] == behind[c - 1 - m]);
        }
        assert(whole.subrange(a, c) =~= s);
    }
}

/// What trimming gives, from both ends or from the beginning alone, is one piece
/// of the text, and all that is missing at these ends is of the set.
pub proof fn law_what_trimming_gives(s: &str, set: Strip, both: &str, one: &str)
    requires
        call_ensures(trim, (s, set), both),
        call_ensures(trim_start, (s, set), one),
    ensures
        exists|a: int, c: int|
            {
                &&& 0 <= a <= c <= s@.len()
                &&& both@ == #[trigger] s@.subrange(a, c)
                &&& one@ == s@.skip(a) || c == a
                &&& forall|i: int|
                    0 <= i < s@.len() && (i < a || c <= i) ==> strips(set, #[trigger] s@[i])
                &&& a < c ==> !strips(set, s@[a]) && !strips(set, s@[c - 1])
            },
        one@.len() > 0 ==> !strips(set, one@[0]),
        exists|a: int|
            0 <= a <= s@.len() && one@ == #[trigger] s@.skip(a) && forall|i: int|
                0 <= i < a ==> strips(set, #[trigger] s@[i]),
{
    let (a, c) = lemma_trimmed_ends(s@, set);
    let b = lemma_trimmed_start_at(s@, set);
    assert(one@ == s@.skip(b));
    if a < c {
        if a < b {
            assert(strips(set, s@[a]));
        }
        if b < a {
            assert(strips(set, s@[b]));
        }
    }
    assert(both@ == s@.subrange(a, c));
}

/// A text is told blank exactly where every character of it is white space.
pub proof fn law_told_blank(s: &str, r: bool)
    requires
        call_ensures(is_blank_str, (s,), r),
    ensures
        r <==> forall|i: int| 0 <= i < s@.len() ==> is_white(#[trigger] s@[i]),
{
}

/// Numbers are written so that they are read again, as far as they have 32 bits,
/// and nothing but a number of 32 bits is read.
pub proof fn law_numbers_are_read_again(n: u64, s: String, t: &str, r: Option<u32>)
    requires
        call_ensures(decimal, (n,), s),
        call_ensures(parse_u32, (t,), r),
    ensures
        t@ == s@ && n <= 0xffff_ffff ==> r == Some(n as u32),
        t@ == s@ && n > 0xffff_ffff ==> r is None,
        r matches Some(m) ==> number_in(t@) == Some(m as nat),
        r is None ==> (number_in(t@) matches Some(m) ==> m > 0xffff_ffff),
{
    law_decimal_says_the_number(n as nat);
}

/// The first place where a text stands in another is found, and none is found
/// only where there is none.
pub proof fn law_first_place_is_found(whole: &[u8], part: &[u8], from: usize, r: Option<usize>)
    requires
        from <= whole@.len(),
        call_ensures(find_bytes, (whole, part, from), r),
    ensures
        match r {
            Some(at) => {
                &&& from <= at && at + part@.len() <= whole@.len()
                &&& whole@.subrange(at as int, at + part@.len()) == part@
                &&& forall|i: int|
                    from <= i < at ==> #[trigger] whole@.subrange(i, i + part@.len()) != part@
            },
            None => forall|i: int|
                from <= i && i + part@.len() <= whole@.len() ==> #[trigger] whole@.subrange(
                    i,
                    i + part@.len(),
                ) != part@,
        },
{
    lemma_found_from(whole@, part@, from as int);
    match r {
        Some(at) => {
            assert forall|i: int| from <= i < at implies #[trigger] whole@.subrange(
                i,
                i + part@.len(),
            ) != part@ by {
                assert(!stands_at(whole@, part@, i));
            }
        },
        None => {
            assert forall|i: int|
                from <= i && i + part@.len() <= whole@.len() implies #[trigger] whole@.subrange(
                i,
                i + part@.len(),
            ) != part@ by {
                assert(!stands_at(whole@, part@, i));
            }
        },
    }
}

} // verus!
