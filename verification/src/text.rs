//! Operations on bytes and on text that the rest of the library builds on.

use vstd::prelude::*;
use vstd::std_specs::iter::IteratorSpec;
use vstd::string::StrSliceExecFns;
use vstd::string::StringExecFns;
use vstd::utf8::{decode_utf8, valid_utf8};

verus! {

/// The text that `String::from_utf8_lossy` makes of a byte string.
pub uninterp spec fn lossy_text(bytes: Seq<u8>) -> Seq<char>;

/// Whether `char::is_whitespace` holds of a character: whether it has the
/// Unicode property White_Space.
pub uninterp spec fn white_space(c: char) -> bool;

/// `String::from_utf8_lossy`, as an owned string: the text of `bytes`, with
/// the replacement character in place of what is not UTF-8. Bytes that are
/// UTF-8 give the text that they encode.
#[verifier::external_body]
pub(crate) fn utf8_lossy(bytes: &[u8]) -> (text: String)
    ensures
        text@ == lossy_text(bytes@),
        valid_utf8(bytes@) ==> text@ == decode_utf8(bytes@),
{
    String::from_utf8_lossy(bytes).into_owned()
}

/// `char::is_whitespace`.
#[verifier::external_body]
pub(crate) fn is_white_space(c: char) -> (white: bool)
    ensures
        white == white_space(c),
{
    c.is_whitespace()
}

/// The characters of a string, in order.
pub fn chars_of(s: &str) -> (chars: Vec<char>)
    ensures
        chars@ == s@,
{
    broadcast use vstd::string::group_string_axioms;

    let mut it = s.chars();
    let mut chars: Vec<char> = Vec::new();
    loop
        invariant
            it.obeys_prophetic_iter_laws(),
            it.decrease() is Some,
            chars@ + it.remaining() == s@,
        ensures
            chars@ == s@,
        decreases it.decrease()->0,
    {
        let ghost before = it.remaining();
        match it.next() {
            Some(c) => {
                chars.push(c);
                assert(chars@ + it.remaining() =~= (chars@.drop_last() + before));
            },
            None => {
                assert(chars@ + it.remaining() =~= chars@);
                break ;
            },
        }
    }
    chars
}

/// The number of white-space characters at the start of `s`.
pub open spec fn leading_white_space(s: Seq<char>) -> nat
    decreases s.len(),
{
    if s.len() > 0 && white_space(s[0]) {
        1 + leading_white_space(s.skip(1))
    } else {
        0
    }
}

/// The number of white-space characters at the end of `s`.
pub open spec fn trailing_white_space(s: Seq<char>) -> nat
    decreases s.len(),
{
    if s.len() > 0 && white_space(s.last()) {
        1 + trailing_white_space(s.drop_last())
    } else {
        0
    }
}

/// `s` without the white space at its start and at its end.
pub open spec fn trimmed(s: Seq<char>) -> Seq<char> {
    let start = leading_white_space(s) as int;
    if start == s.len() {
        Seq::empty()
    } else {
        s.subrange(start, s.len() - trailing_white_space(s))
    }
}

/// Whether two byte strings are the same.
pub fn bytes_eq(a: &[u8], b: &[u8]) -> (same: bool)
    ensures
        same == (a@ == b@),
{
    if a.len() != b.len() {
        return false;
    }
    let mut i: usize = 0;
    while i < a.len()
        invariant
            a@.len() == b@.len(),
            i <= a@.len(),
            forall|j: int| 0 <= j < i ==> a@[j] == b@[j],
        decreases a@.len() - i,
    {
        if a[i] != b[i] {
            return false;
        }
        i += 1;
    }
    assert(a@ =~= b@);
    true
}

/// `s` without the white space at its start and at its end.
pub fn trim(s: &str) -> (t: String)
    ensures
        t@ == trimmed(s@),
{
    let chars = chars_of(s);
    let n = chars.len();
    let mut start: usize = 0;
    assert(chars@.skip(0) =~= chars@);
    while start < n && is_white_space(chars[start])
        invariant
            chars@ == s@,
            n == chars@.len(),
            start <= n,
            leading_white_space(chars@) == start + leading_white_space(chars@.skip(start as int)),
        decreases n - start,
    {
        assert(chars@.skip(start as int).skip(1) =~= chars@.skip(start + 1));
        start += 1;
    }
    if start == n {
        return String::new();
    }
    assert(chars@.skip(start as int)[0] == chars@[start as int]);
    assert(leading_white_space(chars@) == start);
    let mut end: usize = n;
    assert(chars@.take(n as int) =~= chars@);
    while end > start && is_white_space(chars[end - 1])
        invariant
            chars@ == s@,
            n == chars@.len(),
            start < n,
            start < end <= n,
            !white_space(chars@[start as int]),
            trailing_white_space(chars@) == (n - end) + trailing_white_space(
                chars@.take(end as int),
            ),
        decreases end,
    {
        assert(chars@.take(end as int).drop_last() =~= chars@.take(end - 1));
        end -= 1;
    }
    assert(end > start);
    assert(chars@.take(end as int).last() == chars@[end - 1]);
    assert(trailing_white_space(chars@) == n - end);
    String::from_str(s.substring_char(start, end))
}

/// The text of a cell whose character data is `bytes`: decoded, and without
/// the white space around it.
pub open spec fn cell_text(bytes: Seq<u8>) -> Seq<char> {
    trimmed(lossy_text(bytes))
}

/// Decodes the character data of a cell.
pub fn decode_cell(bytes: &[u8]) -> (text: String)
    ensures
        text@ == cell_text(bytes@),
{
    let raw = utf8_lossy(bytes);
    trim(raw.as_str())
}

/// Text that is white space throughout trims to nothing.
pub proof fn law_white_space_trims_to_nothing(s: Seq<char>)
    requires
        forall|i: int| 0 <= i < s.len() ==> white_space(#[trigger] s[i]),
    ensures
        trimmed(s) == Seq::<char>::empty(),
    decreases s.len(),
{
    lemma_leading_all(s);
}

/// A cell whose character data decodes to white space alone has no text.
pub proof fn law_white_space_cell_is_empty(bytes: Seq<u8>)
    requires
        forall|i: int|
            0 <= i < lossy_text(bytes).len() ==> white_space(#[trigger] lossy_text(bytes)[i]),
    ensures
        cell_text(bytes) == Seq::<char>::empty(),
{
    law_white_space_trims_to_nothing(lossy_text(bytes));
}

/// In text that is white space throughout, all of it is leading white space.
proof fn lemma_leading_all(s: Seq<char>)
    requires
        forall|i: int| 0 <= i < s.len() ==> white_space(#[trigger] s[i]),
    ensures
        leading_white_space(s) == s.len(),
    decreases s.len(),
{
    if s.len() > 0 {
        let rest = s.skip(1);
        assert forall|i: int| 0 <= i < rest.len() implies white_space(#[trigger] rest[i]) by {
            assert(rest[i] == s[i + 1]);
        }
        lemma_leading_all(rest);
    }
}

/// Whether `pattern` stands in `s` at index `at`.
pub open spec fn occurs_at(s: Seq<char>, pattern: Seq<char>, at: int) -> bool {
    0 <= at && at + pattern.len() <= s.len() && s.subrange(at, at + pattern.len()) == pattern
}

/// Whether `pattern` stands in `s` at index `at`.
pub fn matches_at(s: &Vec<char>, pattern: &Vec<char>, at: usize) -> (matches: bool)
    ensures
        matches == occurs_at(s@, pattern@, at as int),
{
    let n = pattern.len();
    if at > s.len() || n > s.len() - at {
        return false;
    }
    let mut i: usize = 0;
    while i < n
        invariant
            n == pattern@.len(),
            at + n <= s@.len() <= usize::MAX,
            i <= n,
            forall|j: int| 0 <= j < i ==> s@[at + j] == pattern@[j],
        decreases n - i,
    {
        if s[at + i] != pattern[i] {
            assert(s@.subrange(at as int, at + n)[i as int] != pattern@[i as int]);
            return false;
        }
        i += 1;
    }
    assert(s@.subrange(at as int, at + n) =~= pattern@);
    true
}

/// Whether two strings are the same text.
pub fn str_eq(a: &str, b: &str) -> (same: bool)
    ensures
        same == (a@ == b@),
{
    let a_chars = chars_of(a);
    let b_chars = chars_of(b);
    assert(a@.subrange(0, a@.len() as int) =~= a@);
    a_chars.len() == b_chars.len() && matches_at(&a_chars, &b_chars, 0)
}

/// Whether `s` begins with `prefix`.
pub fn starts_with(s: &str, prefix: &str) -> (starts: bool)
    ensures
        starts == prefix@.is_prefix_of(s@),
{
    let s_chars = chars_of(s);
    let prefix_chars = chars_of(prefix);
    matches_at(&s_chars, &prefix_chars, 0)
}

/// Whether `s` ends with `suffix`.
pub fn ends_with(s: &str, suffix: &str) -> (ends: bool)
    ensures
        ends == suffix@.is_suffix_of(s@),
{
    let s_chars = chars_of(s);
    let suffix_chars = chars_of(suffix);
    if suffix_chars.len() > s_chars.len() {
        return false;
    }
    matches_at(&s_chars, &suffix_chars, s_chars.len() - suffix_chars.len())
}

/// Whether `pattern` stands somewhere in `s`.
pub open spec fn occurs_in(s: Seq<char>, pattern: Seq<char>) -> bool {
    exists|at: int| occurs_at(s, pattern, at)
}

/// Whether `pattern` stands somewhere in `s`.
pub fn contains(s: &str, pattern: &str) -> (found: bool)
    ensures
        found == occurs_in(s@, pattern@),
{
    let s_chars = chars_of(s);
    let pattern_chars = chars_of(pattern);
    let mut at: usize = 0;
    while at < s_chars.len()
        invariant
            s_chars@ == s@,
            pattern_chars@ == pattern@,
            at <= s_chars@.len(),
            forall|i: int| 0 <= i < at ==> !occurs_at(s@, pattern@, i),
        decreases s_chars@.len() - at,
    {
        if matches_at(&s_chars, &pattern_chars, at) {
            return true;
        }
        at += 1;
    }
    matches_at(&s_chars, &pattern_chars, at)
}

/// The index of the last `c` in `s`, or -1 if there is none.
pub open spec fn last_index_of(s: Seq<char>, c: char) -> int
    decreases s.len(),
{
    if s.len() == 0 {
        -1
    } else if s.last() == c {
        s.len() - 1
    } else {
        last_index_of(s.drop_last(), c)
    }
}

/// What stands in `s` behind its last `c`, if it holds one.
pub open spec fn after_last(s: Seq<char>, c: char) -> Option<Seq<char>> {
    let at = last_index_of(s, c);
    if at < 0 {
        None
    } else {
        Some(s.subrange(at + 1, s.len() as int))
    }
}

/// `last_index_of` is the index of a `c` behind which no `c` stands, or -1
/// where `s` holds no `c`.
pub proof fn law_last_index_of(s: Seq<char>, c: char)
    ensures
        -1 <= last_index_of(s, c) < s.len(),
        last_index_of(s, c) >= 0 ==> s[last_index_of(s, c)] == c,
        forall|i: int| last_index_of(s, c) < i < s.len() ==> s[i] != c,
    decreases s.len(),
{
    if s.len() > 0 && s.last() != c {
        let front = s.drop_last();
        law_last_index_of(front, c);
        assert forall|i: int| last_index_of(s, c) < i < s.len() implies s[i] != c by {
            if i < front.len() {
                assert(front[i] == s[i]);
            }
        }
    }
}

/// What stands in `s` behind its last `c`, if it holds one.
pub fn text_after_last(s: &str, c: char) -> (tail: Option<String>)
    ensures
        match tail {
            Some(t) => after_last(s@, c) == Some(t@),
            None => after_last(s@, c) is None,
        },
{
    let chars = chars_of(s);
    let n = chars.len();
    let mut end: usize = n;
    assert(chars@.take(n as int) =~= chars@);
    while end > 0 && chars[end - 1] != c
        invariant
            chars@ == s@,
            n == chars@.len(),
            end <= n,
            last_index_of(chars@, c) == last_index_of(chars@.take(end as int), c),
        decreases end,
    {
        assert(chars@.take(end as int).drop_last() =~= chars@.take(end - 1));
        end -= 1;
    }
    if end == 0 {
        None
    } else {
        assert(chars@.take(end as int).last() == chars@[end - 1]);
        Some(String::from_str(s.substring_char(end, n)))
    }
}

/// The index of the first place at or behind `from` where `pattern` stands
/// in `s`, or -1 if there is none.
pub open spec fn first_match(s: Seq<char>, pattern: Seq<char>, from: int) -> int
    decreases s.len() - from,
{
    if from < 0 || from + pattern.len() > s.len() {
        -1
    } else if occurs_at(s, pattern, from) {
        from
    } else if from < s.len() {
        first_match(s, pattern, from + 1)
    } else {
        -1
    }
}

/// The index of the first place at or behind `from` where `pattern` stands
/// in `s`.
pub fn find_from(s: &Vec<char>, pattern: &Vec<char>, from: usize) -> (at: Option<usize>)
    ensures
        match at {
            Some(i) => first_match(s@, pattern@, from as int) == i && from <= i && occurs_at(
                s@,
                pattern@,
                i as int,
            ),
            None => first_match(s@, pattern@, from as int) == -1,
        },
{
    let mut at: usize = from;
    while at <= s.len() && pattern.len() <= s.len() - at
        invariant
            from <= at,
            first_match(s@, pattern@, from as int) == first_match(s@, pattern@, at as int),
        decreases s@.len() - at,
    {
        if matches_at(s, pattern, at) {
            return Some(at);
        }
        assert(pattern@.len() > 0) by {
            if pattern@.len() == 0 {
                assert(s@.subrange(at as int, at as int) =~= pattern@);
            }
        }
        at += 1;
    }
    None
}

/// What stands in `s` from index `from` on, with the first `count` places
/// where `pattern` stands, none of them overlapping another, filled by
/// `with`. An empty pattern stands nowhere.
pub open spec fn replaced_from(
    s: Seq<char>,
    pattern: Seq<char>,
    with: Seq<char>,
    count: nat,
    from: int,
) -> Seq<char>
    decreases count,
{
    let at = first_match(s, pattern, from);
    if count == 0 || pattern.len() == 0 || at < 0 {
        s.subrange(from, s.len() as int)
    } else {
        s.subrange(from, at) + with + replaced_from(
            s,
            pattern,
            with,
            (count - 1) as nat,
            at + pattern.len(),
        )
    }
}

/// `s` with the first `count` places where `pattern` stands filled by
/// `with`.
pub open spec fn replaced(s: Seq<char>, pattern: Seq<char>, with: Seq<char>, count: nat) -> Seq<
    char,
> {
    replaced_from(s, pattern, with, count, 0)
}

/// `s` with the first `count` places where `pattern` stands filled by
/// `with`.
pub fn replace_first(s: &str, pattern: &str, with: &str, count: usize) -> (out: String)
    ensures
        out@ == replaced(s@, pattern@, with@, count as nat),
{
    let chars = chars_of(s);
    let pattern_chars = chars_of(pattern);
    let n = chars.len();
    let mut out = String::new();
    let mut from: usize = 0;
    let mut left: usize = count;
    assert(out@ + replaced_from(s@, pattern@, with@, left as nat, 0) =~= replaced_from(
        s@,
        pattern@,
        with@,
        count as nat,
        0,
    ));
    while left > 0 && pattern_chars.len() > 0
        invariant
            chars@ == s@,
            pattern_chars@ == pattern@,
            n == chars@.len(),
            from <= n,
            out@ + replaced_from(s@, pattern@, with@, left as nat, from as int) == replaced_from(
                s@,
                pattern@,
                with@,
                count as nat,
                0,
            ),
        ensures
            from <= n,
            n == s@.len(),
            out@ + s@.subrange(from as int, n as int) == replaced_from(
                s@,
                pattern@,
                with@,
                count as nat,
                0,
            ),
        decreases left,
    {
        let ghost so_far = out@;
        match find_from(&chars, &pattern_chars, from) {
            None => {
                break ;
            },
            Some(at) => {
                out.append(s.substring_char(from, at));
                out.append(with);
                assert((so_far + s@.subrange(from as int, at as int) + with@) + replaced_from(
                    s@,
                    pattern@,
                    with@,
                    (left - 1) as nat,
                    at + pattern@.len(),
                ) =~= so_far + (s@.subrange(from as int, at as int) + with@ + replaced_from(
                    s@,
                    pattern@,
                    with@,
                    (left - 1) as nat,
                    at + pattern@.len(),
                )));
                from = at + pattern_chars.len();
                left -= 1;
            },
        }
    }
    out.append(s.substring_char(from, n));
    out
}

/// `first_match` is the first place at or behind `from` where the pattern
/// stands, or -1 where it stands at none.
pub proof fn law_first_match(s: Seq<char>, pattern: Seq<char>, from: int)
    requires
        0 <= from,
    ensures
        first_match(s, pattern, from) == -1 || (from <= first_match(s, pattern, from)
            && occurs_at(s, pattern, first_match(s, pattern, from))),
        forall|i: int|
            from <= i && (i < first_match(s, pattern, from) || first_match(s, pattern, from) == -1)
                ==> !occurs_at(s, pattern, i),
    decreases s.len() - from,
{
    if from + pattern.len() > s.len() {
    } else if occurs_at(s, pattern, from) {
    } else if from < s.len() {
        law_first_match(s, pattern, from + 1);
    } else {
        assert(pattern.len() == 0);
        assert(s.subrange(from, from + pattern.len()) =~= pattern);
    }
}

/// Text in which the pattern stands nowhere stays as it is.
pub proof fn law_replaced_without_match(
    s: Seq<char>,
    pattern: Seq<char>,
    with: Seq<char>,
    count: nat,
)
    requires
        !occurs_in(s, pattern),
    ensures
        replaced(s, pattern, with, count) == s,
{
    law_first_match(s, pattern, 0);
    let at = first_match(s, pattern, 0);
    if at >= 0 {
        assert(occurs_at(s, pattern, at));
    }
    assert(s.subrange(0, s.len() as int) =~= s);
}

/// The leading white space of a text is white space throughout, and what
/// follows it is none.
pub proof fn law_leading_white_space(s: Seq<char>)
    ensures
        leading_white_space(s) <= s.len(),
        forall|i: int| 0 <= i < leading_white_space(s) ==> white_space(#[trigger] s[i]),
        leading_white_space(s) < s.len() ==> !white_space(s[leading_white_space(s) as int]),
    decreases s.len(),
{
    if s.len() > 0 && white_space(s[0]) {
        let rest = s.skip(1);
        law_leading_white_space(rest);
        assert forall|i: int| 0 <= i < leading_white_space(s) implies white_space(
            #[trigger] s[i],
        ) by {
            if i > 0 {
                assert(s[i] == rest[i - 1]);
            }
        }
    }
}

/// The trailing white space of a text is white space throughout, and what
/// stands before it is none.
pub proof fn law_trailing_white_space(s: Seq<char>)
    ensures
        trailing_white_space(s) <= s.len(),
        forall|i: int|
            s.len() - trailing_white_space(s) <= i < s.len() ==> white_space(#[trigger] s[i]),
        trailing_white_space(s) < s.len() ==> !white_space(
            s[s.len() - trailing_white_space(s) - 1],
        ),
    decreases s.len(),
{
    if s.len() > 0 && white_space(s.last()) {
        let front = s.drop_last();
        law_trailing_white_space(front);
        assert forall|i: int|
            s.len() - trailing_white_space(s) <= i < s.len() implies white_space(
            #[trigger] s[i],
        ) by {
            if i < front.len() {
                assert(s[i] == front[i]);
            }
        }
    }
}

/// Trimming takes white space away from both ends and nothing else: the
/// text is white space, then the trimmed text, then white space, and the
/// trimmed text neither begins nor ends with white space.
pub proof fn law_trimmed(s: Seq<char>)
    ensures
        leading_white_space(s) + trimmed(s).len() + trailing_white_space(s) == s.len()
            || trimmed(s).len() == 0,
        trimmed(s).len() > 0 ==> {
            &&& s == s.subrange(0, leading_white_space(s) as int) + trimmed(s) + s.subrange(
                s.len() - trailing_white_space(s),
                s.len() as int,
            )
            &&& !white_space(trimmed(s)[0])
            &&& !white_space(trimmed(s).last())
        },
        trimmed(s).len() == 0 ==> forall|i: int| 0 <= i < s.len() ==> white_space(#[trigger] s[i]),
{
    law_leading_white_space(s);
    law_trailing_white_space(s);
    let start = leading_white_space(s) as int;
    let end = s.len() - trailing_white_space(s);
    if start < s.len() {
        assert(!white_space(s[start]));
        if end <= start {
            assert(white_space(s[start]));
        }
        assert(start < end);
        assert(s =~= s.subrange(0, start) + s.subrange(start, end) + s.subrange(
            end,
            s.len() as int,
        ));
        assert(trimmed(s)[0] == s[start]);
        assert(trimmed(s).last() == s[end - 1]);
    }
}

} // verus!
