//! Reading text: white space, lines, prefixes, separators and substrings.
//!
//! Text is modelled as the sequence of its characters.
use vstd::prelude::*;

verus! {

/// The characters with the Unicode property `White_Space`.
pub open spec fn white_space(c: char) -> bool {
    ||| '\u{9}' <= c <= '\u{d}'
    ||| c == '\u{20}'
    ||| c == '\u{85}'
    ||| c == '\u{a0}'
    ||| c == '\u{1680}'
    ||| '\u{2000}' <= c <= '\u{200a}'
    ||| c == '\u{2028}'
    ||| c == '\u{2029}'
    ||| c == '\u{202f}'
    ||| c == '\u{205f}'
    ||| c == '\u{3000}'
}

/// `s` without the white space at its two ends.
pub open spec fn trimmed(s: Seq<char>) -> Seq<char>
    decreases s.len(),
{
    if s.len() == 0 {
        s
    } else if white_space(s.first()) {
        trimmed(s.drop_first())
    } else if white_space(s.last()) {
        trimmed(s.drop_last())
    } else {
        s
    }
}

/// Nothing but white space.
pub open spec fn blank(s: Seq<char>) -> bool {
    forall|i: int| 0 <= i < s.len() ==> white_space(#[trigger] s[i])
}

/// White space at the start makes no difference to the trimmed text.
pub proof fn lemma_trimmed_before(before: Seq<char>, s: Seq<char>)
    requires
        blank(before),
    ensures
        trimmed(before + s) == trimmed(s),
    decreases before.len(),
{
    let t = before + s;
    if before.len() == 0 {
        assert(t =~= s);
    } else {
        assert(white_space(before[0]));
        assert(t.first() == before[0]);
        assert(t.drop_first() =~= before.drop_first() + s);
        assert(blank(before.drop_first()));
        lemma_trimmed_before(before.drop_first(), s);
    }
}

/// White space at the end makes no difference to the trimmed text.
pub proof fn lemma_trimmed_behind(s: Seq<char>, behind: Seq<char>)
    requires
        blank(behind),
    ensures
        trimmed(s + behind) == trimmed(s),
    decreases s.len() + behind.len(),
{
    let t = s + behind;
    if behind.len() == 0 {
        assert(t =~= s);
    } else if s.len() == 0 {
        assert(t =~= behind + s);
        lemma_trimmed_before(behind, s);
    } else if white_space(s.first()) {
        assert(t.first() == s.first());
        assert(t.drop_first() =~= s.drop_first() + behind);
        lemma_trimmed_behind(s.drop_first(), behind);
    } else {
        assert(white_space(behind[behind.len() - 1]));
        assert(t.first() == s.first());
        assert(t.last() == behind.last());
        assert(t.drop_last() =~= s + behind.drop_last());
        assert(blank(behind.drop_last()));
        lemma_trimmed_behind(s, behind.drop_last());
    }
}

/// The lines of `s`. A line ends with a line feed, or with a carriage return and a line feed;
/// the ending is no part of the line, and the last line needs none.
pub open spec fn lines_of(s: Seq<char>) -> Seq<Seq<char>>
    decreases s.len(),
{
    if s.len() == 0 {
        Seq::empty()
    } else {
        let end = index_from(s, '\n', 0);
        if 0 <= end < s.len() {
            seq![without_carriage_return(s.take(end))] + lines_of(s.skip(end + 1))
        } else {
            seq![s]
        }
    }
}

/// `line` without one carriage return at its end.
pub open spec fn without_carriage_return(line: Seq<char>) -> Seq<char> {
    if line.len() > 0 && line.last() == '\r' {
        line.drop_last()
    } else {
        line
    }
}

/// The first position at or after `from` where `s` holds `c`, or the length of `s`.
pub open spec fn index_from(s: Seq<char>, c: char, from: int) -> int
    decreases s.len() - from,
{
    if from < 0 || from >= s.len() {
        s.len() as int
    } else if s[from] == c {
        from
    } else {
        index_from(s, c, from + 1)
    }
}

/// Some stretch of `s` is `part`.
pub open spec fn has_part(s: Seq<char>, part: Seq<char>) -> bool {
    exists|i: int| #[trigger] part_at(s, part, i)
}

/// `part` stands in `s` at position `i`.
pub open spec fn part_at(s: Seq<char>, part: Seq<char>, i: int) -> bool {
    &&& 0 <= i
    &&& i + part.len() <= s.len()
    &&& s.subrange(i, i + part.len()) == part
}

/// What stands behind the last `c` of `s`; all of `s` where it holds none.
pub open spec fn behind_last(s: Seq<char>, c: char) -> Seq<char>
    decreases s.len(),
{
    if s.len() == 0 || s.last() == c {
        Seq::empty()
    } else {
        behind_last(s.drop_last(), c).push(s.last())
    }
}

/// The text of an optional string.
pub open spec fn text_of(s: Option<String>) -> Option<Seq<char>> {
    match s {
        Some(s) => Some(s@),
        None => None,
    }
}

/// The text of an optional string slice.
pub open spec fn str_text_of(s: Option<&str>) -> Option<Seq<char>> {
    match s {
        Some(s) => Some(s@),
        None => None,
    }
}

/// The texts of a list of strings.
pub open spec fn texts_of(list: Seq<String>) -> Seq<Seq<char>> {
    list.map_values(|s: String| s@)
}

/// Whether `c` is white space.
pub fn is_white_space(c: char) -> (r: bool)
    ensures
        r == white_space(c),
{
    ('\u{9}' <= c && c <= '\u{d}') || c == '\u{20}' || c == '\u{85}' || c == '\u{a0}' || c
        == '\u{1680}' || ('\u{2000}' <= c && c <= '\u{200a}') || c == '\u{2028}' || c == '\u{2029}'
        || c == '\u{202f}' || c == '\u{205f}' || c == '\u{3000}'
}

/// The characters of `s`.
pub fn chars_of(s: &str) -> (r: Vec<char>)
    ensures
        r@ == s@,
{
    let mut r: Vec<char> = Vec::new();
    for c in it: s.chars()
        invariant
            it.seq() == s@,
            r@ == s@.take(it.index()),
    {
        r.push(c);
    }
    r
}

/// Whether `a` and `b` are the same text.
pub fn same_text(a: &str, b: &str) -> (r: bool)
    ensures
        r == (a@ == b@),
{
    same_chars(&chars_of(a), &chars_of(b))
}

/// Whether `a` and `b` hold the same characters.
pub fn same_chars(a: &Vec<char>, b: &Vec<char>) -> (r: bool)
    ensures
        r == (a@ == b@),
{
    if a.len() != b.len() {
        return false;
    }
    let mut i: usize = 0;
    while i < a.len()
        invariant
            i <= a.len(),
            a.len() == b.len(),
            forall|j: int| 0 <= j < i ==> a@[j] == b@[j],
        decreases a.len() - i,
    {
        if a[i] != b[i] {
            return false;
        }
        i = i + 1;
    }
    assert(a@ =~= b@);
    true
}

/// Whether two optional strings are both missing or the same text.
pub fn same_optional(a: &Option<String>, b: &Option<String>) -> (r: bool)
    ensures
        r == (text_of(*a) == text_of(*b)),
{
    match (a, b) {
        (Some(a), Some(b)) => *a == *b,
        (None, None) => true,
        _ => false,
    }
}

/// Whether an optional string is present and is `wanted`.
pub fn is_text(s: &Option<String>, wanted: &str) -> (r: bool)
    ensures
        r == (text_of(*s) == Some(wanted@)),
{
    match s {
        Some(s) => same_text(s.as_str(), wanted),
        None => false,
    }
}

/// A copy of `s` without the white space at its two ends.
pub fn trim(s: &str) -> (r: String)
    ensures
        r@ == trimmed(s@),
{
    let (start, end) = trim_range(&chars_of(s));
    s.substring_char(start, end).to_owned()
}

/// A copy of `s` without the white space at its two ends.
fn trim_chars(s: &Vec<char>) -> (r: Vec<char>)
    ensures
        r@ == trimmed(s@),
{
    let (start, end) = trim_range(s);
    copy_range(s, start, end)
}

/// Where `s` without the white space at its two ends starts and stops.
fn trim_range(s: &Vec<char>) -> (r: (usize, usize))
    ensures
        r.0 <= r.1 <= s.len(),
        s@.subrange(r.0 as int, r.1 as int) == trimmed(s@),
{
    let mut start: usize = 0;
    let mut end: usize = s.len();
    assert(s@.subrange(0, end as int) =~= s@);
    while start < end && is_white_space(s[start])
        invariant
            start <= end == s.len(),
            trimmed(s@.subrange(start as int, end as int)) == trimmed(s@),
        decreases end - start,
    {
        assert(s@.subrange(start as int, end as int).drop_first() =~= s@.subrange(
            start + 1,
            end as int,
        ));
        start = start + 1;
    }
    while start < end && is_white_space(s[end - 1])
        invariant
            start <= end <= s.len(),
            start < end ==> !white_space(s@[start as int]),
            trimmed(s@.subrange(start as int, end as int)) == trimmed(s@),
        decreases end - start,
    {
        assert(s@.subrange(start as int, end as int).drop_last() =~= s@.subrange(
            start as int,
            end - 1,
        ));
        end = end - 1;
    }
    (start, end)
}

/// Whether `s` is white space from end to end.
pub fn is_blank(s: &str) -> (r: bool)
    ensures
        r == (trimmed(s@).len() == 0),
{
    trim(s).as_str().is_empty()
}

/// Whether `s` starts with `prefix`.
pub fn starts_with(s: &str, prefix: &str) -> (r: bool)
    ensures
        r == prefix@.is_prefix_of(s@),
{
    part_stands_at(&chars_of(s), &chars_of(prefix), 0)
}

/// Whether `part` stands in `s` at position `at`.
fn part_stands_at(s: &Vec<char>, part: &Vec<char>, at: usize) -> (r: bool)
    requires
        at <= s.len(),
    ensures
        r == part_at(s@, part@, at as int),
{
    if part.len() > s.len() - at {
        return false;
    }
    let mut i: usize = 0;
    while i < part.len()
        invariant
            i <= part.len() <= s.len() - at,
            at <= s.len(),
            forall|j: int| 0 <= j < i ==> s@[at + j] == part@[j],
        decreases part.len() - i,
    {
        if s[at + i] != part[i] {
            assert(s@.subrange(at as int, at + part.len())[i as int] != part@[i as int]);
            return false;
        }
        i = i + 1;
    }
    assert(s@.subrange(at as int, at + part.len()) =~= part@);
    true
}

/// Whether some stretch of `s` is `part`.
pub fn contains_text(s: &str, part: &str) -> (r: bool)
    ensures
        r == has_part(s@, part@),
{
    let chars = chars_of(s);
    let part_chars = chars_of(part);
    let mut at: usize = 0;
    while at < chars.len()
        invariant
            at <= chars.len(),
            chars@ == s@,
            part_chars@ == part@,
            forall|i: int| 0 <= i < at ==> !part_at(s@, part@, i),
        decreases chars.len() - at,
    {
        if part_stands_at(&chars, &part_chars, at) {
            return true;
        }
        at = at + 1;
    }
    part_stands_at(&chars, &part_chars, at)
}

/// `s` behind its first `prefix.len()` characters, where it starts with `prefix`.
pub fn behind_prefix(s: &str, prefix: &str) -> (r: Option<String>)
    ensures
        r is Some <==> prefix@.is_prefix_of(s@),
        r matches Some(rest) ==> s@ == prefix@ + rest@,
{
    if starts_with(s, prefix) {
        let from: usize = prefix.unicode_len();
        let rest = s.substring_char(from, s.unicode_len()).to_owned();
        assert(s@ =~= prefix@ + rest@);
        Some(rest)
    } else {
        None
    }
}

/// `s` in front of its first `c`, where it holds one.
pub fn before_first(s: &str, c: char) -> (r: Option<String>)
    ensures
        r is Some <==> s@.contains(c),
        r matches Some(head) ==> head@ == s@.take(index_from(s@, c, 0)),
{
    let chars = chars_of(s);
    let at: usize = position_from(&chars, c, 0);
    proof {
        lemma_index_from(s@, c, 0);
    }
    if at < chars.len() {
        Some(s.substring_char(0, at).to_owned())
    } else {
        None
    }
}

/// The first position at or after `from` where `s` holds `c`, or the length of `s`.
fn position_from(s: &Vec<char>, c: char, from: usize) -> (r: usize)
    requires
        from <= s.len(),
    ensures
        r == index_from(s@, c, from as int),
        from <= r <= s.len(),
{
    let mut i: usize = from;
    while i < s.len() && s[i] != c
        invariant
            from <= i <= s.len(),
            index_from(s@, c, from as int) == index_from(s@, c, i as int),
        decreases s.len() - i,
    {
        i = i + 1;
    }
    i
}

/// What stands behind the last `c` of `s`; all of `s` where it holds none.
pub fn after_last(s: &str, c: char) -> (r: String)
    ensures
        r@ == behind_last(s@, c),
{
    let chars = chars_of(s);
    let len: usize = chars.len();
    let mut start: usize = len;
    assert(s@.take(len as int) =~= s@);
    assert(s@.subrange(len as int, len as int) =~= Seq::<char>::empty());
    while start > 0 && chars[start - 1] != c
        invariant
            start <= len == chars.len(),
            chars@ == s@,
            behind_last(s@, c) == behind_last(s@.take(start as int), c) + s@.subrange(
                start as int,
                len as int,
            ),
        decreases start,
    {
        assert(s@.take(start as int).drop_last() =~= s@.take(start - 1));
        assert(behind_last(s@.take(start - 1), c) + s@.subrange(start - 1, len as int)
            =~= behind_last(s@.take(start - 1), c).push(s@[start - 1]) + s@.subrange(
            start as int,
            len as int,
        ));
        start = start - 1;
    }
    assert(behind_last(s@, c) =~= s@.subrange(start as int, len as int));
    s.substring_char(start, len).to_owned()
}

/// The lines of `s`, as lists of characters.
fn split_lines(s: &Vec<char>) -> (r: Vec<Vec<char>>)
    ensures
        r@.len() == lines_of(s@).len(),
        forall|i: int| 0 <= i < r@.len() ==> (#[trigger] r@[i])@ == lines_of(s@)[i],
{
    let mut lines: Vec<Vec<char>> = Vec::new();
    let mut at: usize = 0;
    assert(s@.skip(0) =~= s@);
    while at < s.len()
        invariant
            at <= s.len(),
            lines@.len() + lines_of(s@.skip(at as int)).len() == lines_of(s@).len(),
            forall|i: int| 0 <= i < lines@.len() ==> (#[trigger] lines@[i])@ == lines_of(s@)[i],
            forall|i: int|
                0 <= i < lines_of(s@.skip(at as int)).len() ==> #[trigger] lines_of(
                    s@.skip(at as int),
                )[i] == lines_of(s@)[lines@.len() + i],
        decreases s.len() - at,
    {
        let ghost rest = s@.skip(at as int);
        let end: usize = position_from(s, '\n', at);
        proof {
            lemma_index_from_skip(s@, '\n', at as int, 0);
            assert(index_from(rest, '\n', 0) == end - at);
        }
        let mut stop: usize = end;
        if end < s.len() && end > at && s[end - 1] == '\r' {
            stop = end - 1;
        }
        let line = copy_range(s, at, stop);
        let ghost before = lines@;
        proof {
            if end < s.len() {
                assert(rest.take(end - at) =~= s@.subrange(at as int, end as int));
                assert(without_carriage_return(rest.take(end - at)) =~= line@);
                assert(rest.skip(end - at + 1) =~= s@.skip(end + 1));
                assert(lines_of(rest) == seq![line@] + lines_of(s@.skip(end + 1)));
            } else {
                assert(line@ =~= rest);
                assert(lines_of(rest) == seq![line@]);
            }
            assert(lines_of(rest)[0] == line@);
        }
        lines.push(line);
        if end < s.len() {
            at = end + 1;
        } else {
            at = end;
        }
        proof {
            let tail = lines_of(s@.skip(at as int));
            assert(s@.skip(s.len() as int) =~= Seq::<char>::empty());
            assert(lines_of(rest) =~= seq![lines@.last()@] + tail);
            assert forall|i: int| 0 <= i < tail.len() implies #[trigger] tail[i] == lines_of(
                s@,
            )[lines@.len() + i] by {
                assert(lines_of(rest)[i + 1] == tail[i]);
            }
        }
    }
    lines
}

/// A copy of `s` from `from` up to `to`.
fn copy_range(s: &Vec<char>, from: usize, to: usize) -> (r: Vec<char>)
    requires
        from <= to <= s.len(),
    ensures
        r@ == s@.subrange(from as int, to as int),
{
    let mut r: Vec<char> = Vec::new();
    let mut i: usize = from;
    while i < to
        invariant
            from <= i <= to <= s.len(),
            r@ == s@.subrange(from as int, i as int),
        decreases to - i,
    {
        r.push(s[i]);
        i = i + 1;
    }
    r
}

/// Whether some line of `s` is `wanted`.
pub fn has_line(s: &str, wanted: &str) -> (r: bool)
    ensures
        r == lines_of(s@).contains(wanted@),
{
    let lines = split_lines(&chars_of(s));
    let wanted_chars = chars_of(wanted);
    let mut i: usize = 0;
    while i < lines.len()
        invariant
            i <= lines.len(),
            wanted_chars@ == wanted@,
            lines@.len() == lines_of(s@).len(),
            forall|j: int| 0 <= j < lines@.len() ==> (#[trigger] lines@[j])@ == lines_of(s@)[j],
            forall|j: int| 0 <= j < i ==> lines_of(s@)[j] != wanted@,
        decreases lines.len() - i,
    {
        if same_chars(&lines[i], &wanted_chars) {
            assert(lines_of(s@)[i as int] == wanted@);
            return true;
        }
        i = i + 1;
    }
    false
}

/// Some line of `s`, without the white space at its two ends, is `wanted`.
pub open spec fn has_trimmed(s: Seq<char>, wanted: Seq<char>) -> bool {
    exists|i: int| 0 <= i < lines_of(s).len() && trimmed(#[trigger] lines_of(s)[i]) == wanted
}

/// Whether some line of `s`, without the white space at its two ends, is `wanted`.
pub fn has_trimmed_line(s: &str, wanted: &str) -> (r: bool)
    ensures
        r == has_trimmed(s@, wanted@),
{
    let lines = split_lines(&chars_of(s));
    let wanted_chars = chars_of(wanted);
    let mut i: usize = 0;
    while i < lines.len()
        invariant
            i <= lines.len(),
            wanted_chars@ == wanted@,
            lines@.len() == lines_of(s@).len(),
            forall|j: int| 0 <= j < lines@.len() ==> (#[trigger] lines@[j])@ == lines_of(s@)[j],
            forall|j: int| 0 <= j < i ==> trimmed(#[trigger] lines_of(s@)[j]) != wanted@,
        decreases lines.len() - i,
    {
        if same_chars(&trim_chars(&lines[i]), &wanted_chars) {
            assert(trimmed(lines_of(s@)[i as int]) == wanted@);
            return true;
        }
        i = i + 1;
    }
    false
}

/// Copies of `parts`.
pub fn strings(parts: &[&str]) -> (r: Vec<String>)
    ensures
        texts_of(r@) == parts@.map_values(|p: &str| p@),
{
    let mut r: Vec<String> = Vec::new();
    let mut i: usize = 0;
    while i < parts.len()
        invariant
            i <= parts@.len(),
            r@.len() == i,
            forall|j: int| 0 <= j < i ==> (#[trigger] r@[j])@ == parts@[j]@,
        decreases parts@.len() - i,
    {
        r.push(parts[i].to_owned());
        i = i + 1;
    }
    assert(texts_of(r@) =~= parts@.map_values(|p: &str| p@));
    r
}

/// `s` without the white space at its two ends, where there is an `s`.
pub fn trim_optional(s: &Option<String>) -> (r: Option<String>)
    ensures
        text_of(r) == trimmed_optional(text_of(*s)),
{
    match s {
        Some(s) => Some(trim(s.as_str())),
        None => None,
    }
}

/// `s` without the white space at its two ends, where there is an `s`.
pub open spec fn trimmed_optional(s: Option<Seq<char>>) -> Option<Seq<char>> {
    match s {
        Some(s) => Some(trimmed(s)),
        None => None,
    }
}

/// From `from` on, `index_from` gives the first place of `c`.
proof fn lemma_index_from(s: Seq<char>, c: char, from: int)
    requires
        0 <= from <= s.len(),
    ensures
        from <= index_from(s, c, from) <= s.len(),
        index_from(s, c, from) < s.len() ==> s[index_from(s, c, from)] == c,
        forall|i: int| from <= i < index_from(s, c, from) ==> s[i] != c,
    decreases s.len() - from,
{
    if from < s.len() && s[from] != c {
        lemma_index_from(s, c, from + 1);
    }
}

/// Looking for `c` behind the first `k` characters is looking for it in the rest.
proof fn lemma_index_from_skip(s: Seq<char>, c: char, k: int, from: int)
    requires
        0 <= k,
        0 <= from,
        k + from <= s.len(),
    ensures
        index_from(s, c, k + from) == k + index_from(s.skip(k), c, from),
    decreases s.len() - from,
{
    if k + from < s.len() && s[k + from] != c {
        lemma_index_from_skip(s, c, k, from + 1);
    }
}

} // verus!
