//! What holds of reading text: white space, lines, parts, numbers, and the order of texts.
use vstd::prelude::*;

#[allow(unused_imports)]
use crate::number::{byte_value, decimal, decimal_value, digit, hexadecimal, is_digit};
#[allow(unused_imports)]
use crate::order::{are_sorted_texts, before, is_stable_sort, with_key, Keyed};
#[allow(unused_imports)]
use crate::text::{
    behind_last, blank, has_part, has_trimmed, index_from, lemma_trimmed_before,
    lemma_trimmed_behind, lines_of, part_at, str_text_of, text_of, texts_of, trimmed,
    trimmed_optional, white_space,
};

verus! {

/// The white space of ASCII is the space and the five characters from the tab to the carriage
/// return; beyond ASCII it is what Unicode lists.
pub proof fn white_space_is_listed(c: char)
    ensures
        c as int <= 127 ==> (white_space(c) <==> c == ' ' || 9 <= c as int <= 13),
        c as int > 127 ==> (white_space(c) <==> {
            ||| c as int == 0x85 || c as int == 0xa0 || c as int == 0x1680
            ||| 0x2000 <= c as int <= 0x200a
            ||| c as int == 0x2028 || c as int == 0x2029 || c as int == 0x202f
            ||| c as int == 0x205f || c as int == 0x3000
        }),
{
}

/// Trimming takes the white space at both ends and nothing else: what starts and ends with other
/// characters is left, and of nothing but white space nothing is left.
pub proof fn trimming_takes_white_space_at_both_ends(
    head: Seq<char>,
    s: Seq<char>,
    tail: Seq<char>,
)
    requires
        forall|i: int| 0 <= i < head.len() ==> white_space(#[trigger] head[i]),
        forall|i: int| 0 <= i < tail.len() ==> white_space(#[trigger] tail[i]),
        s.len() > 0 ==> !white_space(s[0]) && !white_space(s[s.len() - 1]),
    ensures
        trimmed(head + s + tail) == s,
        trimmed_optional(Some(head + s + tail)) == Some(s),
        trimmed_optional(None::<Seq<char>>) is None,
{
    lemma_trimmed_behind(head + s, tail);
    lemma_trimmed_before(head, s);
    assert(trimmed(s) =~= s);
}

/// A text is blank where all of it is white space, which is where trimming leaves nothing of it.
pub proof fn blank_texts_are_trimmed_away(s: Seq<char>)
    ensures
        blank(s) <==> forall|i: int| 0 <= i < s.len() ==> white_space(#[trigger] s[i]),
        blank(s) ==> trimmed(s).len() == 0,
        s.len() > 0 && !white_space(s[0]) ==> trimmed(s).len() > 0 && trimmed(s)[0] == s[0],
    decreases s.len(),
{
    if blank(s) {
        lemma_trimmed_before(s, Seq::empty());
        assert(s + Seq::<char>::empty() =~= s);
    } else if s.len() > 0 && !white_space(s[0]) && white_space(s.last()) {
        assert(s.len() > 1);
        blank_texts_are_trimmed_away(s.drop_last());
    }
}

/// The first line feed is found where it is.
proof fn lemma_found(s: Seq<char>, c: char, from: int, at: int)
    requires
        0 <= from <= at < s.len(),
        s[at] == c,
        forall|i: int| from <= i < at ==> s[i] != c,
    ensures
        index_from(s, c, from) == at,
    decreases at - from,
{
    if from < at {
        lemma_found(s, c, from + 1, at);
    }
}

/// What is not there is not found.
proof fn lemma_not_found(s: Seq<char>, c: char, from: int)
    requires
        0 <= from <= s.len(),
        forall|i: int| from <= i < s.len() ==> s[i] != c,
    ensures
        index_from(s, c, from) == s.len(),
    decreases s.len() - from,
{
    if from < s.len() {
        lemma_not_found(s, c, from + 1);
    }
}

/// A character is found at its first place, and the end of the text stands for one that is not
/// there.
pub proof fn characters_are_found_where_they_come_first(head: Seq<char>, c: char, tail: Seq<char>)
    requires
        !head.contains(c),
    ensures
        index_from(head + seq![c] + tail, c, 0) == head.len(),
        index_from(head, c, 0) == head.len(),
{
    let s = head + seq![c] + tail;
    assert forall|i: int| 0 <= i < head.len() implies s[i] != c && head[i] != c by {
        assert(head.contains(head[i]));
    }
    lemma_found(s, c, 0, head.len() as int);
    lemma_not_found(head, c, 0);
}

/// Lines end with a line feed or with a carriage return and a line feed; the last line needs no
/// end, and no text has no lines. Other carriage returns are part of their lines.
pub proof fn lines_end_with_line_feeds(line: Seq<char>, rest: Seq<char>)
    requires
        !line.contains('\n'),
    ensures
        line.len() == 0 || line.last() != '\r' ==> lines_of(line + seq!['\n'] + rest) == seq![line]
            + lines_of(rest),
        lines_of(line + seq!['\r', '\n'] + rest) == seq![line] + lines_of(rest),
        line.len() > 0 ==> lines_of(line) == seq![line],
        lines_of(Seq::empty()) == Seq::<Seq<char>>::empty(),
{
    let fed = line + seq!['\n'] + rest;
    characters_are_found_where_they_come_first(line, '\n', rest);
    assert(fed.take(line.len() as int) =~= line);
    assert(fed.skip(line.len() as int + 1) =~= rest);
    let returned = line.push('\r');
    let both = line + seq!['\r', '\n'] + rest;
    assert(both =~= returned + seq!['\n'] + rest);
    assert(!returned.contains('\n')) by {
        assert forall|i: int| 0 <= i < returned.len() implies returned[i] != '\n' by {
            if i < line.len() {
                assert(line.contains(line[i]));
            }
        }
    }
    characters_are_found_where_they_come_first(returned, '\n', rest);
    assert(both.take(returned.len() as int) =~= returned);
    assert(returned.drop_last() =~= line);
    assert(both.skip(returned.len() as int + 1) =~= rest);
}

/// A text has a part exactly where it is something, the part, and something else.
pub proof fn parts_stand_between(s: Seq<char>, part: Seq<char>)
    ensures
        has_part(s, part) <==> exists|head: Seq<char>, tail: Seq<char>|
            s == #[trigger] (head + part + tail),
{
    if has_part(s, part) {
        let i = choose|i: int| #[trigger] part_at(s, part, i);
        assert(s =~= s.take(i) + part + s.skip(i + part.len()));
    }
    if exists|head: Seq<char>, tail: Seq<char>| s == #[trigger] (head + part + tail) {
        let (head, tail) = choose|head: Seq<char>, tail: Seq<char>|
            s == #[trigger] (head + part + tail);
        assert(s.subrange(head.len() as int, head.len() as int + part.len()) =~= part);
        assert(part_at(s, part, head.len() as int));
    }
}

/// What stands behind the last separator is what holds none; without a separator that is all.
pub proof fn behind_the_last_is_what_holds_none(head: Seq<char>, c: char, tail: Seq<char>)
    requires
        !tail.contains(c),
    ensures
        behind_last(head + seq![c] + tail, c) == tail,
        behind_last(tail, c) == tail,
    decreases tail.len(),
{
    let s = head + seq![c] + tail;
    if tail.len() == 0 {
        assert(s.last() == c);
        assert(behind_last(s, c) =~= tail);
        assert(behind_last(tail, c) =~= tail);
    } else {
        let less = tail.drop_last();
        assert(tail.contains(tail.last()));
        assert forall|i: int| 0 <= i < less.len() implies less[i] != c by {
            assert(tail.contains(tail[i]));
        }
        behind_the_last_is_what_holds_none(head, c, less);
        assert(s.drop_last() =~= head + seq![c] + less);
        assert(s.last() == tail.last());
        assert(behind_last(s, c) =~= tail);
        assert(behind_last(tail, c) =~= tail);
    }
}

/// Some line is the wanted one once trimmed, exactly where the text says so.
pub proof fn trimmed_lines_are_searched(s: Seq<char>, wanted: Seq<char>)
    ensures
        has_trimmed(s, wanted) <==> exists|line: Seq<char>| #[trigger]
            lines_of(s).contains(line) && trimmed(line) == wanted,
{
    if has_trimmed(s, wanted) {
        let i = choose|i: int| 0 <= i < lines_of(s).len() && trimmed(#[trigger] lines_of(s)[i]) == wanted;
        assert(lines_of(s).contains(lines_of(s)[i]));
    }
    if exists|line: Seq<char>| #[trigger] lines_of(s).contains(line) && trimmed(line) == wanted {
        let line = choose|line: Seq<char>| #[trigger]
            lines_of(s).contains(line) && trimmed(line) == wanted;
        let i = choose|i: int| 0 <= i < lines_of(s).len() && lines_of(s)[i] == line;
        assert(trimmed(lines_of(s)[i]) == wanted);
    }
}

/// An optional string is its text, or none.
pub proof fn optional_strings_are_their_texts(s: Option<String>, t: Option<&str>)
    ensures
        s is Some <==> text_of(s) is Some,
        s matches Some(string) ==> text_of(s) == Some(string@),
        t is Some <==> str_text_of(t) is Some,
        t matches Some(string) ==> str_text_of(t) == Some(string@),
{
}

/// Digits are the characters from 0 to 9, and behind them from a to f.
pub proof fn digits_are_in_order(d: int)
    requires
        0 <= d < 16,
    ensures
        d < 10 ==> digit(d) as int == '0' as int + d,
        d >= 10 ==> digit(d) as int == 'a' as int + (d - 10),
{
}

/// A byte is written with its digits, the first of which is no zero unless it is alone.
pub proof fn bytes_are_written_with_their_digits(n: u8)
    ensures
        n < 10 ==> decimal(n as nat) == seq![digit(n as int)],
        10 <= n < 100 ==> decimal(n as nat) == seq![digit(n as int / 10), digit(n as int % 10)],
        100 <= n ==> decimal(n as nat) == seq![
            digit(n as int / 100),
            digit(n as int / 10 % 10),
            digit(n as int % 10),
        ],
{
    reveal_with_fuel(decimal, 4);
    let m = n as nat;
    if 10 <= n < 100 {
        assert(decimal(m) =~= seq![digit(n as int / 10), digit(n as int % 10)]);
    }
    if 100 <= n {
        assert(m / 10 / 10 == m / 100);
        assert(decimal(m) =~= seq![
            digit(n as int / 100),
            digit(n as int / 10 % 10),
            digit(n as int % 10),
        ]);
    }
}

/// Division gives the quotient and the rest.
proof fn lemma_quotient_and_rest(x: int, by: int, quotient: int, rest: int)
    requires
        by > 0,
        0 <= rest < by,
        x == quotient * by + rest,
    ensures
        x / by == quotient,
        x % by == rest,
{
    vstd::arithmetic::div_mod::lemma_fundamental_div_mod_converse(x, by, quotient, rest);
}

/// The four hexadecimal digits of a number have its value, the highest first.
pub proof fn hexadecimal_digits_have_the_value(n: u16, a: int, b: int, c: int, d: int)
    requires
        0 <= a < 16,
        0 <= b < 16,
        0 <= c < 16,
        0 <= d < 16,
        n == a * 4096 + b * 256 + c * 16 + d,
    ensures
        hexadecimal(n) == seq![digit(a), digit(b), digit(c), digit(d)],
{
    let x = n as int;
    let (high, middle) = (a * 16 + b, a * 256 + b * 16 + c);
    lemma_quotient_and_rest(x, 16, middle, d);
    lemma_quotient_and_rest(middle, 16, high, c);
    lemma_quotient_and_rest(high, 16, a, b);
    lemma_quotient_and_rest(x, 256, high, c * 16 + d);
    lemma_quotient_and_rest(x, 4096, a, b * 256 + c * 16 + d);
}

/// What more digits write is at least as much.
proof fn lemma_one_more_digit(s: Seq<char>, c: char)
    ensures
        decimal_value(s.push(c)) == decimal_value(s) * 10 + (c as int - 48) as nat,
{
    assert(s.push(c).drop_last() =~= s);
}

/// A byte is read digit by digit: one more digit makes it ten times as much and the digit, as long
/// as that is a byte; no byte is read from anything else, nor from nothing. One plus sign in front
/// makes no difference.
pub proof fn bytes_are_read_digit_by_digit(s: Seq<char>, c: char)
    ensures
        byte_value(Seq::empty()) is None,
        '0' <= c <= '9' ==> byte_value(seq![c]) == Some((c as int - 48) as u8),
        !('0' <= c <= '9') ==> byte_value(s.push(c)) is None,
        '0' <= c <= '9' ==> (byte_value(s) matches Some(value) ==> byte_value(s.push(c)) == if value
            * 10 + (c as int - 48) <= 255 {
            Some((value * 10 + (c as int - 48)) as u8)
        } else {
            None::<u8>
        }),
        s.len() > 0 && s[0] != '+' ==> byte_value(seq!['+'] + s) == byte_value(s),
        byte_value(seq!['+', '+'] + s) is None,
{
    lemma_one_more_digit(Seq::empty(), c);
    assert(Seq::<char>::empty().push(c) =~= seq![c]);
    let more = s.push(c);
    if more[0] == '+' {
        if s.len() > 0 {
            assert(more.drop_first() =~= s.drop_first().push(c));
            lemma_one_more_digit(s.drop_first(), c);
            assert(s.drop_first().push(c).last() == c);
            assert(s.drop_first().push(c)[s.drop_first().len() as int] == c);
            if byte_value(s) is Some {
                assert forall|i: int|
                    0 <= i < s.drop_first().push(c).len() && '0' <= c <= '9' implies is_digit(
                    #[trigger] s.drop_first().push(c)[i],
                ) by {
                    if i < s.drop_first().len() {
                        assert(is_digit(s.drop_first()[i]));
                    }
                }
            }
        } else {
            assert(more.drop_first() =~= Seq::empty());
        }
    } else {
        lemma_one_more_digit(s, c);
        assert(more[s.len() as int] == c);
        if byte_value(s) is Some {
            assert forall|i: int| 0 <= i < more.len() && '0' <= c <= '9' implies is_digit(
                #[trigger] more[i],
            ) by {
                if i < s.len() {
                    assert(is_digit(s[i]));
                }
            }
        }
    }
    assert((seq!['+'] + s).drop_first() =~= s);
    let signs = seq!['+', '+'] + s;
    assert(signs.drop_first()[0] == '+');
}

/// Texts are ordered by the first character in which they differ, and a text stands before what it
/// is the start of.
pub proof fn texts_are_ordered_by_their_first_difference(
    common: Seq<char>,
    a: char,
    b: char,
    rest: Seq<char>,
    other: Seq<char>,
)
    ensures
        a != b ==> (before(common + seq![a] + rest, common + seq![b] + other) <==> a < b),
        before(common, common + seq![a] + rest),
        !before(common + seq![a] + rest, common),
        !before(common, common),
    decreases common.len(),
{
    let (x, y) = (common + seq![a] + rest, common + seq![b] + other);
    if common.len() > 0 {
        let less = common.drop_first();
        texts_are_ordered_by_their_first_difference(less, a, b, rest, other);
        assert(x.drop_first() =~= less + seq![a] + rest);
        assert(y.drop_first() =~= less + seq![b] + other);
        assert(x[0] == common[0] && y[0] == common[0]);
    } else {
        assert(x[0] == a && y[0] == b);
    }
}

/// Strings are ordered as the texts that they are.
pub proof fn strings_are_ordered_as_texts(s: String)
    ensures
        s.key() == s@,
{
}

/// In a sorted list nothing stands before what came earlier; it holds the items of the list that was
/// sorted, and items with one key in the order that they had.
pub proof fn sorted_lists_are_in_order<T: Keyed>(
    s: Seq<T>,
    sorted: Seq<T>,
    i: int,
    j: int,
    key: Seq<char>,
)
    requires
        is_stable_sort(s, sorted),
    ensures
        0 <= i < j < sorted.len() ==> !before(sorted[j].key(), sorted[i].key()),
        sorted.filter(|x: T| x.key() == key) == s.filter(|x: T| x.key() == key),
{
    let having = |x: T| x.key() == key;
    assert(having =~= crate::order::has_key::<T>(key));
    assert(with_key(sorted, key) == with_key(s, key));
}

/// Sorted texts stand in their order, and each as often as in the list that was sorted.
pub proof fn sorted_texts_are_in_order(
    from: Seq<Seq<char>>,
    sorted: Seq<String>,
    i: int,
    j: int,
    t: Seq<char>,
)
    requires
        are_sorted_texts(from, sorted),
    ensures
        0 <= i < j < sorted.len() ==> !before(sorted[j]@, sorted[i]@),
        texts_of(sorted).filter(|x: Seq<char>| x == t) == from.filter(|x: Seq<char>| x == t),
{
    if 0 <= i < j < sorted.len() {
        assert(!before(sorted[j].key(), sorted[i].key()));
    }
    let same = |x: Seq<char>| x == t;
    assert(same =~= crate::order::is_the_text(t));
    assert(texts_of(sorted).filter(crate::order::is_the_text(t)) == from.filter(
        crate::order::is_the_text(t),
    ));
}

} // verus!
