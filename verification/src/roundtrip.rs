//! The way back from the formatted text: where the formatter has nothing to
//! write in, taking the spaces out of what it shows gives the expression.

use vstd::prelude::*;
use crate::display::{
    formatted, formatted_number, formatted_segments, grouped, lemma_point_index, point_index,
    spaced, times_after_group, times_before_group, with_last_space,
};
use crate::operations::{lemma_number_end, number_end};
use crate::spacing::{
    kept, lemma_tidied_without_spaces, lemma_without_spaces_concat, lemma_without_spaces_push,
    lemma_without_spaces_same, no_space, tidied, without_spaces,
};
use crate::text::{is_digit, is_terminator, replaced};

verus! {

/// Between `a` and the `b` that follows it the formatter writes a character
/// in: a zero before a decimal point that follows a terminator, a one inside
/// an empty pair of parentheses, a multiplication sign between a group and
/// the digit or the group next to it.
pub open spec fn is_written_between(a: char, b: char) -> bool {
    ||| is_terminator(a) && b == '.'
    ||| a == '(' && b == ')'
    ||| a == ')' && b == '('
    ||| is_digit(a) && b == '('
    ||| a == ')' && is_digit(b)
}

/// An expression without spaces in which the formatter has nothing to write
/// in.
pub open spec fn is_plain(raw: Seq<char>) -> bool {
    &&& no_space(raw)
    &&& forall|i: int|
        0 <= i && i + 1 < raw.len() ==> !is_written_between(#[trigger] raw[i], raw[i + 1])
}

/// `pattern` stands somewhere in `s`.
pub open spec fn occurs(s: Seq<char>, pattern: Seq<char>) -> bool {
    exists|i: int|
        0 <= i && i + pattern.len() <= s.len() && #[trigger] s.subrange(i, i + pattern.len())
            == pattern
}

/// No decimal point of `s` follows a space.
pub open spec fn no_point_after_space(s: Seq<char>) -> bool {
    forall|j: int| 0 <= j && j + 1 < s.len() ==> !(#[trigger] s[j] == ' ' && s[j + 1] == '.')
}

/// No decimal point of `raw` follows a terminator.
pub open spec fn points_follow_numbers(raw: Seq<char>) -> bool {
    forall|i: int|
        0 <= i && i + 1 < raw.len() && raw[i + 1] == '.' ==> !is_terminator(#[trigger] raw[i])
}

/// Where `from` stands nowhere in `s`, there is nothing to replace.
pub proof fn lemma_replaced_nowhere(s: Seq<char>, from: Seq<char>, to: Seq<char>)
    requires
        !occurs(s, from),
    ensures
        replaced(s, from, to) == s,
    decreases s.len(),
{
    if from.len() == 0 || s.len() < from.len() {
    } else {
        let start = 0int;
        assert(s.subrange(start, start + from.len()) != from);
        assert(s.take(from.len() as int) == s.subrange(start, start + from.len()));
        if occurs(s.skip(1), from) {
            let i = choose|i: int|
                0 <= i && i + from.len() <= s.skip(1).len() && #[trigger] s.skip(1).subrange(
                    i,
                    i + from.len(),
                ) == from;
            assert(s.skip(1).subrange(i, i + from.len()) == s.subrange(
                i + 1,
                i + 1 + from.len(),
            ));
        }
        lemma_replaced_nowhere(s.skip(1), from, to);
        assert(seq![s[0]] + s.skip(1) == s);
    }
}

/// Where no digit stands before a space and an opening parenthesis, no
/// product is written out before a group.
pub proof fn lemma_times_before_group_nowhere(s: Seq<char>)
    requires
        forall|i: int|
            0 <= i && i + 2 < s.len() ==> !(is_digit(#[trigger] s[i]) && s[i + 1] == ' ' && s[i
                + 2] == '('),
    ensures
        times_before_group(s) == s,
    decreases s.len(),
{
    if s.len() >= 3 {
        assert(!(is_digit(s[0]) && s[1] == ' ' && s[2] == '('));
        let rest = s.skip(1);
        assert forall|i: int| 0 <= i && i + 2 < rest.len() implies !(is_digit(#[trigger] rest[i])
            && rest[i + 1] == ' ' && rest[i + 2] == '(') by {
            assert(rest[i] == s[i + 1]);
            assert(!(is_digit(s[i + 1]) && s[i + 1 + 1] == ' ' && s[i + 1 + 2] == '('));
        }
        lemma_times_before_group_nowhere(rest);
        assert(seq![s[0]] + rest == s);
    }
}

/// Where no digit stands after a closing parenthesis and a space, no
/// product is written out after a group.
pub proof fn lemma_times_after_group_nowhere(s: Seq<char>)
    requires
        forall|i: int|
            0 <= i && i + 2 < s.len() ==> !(#[trigger] s[i] == ')' && s[i + 1] == ' ' && is_digit(
                s[i + 2],
            )),
    ensures
        times_after_group(s) == s,
    decreases s.len(),
{
    if s.len() >= 3 {
        assert(!(s[0] == ')' && s[1] == ' ' && is_digit(s[2])));
        let rest = s.skip(1);
        assert forall|i: int| 0 <= i && i + 2 < rest.len() implies !(#[trigger] rest[i] == ')'
            && rest[i + 1] == ' ' && is_digit(rest[i + 2])) by {
            assert(rest[i] == s[i + 1]);
            assert(!(s[i + 1] == ')' && s[i + 1 + 1] == ' ' && is_digit(s[i + 1 + 2])));
        }
        lemma_times_after_group_nowhere(rest);
        assert(seq![s[0]] + rest == s);
    }
}

/// A character of `s` that is no space has its place in `s` without spaces:
/// after the characters before it that are no spaces either.
pub proof fn lemma_without_spaces_place(s: Seq<char>, i: int)
    requires
        0 <= i < s.len(),
    ensures
        without_spaces(s.take(i + 1)) == without_spaces(s.take(i)) + kept(s[i]),
        without_spaces(s) == without_spaces(s.take(i + 1)) + without_spaces(s.skip(i + 1)),
        s[i] != ' ' ==> {
            &&& without_spaces(s.take(i)).len() < without_spaces(s).len()
            &&& without_spaces(s)[without_spaces(s.take(i)).len() as int] == s[i]
        },
{
    lemma_without_spaces_push(s.take(i), s[i]);
    assert(s.take(i).push(s[i]) == s.take(i + 1));
    lemma_without_spaces_concat(s.take(i + 1), s.skip(i + 1));
    assert(s.take(i + 1) + s.skip(i + 1) == s);
}

/// Two characters of `s` that are no spaces, with nothing or one space
/// between them, stand next to each other in `s` without spaces.
pub proof fn lemma_neighbours(s: Seq<char>, i: int, j: int)
    requires
        0 <= i,
        j < s.len(),
        s[i] != ' ',
        s[j] != ' ',
        j == i + 1 || (j == i + 2 && s[i + 1] == ' '),
    ensures
        exists|k: int|
            0 <= k && k + 1 < without_spaces(s).len() && #[trigger] without_spaces(s)[k] == s[i]
                && without_spaces(s)[k + 1] == s[j],
{
    let k = without_spaces(s.take(i)).len() as int;
    lemma_without_spaces_place(s, i);
    lemma_without_spaces_place(s, j);
    if j == i + 2 {
        lemma_without_spaces_place(s, i + 1);
        assert(without_spaces(s.take(i + 1)) + Seq::<char>::empty() == without_spaces(
            s.take(i + 1),
        ));
    }
    assert(without_spaces(s.take(j)).len() == k + 1);
    assert(without_spaces(s)[k] == s[i]);
}

/// The digits of an integer part in groups: the first and the last are in
/// their places, and no decimal point has come in.
pub proof fn lemma_grouped_shape(digits: Seq<char>)
    requires
        forall|i: int| 0 <= i < digits.len() ==> digits[i] != '.',
    ensures
        forall|i: int| 0 <= i < grouped(digits).len() ==> grouped(digits)[i] != '.',
        digits.len() == 0 ==> grouped(digits).len() == 0,
        digits.len() > 0 ==> {
            &&& grouped(digits).len() > 0
            &&& grouped(digits)[0] == digits[0]
            &&& grouped(digits).last() == digits.last()
        },
    decreases digits.len(),
{
    if digits.len() > 3 {
        let head = digits.take(digits.len() - 3);
        lemma_grouped_shape(head);
    }
}

/// A number without spaces as the display shows it: it starts and ends as
/// typed, and no decimal point follows a space.
pub proof fn lemma_number_shape(t: Seq<char>)
    requires
        no_space(t),
    ensures
        no_point_after_space(formatted_number(t)),
        t.len() == 0 ==> formatted_number(t).len() == 0,
        t.len() > 0 ==> {
            &&& formatted_number(t).len() > 0
            &&& formatted_number(t)[0] == t[0]
            &&& formatted_number(t).last() == t.last()
        },
{
    lemma_point_index(t);
    let d = point_index(t);
    let whole = t.take(d);
    lemma_grouped_shape(whole);
    let shown = formatted_number(t);
    assert forall|j: int| 0 <= j && j + 1 < shown.len() implies !(#[trigger] shown[j] == ' '
        && shown[j + 1] == '.') by {
        if j + 1 < grouped(whole).len() {
            assert(shown[j + 1] == grouped(whole)[j + 1]);
        } else if j + 1 == grouped(whole).len() {
            assert(shown[j] == grouped(whole).last());
            assert(whole.last() == t[d - 1]);
        } else {
            assert(shown[j] == t.skip(d)[j - grouped(whole).len()]);
        }
    }
    if t.len() > 0 {
        if d > 0 {
            assert(whole[0] == t[0]);
        } else {
            assert(shown[0] == t.skip(d)[0]);
        }
        if d < t.len() {
            assert(shown.last() == t.skip(d).last());
        } else {
            assert(whole.last() == t.last());
            assert(shown == grouped(whole));
        }
    }
}

/// An expression cut and spaced, in which no decimal point follows a
/// terminator: no decimal point of the text follows a space, and the text
/// starts with a decimal point only where the expression does.
pub proof fn lemma_segments_shape(raw: Seq<char>)
    requires
        no_space(raw),
        points_follow_numbers(raw),
    ensures
        no_point_after_space(formatted_segments(raw)),
        formatted_segments(raw).len() > 0 && formatted_segments(raw)[0] == '.' ==> raw.len() > 0
            && raw[0] == '.',
    decreases raw.len(),
{
    let n = number_end(raw);
    let shown = formatted_segments(raw);
    if 0 <= n < raw.len() {
        lemma_number_end(raw);
        let number = formatted_number(raw.take(n));
        let mark = spaced(raw[n]);
        let tail = raw.skip(n + 1);
        let rest = formatted_segments(tail);
        lemma_number_shape(raw.take(n));
        assert forall|i: int| 0 <= i && i + 1 < tail.len() && tail[i + 1] == '.' implies
            !is_terminator(#[trigger] tail[i]) by {
            assert(tail[i] == raw[n + 1 + i]);
            assert(raw[n + 1 + i + 1] == '.');
        }
        lemma_segments_shape(tail);
        let a = number.len() as int;
        let b = a + mark.len();
        assert(mark.len() >= 2);
        assert forall|j: int| 0 <= j && j + 1 < shown.len() implies !(#[trigger] shown[j] == ' '
            && shown[j + 1] == '.') by {
            if j + 1 < a {
                assert(shown[j] == number[j] && shown[j + 1] == number[j + 1]);
            } else if j + 1 < b {
                assert(shown[j + 1] == mark[j + 1 - a]);
            } else if j + 1 == b {
                assert(shown[j + 1] == rest[0]);
                if rest[0] == '.' {
                    assert(tail[0] == raw[n + 1]);
                    assert(is_terminator(raw[n]));
                }
            } else {
                assert(shown[j] == rest[j - b] && shown[j + 1] == rest[j - b + 1]);
            }
        }
        if n > 0 {
            assert(shown[0] == number[0]);
            assert(raw.take(n)[0] == raw[0]);
        } else {
            assert(shown[0] == mark[0]);
        }
    } else {
        lemma_number_shape(raw);
    }
}

/// Where no decimal point follows a space, none does once two spaces have
/// become one, and the text starts as it did.
pub proof fn lemma_collapsed_shape(s: Seq<char>)
    requires
        no_point_after_space(s),
    ensures
        no_point_after_space(replaced(s, seq![' ', ' '], seq![' '])),
        replaced(s, seq![' ', ' '], seq![' ']).len() > 0 ==> s.len() > 0 && replaced(
            s,
            seq![' ', ' '],
            seq![' '],
        )[0] == s[0],
    decreases s.len(),
{
    let two = seq![' ', ' '];
    let one = seq![' '];
    let out = replaced(s, two, one);
    if s.len() < 2 {
    } else if s.take(2) == two {
        let rest = s.skip(2);
        assert(s.take(2)[0] == ' ' && s.take(2)[1] == ' ');
        assert forall|j: int| 0 <= j && j + 1 < rest.len() implies !(#[trigger] rest[j] == ' '
            && rest[j + 1] == '.') by {
            assert(rest[j] == s[j + 2]);
            assert(s[j + 2 + 1] == rest[j + 1]);
        }
        lemma_collapsed_shape(rest);
        let inner = replaced(rest, two, one);
        assert(out == one + inner);
        assert forall|j: int| 0 <= j && j + 1 < out.len() implies !(#[trigger] out[j] == ' '
            && out[j + 1] == '.') by {
            if j == 0 {
                assert(out[1] == inner[0]);
                assert(inner[0] == rest[0]);
                assert(rest[0] == s[2]);
                assert(s[1] == ' ');
            } else {
                assert(out[j] == inner[j - 1] && out[j + 1] == inner[j - 1 + 1]);
            }
        }
    } else {
        let rest = s.skip(1);
        assert forall|j: int| 0 <= j && j + 1 < rest.len() implies !(#[trigger] rest[j] == ' '
            && rest[j + 1] == '.') by {
            assert(rest[j] == s[j + 1]);
            assert(s[j + 1 + 1] == rest[j + 1]);
        }
        lemma_collapsed_shape(rest);
        let inner = replaced(rest, two, one);
        assert(out == seq![s[0]] + inner);
        assert forall|j: int| 0 <= j && j + 1 < out.len() implies !(#[trigger] out[j] == ' '
            && out[j + 1] == '.') by {
            if j == 0 {
                assert(out[1] == inner[0]);
                assert(inner[0] == rest[0]);
                assert(rest[0] == s[1]);
            } else {
                assert(out[j] == inner[j - 1] && out[j + 1] == inner[j - 1 + 1]);
            }
        }
    }
}

/// In the tidied text of a plain expression no decimal point follows a space.
pub proof fn lemma_tidied_shape(raw: Seq<char>)
    requires
        is_plain(raw),
    ensures
        no_point_after_space(tidied(formatted_segments(raw))),
{
    assert forall|i: int| 0 <= i && i + 1 < raw.len() && raw[i + 1] == '.' implies !is_terminator(
        #[trigger] raw[i],
    ) by {
        assert(!is_written_between(raw[i], raw[i + 1]));
    }
    lemma_segments_shape(raw);
    let spaced_text = formatted_segments(raw);
    let ended = with_last_space(spaced_text);
    assert forall|j: int| 0 <= j && j + 1 < ended.len() implies !(#[trigger] ended[j] == ' '
        && ended[j + 1] == '.') by {
        if j + 1 < spaced_text.len() {
            assert(ended[j] == spaced_text[j] && ended[j + 1] == spaced_text[j + 1]);
        }
    }
    lemma_collapsed_shape(ended);
}

/// For a plain expression the formatter only sets spaces: it writes no
/// character in, and what it shows, read without the spaces, is the
/// expression as typed.
pub proof fn lemma_format_round_trip(raw: Seq<char>)
    requires
        is_plain(raw),
    ensures
        formatted(raw) == tidied(formatted_segments(raw)),
        without_spaces(formatted(raw)) == raw,
{
    let t = tidied(formatted_segments(raw));
    lemma_tidied_without_spaces(raw);
    lemma_without_spaces_same(raw);
    lemma_tidied_shape(raw);
    assert(!occurs(t, seq![' ', '.'])) by {
        if occurs(t, seq![' ', '.']) {
            let i = choose|i: int|
                0 <= i && i + 2 <= t.len() && #[trigger] t.subrange(i, i + 2) == seq![' ', '.'];
            assert(t.subrange(i, i + 2)[0] == t[i] && t.subrange(i, i + 2)[1] == t[i + 1]);
        }
    }
    lemma_replaced_nowhere(t, seq![' ', '.'], seq![' ', '0', '.']);
    assert(!occurs(t, seq!['(', '.'])) by {
        if occurs(t, seq!['(', '.']) {
            let i = choose|i: int|
                0 <= i && i + 2 <= t.len() && #[trigger] t.subrange(i, i + 2) == seq!['(', '.'];
            assert(t.subrange(i, i + 2)[0] == t[i] && t.subrange(i, i + 2)[1] == t[i + 1]);
            lemma_plain_neighbours(raw, t, i, i + 1);
        }
    }
    lemma_replaced_nowhere(t, seq!['(', '.'], seq!['(', '0', '.']);
    assert(!occurs(t, seq![')', ' ', '('])) by {
        if occurs(t, seq![')', ' ', '(']) {
            let i = choose|i: int|
                0 <= i && i + 3 <= t.len() && #[trigger] t.subrange(i, i + 3) == seq![
                    ')',
                    ' ',
                    '(',
                ];
            assert(t.subrange(i, i + 3)[0] == t[i] && t.subrange(i, i + 3)[1] == t[i + 1]
                && t.subrange(i, i + 3)[2] == t[i + 2]);
            lemma_plain_neighbours(raw, t, i, i + 2);
        }
    }
    lemma_replaced_nowhere(t, seq![')', ' ', '('], seq![')', ' ', 'x', ' ', '(']);
    assert(!occurs(t, seq!['(', ')'])) by {
        if occurs(t, seq!['(', ')']) {
            let i = choose|i: int|
                0 <= i && i + 2 <= t.len() && #[trigger] t.subrange(i, i + 2) == seq!['(', ')'];
            assert(t.subrange(i, i + 2)[0] == t[i] && t.subrange(i, i + 2)[1] == t[i + 1]);
            lemma_plain_neighbours(raw, t, i, i + 1);
        }
    }
    lemma_replaced_nowhere(t, seq!['(', ')'], seq!['(', '1', ')']);
    assert forall|i: int| 0 <= i && i + 2 < t.len() implies !(is_digit(#[trigger] t[i]) && t[i
        + 1] == ' ' && t[i + 2] == '(') by {
        if is_digit(t[i]) && t[i + 1] == ' ' && t[i + 2] == '(' {
            lemma_plain_neighbours(raw, t, i, i + 2);
        }
    }
    lemma_times_before_group_nowhere(t);
    assert forall|i: int| 0 <= i && i + 2 < t.len() implies !(#[trigger] t[i] == ')' && t[i + 1]
        == ' ' && is_digit(t[i + 2])) by {
        if t[i] == ')' && t[i + 1] == ' ' && is_digit(t[i + 2]) {
            lemma_plain_neighbours(raw, t, i, i + 2);
        }
    }
    lemma_times_after_group_nowhere(t);
}

/// Two characters that are neighbours in a text whose characters other than
/// spaces are those of a plain expression: the formatter writes nothing in
/// between the two.
pub proof fn lemma_plain_neighbours(raw: Seq<char>, t: Seq<char>, i: int, j: int)
    requires
        is_plain(raw),
        without_spaces(t) == raw,
        0 <= i,
        j < t.len(),
        t[i] != ' ',
        t[j] != ' ',
        j == i + 1 || (j == i + 2 && t[i + 1] == ' '),
    ensures
        !is_written_between(t[i], t[j]),
{
    lemma_neighbours(t, i, j);
    let k = choose|k: int|
        0 <= k && k + 1 < without_spaces(t).len() && #[trigger] without_spaces(t)[k] == t[i]
            && without_spaces(t)[k + 1] == t[j];
    assert(!is_written_between(raw[k], raw[k + 1]));
}

} // verus!
