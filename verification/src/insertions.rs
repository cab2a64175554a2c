//! What the formatter writes in: wherever an expression is not plain, the
//! formatted text holds more than the expression, so that taking the spaces
//! out does not give the expression back.

use vstd::prelude::*;
use crate::display::{
    formatted, formatted_number, formatted_segments, spaced, times_after_group,
    times_before_group, with_last_space,
};
use crate::operations::{lemma_number_end, number_end};
use crate::roundtrip::{
    is_plain, is_written_between, lemma_format_round_trip, lemma_number_shape,
    lemma_replaced_nowhere, lemma_times_after_group_nowhere, lemma_times_before_group_nowhere,
    occurs,
};
use crate::spacing::{
    lemma_replaced_keeps, lemma_tidied_without_spaces, lemma_times_after_group_keeps,
    lemma_times_before_group_keeps, lemma_without_spaces_concat, lemma_without_spaces_five,
    lemma_without_spaces_holds_none, lemma_without_spaces_same, lemma_without_spaces_three,
    lemma_without_spaces_two, no_space, tidied, without_spaces,
};
use crate::text::{is_digit, is_operator, is_terminator, replaced};

verus! {

/// How many spaces the display sets before `c`.
pub open spec fn leading(c: char) -> int {
    if is_operator(c) || c == '(' {
        1
    } else {
        0
    }
}

/// How many spaces the display sets after `c`.
pub open spec fn trailing(c: char) -> int {
    if is_operator(c) || c == ')' {
        1
    } else {
        0
    }
}

/// In `s` the character `a` stands at `j`, and `b` after it, with `k`
/// spaces and nothing else between the two.
pub open spec fn gap_at(s: Seq<char>, j: int, a: char, k: int, b: char) -> bool {
    &&& 0 <= j
    &&& 0 <= k <= 2
    &&& j + k + 1 < s.len()
    &&& s[j] == a
    &&& s[j + k + 1] == b
    &&& k >= 1 ==> s[j + 1] == ' '
    &&& k >= 2 ==> s[j + 2] == ' '
}

/// Somewhere in `s` the character `a` stands before `b`, with `k` spaces and
/// nothing else between the two.
pub open spec fn has_gap(s: Seq<char>, a: char, k: int, b: char) -> bool {
    exists|j: int| gap_at(s, j, a, k, b)
}

/// A digit stands at `i` before a space and an opening parenthesis.
pub open spec fn digit_before_group_at(s: Seq<char>, i: int) -> bool {
    0 <= i && i + 2 < s.len() && is_digit(s[i]) && s[i + 1] == ' ' && s[i + 2] == '('
}

/// A closing parenthesis stands at `i` before a space and a digit.
pub open spec fn digit_after_group_at(s: Seq<char>, i: int) -> bool {
    0 <= i && i + 2 < s.len() && s[i] == ')' && s[i + 1] == ' ' && is_digit(s[i + 2])
}

/// An expression cut and spaced starts with its first character, after the
/// space that goes before it.
pub proof fn lemma_segments_head(raw: Seq<char>)
    requires
        no_space(raw),
        raw.len() > 0,
    ensures
        formatted_segments(raw).len() > leading(raw[0]),
        formatted_segments(raw)[leading(raw[0])] == raw[0],
        leading(raw[0]) == 1 ==> formatted_segments(raw)[0] == ' ',
{
    lemma_number_end(raw);
    let n = number_end(raw);
    if n < raw.len() {
        lemma_number_shape(raw.take(n));
        let number = formatted_number(raw.take(n));
        let mark = spaced(raw[n]);
        let shown = formatted_segments(raw);
        assert(shown == number + mark + formatted_segments(raw.skip(n + 1)));
        if n == 0 {
            assert(shown[0] == mark[0]);
            assert(shown[1] == mark[1]);
        } else {
            assert(raw.take(n)[0] == raw[0]);
            assert(shown[0] == number[0]);
        }
    } else {
        lemma_number_shape(raw);
    }
}

/// Two characters of an expression that stand next to each other, one of
/// them a terminator, stand in the spaced text with the spaces of the one
/// and of the other between them.
pub proof fn lemma_segments_gap(raw: Seq<char>, i: int)
    requires
        no_space(raw),
        0 <= i,
        i + 1 < raw.len(),
        is_terminator(raw[i]) || is_terminator(raw[i + 1]),
    ensures
        has_gap(
            formatted_segments(raw),
            raw[i],
            trailing(raw[i]) + leading(raw[i + 1]),
            raw[i + 1],
        ),
    decreases raw.len(),
{
    lemma_number_end(raw);
    let n = number_end(raw);
    let a = raw[i];
    let b = raw[i + 1];
    let k = trailing(a) + leading(b);
    let shown = formatted_segments(raw);
    if n < raw.len() {
        let number = formatted_number(raw.take(n));
        let mark = spaced(raw[n]);
        let tail = raw.skip(n + 1);
        let rest = formatted_segments(tail);
        lemma_number_shape(raw.take(n));
        assert(shown == number + mark + rest);
        let at = number.len() as int;
        if i + 1 == n {
            assert(raw.take(n).last() == raw[i]);
            assert(shown[at - 1] == number.last());
            assert(shown[at] == mark[0]);
            assert(shown[at + 1] == mark[1]);
            assert(gap_at(shown, at - 1, a, k, b));
        } else if i == n {
            lemma_segments_head(tail);
            assert(tail[0] == b);
            let from = at + mark.len();
            assert(shown[at] == mark[0]);
            assert(shown[at + 1] == mark[1]);
            if mark.len() == 3 {
                assert(shown[at + 2] == mark[2]);
            }
            assert(shown[from] == rest[0]);
            if leading(b) == 1 {
                assert(shown[from + 1] == rest[1]);
            }
            assert(gap_at(shown, at + leading(a), a, k, b));
        } else if i > n {
            assert(tail[i - n - 1] == a && tail[i - n - 1 + 1] == b);
            lemma_segments_gap(tail, i - n - 1);
            let j = choose|j: int| gap_at(rest, j, a, k, b);
            let from = at + mark.len();
            assert(shown[from + j] == rest[j]);
            assert(shown[from + j + k + 1] == rest[j + k + 1]);
            if k >= 1 {
                assert(shown[from + j + 1] == rest[j + 1]);
            }
            if k >= 2 {
                assert(shown[from + j + 2] == rest[j + 2]);
            }
            assert(gap_at(shown, from + j, a, k, b));
        } else {
            assert(!is_terminator(raw[i]) && !is_terminator(raw[i + 1]));
        }
    } else {
        assert(!is_terminator(raw[i]) && !is_terminator(raw[i + 1]));
    }
}

/// A text that is not empty starts as it did once two spaces have become
/// one.
pub proof fn lemma_collapsed_head(s: Seq<char>)
    requires
        s.len() > 0,
    ensures
        replaced(s, seq![' ', ' '], seq![' ']).len() > 0,
        replaced(s, seq![' ', ' '], seq![' '])[0] == s[0],
{
    let two = seq![' ', ' '];
    if s.len() >= 2 && s.take(2) == two {
        assert(s.take(2)[0] == s[0]);
    }
}

/// Two characters with up to two spaces between them have one space between
/// them, or none as before, once two spaces have become one.
pub proof fn lemma_collapsed_gap(s: Seq<char>, j: int, a: char, k: int, b: char)
    requires
        gap_at(s, j, a, k, b),
        a != ' ',
        b != ' ',
    ensures
        has_gap(replaced(s, seq![' ', ' '], seq![' ']), a, if k >= 1 {
            1int
        } else {
            0int
        }, b),
    decreases s.len(),
{
    let two = seq![' ', ' '];
    let one = seq![' '];
    let out = replaced(s, two, one);
    let less = if k >= 1 {
        1int
    } else {
        0int
    };
    if s.take(2) == two {
        assert(s.take(2)[0] == s[0] && s.take(2)[1] == s[1]);
        let rest = s.skip(2);
        assert(gap_at(rest, j - 2, a, k, b));
        lemma_collapsed_gap(rest, j - 2, a, k, b);
        let inner = replaced(rest, two, one);
        let i = choose|i: int| gap_at(inner, i, a, less, b);
        assert(out == one + inner);
        assert(out[i + 1] == inner[i]);
        assert(out[i + 1 + less + 1] == inner[i + less + 1]);
        assert(out[i + 1 + 1] == inner[i + 1]);
        assert(gap_at(out, i + 1, a, less, b));
    } else if j > 0 {
        let rest = s.skip(1);
        assert(gap_at(rest, j - 1, a, k, b));
        lemma_collapsed_gap(rest, j - 1, a, k, b);
        let inner = replaced(rest, two, one);
        let i = choose|i: int| gap_at(inner, i, a, less, b);
        assert(out == seq![s[0]] + inner);
        assert(out[i + 1] == inner[i]);
        assert(out[i + 1 + less + 1] == inner[i + less + 1]);
        assert(out[i + 1 + 1] == inner[i + 1]);
        assert(gap_at(out, i + 1, a, less, b));
    } else {
        let first = s.skip(1);
        let inner = replaced(first, two, one);
        assert(out == seq![s[0]] + inner);
        if k == 0 {
            lemma_collapsed_head(first);
            assert(out[1] == inner[0]);
        } else if k == 1 {
            assert(first.take(2)[1] == first[1]);
            let second = first.skip(1);
            assert(inner == seq![first[0]] + replaced(second, two, one));
            lemma_collapsed_head(second);
            assert(out[1] == inner[0]);
            assert(out[2] == inner[1]);
            assert(inner[1] == replaced(second, two, one)[0]);
        } else {
            assert(first.take(2) =~= two);
            let second = first.skip(2);
            assert(inner == one + replaced(second, two, one));
            lemma_collapsed_head(second);
            assert(out[1] == inner[0]);
            assert(out[2] == inner[1]);
            assert(inner[1] == replaced(second, two, one)[0]);
        }
        assert(gap_at(out, 0, a, less, b));
    }
}

/// Where `from` stands in `s` and `to` holds more characters other than
/// spaces, replacing the one by the other adds to them.
pub proof fn lemma_replaced_grows(s: Seq<char>, from: Seq<char>, to: Seq<char>)
    requires
        occurs(s, from),
        from.len() > 0,
        without_spaces(to).len() > without_spaces(from).len(),
    ensures
        without_spaces(replaced(s, from, to)).len() > without_spaces(s).len(),
    decreases s.len(),
{
    let m = from.len() as int;
    let i = choose|i: int| 0 <= i && i + from.len() <= s.len() && #[trigger] s.subrange(
        i,
        i + from.len(),
    ) == from;
    if s.take(m) == from {
        let rest = s.skip(m);
        lemma_replaced_keeps(rest, from, to);
        lemma_without_spaces_concat(to, replaced(rest, from, to));
        lemma_without_spaces_concat(from, rest);
        assert(from + rest == s);
    } else {
        if i == 0 {
            assert(s.subrange(0, m) == s.take(m));
        }
        assert(s.skip(1).subrange(i - 1, i - 1 + from.len()) == s.subrange(i, i + from.len()));
        lemma_replaced_grows(s.skip(1), from, to);
        lemma_without_spaces_concat(seq![s[0]], replaced(s.skip(1), from, to));
        lemma_without_spaces_concat(seq![s[0]], s.skip(1));
        assert(seq![s[0]] + s.skip(1) == s);
    }
}

/// Where a digit stands before a space and an opening parenthesis, writing
/// out the product adds a character.
pub proof fn lemma_times_before_group_grows(s: Seq<char>, i: int)
    requires
        digit_before_group_at(s, i),
    ensures
        without_spaces(times_before_group(s)).len() > without_spaces(s).len(),
    decreases s.len(),
{
    if is_digit(s[0]) && s[1] == ' ' && s[2] == '(' {
        let written = seq![s[0], ' ', 'x', ' ', '('];
        lemma_times_before_group_keeps(s.skip(3));
        lemma_without_spaces_concat(written, times_before_group(s.skip(3)));
        lemma_without_spaces_five(s[0], ' ', 'x', ' ', '(');
        lemma_without_spaces_concat(s.take(3), s.skip(3));
        lemma_without_spaces_three(s[0], ' ', '(');
        assert(s.take(3) == seq![s[0], ' ', '(']);
        assert(s.take(3) + s.skip(3) == s);
    } else {
        assert(digit_before_group_at(s.skip(1), i - 1));
        lemma_times_before_group_grows(s.skip(1), i - 1);
        lemma_without_spaces_concat(seq![s[0]], times_before_group(s.skip(1)));
        lemma_without_spaces_concat(seq![s[0]], s.skip(1));
        assert(seq![s[0]] + s.skip(1) == s);
    }
}

/// Where a digit stands after a closing parenthesis and a space, writing out
/// the product adds a character.
pub proof fn lemma_times_after_group_grows(s: Seq<char>, i: int)
    requires
        digit_after_group_at(s, i),
    ensures
        without_spaces(times_after_group(s)).len() > without_spaces(s).len(),
    decreases s.len(),
{
    if s[0] == ')' && s[1] == ' ' && is_digit(s[2]) {
        let written = seq![')', ' ', 'x', ' ', s[2]];
        lemma_times_after_group_keeps(s.skip(3));
        lemma_without_spaces_concat(written, times_after_group(s.skip(3)));
        lemma_without_spaces_five(')', ' ', 'x', ' ', s[2]);
        lemma_without_spaces_concat(s.take(3), s.skip(3));
        lemma_without_spaces_three(')', ' ', s[2]);
        assert(s.take(3) == seq![')', ' ', s[2]]);
        assert(s.take(3) + s.skip(3) == s);
    } else {
        assert(digit_after_group_at(s.skip(1), i - 1));
        lemma_times_after_group_grows(s.skip(1), i - 1);
        lemma_without_spaces_concat(seq![s[0]], times_after_group(s.skip(1)));
        lemma_without_spaces_concat(seq![s[0]], s.skip(1));
        assert(seq![s[0]] + s.skip(1) == s);
    }
}

/// One rule of replacement either finds nothing to replace, or adds to the
/// characters other than spaces.
pub proof fn lemma_replaced_step(s: Seq<char>, from: Seq<char>, to: Seq<char>)
    requires
        from.len() > 0,
        without_spaces(to).len() > without_spaces(from).len(),
    ensures
        without_spaces(replaced(s, from, to)).len() >= without_spaces(s).len(),
        occurs(s, from) ==> without_spaces(replaced(s, from, to)).len() > without_spaces(s).len(),
        !occurs(s, from) ==> replaced(s, from, to) == s,
{
    lemma_replaced_keeps(s, from, to);
    if occurs(s, from) {
        lemma_replaced_grows(s, from, to);
    } else {
        lemma_replaced_nowhere(s, from, to);
    }
}

/// Writing out the products before the groups either finds none, or adds to
/// the characters other than spaces.
pub proof fn lemma_times_before_group_step(s: Seq<char>)
    ensures
        without_spaces(times_before_group(s)).len() >= without_spaces(s).len(),
        (exists|i: int| digit_before_group_at(s, i)) ==> without_spaces(
            times_before_group(s),
        ).len() > without_spaces(s).len(),
        !(exists|i: int| digit_before_group_at(s, i)) ==> times_before_group(s) == s,
{
    lemma_times_before_group_keeps(s);
    if exists|i: int| digit_before_group_at(s, i) {
        let i = choose|i: int| digit_before_group_at(s, i);
        lemma_times_before_group_grows(s, i);
    } else {
        assert forall|i: int| 0 <= i && i + 2 < s.len() implies !(is_digit(#[trigger] s[i])
            && s[i + 1] == ' ' && s[i + 2] == '(') by {
            assert(!digit_before_group_at(s, i));
        }
        lemma_times_before_group_nowhere(s);
    }
}

/// Writing out the products after the groups either finds none, or adds to
/// the characters other than spaces.
pub proof fn lemma_times_after_group_step(s: Seq<char>)
    ensures
        without_spaces(times_after_group(s)).len() >= without_spaces(s).len(),
        (exists|i: int| digit_after_group_at(s, i)) ==> without_spaces(
            times_after_group(s),
        ).len() > without_spaces(s).len(),
        !(exists|i: int| digit_after_group_at(s, i)) ==> times_after_group(s) == s,
{
    lemma_times_after_group_keeps(s);
    if exists|i: int| digit_after_group_at(s, i) {
        let i = choose|i: int| digit_after_group_at(s, i);
        lemma_times_after_group_grows(s, i);
    } else {
        assert forall|i: int| 0 <= i && i + 2 < s.len() implies !(#[trigger] s[i] == ')' && s[i
            + 1] == ' ' && is_digit(s[i + 2])) by {
            assert(!digit_after_group_at(s, i));
        }
        lemma_times_after_group_nowhere(s);
    }
}

/// Where the formatter writes a character in, the formatted text holds more
/// characters other than spaces than the expression.
pub proof fn lemma_written_in_shows(raw: Seq<char>)
    requires
        no_space(raw),
        !is_plain(raw),
    ensures
        without_spaces(formatted(raw)).len() > raw.len(),
{
    let i = choose|i: int|
        0 <= i && i + 1 < raw.len() && is_written_between(#[trigger] raw[i], raw[i + 1]);
    let a = raw[i];
    let b = raw[i + 1];
    let k = trailing(a) + leading(b);
    let less = if k >= 1 {
        1int
    } else {
        0int
    };
    let spaced_text = formatted_segments(raw);
    let ended = with_last_space(spaced_text);
    lemma_segments_gap(raw, i);
    let j = choose|j: int| gap_at(spaced_text, j, a, k, b);
    assert(gap_at(ended, j, a, k, b)) by {
        assert(ended[j] == spaced_text[j]);
        assert(ended[j + k + 1] == spaced_text[j + k + 1]);
        assert(ended[j + 1] == spaced_text[j + 1]);
    }
    lemma_collapsed_gap(ended, j, a, k, b);
    let t1 = tidied(spaced_text);
    let at = choose|at: int| gap_at(t1, at, a, less, b);
    lemma_tidied_without_spaces(raw);
    lemma_without_spaces_same(raw);

    let point = seq![' ', '.'];
    let open_point = seq!['(', '.'];
    let groups = seq![')', ' ', '('];
    let empty_group = seq!['(', ')'];
    let t2 = replaced(t1, point, seq![' ', '0', '.']);
    let t3 = replaced(t2, open_point, seq!['(', '0', '.']);
    let t4 = replaced(t3, groups, seq![')', ' ', 'x', ' ', '(']);
    let t5 = replaced(t4, empty_group, seq!['(', '1', ')']);
    let t6 = times_before_group(t5);
    let t7 = times_after_group(t6);
    assert(t7 == formatted(raw));
    lemma_without_spaces_two(' ', '.');
    lemma_without_spaces_three(' ', '0', '.');
    lemma_replaced_step(t1, point, seq![' ', '0', '.']);
    lemma_without_spaces_two('(', '.');
    lemma_without_spaces_three('(', '0', '.');
    lemma_replaced_step(t2, open_point, seq!['(', '0', '.']);
    lemma_without_spaces_three(')', ' ', '(');
    lemma_without_spaces_five(')', ' ', 'x', ' ', '(');
    lemma_replaced_step(t3, groups, seq![')', ' ', 'x', ' ', '(']);
    lemma_without_spaces_two('(', ')');
    lemma_without_spaces_three('(', '1', ')');
    lemma_replaced_step(t4, empty_group, seq!['(', '1', ')']);
    lemma_times_before_group_step(t5);
    lemma_times_after_group_step(t6);

    if without_spaces(t7).len() <= raw.len() {
        assert(t7 == t1);
        if b == '.' {
            if a == '(' {
                assert(t1.subrange(at, at + 2) == open_point);
            } else {
                assert(t1.subrange(at + 1, at + 1 + 2) == point);
            }
        } else if a == '(' {
            assert(t1.subrange(at, at + 2) == empty_group);
        } else if b == '(' {
            if a == ')' {
                assert(t1.subrange(at, at + 3) == groups);
            } else {
                assert(digit_before_group_at(t1, at));
            }
        } else {
            assert(digit_after_group_at(t1, at));
        }
    }
}

/// Taking the spaces out of what the formatter shows gives the expression
/// back exactly when the expression is plain.
pub proof fn lemma_round_trip_exactly(raw: Seq<char>)
    ensures
        without_spaces(formatted(raw)) == raw <==> is_plain(raw),
{
    if is_plain(raw) {
        lemma_format_round_trip(raw);
    } else if no_space(raw) {
        lemma_written_in_shows(raw);
    } else {
        lemma_without_spaces_holds_none(formatted(raw));
    }
}

} // verus!
