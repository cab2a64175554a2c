//! What the spaces of the formatted text hide: taking them out again gives
//! back the expression, but for the characters that the formatter wrote in.

use vstd::prelude::*;
use crate::display::{
    formatted, formatted_number, formatted_segments, grouped, lemma_point_index,
    patterns_before_products, point_index, spaced, times_after_group, times_before_group,
    with_last_space,
};
use crate::operations::{lemma_number_end, number_end};
use crate::text::{is_digit, is_terminator, replaced};

verus! {

/// `s` without its spaces.
pub open spec fn without_spaces(s: Seq<char>) -> Seq<char> {
    replaced(s, seq![' '], Seq::empty())
}

/// `s` holds no space.
pub open spec fn no_space(s: Seq<char>) -> bool {
    forall|i: int| 0 <= i < s.len() ==> s[i] != ' '
}

/// What is left of one character once the spaces are out.
pub open spec fn kept(c: char) -> Seq<char> {
    if c == ' ' {
        Seq::empty()
    } else {
        seq![c]
    }
}

/// The spaced text before the formatter writes anything in: a space at the
/// end, and one space where there were two.
pub open spec fn tidied(t: Seq<char>) -> Seq<char> {
    replaced(with_last_space(t), seq![' ', ' '], seq![' '])
}

/// Taking the spaces out goes through a text one character at a time.
pub proof fn lemma_without_spaces_step(s: Seq<char>)
    requires
        s.len() > 0,
    ensures
        without_spaces(s) == kept(s[0]) + without_spaces(s.skip(1)),
{
    let space = seq![' '];
    if s[0] == ' ' {
        assert(s.take(1) == space);
    } else {
        assert(s.take(1)[0] != space[0]);
    }
}

/// Taking the spaces out of two texts, one after the other.
pub proof fn lemma_without_spaces_concat(a: Seq<char>, b: Seq<char>)
    ensures
        without_spaces(a + b) == without_spaces(a) + without_spaces(b),
    decreases a.len(),
{
    if a.len() == 0 {
        assert(a + b == b);
        assert(without_spaces(a) + without_spaces(b) == without_spaces(b));
    } else {
        lemma_without_spaces_step(a);
        lemma_without_spaces_step(a + b);
        assert((a + b).skip(1) == a.skip(1) + b);
        lemma_without_spaces_concat(a.skip(1), b);
        assert(kept(a[0]) + (without_spaces(a.skip(1)) + without_spaces(b)) == kept(a[0])
            + without_spaces(a.skip(1)) + without_spaces(b));
    }
}

/// Taking the spaces out of a text of one character.
pub proof fn lemma_without_spaces_one(c: char)
    ensures
        without_spaces(seq![c]) == kept(c),
{
    let one = seq![c];
    lemma_without_spaces_step(one);
    assert(one.skip(1) == Seq::<char>::empty());
    assert(kept(c) + Seq::<char>::empty() == kept(c));
}

/// Taking the spaces out of a text that ends with `c`.
pub proof fn lemma_without_spaces_push(s: Seq<char>, c: char)
    ensures
        without_spaces(s.push(c)) == without_spaces(s) + kept(c),
{
    lemma_without_spaces_concat(s, seq![c]);
    lemma_without_spaces_one(c);
    assert(s.push(c) == s + seq![c]);
}

/// A text without spaces has none to take out.
pub proof fn lemma_without_spaces_same(s: Seq<char>)
    requires
        no_space(s),
    ensures
        without_spaces(s) == s,
    decreases s.len(),
{
    if s.len() > 0 {
        lemma_without_spaces_step(s);
        lemma_without_spaces_same(s.skip(1));
        assert(seq![s[0]] + s.skip(1) == s);
    }
}

/// No space is left once the spaces are out, and no character is new.
pub proof fn lemma_without_spaces_holds_none(s: Seq<char>)
    ensures
        no_space(without_spaces(s)),
        without_spaces(s).len() <= s.len(),
    decreases s.len(),
{
    if s.len() > 0 {
        lemma_without_spaces_step(s);
        lemma_without_spaces_holds_none(s.skip(1));
    }
}

/// The spaces that set groups of digits apart hide the digits as typed.
pub proof fn lemma_grouped_without_spaces(digits: Seq<char>)
    ensures
        without_spaces(grouped(digits)) == without_spaces(digits),
    decreases digits.len(),
{
    if digits.len() > 3 {
        let head = digits.take(digits.len() - 3);
        let tail = digits.skip(digits.len() - 3);
        lemma_grouped_without_spaces(head);
        lemma_without_spaces_concat(grouped(head) + seq![' '], tail);
        lemma_without_spaces_concat(grouped(head), seq![' ']);
        lemma_without_spaces_one(' ');
        lemma_without_spaces_concat(head, tail);
        assert(head + tail == digits);
        assert(without_spaces(head) + Seq::<char>::empty() == without_spaces(head));
    }
}

/// The spaces of a formatted number hide the number as typed.
pub proof fn lemma_number_without_spaces(t: Seq<char>)
    ensures
        without_spaces(formatted_number(t)) == without_spaces(t),
{
    lemma_point_index(t);
    let d = point_index(t);
    lemma_grouped_without_spaces(t.take(d));
    lemma_without_spaces_concat(grouped(t.take(d)), t.skip(d));
    lemma_without_spaces_concat(t.take(d), t.skip(d));
    assert(t.take(d) + t.skip(d) == t);
}

/// The spaces around a terminator hide the terminator alone.
pub proof fn lemma_spaced_without_spaces(c: char)
    requires
        is_terminator(c),
    ensures
        without_spaces(spaced(c)) == seq![c],
{
    let none = Seq::<char>::empty();
    lemma_without_spaces_push(none, ' ');
    lemma_without_spaces_push(none, ')');
    lemma_without_spaces_push(none.push(' '), c);
    lemma_without_spaces_push(none.push(' ').push(c), ' ');
    lemma_without_spaces_push(none.push(')'), ' ');
    assert(none.push(' ').push(c).push(' ') == seq![' ', c, ' ']);
    assert(none.push(' ').push('(') == seq![' ', '(']);
    assert(none.push(')').push(' ') == seq![')', ' ']);
    assert(without_spaces(spaced(c)) =~= seq![c]);
}

/// The spaces of an expression cut and spaced hide the expression as typed.
pub proof fn lemma_segments_without_spaces(raw: Seq<char>)
    ensures
        without_spaces(formatted_segments(raw)) == without_spaces(raw),
    decreases raw.len(),
{
    let n = number_end(raw);
    if 0 <= n < raw.len() {
        lemma_number_end(raw);
        let number = formatted_number(raw.take(n));
        let rest = formatted_segments(raw.skip(n + 1));
        lemma_number_without_spaces(raw.take(n));
        lemma_spaced_without_spaces(raw[n]);
        lemma_segments_without_spaces(raw.skip(n + 1));
        lemma_without_spaces_concat(number + spaced(raw[n]), rest);
        lemma_without_spaces_concat(number, spaced(raw[n]));
        lemma_without_spaces_concat(raw.take(n) + seq![raw[n]], raw.skip(n + 1));
        lemma_without_spaces_concat(raw.take(n), seq![raw[n]]);
        lemma_without_spaces_one(raw[n]);
        assert(raw.take(n) + seq![raw[n]] + raw.skip(n + 1) == raw);
    } else {
        lemma_number_without_spaces(raw);
    }
}

/// A space at the end hides nothing.
pub proof fn lemma_last_space_without_spaces(t: Seq<char>)
    ensures
        without_spaces(with_last_space(t)) == without_spaces(t),
{
    lemma_without_spaces_push(t, ' ');
    assert(without_spaces(t) + Seq::<char>::empty() == without_spaces(t));
}

/// Where `to` holds at least as many characters other than spaces as `from`,
/// replacing the one by the other takes none of them away.
pub proof fn lemma_replaced_keeps(s: Seq<char>, from: Seq<char>, to: Seq<char>)
    requires
        without_spaces(to).len() >= without_spaces(from).len(),
    ensures
        without_spaces(replaced(s, from, to)).len() >= without_spaces(s).len(),
    decreases s.len(),
{
    if from.len() == 0 || s.len() < from.len() {
    } else if s.take(from.len() as int) == from {
        let rest = s.skip(from.len() as int);
        lemma_replaced_keeps(rest, from, to);
        lemma_without_spaces_concat(to, replaced(rest, from, to));
        lemma_without_spaces_concat(from, rest);
        assert(from + rest == s);
    } else {
        lemma_replaced_keeps(s.skip(1), from, to);
        lemma_without_spaces_concat(seq![s[0]], replaced(s.skip(1), from, to));
        lemma_without_spaces_concat(seq![s[0]], s.skip(1));
        assert(seq![s[0]] + s.skip(1) == s);
    }
}

/// Where `to` is `from` but for its spaces, replacing the one by the other
/// shows only in the spaces.
pub proof fn lemma_replaced_same(s: Seq<char>, from: Seq<char>, to: Seq<char>)
    requires
        without_spaces(to) == without_spaces(from),
    ensures
        without_spaces(replaced(s, from, to)) == without_spaces(s),
    decreases s.len(),
{
    if from.len() == 0 || s.len() < from.len() {
    } else if s.take(from.len() as int) == from {
        let rest = s.skip(from.len() as int);
        lemma_replaced_same(rest, from, to);
        lemma_without_spaces_concat(to, replaced(rest, from, to));
        lemma_without_spaces_concat(from, rest);
        assert(from + rest == s);
    } else {
        lemma_replaced_same(s.skip(1), from, to);
        lemma_without_spaces_concat(seq![s[0]], replaced(s.skip(1), from, to));
        lemma_without_spaces_concat(seq![s[0]], s.skip(1));
        assert(seq![s[0]] + s.skip(1) == s);
    }
}

/// The spaces of the tidied text hide the expression as typed.
pub proof fn lemma_tidied_without_spaces(raw: Seq<char>)
    ensures
        without_spaces(tidied(formatted_segments(raw))) == without_spaces(raw),
{
    let t = formatted_segments(raw);
    lemma_segments_without_spaces(raw);
    lemma_last_space_without_spaces(t);
    let none = Seq::<char>::empty();
    lemma_without_spaces_push(none, ' ');
    lemma_without_spaces_push(none.push(' '), ' ');
    assert(none.push(' ') == seq![' ']);
    assert(none.push(' ').push(' ') == seq![' ', ' ']);
    assert(without_spaces(seq![' ', ' ']) =~= without_spaces(seq![' ']));
    lemma_replaced_same(with_last_space(t), seq![' ', ' '], seq![' ']);
}

/// Taking the spaces out of a text of two characters.
pub proof fn lemma_without_spaces_two(a: char, b: char)
    ensures
        without_spaces(seq![a, b]) == kept(a) + kept(b),
{
    lemma_without_spaces_one(a);
    lemma_without_spaces_push(seq![a], b);
    assert(seq![a].push(b) == seq![a, b]);
}

/// Taking the spaces out of a text of three characters.
pub proof fn lemma_without_spaces_three(a: char, b: char, c: char)
    ensures
        without_spaces(seq![a, b, c]) == kept(a) + kept(b) + kept(c),
{
    lemma_without_spaces_two(a, b);
    lemma_without_spaces_push(seq![a, b], c);
    assert(seq![a, b].push(c) == seq![a, b, c]);
}

/// Taking the spaces out of a text of five characters.
pub proof fn lemma_without_spaces_five(a: char, b: char, c: char, d: char, e: char)
    ensures
        without_spaces(seq![a, b, c, d, e]) == kept(a) + kept(b) + kept(c) + kept(d) + kept(e),
{
    lemma_without_spaces_three(a, b, c);
    lemma_without_spaces_push(seq![a, b, c], d);
    lemma_without_spaces_push(seq![a, b, c, d], e);
    assert(seq![a, b, c].push(d) == seq![a, b, c, d]);
    assert(seq![a, b, c, d].push(e) == seq![a, b, c, d, e]);
}

/// Writing out a product before a group takes away no character other than
/// a space.
pub proof fn lemma_times_before_group_keeps(s: Seq<char>)
    ensures
        without_spaces(times_before_group(s)).len() >= without_spaces(s).len(),
    decreases s.len(),
{
    if s.len() >= 3 {
        if is_digit(s[0]) && s[1] == ' ' && s[2] == '(' {
            let written = seq![s[0], ' ', 'x', ' ', '('];
            lemma_times_before_group_keeps(s.skip(3));
            lemma_without_spaces_concat(written, times_before_group(s.skip(3)));
            lemma_without_spaces_five(s[0], ' ', 'x', ' ', '(');
            lemma_without_spaces_concat(s.take(3), s.skip(3));
            lemma_without_spaces_three(s[0], ' ', '(');
            assert(s.take(3) == seq![s[0], ' ', '(']);
            assert(s.take(3) + s.skip(3) == s);
        } else {
            lemma_times_before_group_keeps(s.skip(1));
            lemma_without_spaces_concat(seq![s[0]], times_before_group(s.skip(1)));
            lemma_without_spaces_concat(seq![s[0]], s.skip(1));
            assert(seq![s[0]] + s.skip(1) == s);
        }
    }
}

/// Writing out a product after a group takes away no character other than a
/// space.
pub proof fn lemma_times_after_group_keeps(s: Seq<char>)
    ensures
        without_spaces(times_after_group(s)).len() >= without_spaces(s).len(),
    decreases s.len(),
{
    if s.len() >= 3 {
        if s[0] == ')' && s[1] == ' ' && is_digit(s[2]) {
            let written = seq![')', ' ', 'x', ' ', s[2]];
            lemma_times_after_group_keeps(s.skip(3));
            lemma_without_spaces_concat(written, times_after_group(s.skip(3)));
            lemma_without_spaces_five(')', ' ', 'x', ' ', s[2]);
            lemma_without_spaces_concat(s.take(3), s.skip(3));
            lemma_without_spaces_three(')', ' ', s[2]);
            assert(s.take(3) == seq![')', ' ', s[2]]);
            assert(s.take(3) + s.skip(3) == s);
        } else {
            lemma_times_after_group_keeps(s.skip(1));
            lemma_without_spaces_concat(seq![s[0]], times_after_group(s.skip(1)));
            lemma_without_spaces_concat(seq![s[0]], s.skip(1));
            assert(seq![s[0]] + s.skip(1) == s);
        }
    }
}

/// The formatted text holds every character of the expression that is not a
/// space, and may hold more: the formatter takes none away.
pub proof fn lemma_formatted_keeps(raw: Seq<char>)
    ensures
        without_spaces(formatted(raw)).len() >= without_spaces(raw).len(),
{
    let t1 = tidied(formatted_segments(raw));
    let t2 = replaced(t1, seq![' ', '.'], seq![' ', '0', '.']);
    let t3 = replaced(t2, seq!['(', '.'], seq!['(', '0', '.']);
    let t4 = replaced(t3, seq![')', ' ', '('], seq![')', ' ', 'x', ' ', '(']);
    let t5 = replaced(t4, seq!['(', ')'], seq!['(', '1', ')']);
    lemma_tidied_without_spaces(raw);
    lemma_without_spaces_two(' ', '.');
    lemma_without_spaces_three(' ', '0', '.');
    lemma_replaced_keeps(t1, seq![' ', '.'], seq![' ', '0', '.']);
    lemma_without_spaces_two('(', '.');
    lemma_without_spaces_three('(', '0', '.');
    lemma_replaced_keeps(t2, seq!['(', '.'], seq!['(', '0', '.']);
    lemma_without_spaces_three(')', ' ', '(');
    lemma_without_spaces_five(')', ' ', 'x', ' ', '(');
    lemma_replaced_keeps(t3, seq![')', ' ', '('], seq![')', ' ', 'x', ' ', '(']);
    lemma_without_spaces_two('(', ')');
    lemma_without_spaces_three('(', '1', ')');
    lemma_replaced_keeps(t4, seq!['(', ')'], seq!['(', '1', ')']);
    lemma_times_before_group_keeps(t5);
    lemma_times_after_group_keeps(times_before_group(t5));
    assert(t5 == patterns_before_products(formatted_segments(raw)));
}

} // verus!
