//! What holds of the editing rules and the parser taken together.

use vstd::prelude::*;
use vstd::utf8::is_ascii_chars;
use crate::calculator::{
    all_events, edited, evaluates, is_event, lemma_edited_fits, lines_after, lines_after_all,
    trimmed_output, MessageEmit,
};
use crate::display::{formatted, lemma_formatted_ascii, lemma_formatted_zero, lemma_replaced_ascii};
use crate::editing::{cleared, closed_expression, number_entered, MAX_LENGTH};
use crate::spacing::{
    lemma_formatted_keeps, lemma_without_spaces_holds_none, lemma_without_spaces_same,
    lemma_without_spaces_two, without_spaces,
};
use crate::operations::{
    expression_spec, expression_tail, factor_spec, is_number, lemma_number_end_unique,
    number_spec, term_spec, term_tail, whole_expression, Tree,
};
use crate::text::{is_digit, is_terminator, lemma_count_none};

verus! {

/// The expression after the digits have been entered one at a time, starting
/// from `0`.
pub open spec fn digits_entered(digits: Seq<u32>) -> Seq<char>
    decreases digits.len(),
{
    if digits.len() == 0 {
        seq!['0']
    } else {
        number_entered(digits_entered(digits.drop_last()), digits.last())
    }
}

/// The number that the digits form, read in order.
pub open spec fn number_formed(digits: Seq<u32>) -> nat
    decreases digits.len(),
{
    if digits.len() == 0 {
        0
    } else {
        10 * number_formed(digits.drop_last()) + digits.last() as nat
    }
}

/// The number that a text of digits stands for.
pub open spec fn decimal_value(text: Seq<char>) -> nat
    decreases text.len(),
{
    if text.len() == 0 {
        0
    } else {
        10 * decimal_value(text.drop_last()) + (text.last() as nat - '0' as nat) as nat
    }
}

/// Every digit was taken in: none came to an expression that was full.
pub open spec fn all_taken(digits: Seq<u32>) -> bool {
    forall|k: int|
        0 <= k < digits.len() ==> (#[trigger] digits_entered(digits.take(k))).len() < MAX_LENGTH
}

/// A text made of digits only.
pub open spec fn all_digits(text: Seq<char>) -> bool {
    forall|i: int| 0 <= i < text.len() ==> is_digit(#[trigger] text[i])
}

/// A number alone is an expression, and its tree is the one leaf.
pub proof fn lemma_number_is_expression(text: Seq<char>)
    requires
        is_number(text),
    ensures
        whole_expression(text) == Some(Tree::Number(text)),
{
    assert forall|j: int| 0 <= j < text.len() implies !is_terminator(text[j]) by {}
    lemma_number_end_unique(text, text.len() as int);
    assert(text.take(text.len() as int) == text);
    assert(number_spec(text) == Some((text.len() as int, Tree::Number(text))));
    assert(factor_spec(text) == number_spec(text));
    assert(term_spec(text) == term_tail(text, text.len() as int, Tree::Number(text)));
    assert(expression_spec(text) == expression_tail(
        text,
        text.len() as int,
        Tree::Number(text),
    ));
}

/// Digits entered one at a time, starting from `0`, make an expression that
/// is one number: its tree is the leaf that holds the digits typed, and that
/// text stands for the number that the digits form when read in order. This
/// holds as long as every digit was taken in.
pub proof fn lemma_digits_evaluate(digits: Seq<u32>)
    requires
        forall|i: int| 0 <= i < digits.len() ==> digits[i] <= 9,
        all_taken(digits),
    ensures
        digits_entered(digits).len() > 0,
        all_digits(digits_entered(digits)),
        whole_expression(digits_entered(digits)) == Some(Tree::Number(digits_entered(digits))),
        decimal_value(digits_entered(digits)) == number_formed(digits),
    decreases digits.len(),
{
    let raw = digits_entered(digits);
    if digits.len() == 0 {
        assert(raw.drop_last() == Seq::<char>::empty());
        assert(decimal_value(raw) == 0) by {
            reveal_with_fuel(decimal_value, 2);
        }
    } else {
        let before = digits.drop_last();
        assert forall|k: int| 0 <= k < before.len() implies (#[trigger] digits_entered(
            before.take(k),
        )).len() < MAX_LENGTH by {
            assert(before.take(k) == digits.take(k));
        }
        lemma_digits_evaluate(before);
        assert(digits.take(digits.len() - 1) == before);
        let old_raw = digits_entered(before);
        assert(old_raw.len() < MAX_LENGTH);
        let digit = ((digits.last() + 48) as u8) as char;
        assert(is_digit(digit));
        assert(digit as nat - '0' as nat == digits.last());
        if old_raw == seq!['0'] {
            assert(raw == seq![digit]);
            assert(raw.drop_last() == Seq::<char>::empty());
            assert(old_raw.drop_last() == Seq::<char>::empty());
            reveal_with_fuel(decimal_value, 2);
            assert(decimal_value(old_raw) == 0);
            assert(decimal_value(raw) == digits.last());
        } else {
            assert(raw == old_raw.push(digit));
            assert(raw.drop_last() == old_raw);
        }
    }
    lemma_count_none(raw, '.');
    assert(is_digit(raw[0]));
    assert(is_number(raw));
    lemma_number_is_expression(raw);
}

/// After any sequence of messages of the buttons a result line that shows
/// an expression shows one still: ASCII text that holds more than spaces. A
/// message that leaves a value to compute is taken for handled here, its
/// value not yet shown.
pub proof fn lemma_lines_never_empty(
    line: Seq<char>,
    memory: Seq<char>,
    events: Seq<MessageEmit>,
)
    requires
        is_ascii_chars(line),
        without_spaces(line).len() > 0,
        all_events(events),
    ensures
        is_ascii_chars(lines_after_all(line, memory, events).0),
        without_spaces(lines_after_all(line, memory, events).0).len() > 0,
    decreases events.len(),
{
    if events.len() > 0 {
        let earlier = events.drop_last();
        assert forall|i: int| 0 <= i < earlier.len() implies is_event(#[trigger] earlier[i]) by {
            assert(earlier[i] == events[i]);
        }
        lemma_lines_never_empty(line, memory, earlier);
        let before = lines_after_all(line, memory, earlier);
        let raw = without_spaces(before.0);
        assert(is_event(events[events.len() - 1]));
        if events.last() != MessageEmit::Equal {
            let next = edited(raw, events.last());
            lemma_replaced_ascii(before.0, seq![' '], Seq::empty());
            lemma_without_spaces_holds_none(before.0);
            lemma_edited_fits(raw, events.last());
            lemma_without_spaces_same(next);
            lemma_formatted_ascii(next);
            lemma_formatted_keeps(next);
        }
    }
}

/// `0` stands in the result line once everything typed is cleared, or
/// deleted down to its last character.
pub proof fn lemma_zero_when_empty(line: Seq<char>, memory: Seq<char>, msg: MessageEmit)
    requires
        msg == MessageEmit::Clear || (msg == MessageEmit::Delete && trimmed_output(line).len()
            <= 1),
    ensures
        lines_after(line, memory, msg).0 == seq!['0', ' '],
        trimmed_output(lines_after(line, memory, msg).0) == cleared(),
{
    lemma_formatted_zero();
    lemma_without_spaces_two('0', ' ');
    assert(trimmed_output(seq!['0', ' ']) =~= seq!['0']);
}

/// The text of the result line after the messages, one after the other,
/// starting from `0`. After a message that leaves a value to compute the
/// line shows what `result_of` makes of the closed expression.
pub open spec fn shown_after(
    events: Seq<MessageEmit>,
    result_of: spec_fn(Seq<char>) -> Seq<char>,
) -> Seq<char>
    decreases events.len(),
{
    if events.len() == 0 {
        formatted(cleared())
    } else {
        let before = shown_after(events.drop_last(), result_of);
        if evaluates(before, events.last()) {
            formatted(result_of(closed_expression(trimmed_output(before))))
        } else {
            lines_after(before, Seq::empty(), events.last()).0
        }
    }
}

/// After any sequence of messages of the buttons, starting from `0`, the
/// result line shows an expression that is not empty, whatever the results
/// are, as long as each is a text of ASCII characters that holds more than
/// spaces.
pub proof fn lemma_expression_never_empty(
    events: Seq<MessageEmit>,
    result_of: spec_fn(Seq<char>) -> Seq<char>,
)
    requires
        all_events(events),
        forall|closed: Seq<char>|
            is_ascii_chars(#[trigger] result_of(closed)) && without_spaces(result_of(closed)).len()
                > 0,
    ensures
        is_ascii_chars(shown_after(events, result_of)),
        without_spaces(shown_after(events, result_of)).len() > 0,
    decreases events.len(),
{
    if events.len() == 0 {
        lemma_formatted_zero();
        lemma_formatted_keeps(cleared());
        lemma_without_spaces_same(cleared());
    } else {
        let earlier = events.drop_last();
        assert forall|i: int| 0 <= i < earlier.len() implies is_event(#[trigger] earlier[i]) by {
            assert(earlier[i] == events[i]);
        }
        lemma_expression_never_empty(earlier, result_of);
        let before = shown_after(earlier, result_of);
        assert(is_event(events[events.len() - 1]));
        if evaluates(before, events.last()) {
            let result = result_of(closed_expression(trimmed_output(before)));
            lemma_formatted_ascii(result);
            lemma_formatted_keeps(result);
        } else {
            let one = seq![events.last()];
            assert(one.drop_last() == Seq::<MessageEmit>::empty());
            assert(one.last() == events.last());
            assert(lines_after_all(before, Seq::empty(), one.drop_last()) == (
                before,
                Seq::<char>::empty(),
            ));
            assert(lines_after_all(before, Seq::empty(), one) == lines_after(
                before,
                Seq::empty(),
                events.last(),
            ));
            lemma_lines_never_empty(before, Seq::empty(), one);
        }
    }
}

} // verus!
