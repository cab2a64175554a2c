//! The display formatter: from the expression as typed to the text that the
//! result line shows, with digits in groups of three, operators set apart
//! by spaces, and products written out.

use vstd::prelude::*;
use vstd::string::{StrSliceExecFns, StringExecFns};
use vstd::utf8::is_ascii_chars;
use crate::calculator::CalculatorApp;
use crate::operations::{lemma_number_end_unique, number_end};
use crate::text::{
    chars_of, is_digit, is_operator, is_operator_char, is_terminator, is_terminator_char,
    replace, replaced, string_of,
};

verus! {

/// The digits of an integer in groups of three, counted from the right, with
/// a space between two groups.
pub open spec fn grouped(digits: Seq<char>) -> Seq<char>
    decreases digits.len(),
{
    if digits.len() <= 3 {
        digits
    } else {
        grouped(digits.take(digits.len() - 3)) + seq![' '] + digits.skip(digits.len() - 3)
    }
}

/// `d` is the place of the first decimal point of `t`, or the end of `t`
/// when it holds none.
pub open spec fn is_point_index(t: Seq<char>, d: int) -> bool {
    &&& 0 <= d <= t.len()
    &&& d < t.len() ==> t[d] == '.'
    &&& forall|j: int| 0 <= j < d ==> t[j] != '.'
}

/// Where the integer part of the number `t` ends.
pub open spec fn point_index(t: Seq<char>) -> int {
    choose|d: int| is_point_index(t, d)
}

/// A number as the display shows it: the integer part in groups of three,
/// the decimal point and what follows it as they are.
pub open spec fn formatted_number(t: Seq<char>) -> Seq<char> {
    let d = point_index(t);
    grouped(t.take(d)) + t.skip(d)
}

/// A terminator as the display shows it: an operator between two spaces,
/// an opening parenthesis after a space, a closing one before a space.
pub open spec fn spaced(c: char) -> Seq<char> {
    if is_operator(c) {
        seq![' ', c, ' ']
    } else if c == '(' {
        seq![' ', '(']
    } else if c == ')' {
        seq![')', ' ']
    } else {
        Seq::empty()
    }
}

/// The expression cut after each terminator, each piece shown as a number
/// followed by its spaced terminator.
pub open spec fn formatted_segments(raw: Seq<char>) -> Seq<char>
    decreases raw.len(),
{
    let n = number_end(raw);
    if 0 <= n < raw.len() {
        formatted_number(raw.take(n)) + spaced(raw[n]) + formatted_segments(raw.skip(n + 1))
    } else {
        formatted_number(raw)
    }
}

/// A text that is not empty ends with a space.
pub open spec fn with_last_space(t: Seq<char>) -> Seq<char> {
    if t.len() > 0 && t.last() != ' ' {
        t.push(' ')
    } else {
        t
    }
}

/// A multiplication sign goes between a digit and the opening parenthesis
/// that follows it after a space: `2 (` becomes `2 x (`. The text is read
/// from the left, and what one match has taken is not read again.
pub open spec fn times_before_group(s: Seq<char>) -> Seq<char>
    decreases s.len(),
{
    if s.len() < 3 {
        s
    } else if is_digit(s[0]) && s[1] == ' ' && s[2] == '(' {
        seq![s[0], ' ', 'x', ' ', '('] + times_before_group(s.skip(3))
    } else {
        seq![s[0]] + times_before_group(s.skip(1))
    }
}

/// A multiplication sign goes between a closing parenthesis and the digit
/// that follows it after a space: `) 2` becomes `) x 2`. The text is read
/// from the left, and what one match has taken is not read again.
pub open spec fn times_after_group(s: Seq<char>) -> Seq<char>
    decreases s.len(),
{
    if s.len() < 3 {
        s
    } else if s[0] == ')' && s[1] == ' ' && is_digit(s[2]) {
        seq![')', ' ', 'x', ' ', s[2]] + times_after_group(s.skip(3))
    } else {
        seq![s[0]] + times_after_group(s.skip(1))
    }
}

/// The last touches on the spaced text, one after the other: a space at the
/// end; one space where there were two; a zero before a decimal point that
/// follows a space or an opening parenthesis; a multiplication sign between
/// two groups; a one inside an empty pair of parentheses; a multiplication
/// sign between a digit and the group after it, and between a group and the
/// digit after it.
pub open spec fn patterns_replaced(t: Seq<char>) -> Seq<char> {
    let t0 = with_last_space(t);
    let t1 = replaced(t0, seq![' ', ' '], seq![' ']);
    let t2 = replaced(t1, seq![' ', '.'], seq![' ', '0', '.']);
    let t3 = replaced(t2, seq!['(', '.'], seq!['(', '0', '.']);
    let t4 = replaced(t3, seq![')', ' ', '('], seq![')', ' ', 'x', ' ', '(']);
    let t5 = replaced(t4, seq!['(', ')'], seq!['(', '1', ')']);
    times_after_group(times_before_group(t5))
}

/// The text that the result line shows for the expression `raw`.
pub open spec fn formatted(raw: Seq<char>) -> Seq<char> {
    patterns_replaced(formatted_segments(raw))
}

/// The two rewriting rules that are handed to the regular expression engine,
/// each a pattern with its replacement.
pub open spec fn is_product_rule(pattern: Seq<char>, replacement: Seq<char>) -> bool {
    ||| pattern == "(?<n>\\d) \\("@ && replacement == "$n x ("@
    ||| pattern == "\\) (?<n>\\d)"@ && replacement == ") x $n"@
}

/// What a rewriting rule makes of `text`.
pub open spec fn product_marked(pattern: Seq<char>, text: Seq<char>) -> Seq<char> {
    if pattern == "(?<n>\\d) \\("@ {
        times_before_group(text)
    } else {
        times_after_group(text)
    }
}

/// Compiles `pattern` with `regex::Regex::new` and replaces every match in
/// `haystack` with `Regex::replace_all`.
///
/// Trusted: for the two rules of [`is_product_rule`], both of which compile,
/// and a haystack of ASCII characters, in which `\d` matches the digits `0`
/// to `9` and nothing else, the result is the haystack with each match,
/// found from the left and not overlapping the one before, replaced by the
/// replacement, in which `$n` stands for the digit that the match holds.
#[verifier::external_body]
fn regex_replace_all(pattern: &str, haystack: &str, replacement: &str) -> (out: String)
    requires
        is_product_rule(pattern@, replacement@),
    ensures
        is_ascii_chars(haystack@) ==> out@ == product_marked(pattern@, haystack@),
{
    regex::Regex::new(pattern).unwrap().replace_all(haystack, replacement).into_owned()
}

/// Every text has a place where its integer part ends.
pub proof fn lemma_point_index(t: Seq<char>)
    ensures
        is_point_index(t, point_index(t)),
    decreases t.len(),
{
    if t.len() == 0 || t[0] == '.' {
        assert(is_point_index(t, 0));
    } else {
        lemma_point_index(t.skip(1));
        let d = point_index(t.skip(1));
        assert forall|j: int| 0 <= j < d + 1 implies t[j] != '.' by {
            if j > 0 {
                assert(t[j] == t.skip(1)[j - 1]);
            }
        }
        assert(d < t.skip(1).len() ==> t[d + 1] == t.skip(1)[d]);
        assert(is_point_index(t, d + 1));
    }
}

/// At most one position is the place of the first decimal point.
pub proof fn lemma_point_index_unique(t: Seq<char>, d: int)
    requires
        is_point_index(t, d),
    ensures
        point_index(t) == d,
{
    let e = point_index(t);
    assert(is_point_index(t, e));
    if e < d {
        assert(t[e] == '.');
    }
    if d < e {
        assert(t[d] == '.');
    }
}

impl CalculatorApp {
    /// Whether `op` is one of the four operators.
    pub fn is_an_operator(&self, op: char) -> (b: bool)
        ensures
            b == is_operator(op),
    {
        is_operator_char(op)
    }

    /// Sets the digits of an integer in groups of three, from the right.
    pub fn format_integer_part(&self, integer_part: &str) -> (out: String)
        ensures
            out@ == grouped(integer_part@),
    {
        let mut digits = chars_of(integer_part);
        let ghost tail: Seq<char> = Seq::empty();
        let mut k: usize = digits.len();
        assert(digits@.take(k as int) == digits@);
        while k > 3
            invariant
                k <= integer_part@.len(),
                digits@ == integer_part@.take(k as int) + tail,
                grouped(integer_part@) == grouped(integer_part@.take(k as int)) + tail,
            decreases k,
        {
            proof {
                let head = integer_part@.take(k as int);
                assert(head.take(k - 3) == integer_part@.take(k - 3));
                assert(head.skip(k - 3) == integer_part@.subrange(k - 3, k as int));
                assert(digits@.insert(k - 3, ' ') == integer_part@.take(k - 3) + (seq![' ']
                    + integer_part@.subrange(k - 3, k as int) + tail));
                assert(grouped(head) + tail == grouped(integer_part@.take(k - 3)) + (seq![' ']
                    + integer_part@.subrange(k - 3, k as int) + tail));
                tail = seq![' '] + integer_part@.subrange(k - 3, k as int) + tail;
            }
            digits.insert(k - 3, ' ');
            k = k - 3;
        }
        string_of(&digits)
    }

    /// Shows a number: its integer part in groups of three, the rest as it is.
    pub fn format_number(&self, number: &str) -> (out: String)
        ensures
            out@ == formatted_number(number@),
    {
        let chars = chars_of(number);
        let mut d: usize = 0;
        while d < chars.len() && chars[d] != '.'
            invariant
                d <= chars.len(),
                forall|j: int| 0 <= j < d ==> chars@[j] != '.',
            decreases chars.len() - d,
        {
            d += 1;
        }
        proof {
            lemma_point_index_unique(number@, d as int);
        }
        let mut out = self.format_integer_part(number.substring_char(0, d));
        out.append(number.substring_char(d, chars.len()));
        out
    }

    /// The spaced form of the terminator that ends `segment`; nothing where
    /// `segment` ends otherwise.
    pub fn add_spaces_around_operators(&self, segment: &str) -> (out: String)
        requires
            segment@.len() > 0,
        ensures
            out@ == spaced(segment@.last()),
    {
        let last_char = segment.get_char(segment.unicode_len() - 1);
        let mut out = String::new();
        if self.is_an_operator(last_char) {
            out.push(' ');
            out.push(last_char);
            out.push(' ');
        } else if last_char == '(' {
            out.push(' ');
            out.push(last_char);
        } else if last_char == ')' {
            out.push(last_char);
            out.push(' ');
        }
        out
    }

    /// The text that the result line shows for the expression `raw_output`:
    /// see [`formatted`].
    pub fn format_result_output(&self, raw_output: String) -> (out: String)
        ensures
            is_ascii_chars(raw_output@) ==> out@ == formatted(raw_output@),
    {
        let raw = raw_output.as_str();
        let chars = chars_of(raw);
        let len = chars.len();
        let mut formated_output = String::new();
        let mut start: usize = 0;
        proof {
            assert(raw@.skip(0) == raw@);
            assert(formated_output@ + formatted_segments(raw@) == formatted_segments(raw@));
            lemma_formatted_nothing();
        }
        while start < len
            invariant
                start <= len == raw@.len(),
                chars@ == raw@,
                formatted_segments(Seq::<char>::empty()) == Seq::<char>::empty(),
                formatted_segments(raw@) == formated_output@ + formatted_segments(
                    raw@.skip(start as int),
                ),
            decreases len - start,
        {
            let mut end: usize = start;
            while end < len && !is_terminator_char(chars[end])
                invariant
                    start <= end <= len == chars.len(),
                    forall|j: int| start <= j < end ==> !is_terminator(chars@[j]),
                decreases len - end,
            {
                end += 1;
            }
            let ghost rest = raw@.skip(start as int);
            let ghost shown = formated_output@;
            proof {
                lemma_number_end_unique(rest, end - start);
                assert(rest.take(end - start) == raw@.subrange(start as int, end as int));
            }
            let number = self.format_number(raw.substring_char(start, end));
            formated_output.append(number.as_str());
            if end < len {
                let spaces = self.add_spaces_around_operators(raw.substring_char(start, end + 1));
                formated_output.append(spaces.as_str());
                proof {
                    assert(raw@.subrange(start as int, end + 1).last() == rest[end - start]);
                    assert(rest.skip(end - start + 1) == raw@.skip(end + 1));
                    assert(shown + (number@ + spaces@ + formatted_segments(raw@.skip(end + 1)))
                        == shown + number@ + spaces@ + formatted_segments(raw@.skip(end + 1)));
                }
                start = end + 1;
            } else {
                proof {
                    assert(rest.take(end - start) == rest);
                    assert(raw@.skip(len as int) == Seq::<char>::empty());
                    assert(shown + formatted_number(rest) == shown + number@ + Seq::<char>::empty());
                }
                start = len;
            }
        }
        proof {
            assert(raw@.skip(len as int) == Seq::<char>::empty());
            assert(formated_output@ + Seq::<char>::empty() == formated_output@);
            if is_ascii_chars(raw_output@) {
                lemma_formatted_segments_ascii(raw_output@);
                lemma_patterns_before_products_ascii(formatted_segments(raw_output@));
            }
        }
        self.replace_patterns_and_add_last_space(formated_output)
    }

    /// Gives the spaced text its last touches: see [`patterns_replaced`].
    pub fn replace_patterns_and_add_last_space(&self, formated_output: String) -> (out: String)
        ensures
            is_ascii_chars(patterns_before_products(formated_output@)) ==> out@
                == patterns_replaced(formated_output@),
    {
        let mut text = formated_output;
        let len = text.as_str().unicode_len();
        if len > 0 && text.as_str().get_char(len - 1) != ' ' {
            text.push(' ');
        }
        proof {
            reveal_strlit("  ");
            reveal_strlit(" ");
            reveal_strlit(" .");
            reveal_strlit(" 0.");
            reveal_strlit("(.");
            reveal_strlit("(0.");
            reveal_strlit(") (");
            reveal_strlit(") x (");
            reveal_strlit("()");
            reveal_strlit("(1)");
            reveal_strlit("(?<n>\\d) \\(");
            reveal_strlit("\\) (?<n>\\d)");
        }
        let text = replace(text.as_str(), "  ", " ");
        assert("  "@ == seq![' ', ' '] && " "@ == seq![' ']);
        let text = replace(text.as_str(), " .", " 0.");
        assert(" ."@ == seq![' ', '.'] && " 0."@ == seq![' ', '0', '.']);
        let text = replace(text.as_str(), "(.", "(0.");
        assert("(."@ == seq!['(', '.'] && "(0."@ == seq!['(', '0', '.']);
        let text = replace(text.as_str(), ") (", ") x (");
        assert(") ("@ == seq![')', ' ', '('] && ") x ("@ == seq![')', ' ', 'x', ' ', '(']);
        let text = replace(text.as_str(), "()", "(1)");
        assert("()"@ == seq!['(', ')'] && "(1)"@ == seq!['(', '1', ')']);
        assert(text@ == patterns_before_products(formated_output@));
        let text = regex_replace_all("(?<n>\\d) \\(", text.as_str(), "$n x (");
        proof {
            if is_ascii_chars(patterns_before_products(formated_output@)) {
                lemma_times_before_group_ascii(patterns_before_products(formated_output@));
            }
        }
        assert("\\) (?<n>\\d)"@ != "(?<n>\\d) \\("@) by {
            assert("\\) (?<n>\\d)"@[0] == '\\');
            assert("(?<n>\\d) \\("@[0] == '(');
        }
        regex_replace_all("\\) (?<n>\\d)", text.as_str(), ") x $n")
    }
}

/// The last touches but for the two that write out a product next to a
/// digit.
pub open spec fn patterns_before_products(t: Seq<char>) -> Seq<char> {
    let t0 = with_last_space(t);
    let t1 = replaced(t0, seq![' ', ' '], seq![' ']);
    let t2 = replaced(t1, seq![' ', '.'], seq![' ', '0', '.']);
    let t3 = replaced(t2, seq!['(', '.'], seq!['(', '0', '.']);
    let t4 = replaced(t3, seq![')', ' ', '('], seq![')', ' ', 'x', ' ', '(']);
    replaced(t4, seq!['(', ')'], seq!['(', '1', ')'])
}

/// Writing out a product before a group leaves ASCII text ASCII.
pub proof fn lemma_times_before_group_ascii(s: Seq<char>)
    requires
        is_ascii_chars(s),
    ensures
        is_ascii_chars(times_before_group(s)),
    decreases s.len(),
{
    if s.len() >= 3 {
        if is_digit(s[0]) && s[1] == ' ' && s[2] == '(' {
            lemma_times_before_group_ascii(s.skip(3));
        } else {
            lemma_times_before_group_ascii(s.skip(1));
        }
    }
}

/// An expression of no characters is shown as no text.
pub proof fn lemma_formatted_nothing()
    ensures
        formatted_segments(Seq::<char>::empty()) == Seq::<char>::empty(),
{
    let nothing = Seq::<char>::empty();
    lemma_number_end_unique(nothing, 0);
    lemma_point_index_unique(nothing, 0);
    assert(nothing.take(0) == nothing);
    assert(nothing.skip(0) == nothing);
    assert(grouped(nothing) + nothing == nothing);
}

/// Grouping the digits of ASCII text leaves it ASCII.
pub proof fn lemma_grouped_ascii(s: Seq<char>)
    requires
        is_ascii_chars(s),
    ensures
        is_ascii_chars(grouped(s)),
    decreases s.len(),
{
    if s.len() > 3 {
        lemma_grouped_ascii(s.take(s.len() - 3));
    }
}

/// Replacing ASCII text inside ASCII text leaves it ASCII.
pub proof fn lemma_replaced_ascii(s: Seq<char>, from: Seq<char>, to: Seq<char>)
    requires
        is_ascii_chars(s),
        is_ascii_chars(to),
    ensures
        is_ascii_chars(replaced(s, from, to)),
    decreases s.len(),
{
    if from.len() == 0 || s.len() < from.len() {
    } else if s.take(from.len() as int) == from {
        lemma_replaced_ascii(s.skip(from.len() as int), from, to);
    } else {
        lemma_replaced_ascii(s.skip(1), from, to);
    }
}

/// An expression of ASCII characters is shown, cut and spaced, as ASCII text.
pub proof fn lemma_formatted_segments_ascii(raw: Seq<char>)
    requires
        is_ascii_chars(raw),
    ensures
        is_ascii_chars(formatted_segments(raw)),
    decreases raw.len(),
{
    let n = number_end(raw);
    if 0 <= n < raw.len() {
        let number = raw.take(n);
        lemma_point_index(number);
        lemma_grouped_ascii(number.take(point_index(number)));
        lemma_formatted_segments_ascii(raw.skip(n + 1));
        assert(is_ascii_chars(number.skip(point_index(number))));
        assert(is_ascii_chars(spaced(raw[n])));
    } else {
        lemma_point_index(raw);
        lemma_grouped_ascii(raw.take(point_index(raw)));
        assert(is_ascii_chars(raw.skip(point_index(raw))));
    }
}

/// The last touches before the products leave ASCII text ASCII.
pub proof fn lemma_patterns_before_products_ascii(t: Seq<char>)
    requires
        is_ascii_chars(t),
    ensures
        is_ascii_chars(patterns_before_products(t)),
{
    let t0 = with_last_space(t);
    let t1 = replaced(t0, seq![' ', ' '], seq![' ']);
    let t2 = replaced(t1, seq![' ', '.'], seq![' ', '0', '.']);
    let t3 = replaced(t2, seq!['(', '.'], seq!['(', '0', '.']);
    let t4 = replaced(t3, seq![')', ' ', '('], seq![')', ' ', 'x', ' ', '(']);
    lemma_replaced_ascii(t0, seq![' ', ' '], seq![' ']);
    lemma_replaced_ascii(t1, seq![' ', '.'], seq![' ', '0', '.']);
    lemma_replaced_ascii(t2, seq!['(', '.'], seq!['(', '0', '.']);
    lemma_replaced_ascii(t3, seq![')', ' ', '('], seq![')', ' ', 'x', ' ', '(']);
    lemma_replaced_ascii(t4, seq!['(', ')'], seq!['(', '1', ')']);
}

/// Writing out a product after a group leaves ASCII text ASCII.
pub proof fn lemma_times_after_group_ascii(s: Seq<char>)
    requires
        is_ascii_chars(s),
    ensures
        is_ascii_chars(times_after_group(s)),
    decreases s.len(),
{
    if s.len() >= 3 {
        if s[0] == ')' && s[1] == ' ' && is_digit(s[2]) {
            lemma_times_after_group_ascii(s.skip(3));
        } else {
            lemma_times_after_group_ascii(s.skip(1));
        }
    }
}

/// An expression of ASCII characters is shown as ASCII text.
pub proof fn lemma_formatted_ascii(raw: Seq<char>)
    requires
        is_ascii_chars(raw),
    ensures
        is_ascii_chars(formatted(raw)),
{
    let spaced_text = formatted_segments(raw);
    lemma_formatted_segments_ascii(raw);
    lemma_patterns_before_products_ascii(spaced_text);
    lemma_times_before_group_ascii(patterns_before_products(spaced_text));
    lemma_times_after_group_ascii(times_before_group(patterns_before_products(spaced_text)));
}

/// The expression `0` is shown as `0` and a space.
pub proof fn lemma_formatted_zero()
    ensures
        formatted(seq!['0']) == seq!['0', ' '],
{
    let raw = seq!['0'];
    let shown = seq!['0', ' '];
    lemma_number_end_unique(raw, 1);
    lemma_point_index_unique(raw, 1);
    assert(raw.take(1) == raw);
    assert(raw.skip(1) == Seq::<char>::empty());
    assert(grouped(raw) + Seq::<char>::empty() == raw);
    assert(formatted_segments(raw) == raw);
    assert(with_last_space(raw) == shown);
    assert(shown.skip(1) == seq![' ']);
    assert(seq![' '].skip(1) == Seq::<char>::empty());
    assert forall|from: Seq<char>, to: Seq<char>|
        from.len() >= 2 && from[0] != '0' implies #[trigger] replaced(shown, from, to) == shown by {
        if from.len() == 2 {
            assert(shown.take(2)[0] != from[0]);
            assert(replaced(shown.skip(1), from, to) == shown.skip(1));
            assert(seq![shown[0]] + shown.skip(1) == shown);
        }
    }
    assert(replaced(shown, seq![' ', ' '], seq![' ']) == shown);
    assert(replaced(shown, seq![' ', '.'], seq![' ', '0', '.']) == shown);
    assert(replaced(shown, seq!['(', '.'], seq!['(', '0', '.']) == shown);
    assert(replaced(shown, seq![')', ' ', '('], seq![')', ' ', 'x', ' ', '(']) == shown);
    assert(replaced(shown, seq!['(', ')'], seq!['(', '1', ')']) == shown);
}

} // verus!
