//! The editing rules: what each key press makes of the expression typed so
//! far. The expression is never empty: `0` stands for no input yet.

use vstd::prelude::*;
use crate::calculator::CalculatorApp;
use crate::text::{
    chars_of, count, count_char, is_digit, is_operator, is_operator_char, lemma_count_concat,
    string_of,
};

verus! {

/// The most characters that digits make an expression hold: one that has
/// as many takes no more digits.
pub const MAX_LENGTH: usize = 100;

/// The character of the digit `num`.
pub open spec fn digit_of(num: u32) -> char {
    ((num + 48) as u8) as char
}

/// The expression that stands for no input.
pub open spec fn is_zero(raw: Seq<char>) -> bool {
    raw == seq!['0']
}

/// After a digit: it takes the place of a lone `0`, and otherwise goes to
/// the end, unless the expression is full: a digit never makes it longer
/// than [`MAX_LENGTH`].
pub open spec fn number_entered(raw: Seq<char>, num: u32) -> Seq<char> {
    if is_zero(raw) {
        seq![digit_of(num)]
    } else if raw.len() < MAX_LENGTH {
        raw.push(digit_of(num))
    } else {
        raw
    }
}

/// After an operator: it takes the place of an operator at the end, follows
/// a `0` put in after an opening parenthesis, and otherwise goes to the end.
pub open spec fn operator_entered(raw: Seq<char>, op: char) -> Seq<char> {
    if raw.len() == 0 {
        raw
    } else if is_operator(raw.last()) {
        raw.drop_last().push(op)
    } else if raw.last() == '(' {
        raw.push('0').push(op)
    } else {
        raw.push(op)
    }
}

/// The number being typed holds a decimal point: there is one with no
/// operator after it.
pub open spec fn has_point(raw: Seq<char>) -> bool {
    exists|i: int|
        0 <= i < raw.len() && raw[i] == '.' && forall|j: int|
            i < j < raw.len() ==> !is_operator(#[trigger] raw[j])
}

/// After the decimal point: it goes to the end, unless the number being
/// typed holds one already.
pub open spec fn dot_entered(raw: Seq<char>) -> Seq<char> {
    if raw.len() == 0 {
        raw
    } else if is_operator(raw.last()) || !has_point(raw) {
        raw.push('.')
    } else {
        raw
    }
}

/// After a parenthesis. A closing one is taken only while one is open, and
/// then takes the place of an operator at the end, or goes to the end. Any
/// other one opens a group: it takes the place of a lone `0`, and otherwise
/// goes to the end.
pub open spec fn parentheses_entered(raw: Seq<char>, par: char) -> Seq<char> {
    if par == ')' {
        if count(raw, '(') > count(raw, ')') {
            if is_operator(raw.last()) {
                raw.drop_last().push(')')
            } else {
                raw.push(')')
            }
        } else {
            raw
        }
    } else if is_zero(raw) {
        seq!['(']
    } else {
        raw.push(par)
    }
}

/// After the delete key: the last character goes, and `0` stands where
/// nothing is left.
pub open spec fn deleted(raw: Seq<char>) -> Seq<char> {
    if raw.len() <= 1 {
        seq!['0']
    } else {
        raw.drop_last()
    }
}

/// After the clear key.
pub open spec fn cleared() -> Seq<char> {
    seq!['0']
}

/// A character that cannot end an expression.
pub open spec fn is_dangling(c: char) -> bool {
    is_operator(c) || c == '(' || c == '.' || c == ' '
}

/// `raw` without the characters at its end that cannot end an expression.
pub open spec fn trimmed(raw: Seq<char>) -> Seq<char>
    decreases raw.len(),
{
    if raw.len() > 0 && is_dangling(raw.last()) {
        trimmed(raw.drop_last())
    } else {
        raw
    }
}

/// How many parentheses of `s` are still open.
pub open spec fn unclosed(s: Seq<char>) -> nat {
    if count(s, '(') > count(s, ')') {
        (count(s, '(') - count(s, ')')) as nat
    } else {
        0
    }
}

/// The expression made ready for evaluation: trimmed, and with a closing
/// parenthesis for each one that is still open.
pub open spec fn closed_expression(raw: Seq<char>) -> Seq<char> {
    let t = trimmed(raw);
    t + Seq::new(unclosed(t), |i: int| ')')
}

/// A closed expression leaves no parenthesis open.
pub proof fn lemma_closed_expression_balanced(raw: Seq<char>)
    ensures
        unclosed(closed_expression(raw)) == 0,
        count(trimmed(raw), '(') >= count(trimmed(raw), ')') ==> count(
            closed_expression(raw),
            '(',
        ) == count(closed_expression(raw), ')'),
{
    let t = trimmed(raw);
    let closing = Seq::new(unclosed(t), |i: int| ')');
    lemma_count_concat(t, closing, '(');
    lemma_count_concat(t, closing, ')');
    lemma_count_run(unclosed(t));
}

/// A run of closing parentheses holds as many of them as it is long, and no
/// opening one.
pub proof fn lemma_count_run(n: nat)
    ensures
        count(Seq::new(n, |i: int| ')'), ')') == n,
        count(Seq::new(n, |i: int| ')'), '(') == 0,
    decreases n,
{
    if n > 0 {
        lemma_count_run((n - 1) as nat);
        assert(Seq::new(n, |i: int| ')').drop_last() == Seq::new((n - 1) as nat, |i: int| ')'));
    }
}

/// The character of the digit `num`.
pub fn digit_char(num: u32) -> (c: char)
    requires
        num <= 9,
    ensures
        c == digit_of(num),
        is_digit(c),
{
    (num as u8 + 48u8) as char
}

/// Whether `chars` is the expression that stands for no input.
fn is_zero_chars(chars: &Vec<char>) -> (b: bool)
    ensures
        b == is_zero(chars@),
{
    if chars.len() == 1 && chars[0] == '0' {
        assert(chars@ =~= seq!['0']);
        true
    } else {
        assert(seq!['0'].len() == 1 && seq!['0'][0] == '0');
        false
    }
}

impl CalculatorApp {
    /// Takes the digit `num` into the expression.
    pub fn handle_message_number(&self, output: String, num: u32) -> (next: String)
        requires
            num <= 9,
        ensures
            next@ == number_entered(output@, num),
            output@.len() > 0 ==> next@.len() > 0,
            output@.len() <= MAX_LENGTH ==> next@.len() <= MAX_LENGTH,
            output@.len() >= MAX_LENGTH && !is_zero(output@) ==> next@ == output@,
    {
        let mut chars = chars_of(output.as_str());
        let digit = digit_char(num);
        if is_zero_chars(&chars) {
            chars.clear();
            chars.push(digit);
            assert(chars@ =~= seq![digit]);
        } else if chars.len() < MAX_LENGTH {
            chars.push(digit);
        }
        string_of(&chars)
    }

    /// Takes the operator `op` into the expression.
    pub fn handle_message_operator(&self, output: String, op: char) -> (next: String)
        ensures
            next@ == operator_entered(output@, op),
            output@.len() > 0 ==> next@.len() > 0,
    {
        let mut chars = chars_of(output.as_str());
        let len = chars.len();
        if len > 0 {
            let last_char = chars[len - 1];
            if self.is_an_operator(last_char) {
                chars.pop();
            } else if last_char == '(' {
                chars.push('0');
            }
            chars.push(op);
        }
        string_of(&chars)
    }

    /// Takes a decimal point into the expression.
    pub fn handle_message_dot(&self, output: String) -> (next: String)
        ensures
            next@ == dot_entered(output@),
            output@.len() > 0 ==> next@.len() > 0,
    {
        let mut chars = chars_of(output.as_str());
        let len = chars.len();
        if len > 0 {
            if self.is_an_operator(chars[len - 1]) {
                chars.push('.');
            } else {
                let mut i: usize = len;
                let mut found = false;
                while i > 0 && !found && !is_operator_char(chars[i - 1])
                    invariant
                        i <= len == chars.len(),
                        chars@ == output@,
                        forall|j: int| i <= j < len ==> !is_operator(#[trigger] chars@[j]),
                        found ==> i < len && chars@[i as int] == '.',
                        !found ==> forall|j: int| i <= j < len ==> chars@[j] != '.',
                    decreases i,
                {
                    i -= 1;
                    if chars[i] == '.' {
                        found = true;
                    }
                }
                proof {
                    if found {
                        assert(has_point(output@));
                    } else {
                        assert forall|k: int|
                            0 <= k < len && output@[k] == '.' implies !(forall|j: int|
                            k < j < len ==> !is_operator(#[trigger] output@[j])) by {
                            assert(k < i);
                            assert(is_operator(output@[i - 1]));
                        }
                        assert(!has_point(output@));
                    }
                }
                if !found {
                    chars.push('.');
                }
            }
        }
        string_of(&chars)
    }

    /// Takes the parenthesis `par` into the expression.
    pub fn handle_message_parentheses(&self, output: String, par: char) -> (next: String)
        ensures
            next@ == parentheses_entered(output@, par),
            output@.len() > 0 ==> next@.len() > 0,
    {
        let mut chars = chars_of(output.as_str());
        if par == ')' {
            let opened_par_count = count_char(output.as_str(), '(');
            let closed_par_count = count_char(output.as_str(), ')');
            if opened_par_count > closed_par_count {
                let len = chars.len();
                if len > 0 && self.is_an_operator(chars[len - 1]) {
                    chars.pop();
                }
                chars.push(par);
            }
        } else if is_zero_chars(&chars) {
            chars.clear();
            chars.push('(');
            assert(chars@ =~= seq!['(']);
        } else {
            chars.push(par);
        }
        string_of(&chars)
    }

    /// Takes the last character off the expression.
    pub fn handle_message_delete(&self, output: String) -> (next: String)
        ensures
            next@ == deleted(output@),
            next@.len() > 0,
    {
        let mut chars = chars_of(output.as_str());
        if !is_zero_chars(&chars) {
            chars.pop();
        }
        if chars.len() == 0 {
            chars.push('0');
            assert(chars@ =~= seq!['0']);
        }
        string_of(&chars)
    }

    /// Empties the memory line and starts the expression anew.
    pub fn handle_message_clear(&mut self) -> (next: String)
        ensures
            next@ == cleared(),
            final(self).memory_output@ == Seq::<char>::empty(),
            final(self).result_output == old(self).result_output,
            final(self).buttons == old(self).buttons,
    {
        self.memory_output = String::new();
        let mut chars: Vec<char> = Vec::new();
        chars.push('0');
        assert(chars@ =~= seq!['0']);
        string_of(&chars)
    }

    /// Makes the expression ready for evaluation: see [`closed_expression`].
    pub fn close_expression(&self, output: String) -> (closed: String)
        ensures
            closed@ == closed_expression(output@),
            unclosed(closed@) == 0,
    {
        proof {
            lemma_closed_expression_balanced(output@);
        }
        let mut chars = chars_of(output.as_str());
        while chars.len() > 0 && is_dangling_char(chars[chars.len() - 1])
            invariant
                trimmed(chars@) == trimmed(output@),
            decreases chars.len(),
        {
            chars.pop();
        }
        let trimmed_text = string_of(&chars);
        let opened_par_count = count_char(trimmed_text.as_str(), '(');
        let mut closed_par_count = count_char(trimmed_text.as_str(), ')');
        let ghost t = chars@;
        let ghost start = closed_par_count;
        while closed_par_count < opened_par_count
            invariant
                start <= closed_par_count,
                opened_par_count == count(t, '('),
                start == count(t, ')'),
                closed_par_count <= opened_par_count || closed_par_count == start,
                chars@ == t + Seq::new((closed_par_count - start) as nat, |i: int| ')'),
            decreases opened_par_count - closed_par_count,
        {
            chars.push(')');
            closed_par_count += 1;
        }
        string_of(&chars)
    }
}

/// Whether `c` cannot end an expression.
fn is_dangling_char(c: char) -> (b: bool)
    ensures
        b == is_dangling(c),
{
    is_operator_char(c) || c == '(' || c == '.' || c == ' '
}

} // verus!
