//! The expression parser: a recursive descent over the infix text of an
//! arithmetic expression, which yields the expression's syntax tree.

use vstd::pervasive::unreached;
use vstd::prelude::*;
use vstd::string::StrSliceExecFns;
use crate::grammar::{
    is_expression, is_factor, is_term, lemma_closing_is_parenthesis, lemma_expression_sound,
    lemma_factor_sound, lemma_term_sound, lemma_whole_expression, rendered,
};
use crate::text::{
    chars_of, count, is_digit, is_digit_char, is_terminator, is_terminator_char,
    lemma_count_push,
};

verus! {

/// The four binary operations.
#[derive(Debug, Clone, Copy, PartialEq, Eq, Structural)]
pub enum Operation {
    Add,
    Subtract,
    Multiply,
    Divide,
}

/// The syntax tree of an expression, as the parser hands it out.
#[derive(Debug)]
pub enum Expr {
    /// A number, by its text.
    Number(String),
    /// An expression in parentheses.
    Group(Box<Expr>),
    /// Two expressions joined by an operator.
    Binary(Operation, Box<Expr>, Box<Expr>),
}

/// The mathematical form of a syntax tree.
pub enum Tree {
    Number(Seq<char>),
    Group(Box<Tree>),
    Binary(Operation, Box<Tree>, Box<Tree>),
}

impl Expr {
    /// The tree that this value stands for.
    pub open spec fn tree(self) -> Tree
        decreases self,
    {
        match self {
            Expr::Number(text) => Tree::Number(text@),
            Expr::Group(inner) => Tree::Group(Box::new((*inner).tree())),
            Expr::Binary(op, left, right) => Tree::Binary(
                op,
                Box::new((*left).tree()),
                Box::new((*right).tree()),
            ),
        }
    }
}

impl View for Expr {
    type V = Tree;

    open spec fn view(&self) -> Tree {
        self.tree()
    }
}

/// What a parse consumed and the tree it built.
#[derive(Debug)]
pub struct ParseResult {
    pub length: usize,
    pub value: Expr,
}

/// The prefix of `s` is balanced at `i` when it holds as many closing as
/// opening parentheses up to and including position `i`.
pub open spec fn balanced_at(s: Seq<char>, i: int) -> bool {
    0 <= i < s.len() && count(s.take(i + 1), '(') == count(s.take(i + 1), ')')
}

/// `i` is the first position at which `s` is balanced. Where `s` starts with
/// an opening parenthesis, this is the place of the parenthesis that closes it.
pub open spec fn is_closing_index(s: Seq<char>, i: int) -> bool {
    balanced_at(s, i) && forall|j: int| 0 <= j < i ==> !balanced_at(s, j)
}

/// The first position at which `s` is balanced, if there is one.
pub open spec fn closing_index(s: Seq<char>) -> Option<int> {
    if exists|i: int| is_closing_index(s, i) {
        Some(choose|i: int| is_closing_index(s, i))
    } else {
        None
    }
}

/// At most one position is the first at which `s` is balanced.
pub proof fn lemma_closing_index_unique(s: Seq<char>, i: int, j: int)
    requires
        is_closing_index(s, i),
        is_closing_index(s, j),
    ensures
        i == j,
{
}

/// Looks for the parenthesis that closes the one at the start of `input`:
/// the first position up to which opening and closing parentheses are equal
/// in number. `None` when there is no such position.
pub fn closing_parenthese(input: &str) -> (found: Option<usize>)
    ensures
        match found {
            Some(i) => is_closing_index(input@, i as int),
            None => forall|j: int| !balanced_at(input@, j),
        },
        closing_index(input@) == match found {
            Some(i) => Some(i as int),
            None => None,
        },
        found matches Some(i) ==> (input@[0] == '(' ==> i >= 1 && input@[i as int] == ')'),
{
    let chars = chars_of(input);
    let mut opened: usize = 0;
    let mut closed: usize = 0;
    let mut index: usize = 0;
    while index < chars.len()
        invariant
            index <= chars.len(),
            chars@ == input@,
            opened == count(chars@.take(index as int), '('),
            closed == count(chars@.take(index as int), ')'),
            opened <= index,
            closed <= index,
            forall|j: int| 0 <= j < index ==> !balanced_at(chars@, j),
        decreases chars.len() - index,
    {
        proof {
            let before = chars@.take(index as int);
            assert(chars@.take(index + 1) == before.push(chars@[index as int]));
            lemma_count_push(before, chars@[index as int], '(');
            lemma_count_push(before, chars@[index as int], ')');
        }
        let c = chars[index];
        if c == '(' {
            opened += 1;
        } else if c == ')' {
            closed += 1;
        }
        if opened == closed {
            proof {
                assert(is_closing_index(input@, index as int));
                assert forall|i: int| is_closing_index(input@, i) implies i == index by {
                    lemma_closing_index_unique(input@, i, index as int);
                }
                if input@[0] == '(' {
                    lemma_closing_is_parenthesis(input@, index as int);
                }
            }
            return Some(index);
        }
        index += 1;
    }
    proof {
        assert forall|i: int| !is_closing_index(input@, i) by {}
    }
    None
}

/// Finds the parenthesis that closes the one at the start of `input`: the
/// first position up to which opening and closing parentheses are equal in
/// number. The text must be balanced somewhere; [`closing_parenthese`] takes
/// any text.
pub fn find_closing_parenthese(input: &str) -> (index: usize)
    requires
        exists|i: int| balanced_at(input@, i),
    ensures
        is_closing_index(input@, index as int),
        closing_index(input@) == Some(index as int),
        input@[0] == '(' ==> index >= 1 && input@[index as int] == ')',
{
    match closing_parenthese(input) {
        Some(index) => index,
        None => unreached(),
    }
}

/// `n` is where the number at the start of `s` ends: the place of the first
/// terminator, or the end of `s` when it holds none.
pub open spec fn is_number_end(s: Seq<char>, n: int) -> bool {
    &&& 0 <= n <= s.len()
    &&& n < s.len() ==> is_terminator(s[n])
    &&& forall|j: int| 0 <= j < n ==> !is_terminator(s[j])
}

/// Where the number at the start of `s` ends.
pub open spec fn number_end(s: Seq<char>) -> int {
    choose|n: int| is_number_end(s, n)
}

/// The text of a number: digits with at most one decimal point among them,
/// and at least one digit.
pub open spec fn is_number(t: Seq<char>) -> bool {
    &&& forall|i: int| 0 <= i < t.len() ==> is_digit(t[i]) || t[i] == '.'
    &&& count(t, '.') <= 1
    &&& exists|i: int| 0 <= i < t.len() && is_digit(t[i])
}

/// The operation that an operator sign at term level stands for.
pub open spec fn term_operation(c: char) -> Option<Operation> {
    if c == 'x' {
        Some(Operation::Multiply)
    } else if c == '/' {
        Some(Operation::Divide)
    } else {
        None
    }
}

/// The operation that an operator sign at expression level stands for.
pub open spec fn sum_operation(c: char) -> Option<Operation> {
    if c == '+' {
        Some(Operation::Add)
    } else if c == '-' {
        Some(Operation::Subtract)
    } else {
        None
    }
}

/// The number at the start of `s`: how long it is, and its leaf.
pub open spec fn number_spec(s: Seq<char>) -> Option<(int, Tree)> {
    let n = number_end(s);
    if is_number(s.take(n)) {
        Some((n, Tree::Number(s.take(n))))
    } else {
        None
    }
}

/// The factor at the start of `s`: a number, or an expression that fills a
/// pair of parentheses.
pub open spec fn factor_spec(s: Seq<char>) -> Option<(int, Tree)>
    decreases s.len(), 0int, 0int,
{
    if s.len() == 0 {
        None
    } else if s[0] == '(' {
        match closing_index(s) {
            Some(c) => if 1 <= c < s.len() {
                match expression_spec(s.subrange(1, c)) {
                    Some((n, inner)) => if n == c - 1 {
                        Some((c + 1, Tree::Group(Box::new(inner))))
                    } else {
                        None
                    },
                    None => None,
                }
            } else {
                None
            },
            None => None,
        }
    } else {
        number_spec(s)
    }
}

/// A term goes on: `left` is the tree of the first `n` characters of `s`, and
/// each `x` or `/` that follows takes one more factor into it, from the left.
pub open spec fn term_tail(s: Seq<char>, n: int, left: Tree) -> Option<(int, Tree)>
    decreases s.len(), 1int, s.len() - n,
{
    if 0 <= n < s.len() && term_operation(s[n]) is Some {
        match factor_spec(s.skip(n + 1)) {
            Some((m, right)) => if 0 <= m <= s.len() - n - 1 {
                term_tail(
                    s,
                    n + 1 + m,
                    Tree::Binary(term_operation(s[n])->0, Box::new(left), Box::new(right)),
                )
            } else {
                None
            },
            None => None,
        }
    } else {
        Some((n, left))
    }
}

/// The term at the start of `s`: factors joined by `x` and `/`.
pub open spec fn term_spec(s: Seq<char>) -> Option<(int, Tree)>
    decreases s.len(), 2int, 0int,
{
    match factor_spec(s) {
        Some((n, first)) => term_tail(s, n, first),
        None => None,
    }
}

/// An expression goes on: `left` is the tree of the first `n` characters of
/// `s`, and each `+` or `-` that follows takes one more term into it, from
/// the left.
pub open spec fn expression_tail(s: Seq<char>, n: int, left: Tree) -> Option<(int, Tree)>
    decreases s.len(), 3int, s.len() - n,
{
    if 0 <= n < s.len() && sum_operation(s[n]) is Some {
        match term_spec(s.skip(n + 1)) {
            Some((m, right)) => if 0 <= m <= s.len() - n - 1 {
                expression_tail(
                    s,
                    n + 1 + m,
                    Tree::Binary(sum_operation(s[n])->0, Box::new(left), Box::new(right)),
                )
            } else {
                None
            },
            None => None,
        }
    } else {
        Some((n, left))
    }
}

/// The expression at the start of `s`: terms joined by `+` and `-`.
pub open spec fn expression_spec(s: Seq<char>) -> Option<(int, Tree)>
    decreases s.len(), 4int, 0int,
{
    match term_spec(s) {
        Some((n, first)) => expression_tail(s, n, first),
        None => None,
    }
}

/// What a parse returned: how many characters it read, and the tree of what
/// it read.
pub open spec fn parsed(res: Option<ParseResult>) -> Option<(int, Tree)> {
    match res {
        Some(r) => Some((r.length as int, r.value@)),
        None => None,
    }
}

/// Every text has a place where the number at its start ends.
pub proof fn lemma_number_end(s: Seq<char>)
    ensures
        is_number_end(s, number_end(s)),
    decreases s.len(),
{
    if s.len() == 0 || is_terminator(s[0]) {
        assert(is_number_end(s, 0));
    } else {
        lemma_number_end(s.skip(1));
        let n = number_end(s.skip(1));
        assert forall|j: int| 0 <= j < n + 1 implies !is_terminator(s[j]) by {
            if j > 0 {
                assert(s[j] == s.skip(1)[j - 1]);
            }
        }
        assert(n < s.skip(1).len() ==> s[n + 1] == s.skip(1)[n]);
        assert(is_number_end(s, n + 1));
    }
}

/// At most one position is the end of the number at the start of `s`.
pub proof fn lemma_number_end_unique(s: Seq<char>, n: int)
    requires
        is_number_end(s, n),
    ensures
        number_end(s) == n,
{
    let m = number_end(s);
    assert(is_number_end(s, m));
    if m < n {
        assert(is_terminator(s[m]));
    }
    if n < m {
        assert(is_terminator(s[n]));
    }
}

/// Reads the number at the start of `input`: everything before the first
/// operator or parenthesis. `None` when that text is not a number.
pub fn read_number(input: &str) -> (res: Option<ParseResult>)
    ensures
        parsed(res) == number_spec(input@),
        res matches Some(r) ==> {
            &&& 0 < r.length <= input@.len()
            &&& is_number_end(input@, r.length as int)
            &&& is_number(input@.take(r.length as int))
            &&& r.value@ == Tree::Number(input@.take(r.length as int))
        },
{
    proof {
        lemma_number_end(input@);
    }
    let chars = chars_of(input);
    let mut n: usize = 0;
    while n < chars.len() && !is_terminator_char(chars[n])
        invariant
            n <= chars.len(),
            forall|j: int| 0 <= j < n ==> !is_terminator(chars@[j]),
        decreases chars.len() - n,
    {
        n += 1;
    }
    proof {
        lemma_number_end_unique(input@, n as int);
    }
    let ghost text = input@.take(n as int);
    let mut dots: usize = 0;
    let mut seen_digit = false;
    let mut i: usize = 0;
    while i < n
        invariant
            i <= n <= chars.len(),
            chars@ == input@,
            text == input@.take(n as int),
            number_end(input@) == n,
            forall|j: int| 0 <= j < i ==> is_digit(text[j]) || text[j] == '.',
            dots == count(text.take(i as int), '.'),
            dots <= i,
            seen_digit == exists|j: int| 0 <= j < i && is_digit(text[j]),
        decreases n - i,
    {
        proof {
            assert(text.take(i + 1) == text.take(i as int).push(text[i as int]));
            lemma_count_push(text.take(i as int), text[i as int], '.');
        }
        let c = chars[i];
        if is_digit_char(c) {
            seen_digit = true;
        } else if c == '.' {
            dots += 1;
        } else {
            assert(!is_number(text));
            return None;
        }
        i += 1;
    }
    proof {
        assert(text.take(n as int) == text);
    }
    if dots > 1 || !seen_digit {
        return None;
    }
    let literal = input.substring_char(0, n).to_owned();
    proof {
        assert(input@.subrange(0, n as int) == text);
    }
    Some(ParseResult { length: n, value: Expr::Number(literal) })
}

/// Parses the factor at the start of `input`: a number, or a parenthesis
/// with the expression that fills it up to its closing parenthesis.
pub fn parse_factor(input: &str) -> (res: Option<ParseResult>)
    ensures
        parsed(res) == factor_spec(input@),
        res matches Some(r) ==> {
            &&& 0 < r.length <= input@.len()
            &&& is_factor(r.value@)
            &&& rendered(r.value@) == input@.take(r.length as int)
        },
    decreases input@.len(), 0int, 0int,
{
    proof {
        lemma_factor_sound(input@);
    }
    let len = input.unicode_len();
    if len == 0 {
        return None;
    }
    if input.get_char(0) != '(' {
        return read_number(input);
    }
    match closing_parenthese(input) {
        None => None,
        Some(closing) => {
            match parse_expression(input.substring_char(1, closing)) {
                None => None,
                Some(inner) => {
                    if inner.length == closing - 1 {
                        Some(
                            ParseResult {
                                length: closing + 1,
                                value: Expr::Group(Box::new(inner.value)),
                            },
                        )
                    } else {
                        None
                    }
                },
            }
        },
    }
}

/// Parses the term at the start of `input`: factors joined by `x` and `/`,
/// taken together from the left.
pub fn parse_term(input: &str) -> (res: Option<ParseResult>)
    ensures
        parsed(res) == term_spec(input@),
        res matches Some(r) ==> {
            &&& 0 < r.length <= input@.len()
            &&& is_term(r.value@)
            &&& rendered(r.value@) == input@.take(r.length as int)
        },
    decreases input@.len(), 2int, 0int,
{
    proof {
        lemma_term_sound(input@);
    }
    let len = input.unicode_len();
    let first = match parse_factor(input) {
        Some(first) => first,
        None => { return None; },
    };
    let mut n: usize = first.length;
    let mut tree: Expr = first.value;
    loop
        invariant
            n <= len == input@.len(),
            term_spec(input@) == term_tail(input@, n as int, tree@),
        ensures
            n <= len == input@.len(),
            term_spec(input@) == Some((n as int, tree@)),
        decreases len - n,
    {
        if n >= len {
            break ;
        }
        let c = input.get_char(n);
        let op = if c == 'x' {
            Operation::Multiply
        } else if c == '/' {
            Operation::Divide
        } else {
            break ;
        };
        match parse_factor(input.substring_char(n + 1, len)) {
            None => { return None; },
            Some(factor) => {
                n = n + 1 + factor.length;
                tree = Expr::Binary(op, Box::new(tree), Box::new(factor.value));
            },
        }
    }
    Some(ParseResult { length: n, value: tree })
}

/// Parses the expression at the start of `input`: terms joined by `+` and
/// `-`, taken together from the left. The result holds how many characters
/// the expression spans and its tree; `None` when `input` does not start
/// with an expression.
pub fn parse_expression(input: &str) -> (res: Option<ParseResult>)
    ensures
        parsed(res) == expression_spec(input@),
        res matches Some(r) ==> {
            &&& 0 < r.length <= input@.len()
            &&& is_expression(r.value@)
            &&& rendered(r.value@) == input@.take(r.length as int)
        },
    decreases input@.len(), 4int, 0int,
{
    proof {
        lemma_expression_sound(input@);
    }
    let len = input.unicode_len();
    let first = match parse_term(input) {
        Some(first) => first,
        None => { return None; },
    };
    let mut n: usize = first.length;
    let mut tree: Expr = first.value;
    loop
        invariant
            n <= len == input@.len(),
            expression_spec(input@) == expression_tail(input@, n as int, tree@),
        ensures
            n <= len == input@.len(),
            expression_spec(input@) == Some((n as int, tree@)),
        decreases len - n,
    {
        if n >= len {
            break ;
        }
        let c = input.get_char(n);
        let op = if c == '+' {
            Operation::Add
        } else if c == '-' {
            Operation::Subtract
        } else {
            break ;
        };
        match parse_term(input.substring_char(n + 1, len)) {
            None => { return None; },
            Some(term) => {
                n = n + 1 + term.length;
                tree = Expr::Binary(op, Box::new(tree), Box::new(term.value));
            },
        }
    }
    Some(ParseResult { length: n, value: tree })
}

/// The tree of `s` where the whole of `s` is one expression.
pub open spec fn whole_expression(s: Seq<char>) -> Option<Tree> {
    match expression_spec(s) {
        Some((n, tree)) => if n == s.len() {
            Some(tree)
        } else {
            None
        },
        None => None,
    }
}

/// Parses `input` as one expression, from its first character to its last:
/// the result is the one expression tree that has `input` for its text.
/// `None` when `input` is no expression, or goes on after one.
pub fn parse_whole_expression(input: &str) -> (res: Option<Expr>)
    ensures
        match res {
            Some(tree) => {
                &&& whole_expression(input@) == Some(tree@)
                &&& is_expression(tree@)
                &&& rendered(tree@) == input@
            },
            None => {
                &&& whole_expression(input@) is None
                &&& forall|tree: Tree| !(is_expression(tree) && #[trigger] rendered(tree) == input@)
            },
        },
{
    proof {
        assert forall|tree: Tree|
            whole_expression(input@) == Some(tree) <==> is_expression(tree) && #[trigger] rendered(
                tree,
            ) == input@ by {
            lemma_whole_expression(input@, tree);
        }
    }
    match parse_expression(input) {
        Some(parsed) => {
            if parsed.length == input.unicode_len() {
                Some(parsed.value)
            } else {
                None
            }
        },
        None => None,
    }
}

} // verus!
