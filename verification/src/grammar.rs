//! The grammar that the parser reads, stated over trees: which trees are
//! expressions, what text a tree stands for, and that a parse yields the one
//! expression whose text it has read.

use vstd::prelude::*;
use vstd::utf8::is_ascii_chars;
use crate::operations::{
    balanced_at, closing_index, expression_spec, expression_tail, factor_spec, is_closing_index,
    is_number, lemma_closing_index_unique, lemma_number_end, lemma_number_end_unique,
    number_end, sum_operation, term_operation, term_spec, term_tail, whole_expression,
    Operation, Tree,
};
use crate::text::{
    count, is_digit, is_terminator, lemma_count_concat, lemma_count_none, lemma_count_push,
};

verus! {

/// The sign of an operation.
pub open spec fn sign(op: Operation) -> char {
    match op {
        Operation::Add => '+',
        Operation::Subtract => '-',
        Operation::Multiply => 'x',
        Operation::Divide => '/',
    }
}

/// The text that a tree stands for.
pub open spec fn rendered(tree: Tree) -> Seq<char>
    decreases tree,
{
    match tree {
        Tree::Number(text) => text,
        Tree::Group(inner) => seq!['('] + rendered(*inner) + seq![')'],
        Tree::Binary(op, left, right) => rendered(*left) + seq![sign(op)] + rendered(*right),
    }
}

/// A factor: a number, or an expression in parentheses.
pub open spec fn is_factor(tree: Tree) -> bool
    decreases tree, 0int,
{
    match tree {
        Tree::Number(text) => is_number(text),
        Tree::Group(inner) => is_expression(*inner),
        Tree::Binary(_, _, _) => false,
    }
}

/// A term: a factor, or a term multiplied or divided by a factor. Products
/// and quotients are taken together from the left.
pub open spec fn is_term(tree: Tree) -> bool
    decreases tree, 1int,
{
    match tree {
        Tree::Binary(op, left, right) => {
            &&& op == Operation::Multiply || op == Operation::Divide
            &&& is_term(*left)
            &&& is_factor(*right)
        },
        _ => is_factor(tree),
    }
}

/// An expression: a term, or an expression with a term added or subtracted.
/// Sums and differences are taken together from the left, and each of their
/// operands is a whole term: products bind tighter than sums.
pub open spec fn is_expression(tree: Tree) -> bool
    decreases tree, 2int,
{
    match tree {
        Tree::Binary(op, left, right) => if op == Operation::Add || op == Operation::Subtract {
            is_expression(*left) && is_term(*right)
        } else {
            is_term(tree)
        },
        _ => is_term(tree),
    }
}

/// Before the place where a text that starts with an opening parenthesis is
/// first balanced, more parentheses are open than closed.
pub proof fn lemma_open_before_closing(s: Seq<char>, c: int, j: int)
    requires
        s.len() > 0,
        s[0] == '(',
        is_closing_index(s, c),
        0 <= j < c,
    ensures
        count(s.take(j + 1), '(') > count(s.take(j + 1), ')'),
    decreases j,
{
    let upto = s.take(j + 1);
    assert(upto == s.take(j).push(s[j]));
    lemma_count_push(s.take(j), s[j], '(');
    lemma_count_push(s.take(j), s[j], ')');
    if j > 0 {
        lemma_open_before_closing(s, c, j - 1);
    }
    assert(!balanced_at(s, j));
}

/// A text that starts with an opening parenthesis is first balanced at a
/// closing one.
pub proof fn lemma_closing_is_parenthesis(s: Seq<char>, c: int)
    requires
        s.len() > 0,
        s[0] == '(',
        is_closing_index(s, c),
    ensures
        1 <= c < s.len(),
        s[c] == ')',
{
    assert(s.take(1) == Seq::<char>::empty().push(s[0]));
    lemma_count_push(Seq::<char>::empty(), s[0], '(');
    lemma_count_push(Seq::<char>::empty(), s[0], ')');
    assert(!balanced_at(s, 0));
    lemma_open_before_closing(s, c, c - 1);
    assert(s.take(c + 1) == s.take(c).push(s[c]));
    lemma_count_push(s.take(c), s[c], '(');
    lemma_count_push(s.take(c), s[c], ')');
}

/// What the parser takes for a factor is a factor, and the text of its tree
/// is the text read.
pub proof fn lemma_factor_sound(s: Seq<char>)
    ensures
        factor_spec(s) matches Some((n, tree)) ==> {
            &&& 0 < n <= s.len()
            &&& rendered(tree) == s.take(n)
            &&& is_factor(tree)
        },
    decreases s.len(), 0int, 0int,
{
    if s.len() > 0 && factor_spec(s) is Some {
        if s[0] == '(' {
            let c = closing_index(s)->0;
            lemma_closing_is_parenthesis(s, c);
            let inside = s.subrange(1, c);
            lemma_expression_sound(inside);
            assert(inside.take(c - 1) == inside);
            assert(seq!['('] + inside + seq![')'] == s.take(c + 1));
        } else {
            lemma_number_end(s);
            let n = number_end(s);
            let i = choose|i: int| 0 <= i < s.take(n).len() && is_digit(s.take(n)[i]);
            assert(0 <= i < n);
        }
    }
}

/// What the parser makes of a term that goes on is a term, and the text of
/// its tree is the text read.
pub proof fn lemma_term_tail_sound(s: Seq<char>, n: int, left: Tree)
    requires
        0 <= n <= s.len(),
        rendered(left) == s.take(n),
        is_term(left),
    ensures
        term_tail(s, n, left) matches Some((m, tree)) ==> {
            &&& n <= m <= s.len()
            &&& rendered(tree) == s.take(m)
            &&& is_term(tree)
        },
    decreases s.len(), 1int, s.len() - n,
{
    if 0 <= n < s.len() && term_operation(s[n]) is Some {
        let rest = s.skip(n + 1);
        lemma_factor_sound(rest);
        if let Some((m, right)) = factor_spec(rest) {
            let op = term_operation(s[n])->0;
            let joined = Tree::Binary(op, Box::new(left), Box::new(right));
            assert(rest.take(m) == s.subrange(n + 1, n + 1 + m));
            assert(s.take(n) + seq![s[n]] + s.subrange(n + 1, n + 1 + m) == s.take(n + 1 + m));
            lemma_term_tail_sound(s, n + 1 + m, joined);
        }
    }
}

/// What the parser takes for a term is a term, and the text of its tree is
/// the text read.
pub proof fn lemma_term_sound(s: Seq<char>)
    ensures
        term_spec(s) matches Some((n, tree)) ==> {
            &&& 0 < n <= s.len()
            &&& rendered(tree) == s.take(n)
            &&& is_term(tree)
        },
    decreases s.len(), 2int, 0int,
{
    lemma_factor_sound(s);
    if let Some((n, first)) = factor_spec(s) {
        lemma_term_tail_sound(s, n, first);
    }
}

/// What the parser makes of an expression that goes on is an expression,
/// and the text of its tree is the text read.
pub proof fn lemma_expression_tail_sound(s: Seq<char>, n: int, left: Tree)
    requires
        0 <= n <= s.len(),
        rendered(left) == s.take(n),
        is_expression(left),
    ensures
        expression_tail(s, n, left) matches Some((m, tree)) ==> {
            &&& n <= m <= s.len()
            &&& rendered(tree) == s.take(m)
            &&& is_expression(tree)
        },
    decreases s.len(), 3int, s.len() - n,
{
    if 0 <= n < s.len() && sum_operation(s[n]) is Some {
        let rest = s.skip(n + 1);
        lemma_term_sound(rest);
        if let Some((m, right)) = term_spec(rest) {
            let op = sum_operation(s[n])->0;
            let joined = Tree::Binary(op, Box::new(left), Box::new(right));
            assert(rest.take(m) == s.subrange(n + 1, n + 1 + m));
            assert(s.take(n) + seq![s[n]] + s.subrange(n + 1, n + 1 + m) == s.take(n + 1 + m));
            lemma_expression_tail_sound(s, n + 1 + m, joined);
        }
    }
}

/// What the parser takes for an expression is an expression, and the text
/// of its tree is the text read: sums and products are taken together from
/// the left, products bind tighter than sums, and a group spans from its
/// opening parenthesis to the one that closes it.
pub proof fn lemma_expression_sound(s: Seq<char>)
    ensures
        expression_spec(s) matches Some((n, tree)) ==> {
            &&& 0 < n <= s.len()
            &&& rendered(tree) == s.take(n)
            &&& is_expression(tree)
        },
    decreases s.len(), 4int, 0int,
{
    lemma_term_sound(s);
    if let Some((n, first)) = term_spec(s) {
        lemma_expression_tail_sound(s, n, first);
    }
}

/// How many more parentheses `s` opens than it closes.
pub open spec fn depth(s: Seq<char>) -> int {
    count(s, '(') - count(s, ')')
}

/// The text goes on after its first `k` characters with a terminator, or
/// ends there.
pub open spec fn ends_at(s: Seq<char>, k: int) -> bool {
    k == s.len() || (0 <= k < s.len() && is_terminator(s[k]))
}

/// The parentheses of two texts, one after the other.
pub proof fn lemma_depth_concat(a: Seq<char>, b: Seq<char>)
    ensures
        depth(a + b) == depth(a) + depth(b),
{
    lemma_count_concat(a, b, '(');
    lemma_count_concat(a, b, ')');
}

/// The parentheses of a text of one character.
pub proof fn lemma_depth_one(c: char)
    ensures
        depth(seq![c]) == if c == '(' {
            1int
        } else if c == ')' {
            -1int
        } else {
            0int
        },
        depth(Seq::<char>::empty()) == 0,
{
    let none = Seq::<char>::empty();
    lemma_count_push(none, c, '(');
    lemma_count_push(none, c, ')');
    assert(none.push(c) == seq![c]);
}

/// The text of an expression is not empty, closes every parenthesis that it
/// opens, and none before it is open.
pub proof fn lemma_rendered_balanced(tree: Tree)
    requires
        is_expression(tree),
    ensures
        rendered(tree).len() > 0,
        depth(rendered(tree)) == 0,
        forall|j: int| 0 <= j <= rendered(tree).len() ==> depth(#[trigger] rendered(tree).take(j)) >= 0,
    decreases tree,
{
    let text = rendered(tree);
    lemma_expression_parts(tree);
    match tree {
        Tree::Number(digits) => {
            assert forall|j: int| 0 <= j <= text.len() implies depth(#[trigger] text.take(j))
                == 0 by {
                lemma_count_none(text.take(j), '(');
                lemma_count_none(text.take(j), ')');
            }
            assert(text.take(text.len() as int) == text);
        },
        Tree::Group(inner) => {
            let inside = rendered(*inner);
            lemma_rendered_balanced(*inner);
            lemma_group_open(inside);
            lemma_depth_concat(seq!['('] + inside, seq![')']);
            lemma_depth_one(')');
            assert((seq!['('] + inside).take(inside.len() as int + 1) == seq!['('] + inside);
            assert forall|j: int| 0 <= j <= text.len() implies depth(#[trigger] text.take(j))
                >= 0 by {
                if j == 0 {
                    assert(text.take(0) == Seq::<char>::empty());
                    lemma_depth_one(')');
                } else if j <= inside.len() + 1 {
                    assert(text.take(j) == (seq!['('] + inside).take(j));
                } else {
                    assert(text.take(j) == text);
                }
            }
        },
        Tree::Binary(op, left, right) => {
            let before = rendered(*left);
            let after = rendered(*right);
            lemma_rendered_balanced(*left);
            lemma_rendered_balanced(*right);
            lemma_depth_one(sign(op));
            lemma_depth_concat(before, seq![sign(op)]);
            lemma_depth_concat(before + seq![sign(op)], after);
            assert forall|j: int| 0 <= j <= text.len() implies depth(#[trigger] text.take(j))
                >= 0 by {
                if j <= before.len() {
                    assert(text.take(j) == before.take(j));
                } else {
                    let k = j - before.len() - 1;
                    assert(text.take(j) == before + seq![sign(op)] + after.take(k));
                    lemma_depth_concat(before + seq![sign(op)], after.take(k));
                }
            }
        },
    }
}

/// After an opening parenthesis, a text that closes no parenthesis before it
/// is open leaves one open all along.
pub proof fn lemma_group_open(inside: Seq<char>)
    requires
        forall|j: int| 0 <= j <= inside.len() ==> depth(#[trigger] inside.take(j)) >= 0,
    ensures
        forall|j: int|
            1 <= j <= inside.len() + 1 ==> depth(#[trigger] (seq!['('] + inside).take(j)) == 1
                + depth(inside.take(j - 1)),
        forall|j: int|
            1 <= j <= inside.len() + 1 ==> depth(#[trigger] (seq!['('] + inside).take(j)) >= 1,
{
    lemma_depth_one('(');
    assert forall|j: int| 1 <= j <= inside.len() + 1 implies depth(
        #[trigger] (seq!['('] + inside).take(j),
    ) == 1 + depth(inside.take(j - 1)) by {
        assert((seq!['('] + inside).take(j) == seq!['('] + inside.take(j - 1));
        lemma_depth_concat(seq!['('], inside.take(j - 1));
    }
}

/// A text that starts with an expression in parentheses is first balanced
/// where these close.
pub proof fn lemma_group_closing(inner: Tree, s: Seq<char>)
    requires
        is_expression(inner),
        rendered(inner).len() + 2 <= s.len(),
        s.take(rendered(inner).len() as int + 2) == seq!['('] + rendered(inner) + seq![')'],
    ensures
        closing_index(s) == Some(rendered(inner).len() as int + 1),
{
    let inside = rendered(inner);
    let c = inside.len() as int + 1;
    let group = seq!['('] + inside + seq![')'];
    lemma_rendered_balanced(inner);
    lemma_group_open(inside);
    lemma_depth_concat(seq!['('] + inside, seq![')']);
    lemma_depth_one(')');
    assert((seq!['('] + inside).take(c as int) == seq!['('] + inside);
    assert(inside.take(inside.len() as int) == inside);
    assert(s.take(c + 1) == group);
    assert(balanced_at(s, c as int));
    assert forall|j: int| 0 <= j < c implies !balanced_at(s, j) by {
        assert(s.take(j + 1) == group.take(j + 1));
        assert(group.take(j + 1) == (seq!['('] + inside).take(j + 1));
    }
    assert(is_closing_index(s, c as int));
    lemma_closing_index_unique(s, c as int, closing_index(s)->0);
}

/// A factor is a term, and a term is an expression.
pub proof fn lemma_tiers(tree: Tree)
    ensures
        is_factor(tree) ==> is_term(tree),
        is_term(tree) ==> is_expression(tree),
{
}

/// The parts of an expression: a number, an expression in parentheses, or
/// two expressions of the tiers that their operator asks for.
pub proof fn lemma_expression_parts(tree: Tree)
    requires
        is_expression(tree),
    ensures
        match tree {
            Tree::Number(text) => is_number(text),
            Tree::Group(inner) => is_expression(*inner),
            Tree::Binary(op, left, right) => {
                &&& is_expression(*left)
                &&& is_expression(*right)
                &&& is_term(*right)
                &&& op == Operation::Multiply || op == Operation::Divide ==> is_term(tree)
                    && is_term(*left) && is_factor(*right)
            },
        },
{
    match tree {
        Tree::Binary(op, left, right) => {
            lemma_tiers(*left);
            lemma_tiers(*right);
            if op == Operation::Multiply || op == Operation::Divide {
                assert(is_term(tree));
            }
        },
        _ => {
            assert(is_term(tree));
            assert(is_factor(tree));
        },
    }
}

/// The text of an expression is made of ASCII characters.
pub proof fn lemma_rendered_ascii(tree: Tree)
    requires
        is_expression(tree),
    ensures
        is_ascii_chars(rendered(tree)),
    decreases tree,
{
    lemma_expression_parts(tree);
    match tree {
        Tree::Number(digits) => {},
        Tree::Group(inner) => {
            lemma_rendered_ascii(*inner);
        },
        Tree::Binary(op, left, right) => {
            lemma_rendered_ascii(*left);
            lemma_rendered_ascii(*right);
        },
    }
}

/// The parser reads a factor back from its text, whatever follows it after
/// a terminator.
pub proof fn lemma_factor_complete(tree: Tree, s: Seq<char>)
    requires
        is_factor(tree),
        rendered(tree).len() <= s.len(),
        s.take(rendered(tree).len() as int) == rendered(tree),
        ends_at(s, rendered(tree).len() as int),
    ensures
        factor_spec(s) == Some((rendered(tree).len() as int, tree)),
    decreases tree, 1int,
{
    let text = rendered(tree);
    let k = text.len() as int;
    match tree {
        Tree::Number(digits) => {
            let i = choose|i: int| 0 <= i < digits.len() && is_digit(digits[i]);
            assert(s[0] == text[0]);
            assert forall|j: int| 0 <= j < k implies !is_terminator(s[j]) by {
                assert(s[j] == text[j]);
            }
            lemma_number_end_unique(s, k);
        },
        Tree::Group(inner) => {
            let inside = rendered(*inner);
            assert(s[0] == text[0]);
            lemma_group_closing(*inner, s);
            let c = inside.len() + 1;
            assert(s.subrange(1, c as int) == inside) by {
                assert forall|j: int| 0 <= j < inside.len() implies s.subrange(1, c as int)[j]
                    == inside[j] by {
                    assert(s[j + 1] == text[j + 1]);
                }
            }
            assert(inside.take(inside.len() as int) == inside);
            lemma_expression_complete(*inner, inside);
        },
        Tree::Binary(_, _, _) => {},
    }
}

/// Reading the text of a term, the parser comes to its end with its tree in
/// hand.
pub proof fn lemma_term_reaches(tree: Tree, s: Seq<char>)
    requires
        is_term(tree),
        rendered(tree).len() <= s.len(),
        s.take(rendered(tree).len() as int) == rendered(tree),
        ends_at(s, rendered(tree).len() as int),
    ensures
        term_spec(s) == term_tail(s, rendered(tree).len() as int, tree),
    decreases tree, 2int,
{
    let text = rendered(tree);
    let k = text.len() as int;
    match tree {
        Tree::Binary(op, left, right) => {
            let before = rendered(*left);
            let after = rendered(*right);
            let at = before.len() as int;
            assert(s.take(at) == before) by {
                assert(s.take(at) == text.take(at));
            }
            assert(s[at] == text[at]);
            lemma_term_reaches(*left, s);
            let rest = s.skip(at + 1);
            assert(rest.take(after.len() as int) == after) by {
                assert(rest.take(after.len() as int) == text.skip(at + 1));
            }
            lemma_factor_complete(*right, rest);
        },
        _ => {
            lemma_factor_complete(tree, s);
        },
    }
}

/// The parser reads a term back from its text, whatever follows it after a
/// terminator that does not go on with the term.
pub proof fn lemma_term_complete(tree: Tree, s: Seq<char>)
    requires
        is_term(tree),
        rendered(tree).len() <= s.len(),
        s.take(rendered(tree).len() as int) == rendered(tree),
        ends_at(s, rendered(tree).len() as int),
        rendered(tree).len() < s.len() ==> term_operation(s[rendered(tree).len() as int]) is None,
    ensures
        term_spec(s) == Some((rendered(tree).len() as int, tree)),
    decreases tree, 3int,
{
    lemma_term_reaches(tree, s);
}

/// Reading the text of an expression, the parser comes to its end with its
/// tree in hand.
pub proof fn lemma_expression_reaches(tree: Tree, s: Seq<char>)
    requires
        is_expression(tree),
        rendered(tree).len() <= s.len(),
        s.take(rendered(tree).len() as int) == rendered(tree),
        ends_at(s, rendered(tree).len() as int),
        rendered(tree).len() < s.len() ==> term_operation(s[rendered(tree).len() as int]) is None,
    ensures
        expression_spec(s) == expression_tail(s, rendered(tree).len() as int, tree),
    decreases tree, 4int,
{
    let text = rendered(tree);
    let k = text.len() as int;
    match tree {
        Tree::Binary(op, left, right) => {
            if op == Operation::Add || op == Operation::Subtract {
                let before = rendered(*left);
                let after = rendered(*right);
                let at = before.len() as int;
                assert(s.take(at) == before) by {
                    assert(s.take(at) == text.take(at));
                }
                assert(s[at] == text[at]);
                lemma_expression_reaches(*left, s);
                let rest = s.skip(at + 1);
                assert(rest.take(after.len() as int) == after) by {
                    assert(rest.take(after.len() as int) == text.skip(at + 1));
                }
                lemma_term_complete(*right, rest);
            } else {
                lemma_term_complete(tree, s);
            }
        },
        _ => {
            lemma_term_complete(tree, s);
        },
    }
}

/// The parser reads an expression back from its text, whatever follows it
/// after a parenthesis.
pub proof fn lemma_expression_complete(tree: Tree, s: Seq<char>)
    requires
        is_expression(tree),
        rendered(tree).len() <= s.len(),
        s.take(rendered(tree).len() as int) == rendered(tree),
        rendered(tree).len() < s.len() ==> s[rendered(tree).len() as int] == '(' || s[rendered(
            tree,
        ).len() as int] == ')',
    ensures
        expression_spec(s) == Some((rendered(tree).len() as int, tree)),
    decreases tree, 5int,
{
    lemma_expression_reaches(tree, s);
}

/// The parser reads every expression back from its text: parsing undoes
/// rendering.
pub proof fn lemma_parse_rendered(tree: Tree)
    requires
        is_expression(tree),
    ensures
        whole_expression(rendered(tree)) == Some(tree),
{
    let text = rendered(tree);
    assert(text.take(text.len() as int) == text);
    lemma_expression_complete(tree, text);
}

/// A text is one expression exactly when it is the text of an expression
/// tree, and then the parser yields that tree.
pub proof fn lemma_whole_expression(s: Seq<char>, tree: Tree)
    ensures
        whole_expression(s) == Some(tree) <==> is_expression(tree) && rendered(tree) == s,
{
    lemma_expression_sound(s);
    if is_expression(tree) && rendered(tree) == s {
        lemma_parse_rendered(tree);
    }
    if whole_expression(s) == Some(tree) {
        assert(s.take(s.len() as int) == s);
    }
}

} // verus!
