//! Character sequences: the form in which the calculator reads and builds
//! its strings.

use vstd::prelude::*;

verus! {

/// Trusted: `String::push` of the standard library appends the character
/// to the end of the string and leaves the rest of it as it was.
pub assume_specification[ String::push ](s: &mut String, c: char)
    ensures
        final(s)@ == old(s)@.push(c),
;

/// The characters of `s`, in order.
pub fn chars_of(s: &str) -> (v: Vec<char>)
    ensures
        v@ == s@,
{
    broadcast use vstd::string::group_string_axioms;

    let mut v: Vec<char> = Vec::new();
    for c in it: s.chars()
        invariant
            it.seq() == s@,
            v@ == it.seq().take(it.index()),
    {
        v.push(c);
    }
    assert(v@ == s@.take(s@.len() as int));
    v
}

/// The string that holds the characters of `v`, in order.
pub fn string_of(v: &Vec<char>) -> (s: String)
    ensures
        s@ == v@,
{
    let mut s = String::new();
    let mut i: usize = 0;
    while i < v.len()
        invariant
            i <= v.len(),
            s@ == v@.take(i as int),
        decreases v.len() - i,
    {
        s.push(v[i]);
        i += 1;
    }
    s
}

/// A decimal digit.
pub open spec fn is_digit(c: char) -> bool {
    '0' <= c && c <= '9'
}

/// One of the four binary operators; `x` is the multiplication sign.
pub open spec fn is_operator(c: char) -> bool {
    c == 'x' || c == '+' || c == '-' || c == '/'
}

/// A character that ends a number: an operator or a parenthesis.
pub open spec fn is_terminator(c: char) -> bool {
    is_operator(c) || c == '(' || c == ')'
}

/// How many times `c` occurs in `s`.
pub open spec fn count(s: Seq<char>, c: char) -> nat
    decreases s.len(),
{
    if s.len() == 0 {
        0
    } else {
        count(s.drop_last(), c) + if s.last() == c { 1nat } else { 0nat }
    }
}

/// Whether `c` is a decimal digit.
pub fn is_digit_char(c: char) -> (b: bool)
    ensures
        b == is_digit(c),
{
    c >= '0' && c <= '9'
}

/// Whether `c` is one of the four operators.
pub fn is_operator_char(c: char) -> (b: bool)
    ensures
        b == is_operator(c),
{
    c == 'x' || c == '+' || c == '-' || c == '/'
}

/// Whether `c` ends a number.
pub fn is_terminator_char(c: char) -> (b: bool)
    ensures
        b == is_terminator(c),
{
    is_operator_char(c) || c == '(' || c == ')'
}

/// Counting goes through a sequence one character at a time.
pub proof fn lemma_count_push(s: Seq<char>, x: char, c: char)
    ensures
        count(s.push(x), c) == count(s, c) + if x == c { 1nat } else { 0nat },
{
    assert(s.push(x).drop_last() == s);
}

/// Counting goes through two sequences one after the other.
pub proof fn lemma_count_concat(a: Seq<char>, b: Seq<char>, c: char)
    ensures
        count(a + b, c) == count(a, c) + count(b, c),
    decreases b.len(),
{
    if b.len() == 0 {
        assert(a + b == a);
    } else {
        assert((a + b).drop_last() == a + b.drop_last());
        lemma_count_concat(a, b.drop_last(), c);
    }
}

/// A character that a sequence does not hold is counted zero times in it,
/// and one that it holds at least once.
pub proof fn lemma_count_none(s: Seq<char>, c: char)
    ensures
        count(s, c) == 0 <==> forall|i: int| 0 <= i < s.len() ==> s[i] != c,
    decreases s.len(),
{
    if s.len() > 0 {
        lemma_count_none(s.drop_last(), c);
        if count(s, c) == 0 {
            assert forall|i: int| 0 <= i < s.len() implies s[i] != c by {
                if i < s.len() - 1 {
                    assert(s.drop_last()[i] == s[i]);
                }
            }
        } else if s.last() != c {
            let i = choose|i: int| 0 <= i < s.len() - 1 && s.drop_last()[i] == c;
            assert(s[i] == c);
        }
    }
}

/// How many times `c` occurs in `text`.
pub fn count_char(text: &str, c: char) -> (n: usize)
    ensures
        n == count(text@, c),
{
    let chars = chars_of(text);
    let mut n: usize = 0;
    let mut i: usize = 0;
    while i < chars.len()
        invariant
            i <= chars.len(),
            n == count(chars@.take(i as int), c),
            n <= i,
            chars@ == text@,
        decreases chars.len() - i,
    {
        proof {
            assert(chars@.take(i + 1) == chars@.take(i as int).push(chars@[i as int]));
            lemma_count_push(chars@.take(i as int), chars@[i as int], c);
        }
        if chars[i] == c {
            n += 1;
        }
        i += 1;
    }
    proof {
        assert(chars@.take(i as int) == chars@);
    }
    n
}

/// `text` with each occurrence of `from` replaced by `to`. The text is read
/// from the left, and what one occurrence has taken is not read again. An
/// empty `from` occurs nowhere.
pub open spec fn replaced(text: Seq<char>, from: Seq<char>, to: Seq<char>) -> Seq<char>
    decreases text.len(),
{
    if from.len() == 0 || text.len() < from.len() {
        text
    } else if text.take(from.len() as int) == from {
        to + replaced(text.skip(from.len() as int), from, to)
    } else {
        seq![text[0]] + replaced(text.skip(1), from, to)
    }
}

/// Whether `pattern` stands in `text` at position `at`.
fn occurs_at(text: &Vec<char>, at: usize, pattern: &Vec<char>) -> (b: bool)
    requires
        at <= text.len(),
    ensures
        b == (at + pattern.len() <= text.len() && text@.subrange(
            at as int,
            at + pattern.len(),
        ) == pattern@),
{
    if pattern.len() > text.len() - at {
        return false;
    }
    let mut j: usize = 0;
    while j < pattern.len()
        invariant
            j <= pattern.len(),
            at + pattern.len() <= text.len(),
            forall|k: int| 0 <= k < j ==> text@[at + k] == pattern@[k],
        decreases pattern.len() - j,
    {
        if text[at + j] != pattern[j] {
            assert(text@.subrange(at as int, at + pattern.len())[j as int] != pattern@[j as int]);
            return false;
        }
        j += 1;
    }
    assert(text@.subrange(at as int, at + pattern.len()) =~= pattern@);
    true
}

/// Replaces each occurrence of `from` in `text` with `to`, from the left.
pub fn replace(text: &str, from: &str, to: &str) -> (out: String)
    ensures
        out@ == replaced(text@, from@, to@),
{
    let source = chars_of(text);
    let pattern = chars_of(from);
    let with = chars_of(to);
    let mut out: Vec<char> = Vec::new();
    let mut i: usize = 0;
    proof {
        assert(source@.skip(0) == source@);
        assert(out@ + replaced(source@, pattern@, with@) == replaced(source@, pattern@, with@));
    }
    while i < source.len()
        invariant
            i <= source.len(),
            source@ == text@,
            pattern@ == from@,
            with@ == to@,
            replaced(source@, pattern@, with@) == out@ + replaced(
                source@.skip(i as int),
                pattern@,
                with@,
            ),
        decreases source.len() - i,
    {
        let ghost rest = source@.skip(i as int);
        if pattern.len() > 0 && occurs_at(&source, i, &pattern) {
            proof {
                assert(rest.take(pattern.len() as int) == source@.subrange(
                    i as int,
                    i + pattern.len(),
                ));
                assert(rest.skip(pattern.len() as int) == source@.skip(i + pattern.len()));
                assert(out@ + (with@ + replaced(source@.skip(i + pattern.len()), pattern@, with@))
                    == out@ + with@ + replaced(source@.skip(i + pattern.len()), pattern@, with@));
            }
            out.extend_from_slice(with.as_slice());
            i += pattern.len();
        } else {
            proof {
                assert(rest.skip(1) == source@.skip(i + 1));
                assert(rest[0] == source@[i as int]);
                if pattern.len() > 0 && rest.len() >= pattern.len() {
                    assert(rest.take(pattern.len() as int) == source@.subrange(
                        i as int,
                        i + pattern.len(),
                    ));
                } else {
                    assert(seq![rest[0]] + rest.skip(1) == rest);
                }
                assert(out@ + (seq![rest[0]] + replaced(source@.skip(i + 1), pattern@, with@))
                    == out@.push(source@[i as int]) + replaced(
                    source@.skip(i + 1),
                    pattern@,
                    with@,
                ));
            }
            out.push(source[i]);
            i += 1;
        }
    }
    assert(source@.skip(i as int) == Seq::<char>::empty());
    assert(out@ + Seq::<char>::empty() == out@);
    string_of(&out)
}

} // verus!
