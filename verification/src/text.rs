//! Character classes and small text helpers shared by the lexer.
//!
//! The character classes are those of the Unicode tables that `char` consults.
//! They are named here and left uninterpreted: the lexer's contracts are stated
//! over the names, and only the four `char` methods below are trusted to
//! report them.

use vstd::prelude::*;

verus! {

/// Whether `c` has the Unicode `White_Space` property.
pub uninterp spec fn unicode_whitespace(c: char) -> bool;

/// Whether `c` has the Unicode `Alphabetic` property.
pub uninterp spec fn unicode_alphabetic(c: char) -> bool;

/// Whether `c` is in one of the Unicode general categories for numbers.
pub uninterp spec fn unicode_numeric(c: char) -> bool;

/// Whether `c` is a letter or a number: what an identifier may continue with.
pub open spec fn unicode_alphanumeric(c: char) -> bool {
    unicode_alphabetic(c) || unicode_numeric(c)
}

/// Trusted: `char::is_whitespace` reports the `White_Space` property of its
/// argument.
pub assume_specification[ char::is_whitespace ](c: char) -> (r: bool)
    ensures
        r == unicode_whitespace(c),
;

/// Trusted: `char::is_alphabetic` reports the `Alphabetic` property of its
/// argument.
pub assume_specification[ char::is_alphabetic ](c: char) -> (r: bool)
    ensures
        r == unicode_alphabetic(c),
;

/// Trusted: `char::is_numeric` reports whether its argument is in a number
/// category.
pub assume_specification[ char::is_numeric ](c: char) -> (r: bool)
    ensures
        r == unicode_numeric(c),
;

/// Trusted: `char::is_alphanumeric` holds of exactly the characters of which
/// `is_alphabetic` or `is_numeric` holds.
pub assume_specification[ char::is_alphanumeric ](c: char) -> (r: bool)
    ensures
        r == unicode_alphanumeric(c),
;

/// Trusted: `String::push` appends one character to the end of the string.
pub assume_specification[ String::push ](s: &mut String, c: char)
    ensures
        final(s)@ == old(s)@.push(c),
;

/// The characters of `s`, in order.
pub fn to_chars(s: &str) -> (v: Vec<char>)
    ensures
        v@ == s@,
{
    broadcast use vstd::string::axiom_spec_iter;

    let mut v: Vec<char> = Vec::new();
    for c in it: s.chars()
        invariant
            it.seq() == s@,
            v@ == it.seq().take(it.index()),
    {
        assert(it.seq().take(it.index() + 1) =~= it.seq().take(it.index()).push(c));
        v.push(c);
    }
    assert(s@.take(s@.len() as int) =~= s@);
    v
}

/// The string made of `chars[start..end]`.
pub fn collect_string(chars: &Vec<char>, start: usize, end: usize) -> (text: String)
    requires
        start <= end <= chars.len(),
    ensures
        text@ == chars@.subrange(start as int, end as int),
{
    let mut text = String::new();
    let mut i: usize = start;
    while i < end
        invariant
            start <= i <= end <= chars.len(),
            text@ == chars@.subrange(start as int, i as int),
        decreases end - i,
    {
        text.push(chars[i]);
        i += 1;
    }
    text
}

/// Whether `chars[start..end]` spells exactly `word`.
pub fn spells(chars: &Vec<char>, start: usize, end: usize, word: &str) -> (same: bool)
    requires
        start <= end <= chars.len(),
    ensures
        same == (chars@.subrange(start as int, end as int) == word@),
{
    broadcast use vstd::string::axiom_spec_iter;

    let ghost run = chars@.subrange(start as int, end as int);
    let mut i: usize = start;
    for c in it: word.chars()
        invariant
            it.seq() == word@,
            start <= end <= chars.len(),
            i == start + it.index(),
            i <= end,
            run == chars@.subrange(start as int, end as int),
            run.take(it.index()) == word@.take(it.index()),
    {
        if i >= end || chars[i] != c {
            assert(run != word@) by {
                if run == word@ {
                    assert(run.len() == word@.len());
                    assert(run[it.index()] == word@[it.index()]);
                }
            }
            return false;
        }
        assert(run.take(it.index() + 1) =~= run.take(it.index()).push(chars@[i as int]));
        assert(word@.take(it.index() + 1) =~= word@.take(it.index()).push(c));
        i += 1;
    }
    assert(word@.take(word@.len() as int) =~= word@);
    if i == end {
        assert(run.take(run.len() as int) =~= run);
        true
    } else {
        false
    }
}

/// Whether `c` is one of the ten ASCII digits.
pub open spec fn is_decimal_digit(c: char) -> bool {
    '0' <= c <= '9'
}

/// The value of an ASCII digit.
pub open spec fn digit_value(c: char) -> int {
    c as int - '0' as int
}

/// Whether every character of `digits` is an ASCII digit.
pub open spec fn all_decimal_digits(digits: Seq<char>) -> bool {
    forall|i: int| 0 <= i < digits.len() ==> is_decimal_digit(#[trigger] digits[i])
}

/// The number that `digits` denotes in base ten, most significant digit first.
pub open spec fn decimal_value(digits: Seq<char>) -> int
    decreases digits.len(),
{
    if digits.len() == 0 {
        0
    } else {
        10 * decimal_value(digits.drop_last()) + digit_value(digits.last())
    }
}

/// What a run of characters denotes as a signed 64-bit literal: its value in
/// base ten where it is a non-empty run of ASCII digits and the value fits,
/// nothing otherwise.
pub open spec fn decimal_literal(digits: Seq<char>) -> Option<i64> {
    if digits.len() > 0 && all_decimal_digits(digits) && decimal_value(digits) <= i64::MAX {
        Some(decimal_value(digits) as i64)
    } else {
        None
    }
}

/// A run of digits denotes a number that is not negative.
pub proof fn lemma_decimal_value_nonnegative(digits: Seq<char>)
    requires
        all_decimal_digits(digits),
    ensures
        0 <= decimal_value(digits),
    decreases digits.len(),
{
    if digits.len() > 0 {
        lemma_decimal_value_nonnegative(digits.drop_last());
    }
}

/// A run of digits denotes at least what each of its prefixes denotes.
pub proof fn lemma_decimal_value_prefix(digits: Seq<char>, n: int)
    requires
        all_decimal_digits(digits),
        0 <= n <= digits.len(),
    ensures
        decimal_value(digits.take(n)) <= decimal_value(digits),
    decreases digits.len(),
{
    if n == digits.len() {
        assert(digits.take(n) =~= digits);
    } else {
        let shorter = digits.drop_last();
        lemma_decimal_value_prefix(shorter, n);
        lemma_decimal_value_nonnegative(shorter);
        assert(shorter.take(n) =~= digits.take(n));
    }
}

/// Reads `chars[start..end]` as a signed 64-bit literal in base ten.
pub fn parse_decimal(chars: &Vec<char>, start: usize, end: usize) -> (value: Option<i64>)
    requires
        start <= end <= chars.len(),
    ensures
        value == decimal_literal(chars@.subrange(start as int, end as int)),
{
    let ghost run = chars@.subrange(start as int, end as int);
    if start == end {
        return None;
    }
    let mut total: i64 = 0;
    let mut i: usize = start;
    while i < end
        invariant
            start <= i <= end <= chars.len(),
            run == chars@.subrange(start as int, end as int),
            all_decimal_digits(run.take(i - start)),
            total == decimal_value(run.take(i - start)),
            0 <= total,
        decreases end - i,
    {
        let c = chars[i];
        let ghost seen = run.take(i - start);
        let ghost more = run.take(i + 1 - start);
        assert(more.drop_last() =~= seen);
        assert(more.last() == c);
        if !('0' <= c && c <= '9') {
            assert(!all_decimal_digits(run)) by {
                assert(run[i - start] == c);
            }
            return None;
        }
        assert(all_decimal_digits(more)) by {
            assert forall|k: int| 0 <= k < more.len() implies is_decimal_digit(#[trigger] more[k]) by {
                if k < seen.len() {
                    assert(more[k] == seen[k]);
                }
            }
        }
        let digit: i64 = (c as u32 - '0' as u32) as i64;
        if total > (i64::MAX - digit) / 10 {
            assert(decimal_value(more) > i64::MAX);
            assert(all_decimal_digits(run) ==> decimal_value(run) > i64::MAX) by {
                if all_decimal_digits(run) {
                    lemma_decimal_value_prefix(run, i + 1 - start);
                }
            }
            return None;
        }
        total = total * 10 + digit;
        i += 1;
    }
    assert(run.take(end - start) =~= run);
    Some(total)
}

} // verus!
