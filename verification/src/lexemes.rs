//! Which texts the lexer reads as which tokens.
//!
//! The model of the lexer says what it does character by character. The
//! theorems here say the same from the other side: given a piece of text of a
//! known shape, a word, a run of digits, a quoted string, which token comes
//! out; and given a sequence of tokens written out with whitespace between
//! them, that the lexer reads the same tokens back.
//!
//! The classes of characters are those of the Unicode tables and are not
//! interpreted here. Where a theorem needs a character to be of one class and
//! not of another, it says so: that `;` is no whitespace is a hypothesis, not
//! something proved.

use crate::lexer::{
    is_quote, keyword_spelled, lemma_run_end_unique, lemma_scan_token_advances, scan_all,
    scan_token, symbol_token, whitespace_end, word_token, LexerError, Scan, ScanAll, TokenView,
};
use crate::text::{
    all_decimal_digits, decimal_value, is_decimal_digit, unicode_alphabetic,
    unicode_alphanumeric, unicode_numeric, unicode_whitespace,
};
use vstd::prelude::*;

verus! {

/// Whether every character of `s` from `from` up to `to` is whitespace.
pub open spec fn all_whitespace(s: Seq<char>, from: int, to: int) -> bool {
    forall|i: int| from <= i < to ==> unicode_whitespace(#[trigger] s[i])
}

/// Whether the lexer, coming upon `c`, reads a punctuation token.
pub open spec fn begins_symbol(c: char) -> bool {
    !unicode_whitespace(c) && symbol_token(c) is Some
}

/// Whether the lexer, coming upon `c`, reads a string literal.
pub open spec fn begins_string(c: char) -> bool {
    !unicode_whitespace(c) && is_quote(c)
}

/// Whether the lexer, coming upon `c`, reads a number literal.
pub open spec fn begins_number(c: char) -> bool {
    !unicode_whitespace(c) && symbol_token(c) is None && !is_quote(c) && unicode_numeric(c)
}

/// Whether the lexer, coming upon `c`, reads a word: `c` is a letter, and
/// neither whitespace, punctuation, a quote nor a number.
pub open spec fn begins_word(c: char) -> bool {
    !unicode_whitespace(c) && symbol_token(c) is None && !is_quote(c) && !unicode_numeric(c)
        && unicode_alphabetic(c)
}

/// Whitespace before a token does not count: the lexer does the same from
/// the start of a stretch of whitespace as from its end.
pub proof fn lemma_leading_whitespace_is_skipped(s: Seq<char>, from: int, start: int)
    requires
        0 <= from <= start <= s.len(),
        all_whitespace(s, from, start),
    ensures
        whitespace_end(s, from) == whitespace_end(s, start),
        scan_token(s, from) == scan_token(s, start),
        scan_all(s, from) == scan_all(s, start),
    decreases start - from,
{
    if from < start {
        lemma_leading_whitespace_is_skipped(s, from + 1, start);
        assert(unicode_whitespace(s[from]));
    }
    lemma_scan_token_advances(s, from);
    lemma_scan_token_advances(s, start);
}

/// A text of nothing but whitespace holds no token: scanning it yields the
/// empty sequence and ends at its end.
pub proof fn lemma_whitespace_holds_no_token(s: Seq<char>, from: int)
    requires
        0 <= from <= s.len(),
        all_whitespace(s, from, s.len() as int),
    ensures
        scan_all(s, from) == (ScanAll { outcome: Ok(Seq::empty()), end: s.len() as int }),
{
    lemma_leading_whitespace_is_skipped(s, from, s.len() as int);
}

/// A punctuation character is one token.
pub proof fn lemma_symbol_is_one_token(s: Seq<char>, from: int, start: int)
    requires
        0 <= from <= start < s.len(),
        all_whitespace(s, from, start),
        begins_symbol(s[start]),
    ensures
        scan_token(s, from) == (Scan { outcome: Ok(symbol_token(s[start])->0), end: start + 1 }),
{
    lemma_leading_whitespace_is_skipped(s, from, start);
}

/// A maximal run of letters and numbers that begins with a letter is one
/// token: the keyword that the run spells, and an identifier of that name
/// where it spells none.
pub proof fn lemma_word_is_one_token(s: Seq<char>, from: int, start: int, end: int)
    requires
        0 <= from <= start < end <= s.len(),
        all_whitespace(s, from, start),
        begins_word(s[start]),
        forall|i: int| start < i < end ==> unicode_alphanumeric(#[trigger] s[i]),
        end < s.len() ==> !unicode_alphanumeric(s[end]),
    ensures
        scan_token(s, from) == (Scan { outcome: Ok(word_token(s.subrange(start, end))), end }),
{
    lemma_leading_whitespace_is_skipped(s, from, start);
    lemma_run_end_unique(s, start + 1, |c: char| unicode_alphanumeric(c), end);
}

/// A maximal run of ASCII digits with no letter after it is one number
/// literal, of the value that the digits denote in base ten, where that
/// value fits an `i64`.
pub proof fn lemma_digits_are_one_number(s: Seq<char>, from: int, start: int, end: int)
    requires
        0 <= from <= start < end <= s.len(),
        all_whitespace(s, from, start),
        begins_number(s[start]),
        forall|i: int|
            start <= i < end ==> is_decimal_digit(#[trigger] s[i]) && unicode_numeric(s[i]),
        end < s.len() ==> !unicode_numeric(s[end]) && !unicode_alphabetic(s[end]),
        decimal_value(s.subrange(start, end)) <= i64::MAX,
    ensures
        scan_token(s, from) == (Scan {
            outcome: Ok(TokenView::NumberLiteral(decimal_value(s.subrange(start, end)) as i64)),
            end,
        }),
{
    lemma_leading_whitespace_is_skipped(s, from, start);
    lemma_run_end_unique(s, start + 1, |c: char| unicode_numeric(c), end);
    let run = s.subrange(start, end);
    assert(all_decimal_digits(run)) by {
        assert forall|i: int| 0 <= i < run.len() implies is_decimal_digit(#[trigger] run[i]) by {
            assert(run[i] == s[start + i]);
        }
    }
}

/// A run of digits too large for an `i64` is an invalid number literal.
pub proof fn lemma_large_number_is_invalid(s: Seq<char>, from: int, start: int, end: int)
    requires
        0 <= from <= start < end <= s.len(),
        all_whitespace(s, from, start),
        begins_number(s[start]),
        forall|i: int| start < i < end ==> unicode_numeric(#[trigger] s[i]),
        end < s.len() ==> !unicode_numeric(s[end]),
        decimal_value(s.subrange(start, end)) > i64::MAX,
    ensures
        scan_token(s, from) == (Scan { outcome: Err(LexerError::InvalidNumberLiteral), end }),
{
    lemma_leading_whitespace_is_skipped(s, from, start);
    lemma_run_end_unique(s, start + 1, |c: char| unicode_numeric(c), end);
}

/// A run of numbers with a letter right after it is an invalid number
/// literal, and the cursor stops at the letter.
pub proof fn lemma_number_before_letter_is_invalid(s: Seq<char>, from: int, start: int, end: int)
    requires
        0 <= from <= start < end < s.len(),
        all_whitespace(s, from, start),
        begins_number(s[start]),
        forall|i: int| start < i < end ==> unicode_numeric(#[trigger] s[i]),
        !unicode_numeric(s[end]),
        unicode_alphabetic(s[end]),
    ensures
        scan_token(s, from) == (Scan { outcome: Err(LexerError::InvalidNumberLiteral), end }),
{
    lemma_leading_whitespace_is_skipped(s, from, start);
    lemma_run_end_unique(s, start + 1, |c: char| unicode_numeric(c), end);
}

/// The text between a quote and the next quote of the same kind is one
/// string literal, without the two quotes.
pub proof fn lemma_quoted_text_is_one_string(s: Seq<char>, from: int, open: int, close: int)
    requires
        0 <= from <= open < close < s.len(),
        all_whitespace(s, from, open),
        begins_string(s[open]),
        s[close] == s[open],
        forall|i: int| open < i < close ==> #[trigger] s[i] != s[open],
    ensures
        scan_token(s, from) == (Scan {
            outcome: Ok(TokenView::StringLiteral(s.subrange(open + 1, close))),
            end: close + 1,
        }),
{
    lemma_leading_whitespace_is_skipped(s, from, open);
    lemma_run_end_unique(s, open + 1, |c: char| c != s[open], close);
}

/// A quote with no quote of the same kind after it is a string literal that
/// is not closed, and the rest of the text is consumed.
pub proof fn lemma_unclosed_quote_is_reported(s: Seq<char>, from: int, open: int)
    requires
        0 <= from <= open < s.len(),
        all_whitespace(s, from, open),
        begins_string(s[open]),
        forall|i: int| open < i < s.len() ==> #[trigger] s[i] != s[open],
    ensures
        scan_token(s, from) == (Scan {
            outcome: Err(LexerError::StringLiteralNotClosed),
            end: s.len() as int,
        }),
{
    lemma_leading_whitespace_is_skipped(s, from, open);
    lemma_run_end_unique(s, open + 1, |c: char| c != s[open], s.len() as int);
}

/// A character that is neither whitespace nor the start of any token is
/// reported, and consumed.
pub proof fn lemma_stray_character_is_reported(s: Seq<char>, from: int, start: int)
    requires
        0 <= from <= start < s.len(),
        all_whitespace(s, from, start),
        !unicode_whitespace(s[start]),
        symbol_token(s[start]) is None,
        !is_quote(s[start]),
        !unicode_numeric(s[start]),
        !unicode_alphabetic(s[start]),
    ensures
        scan_token(s, from) == (Scan {
            outcome: Err(LexerError::UnexpectedChar(s[start])),
            end: start + 1,
        }),
{
    lemma_leading_whitespace_is_skipped(s, from, start);
}

/// Whether `word` is a letter with letters and numbers after it.
pub open spec fn is_word(word: Seq<char>) -> bool {
    &&& word.len() > 0
    &&& begins_word(word[0])
    &&& forall|i: int| 0 < i < word.len() ==> unicode_alphanumeric(#[trigger] word[i])
}

/// Whether `text` is a way to write `token`.
///
/// An identifier is written as its name, which is a word that spells no
/// keyword; a keyword as the word that spells it; a string literal as its
/// content between two quotes of one kind that does not occur in it; a
/// number literal as ASCII digits that denote it; punctuation as its
/// character. The keywords without a spelling, and the negative numbers,
/// cannot be written.
pub open spec fn writes_token(text: Seq<char>, token: TokenView) -> bool {
    match token {
        TokenView::Identifier(name) => text == name && is_word(text) && keyword_spelled(text)
            is None,
        TokenView::Keyword(keyword) => is_word(text) && keyword_spelled(text) == Some(keyword),
        TokenView::StringLiteral(content) => {
            &&& text.len() == content.len() + 2
            &&& begins_string(text[0])
            &&& text[text.len() - 1] == text[0]
            &&& text.subrange(1, text.len() - 1) == content
            &&& forall|i: int| 0 <= i < content.len() ==> #[trigger] content[i] != text[0]
        },
        TokenView::NumberLiteral(value) => {
            &&& text.len() > 0
            &&& begins_number(text[0])
            &&& forall|i: int|
                0 <= i < text.len() ==> is_decimal_digit(#[trigger] text[i]) && unicode_numeric(
                    text[i],
                )
            &&& decimal_value(text) == value
        },
        _ => text.len() == 1 && begins_symbol(text[0]) && symbol_token(text[0]) == Some(token),
    }
}

/// Whether `c`, standing right after the text of `token`, is no part of it:
/// no letter or number after a word, no number or letter after a number.
pub open spec fn ends_token(token: TokenView, c: char) -> bool {
    match token {
        TokenView::Identifier(_) | TokenView::Keyword(_) => !unicode_alphanumeric(c),
        TokenView::NumberLiteral(_) => !unicode_numeric(c) && !unicode_alphabetic(c),
        _ => true,
    }
}

/// A token written at `start`, with whitespace before it and nothing after
/// it that could belong to it, is read as that token, and the cursor stops
/// right after its text.
pub proof fn lemma_written_token_is_read(
    s: Seq<char>,
    from: int,
    start: int,
    text: Seq<char>,
    token: TokenView,
)
    requires
        0 <= from <= start,
        start + text.len() <= s.len(),
        all_whitespace(s, from, start),
        s.subrange(start, start + text.len()) == text,
        writes_token(text, token),
        start + text.len() < s.len() ==> ends_token(token, s[start + text.len()]),
    ensures
        scan_token(s, from) == (Scan { outcome: Ok(token), end: start + text.len() }),
{
    let end = start + text.len();
    assert forall|i: int| 0 <= i < text.len() implies s[start + i] == #[trigger] text[i] by {
        assert(s.subrange(start, end)[i] == s[start + i]);
    }
    assert(text.len() > 0);
    assert(s[start] == text[0]);
    match token {
        TokenView::Identifier(_) | TokenView::Keyword(_) => {
            assert forall|i: int| start < i < end implies unicode_alphanumeric(#[trigger] s[i]) by {
                assert(s[i] == text[i - start]);
            }
            lemma_word_is_one_token(s, from, start, end);
        },
        TokenView::StringLiteral(content) => {
            assert(s[end - 1] == text[text.len() - 1]);
            assert forall|i: int| start < i < end - 1 implies #[trigger] s[i] != s[start] by {
                assert(s[i] == text[i - start]);
                assert(text.subrange(1, text.len() - 1)[i - start - 1] == text[i - start]);
                assert(content[i - start - 1] != text[0]);
            }
            lemma_quoted_text_is_one_string(s, from, start, end - 1);
            assert(s.subrange(start + 1, end - 1) =~= text.subrange(1, text.len() - 1));
        },
        TokenView::NumberLiteral(_) => {
            assert forall|i: int| start <= i < end implies is_decimal_digit(#[trigger] s[i])
                && unicode_numeric(s[i]) by {
                assert(s[i] == text[i - start]);
            }
            lemma_digits_are_one_number(s, from, start, end);
        },
        _ => {
            lemma_symbol_is_one_token(s, from, start);
        },
    }
}

/// One token as it stands in a text: the whitespace before it, and how it is
/// written.
pub struct Written {
    pub gap: Seq<char>,
    pub text: Seq<char>,
    pub token: TokenView,
}

/// The tokens of a sequence of written tokens.
pub open spec fn tokens_of(pieces: Seq<Written>) -> Seq<TokenView> {
    pieces.map_values(|piece: Written| piece.token)
}

/// The text that `pieces` make, one after the other, with `tail` after the
/// last.
pub open spec fn document(pieces: Seq<Written>, tail: Seq<char>) -> Seq<char>
    decreases pieces.len(),
{
    if pieces.len() == 0 {
        tail
    } else {
        pieces[0].gap + pieces[0].text + document(pieces.drop_first(), tail)
    }
}

/// Whether `pieces` and `tail` are a sound way to write tokens down: every
/// gap, and the tail, is whitespace; every text writes its token; and no
/// text is followed by a character that could belong to its token.
pub open spec fn well_written(pieces: Seq<Written>, tail: Seq<char>) -> bool
    decreases pieces.len(),
{
    if pieces.len() == 0 {
        all_whitespace(tail, 0, tail.len() as int)
    } else {
        let rest = document(pieces.drop_first(), tail);
        &&& all_whitespace(pieces[0].gap, 0, pieces[0].gap.len() as int)
        &&& writes_token(pieces[0].text, pieces[0].token)
        &&& rest.len() > 0 ==> ends_token(pieces[0].token, rest[0])
        &&& well_written(pieces.drop_first(), tail)
    }
}

/// Tokens written down from position `from` of `s` on are read back from
/// there.
pub proof fn lemma_written_tokens_are_read(
    s: Seq<char>,
    from: int,
    pieces: Seq<Written>,
    tail: Seq<char>,
)
    requires
        0 <= from <= s.len(),
        s.subrange(from, s.len() as int) == document(pieces, tail),
        well_written(pieces, tail),
    ensures
        scan_all(s, from) == (ScanAll { outcome: Ok(tokens_of(pieces)), end: s.len() as int }),
    decreases pieces.len(),
{
    let written = s.subrange(from, s.len() as int);
    if pieces.len() == 0 {
        assert forall|i: int| from <= i < s.len() implies unicode_whitespace(#[trigger] s[i]) by {
            assert(written[i - from] == s[i]);
        }
        lemma_whitespace_holds_no_token(s, from);
        assert(tokens_of(pieces) =~= Seq::<TokenView>::empty());
    } else {
        let piece = pieces[0];
        let rest = document(pieces.drop_first(), tail);
        let start = from + piece.gap.len();
        let end = start + piece.text.len();
        assert(written.len() == piece.gap.len() + piece.text.len() + rest.len());
        assert forall|i: int| from <= i < start implies unicode_whitespace(#[trigger] s[i]) by {
            assert(written[i - from] == s[i]);
            assert(written[i - from] == piece.gap[i - from]);
        }
        assert(s.subrange(start, end) =~= piece.text) by {
            assert forall|i: int| 0 <= i < piece.text.len() implies s[start + i]
                == piece.text[i] by {
                assert(written[start + i - from] == s[start + i]);
            }
        }
        assert(s.subrange(end, s.len() as int) =~= rest) by {
            assert forall|i: int| 0 <= i < rest.len() implies s[end + i] == rest[i] by {
                assert(written[end + i - from] == s[end + i]);
            }
        }
        if end < s.len() {
            assert(s[end] == rest[0]) by {
                assert(s.subrange(end, s.len() as int)[0] == s[end]);
            }
        }
        lemma_written_token_is_read(s, from, start, piece.text, piece.token);
        lemma_written_tokens_are_read(s, end, pieces.drop_first(), tail);
        assert(tokens_of(pieces) =~= seq![piece.token] + tokens_of(pieces.drop_first()));
    }
}

/// Writing tokens down and scanning the text gives the tokens back: however
/// much whitespace stands between them.
pub proof fn lemma_written_tokens_are_read_back(pieces: Seq<Written>, tail: Seq<char>)
    requires
        well_written(pieces, tail),
    ensures
        scan_all(document(pieces, tail), 0) == (ScanAll {
            outcome: Ok(tokens_of(pieces)),
            end: document(pieces, tail).len() as int,
        }),
{
    let s = document(pieces, tail);
    assert(s.subrange(0, s.len() as int) =~= s);
    lemma_written_tokens_are_read(s, 0, pieces, tail);
}

} // verus!
