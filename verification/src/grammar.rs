//! The lexical grammar, as functions on sequences of characters: what the
//! token at the front of an input is, how much of the input it takes, and
//! what the tokens of a whole text are.

use vstd::prelude::*;

use crate::lexer::{LexingError, TokenView};
use crate::prepend::prepend;
use crate::text::{all_digits, alphanumeric, is_digit};

verus! {

/// The outcome of scanning one token from the front of an input: the token or
/// the error, and how many characters were read.
pub struct Scan {
    pub result: Result<TokenView, LexingError>,
    pub consumed: nat,
}

/// The length of the longest prefix of `s` whose characters all satisfy
/// `accepts`.
pub open spec fn prefix_len(s: Seq<char>, accepts: spec_fn(char) -> bool) -> nat
    decreases s.len(),
{
    if s.len() > 0 && accepts(s[0]) {
        1 + prefix_len(s.skip(1), accepts)
    } else {
        0
    }
}

/// `prefix_len` is within the sequence, every character before it is accepted
/// and the character at it, if there is one, is not.
pub proof fn lemma_prefix_len_maximal(s: Seq<char>, accepts: spec_fn(char) -> bool)
    ensures
        prefix_len(s, accepts) <= s.len(),
        forall|i: int| 0 <= i < prefix_len(s, accepts) ==> accepts(#[trigger] s[i]),
        prefix_len(s, accepts) < s.len() ==> !accepts(s[prefix_len(s, accepts) as int]),
    decreases s.len(),
{
    if s.len() > 0 && accepts(s[0]) {
        let rest = s.skip(1);
        lemma_prefix_len_maximal(rest, accepts);
        assert forall|i: int| 0 <= i < prefix_len(s, accepts) implies accepts(#[trigger] s[i]) by {
            if i > 0 {
                assert(s[i] == rest[i - 1]);
            }
        }
    }
}

/// Only one length is that of a maximal accepted prefix.
pub proof fn lemma_prefix_len_unique(s: Seq<char>, accepts: spec_fn(char) -> bool, n: int)
    requires
        0 <= n <= s.len(),
        forall|i: int| 0 <= i < n ==> accepts(#[trigger] s[i]),
        n < s.len() ==> !accepts(s[n]),
    ensures
        prefix_len(s, accepts) == n,
    decreases n,
{
    if n > 0 {
        let rest = s.skip(1);
        assert forall|i: int| 0 <= i < n - 1 implies accepts(#[trigger] rest[i]) by {
            assert(rest[i] == s[i + 1]);
        }
        lemma_prefix_len_unique(rest, accepts, n - 1);
    }
}

/// The characters that may stand inside a string literal: all but the
/// double quote.
pub open spec fn unquoted() -> spec_fn(char) -> bool {
    |c: char| c != '"'
}

/// The decimal digits, as a class of characters.
pub open spec fn digits() -> spec_fn(char) -> bool {
    |c: char| is_digit(c)
}

/// The letters and numbers of Unicode, as a class of characters.
pub open spec fn word_chars() -> spec_fn(char) -> bool {
    |c: char| alphanumeric(c)
}

/// What is left of `s` after its first character, and `s` itself where it is
/// empty.
pub open spec fn after_first(s: Seq<char>) -> Seq<char> {
    if s.len() > 0 {
        s.skip(1)
    } else {
        s
    }
}

/// What requiring `expected` at the front of `s` gives.
pub open spec fn expectation(s: Seq<char>, expected: char) -> Result<(), LexingError> {
    if s.len() == 0 {
        Err(LexingError::UnexpectedEndOfInput)
    } else if s[0] == expected {
        Ok(())
    } else {
        Err(LexingError::UnexpectedCharacter { expected, actual: s[0] })
    }
}

/// A string literal at the front of `s`: an opening quote, the longest run
/// of other characters, and a closing quote. The token holds the run, taken
/// verbatim.
///
/// An empty input is an unexpected end, with nothing read. A first character
/// other than the quote is an unexpected character, and has been read. An
/// input that ends before the closing quote is an unexpected end, and has
/// been read to its end.
pub open spec fn string_scan(s: Seq<char>) -> Scan {
    if s.len() == 0 {
        Scan { result: Err(LexingError::UnexpectedEndOfInput), consumed: 0 }
    } else if s[0] != '"' {
        Scan {
            result: Err(LexingError::UnexpectedCharacter { expected: '"', actual: s[0] }),
            consumed: 1,
        }
    } else {
        let inner = prefix_len(s.skip(1), unquoted());
        if inner + 1 == s.len() {
            Scan { result: Err(LexingError::UnexpectedEndOfInput), consumed: s.len() }
        } else {
            Scan {
                result: Ok(TokenView::String(s.subrange(1, (inner + 1) as int))),
                consumed: inner + 2,
            }
        }
    }
}

/// How many characters a numeric literal at the front of `s` takes: the
/// longest run of digits and, where a `.` follows it, that `.` and the
/// longest run of digits behind it.
pub open spec fn number_len(s: Seq<char>) -> nat {
    let whole = prefix_len(s, digits());
    if whole < s.len() && s[whole as int] == '.' {
        whole + 1 + prefix_len(s.skip((whole + 1) as int), digits())
    } else {
        whole
    }
}

/// A numeric literal at the front of `s`. The token holds its text as it
/// stands in the source: a second `.` is not part of it. Where the literal
/// would be empty, this is an unexpected end, with nothing read.
pub open spec fn number_scan(s: Seq<char>) -> Scan {
    let consumed = number_len(s);
    if consumed == 0 {
        Scan { result: Err(LexingError::UnexpectedEndOfInput), consumed }
    } else {
        Scan { result: Ok(TokenView::Number(s.take(consumed as int))), consumed }
    }
}

/// The token that a completed word stands for: a reserved word where the
/// whole word is one, an identifier otherwise.
pub open spec fn word_token(word: Seq<char>) -> TokenView {
    if word == "let"@ {
        TokenView::Let
    } else if word == "function"@ {
        TokenView::Function
    } else {
        TokenView::Identifier(word)
    }
}

/// A word at the front of `s`: the longest run of letters and numbers,
/// which may be empty.
pub open spec fn word_scan(s: Seq<char>) -> Scan {
    let consumed = prefix_len(s, word_chars());
    Scan { result: Ok(word_token(s.take(consumed as int))), consumed }
}

/// A token that is one character long.
pub open spec fn single(token: TokenView) -> Scan {
    Scan { result: Ok(token), consumed: 1 }
}

/// Whether a word may start with `c`: `c` lies between `A` and `z` and is a
/// letter or a number. So the punctuation that lies between `Z` and `a`
/// starts no word.
pub open spec fn starts_word(c: char) -> bool {
    'A' <= c && c <= 'z' && alphanumeric(c)
}

/// The token at the front of `s`, chosen by its first character: a space or
/// a tab is whitespace; `=`, `+`, a line feed and `;` are tokens of their
/// own; `"` opens a string literal; a digit starts a numeric literal; a
/// character that [`starts_word`] starts a word. Any other character is
/// invalid and stays unread. An empty input gives the end marker.
pub open spec fn next_token(s: Seq<char>) -> Scan {
    if s.len() == 0 {
        Scan { result: Ok(TokenView::EOF), consumed: 0 }
    } else {
        let c = s[0];
        if c == ' ' || c == '\t' {
            single(TokenView::Whitespace)
        } else if c == '=' {
            single(TokenView::Equals)
        } else if c == '+' {
            single(TokenView::Plus)
        } else if c == '\n' {
            single(TokenView::NewLine)
        } else if c == ';' {
            single(TokenView::SemiColon)
        } else if c == '"' {
            string_scan(s)
        } else if is_digit(c) {
            number_scan(s)
        } else if starts_word(c) {
            word_scan(s)
        } else {
            Scan { result: Err(LexingError::InvalidChar(c)), consumed: 0 }
        }
    }
}

/// Every scan stays within its input, and one that yields a token other than
/// the end marker reads at least one character.
pub proof fn lemma_next_token_advances(s: Seq<char>)
    ensures
        next_token(s).consumed <= s.len(),
        next_token(s).result is Ok && next_token(s).result != Ok::<TokenView, LexingError>(
            TokenView::EOF,
        ) ==> next_token(s).consumed >= 1,
{
    if s.len() > 0 {
        lemma_prefix_len_maximal(s.skip(1), unquoted());
        lemma_prefix_len_maximal(s, digits());
        let whole = prefix_len(s, digits());
        if whole < s.len() {
            lemma_prefix_len_maximal(s.skip((whole + 1) as int), digits());
        }
        lemma_prefix_len_maximal(s, word_chars());
    }
}

/// The tokens of the source text `s`: the tokens at the front of what is
/// left, one after the other, up to the end marker or the first error.
pub open spec fn tokens(s: Seq<char>) -> Result<Seq<TokenView>, LexingError>
    decreases s.len(),
{
    let step = next_token(s);
    match step.result {
        Err(error) => Err(error),
        Ok(TokenView::EOF) => Ok(seq![TokenView::EOF]),
        Ok(token) => {
            proof {
                lemma_next_token_advances(s);
            }
            prepend(seq![token], tokens(s.skip(step.consumed as int)))
        },
    }
}

/// Whether `text` is `whole` digits, at least one, alone or followed by a `.`
/// and any number of digits.
pub open spec fn splits_at(text: Seq<char>, whole: int) -> bool {
    &&& 0 < whole <= text.len()
    &&& all_digits(text.take(whole))
    &&& whole < text.len() ==> text[whole] == '.' && all_digits(text.skip(whole + 1))
}

/// Whether `text` is one or more digits, alone or followed by a `.` and any
/// number of digits.
pub open spec fn is_number_text(text: Seq<char>) -> bool {
    exists|whole: int| splits_at(text, whole)
}

/// Whether `text` is one or more digits, or one or more digits, a `.` and one
/// or more digits.
pub open spec fn is_decimal_literal(text: Seq<char>) -> bool {
    ||| text.len() > 0 && all_digits(text)
    ||| exists|dot: int|
        0 < dot < text.len() - 1 && #[trigger] text[dot] == '.' && all_digits(text.take(dot))
            && all_digits(text.skip(dot + 1))
}

/// Each token of a tokenized text is the token at the front of some rest of
/// it. Returns such a rest for the token at `index`.
pub proof fn lemma_token_origin(s: Seq<char>, index: int) -> (rest: Seq<char>)
    requires
        tokens(s) is Ok,
        0 <= index < tokens(s)->Ok_0.len(),
    ensures
        next_token(rest).result == Ok::<TokenView, LexingError>(tokens(s)->Ok_0[index]),
        tokens(s)->Ok_0[index] == TokenView::EOF ==> index == tokens(s)->Ok_0.len() - 1,
    decreases s.len(),
{
    let step = next_token(s);
    if step.result == Ok::<TokenView, LexingError>(TokenView::EOF) || index == 0 {
        s
    } else {
        lemma_next_token_advances(s);
        lemma_token_origin(s.skip(step.consumed as int), index - 1)
    }
}

/// A tokenized text ends in the end marker and holds it nowhere else.
pub proof fn lemma_one_eof_at_the_end(s: Seq<char>)
    requires
        tokens(s) is Ok,
    ensures
        tokens(s)->Ok_0.len() > 0,
        tokens(s)->Ok_0.last() == TokenView::EOF,
        forall|i: int|
            0 <= i < tokens(s)->Ok_0.len() - 1 ==> #[trigger] tokens(s)->Ok_0[i] != TokenView::EOF,
    decreases s.len(),
{
    let step = next_token(s);
    if step.result != Ok::<TokenView, LexingError>(TokenView::EOF) {
        lemma_next_token_advances(s);
        lemma_one_eof_at_the_end(s.skip(step.consumed as int));
    }
    assert forall|i: int| 0 <= i < tokens(s)->Ok_0.len() - 1 implies #[trigger] tokens(
        s,
    )->Ok_0[i] != TokenView::EOF by {
        lemma_token_origin(s, i);
    }
}

/// The text of a number token at the front of an input starts with a digit
/// and holds at most one `.`, with digits only on both sides of it.
pub proof fn lemma_scanned_number_text(s: Seq<char>)
    requires
        next_token(s).result is Ok,
        next_token(s).result->Ok_0 is Number,
    ensures
        is_number_text(next_token(s).result->Ok_0->Number_0),
{
    let text = next_token(s).result->Ok_0->Number_0;
    let whole = prefix_len(s, digits()) as int;
    let rest = s.skip(whole + 1);
    lemma_prefix_len_maximal(s, digits());
    if whole < s.len() {
        lemma_prefix_len_maximal(rest, digits());
    }
    assert forall|i: int| 0 <= i < whole implies is_digit(#[trigger] text.take(whole)[i]) by {
        assert(text.take(whole)[i] == s[i]);
    }
    if whole < text.len() {
        assert forall|i: int| 0 <= i < text.skip(whole + 1).len() implies is_digit(
            #[trigger] text.skip(whole + 1)[i],
        ) by {
            assert(text.skip(whole + 1)[i] == rest[i]);
        }
    }
    assert(splits_at(text, whole));
}

/// A number token of a tokenized text that does not end in `.` is one or
/// more digits, or digits, a `.` and digits.
pub proof fn lemma_number_tokens_are_decimal(s: Seq<char>, index: int)
    requires
        tokens(s) is Ok,
        0 <= index < tokens(s)->Ok_0.len(),
        tokens(s)->Ok_0[index] is Number,
        tokens(s)->Ok_0[index]->Number_0.last() != '.',
    ensures
        is_decimal_literal(tokens(s)->Ok_0[index]->Number_0),
{
    let text = tokens(s)->Ok_0[index]->Number_0;
    lemma_number_tokens_start_with_digits(s, index);
    let whole = choose|whole: int| splits_at(text, whole);
    if whole == text.len() {
        assert(text.take(whole) == text);
    } else {
        assert(text[whole] == '.');
    }
}

/// A number token of a tokenized text starts with a digit and holds at most
/// one `.`, with digits only on both sides of it.
pub proof fn lemma_number_tokens_start_with_digits(s: Seq<char>, index: int)
    requires
        tokens(s) is Ok,
        0 <= index < tokens(s)->Ok_0.len(),
        tokens(s)->Ok_0[index] is Number,
    ensures
        is_number_text(tokens(s)->Ok_0[index]->Number_0),
{
    let rest = lemma_token_origin(s, index);
    lemma_scanned_number_text(rest);
}

} // verus!
