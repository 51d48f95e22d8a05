//! The lexer: tokens, lexing errors, and the functions that read tokens
//! from a [`CharStream`].

use vstd::prelude::*;

use crate::grammar::{
    after_first, digits, expectation, is_decimal_literal, is_number_text, lemma_next_token_advances,
    lemma_number_tokens_are_decimal, lemma_number_tokens_start_with_digits,
    lemma_one_eof_at_the_end, lemma_prefix_len_unique, next_token, number_len, number_scan,
    string_scan, tokens, unquoted, word_chars, word_scan, word_token,
};
use crate::prepend::{lemma_prepend_nothing, lemma_prepend_twice, prepend};
use crate::stream::CharStream;
use crate::text::char_is_digit;

verus! {

/// One lexical unit of the source text.
#[derive(Eq, PartialEq, Debug)]
pub enum Token {
    /// The reserved word `let`.
    Let,
    /// The reserved word `function`.
    Function,
    /// An alphanumeric word that is not reserved.
    Identifier(String),
    /// The characters between a pair of double quotes, taken verbatim.
    String(String),
    /// The source text of a numeric literal.
    Number(String),
    /// One space or tab.
    Whitespace,
    /// One line feed.
    NewLine,
    /// `=`
    Equals,
    /// `+`
    Plus,
    /// `;`
    SemiColon,
    /// The end of the input.
    EOF,
}

/// The mathematical value of a [`Token`]: the same variants, with the text of
/// a token as a sequence of characters.
pub enum TokenView {
    Let,
    Function,
    Identifier(Seq<char>),
    String(Seq<char>),
    Number(Seq<char>),
    Whitespace,
    NewLine,
    Equals,
    Plus,
    SemiColon,
    EOF,
}

impl View for Token {
    type V = TokenView;

    open spec fn view(&self) -> TokenView {
        match self {
            Token::Let => TokenView::Let,
            Token::Function => TokenView::Function,
            Token::Identifier(text) => TokenView::Identifier(text@),
            Token::String(text) => TokenView::String(text@),
            Token::Number(text) => TokenView::Number(text@),
            Token::Whitespace => TokenView::Whitespace,
            Token::NewLine => TokenView::NewLine,
            Token::Equals => TokenView::Equals,
            Token::Plus => TokenView::Plus,
            Token::SemiColon => TokenView::SemiColon,
            Token::EOF => TokenView::EOF,
        }
    }
}

impl DeepView for Token {
    type V = TokenView;

    open spec fn deep_view(&self) -> TokenView {
        self@
    }
}

/// Why a source text is not a sequence of tokens.
#[derive(Eq, PartialEq, Debug)]
pub enum LexingError {
    /// A particular character was required and another one was found.
    UnexpectedCharacter { expected: char, actual: char },
    /// No token starts with this character.
    InvalidChar(char),
    /// The input ended inside a token.
    UnexpectedEndOfInput,
}

/// What reading one token returns.
pub type LexingResult = Result<Token, LexingError>;

/// The view of what reading one token returns.
pub open spec fn result_view(result: LexingResult) -> Result<TokenView, LexingError> {
    match result {
        Ok(token) => Ok(token@),
        Err(error) => Err(error),
    }
}

/// The view of what [`lex`] returns.
pub open spec fn lexing_view(result: Result<Vec<Token>, LexingError>) -> Result<
    Seq<TokenView>,
    LexingError,
> {
    match result {
        Ok(tokens) => Ok(tokens.deep_view()),
        Err(error) => Err(error),
    }
}

/// Collects the characters of `chars`, in order, into a `String`.
pub fn stringify(chars: Vec<char>) -> (text: String)
    ensures
        text@ == chars@,
{
    let mut text = String::new();
    let mut i: usize = 0;
    while i < chars.len()
        invariant
            i <= chars.len(),
            text@ == chars@.take(i as int),
        decreases chars.len() - i,
    {
        text.push(chars[i]);
        i += 1;
    }
    text
}

/// Reads characters for as long as `predicate` answers `true` for the next
/// one, and returns them in order. The first character for which it answers
/// `false` stays unread.
pub fn take_while(input: &mut CharStream, predicate: impl Fn(char) -> bool) -> (taken: Vec<char>)
    requires
        forall|c: char| call_requires(predicate, (c,)),
    ensures
        taken@.len() <= old(input)@.len(),
        taken@ == old(input)@.take(taken@.len() as int),
        final(input)@ == old(input)@.skip(taken@.len() as int),
        forall|i: int|
            0 <= i < taken@.len() ==> call_ensures(predicate, (#[trigger] taken@[i],), true),
        taken@.len() < old(input)@.len() ==> call_ensures(
            predicate,
            (old(input)@[taken@.len() as int],),
            false,
        ),
{
    let mut output: Vec<char> = Vec::new();
    loop
        invariant
            forall|c: char| call_requires(predicate, (c,)),
            output@.len() <= old(input)@.len(),
            output@ == old(input)@.take(output@.len() as int),
            input@ == old(input)@.skip(output@.len() as int),
            forall|i: int|
                0 <= i < output@.len() ==> call_ensures(predicate, (#[trigger] output@[i],), true),
        ensures
            output@.len() < old(input)@.len() ==> call_ensures(
                predicate,
                (old(input)@[output@.len() as int],),
                false,
            ),
        decreases input@.len(),
    {
        match input.peek() {
            None => {
                break ;
            },
            Some(c) => {
                if predicate(c) {
                    input.next();
                    output.push(c);
                } else {
                    break ;
                }
            },
        }
    }
    output
}

/// Decides whether `c` may stand inside a string literal.
pub fn char_is_unquoted(c: char) -> (r: bool)
    ensures
        r == unquoted()(c),
{
    c != '"'
}

/// Reads one character, if there is one, and returns `token`.
pub fn consume(input: &mut CharStream, token: Token) -> (result: Result<Token, LexingError>)
    ensures
        result == Ok::<Token, LexingError>(token),
        final(input)@ == after_first(old(input)@),
{
    input.next();
    Ok(token)
}

/// Reads one character and requires it to be `expected_char`. A character
/// that is another one has been read all the same.
pub fn expect_next(input: &mut CharStream, expected_char: char) -> (result: Result<(), LexingError>)
    ensures
        result == expectation(old(input)@, expected_char),
        final(input)@ == after_first(old(input)@),
{
    if let Some(c) = input.next() {
        if c == expected_char {
            Ok(())
        } else {
            Err(LexingError::UnexpectedCharacter { actual: c, expected: expected_char })
        }
    } else {
        Err(LexingError::UnexpectedEndOfInput)
    }
}

/// Reads a string literal: an opening `"`, every character up to the next
/// `"`, and that `"`. The token holds the characters between the two, with
/// no escapes. See [`string_scan`] for the errors.
pub fn parse_string(input: &mut CharStream) -> (result: LexingResult)
    ensures
        result_view(result) == string_scan(old(input)@).result,
        final(input)@ == old(input)@.skip(string_scan(old(input)@).consumed as int),
{
    let ghost s = input@;
    match expect_next(input, '"') {
        Err(error) => {
            return Err(error);
        },
        Ok(_) => {},
    }
    let string_contents = take_while(input, char_is_unquoted);
    proof {
        let rest = s.skip(1);
        assert forall|i: int| 0 <= i < string_contents@.len() implies unquoted()(
            #[trigger] rest[i],
        ) by {
            assert(string_contents@[i] == rest[i]);
        }
        lemma_prefix_len_unique(rest, unquoted(), string_contents@.len() as int);
        assert(string_contents@ == s.subrange(1, (string_contents@.len() + 1) as int));
    }
    let token = Token::String(stringify(string_contents));
    match expect_next(input, '"') {
        Err(error) => Err(error),
        Ok(_) => Ok(token),
    }
}

/// Reads a numeric literal: the longest run of digits and, where a `.`
/// follows it, the `.` and the longest run of digits behind it. The token
/// holds the text as it was read. See [`number_scan`].
pub fn parse_number(input: &mut CharStream) -> (result: Result<Token, LexingError>)
    ensures
        result_view(result) == number_scan(old(input)@).result,
        final(input)@ == old(input)@.skip(number_scan(old(input)@).consumed as int),
{
    let ghost s = input@;
    let mut num_contents = take_while(input, char_is_digit);
    let ghost whole = num_contents@.len();
    proof {
        assert forall|i: int| 0 <= i < whole implies digits()(#[trigger] s[i]) by {
            assert(num_contents@[i] == s[i]);
        }
        lemma_prefix_len_unique(s, digits(), whole as int);
    }
    if let Some('.') = input.peek() {
        input.next();
        num_contents.push('.');
        let mut fraction = take_while(input, char_is_digit);
        proof {
            let rest = s.skip((whole + 1) as int);
            assert forall|i: int| 0 <= i < fraction@.len() implies digits()(#[trigger] rest[i]) by {
                assert(fraction@[i] == rest[i]);
            }
            lemma_prefix_len_unique(rest, digits(), fraction@.len() as int);
        }
        num_contents.append(&mut fraction);
        assert(num_contents@ == s.take(number_len(s) as int));
    }
    if num_contents.is_empty() {
        Err(LexingError::UnexpectedEndOfInput)
    } else {
        Ok(Token::Number(stringify(num_contents)))
    }
}

/// Decides whether `chars` are the characters of `word`.
pub fn spells(chars: &Vec<char>, word: &str) -> (same: bool)
    ensures
        same == (chars@ == word@),
{
    let mut i: usize = 0;
    for c in it: word.chars()
        invariant
            it.seq() == word@,
            i == it.index(),
            i <= chars.len(),
            chars@.take(i as int) == word@.take(i as int),
    {
        if i >= chars.len() || chars[i] != c {
            return false;
        }
        i += 1;
    }
    assert(word@.take(i as int) == word@);
    assert(i == chars.len() ==> chars@.take(i as int) == chars@);
    i == chars.len()
}

/// The token that the completed word `word` stands for.
pub fn keyword_or_identifier(word: Vec<char>) -> (token: Token)
    ensures
        token@ == word_token(word@),
{
    if spells(&word, "let") {
        Token::Let
    } else if spells(&word, "function") {
        Token::Function
    } else {
        Token::Identifier(stringify(word))
    }
}

/// Reads a word, the longest run of letters and numbers, and tells a
/// reserved word from an identifier by the whole word. See [`word_scan`].
pub fn parse_identifier_or_keyword(input: &mut CharStream) -> (result: Result<Token, LexingError>)
    ensures
        result_view(result) == word_scan(old(input)@).result,
        final(input)@ == old(input)@.skip(word_scan(old(input)@).consumed as int),
{
    let ghost s = input@;
    let identifier_or_keyword = take_while(input, char::is_alphanumeric);
    proof {
        assert forall|i: int| 0 <= i < identifier_or_keyword@.len() implies word_chars()(
            #[trigger] s[i],
        ) by {
            assert(identifier_or_keyword@[i] == s[i]);
        }
        lemma_prefix_len_unique(s, word_chars(), identifier_or_keyword@.len() as int);
    }
    Ok(keyword_or_identifier(identifier_or_keyword))
}

/// Looks at the next character without reading it: `None` where it occurs
/// in `word`, and `word` otherwise, also at the end of the input.
pub fn test_word_or_rewind<'a>(input: &mut CharStream, word: &'a str) -> (result: Option<&'a str>)
    ensures
        final(input)@ == old(input)@,
        result is None <==> old(input)@.len() > 0 && word@.contains(old(input)@[0]),
        result matches Some(same) ==> same@ == word@,
{
    let peeked = input.peek();
    for c in it: word.chars()
        invariant
            input@ == old(input)@,
            peeked == (if input@.len() > 0 {
                Some(input@[0])
            } else {
                None
            }),
            it.seq() == word@,
            forall|j: int| 0 <= j < it.index() ==> peeked != Some(#[trigger] it.seq()[j]),
    {
        if let Some(peeked_char) = peeked {
            if peeked_char == c {
                return None;
            }
        }
    }
    Some(word)
}

/// Reads the token at the front of the input, chosen by looking at one
/// character. At the end of the input this is the end marker, and a
/// character that starts no token stays unread. See [`next_token`].
pub fn parse_next_token(input: &mut CharStream) -> (result: LexingResult)
    ensures
        result_view(result) == next_token(old(input)@).result,
        final(input)@ == old(input)@.skip(next_token(old(input)@).consumed as int),
{
    match input.peek() {
        None => Ok(Token::EOF),
        Some(next_char) => {
            match next_char {
                ' ' => consume(input, Token::Whitespace),
                '\t' => consume(input, Token::Whitespace),
                '=' => consume(input, Token::Equals),
                '+' => consume(input, Token::Plus),
                '\n' => consume(input, Token::NewLine),
                ';' => consume(input, Token::SemiColon),
                '"' => parse_string(input),
                '0'..='9' => parse_number(input),
                'A'..='z' => {
                    if next_char.is_alphanumeric() {
                        parse_identifier_or_keyword(input)
                    } else {
                        Err(LexingError::InvalidChar(next_char))
                    }
                },
                unexpected => Err(LexingError::InvalidChar(unexpected)),
            }
        },
    }
}

/// Splits the source text `input` into its tokens, the end marker last, or
/// fails with the first error: see [`tokens`].
///
/// A successful result ends in the end marker and holds it nowhere else.
/// Each of its number tokens starts with a digit and holds at most one `.`;
/// one that does not end in `.` is digits, or digits, a `.` and digits.
pub fn lex(input: &str) -> (result: Result<Vec<Token>, LexingError>)
    ensures
        lexing_view(result) == tokens(input@),
        result matches Ok(output) ==> {
            &&& output.len() > 0
            &&& output[output.len() - 1]@ == TokenView::EOF
            &&& forall|i: int|
                0 <= i < output.len() - 1 ==> (#[trigger] output[i])@ != TokenView::EOF
            &&& forall|i: int|
                0 <= i < output.len() && (#[trigger] output[i])@ is Number ==> {
                    let text = output[i]@->Number_0;
                    &&& is_number_text(text)
                    &&& text.last() != '.' ==> is_decimal_literal(text)
                }
        },
{
    let mut output: Vec<Token> = Vec::new();
    let mut chars = CharStream::new(input);
    proof {
        lemma_prepend_nothing(tokens(input@));
    }
    loop
        invariant_except_break
            tokens(input@) == prepend(output.deep_view(), tokens(chars@)),
        ensures
            tokens(input@) == Ok::<Seq<TokenView>, LexingError>(output.deep_view()),
        decreases chars@.len(),
    {
        let ghost before = output.deep_view();
        proof {
            lemma_next_token_advances(chars@);
        }
        match parse_next_token(&mut chars) {
            Err(err) => {
                return Err(err);
            },
            Ok(Token::EOF) => {
                output.push(Token::EOF);
                assert(output.deep_view() == before + seq![TokenView::EOF]);
                break ;
            },
            Ok(token) => {
                let ghost first = seq![token@];
                output.push(token);
                proof {
                    assert(output.deep_view() == before + first);
                    lemma_prepend_twice(before, first, tokens(chars@));
                }
            },
        }
    }
    proof {
        let views = output.deep_view();
        lemma_one_eof_at_the_end(input@);
        assert forall|i: int| 0 <= i < output.len() implies (#[trigger] output[i])@
            == views[i] by {}
        assert forall|i: int| 0 <= i < output.len() && (#[trigger] output[i])@ is Number implies {
            let text = output[i]@->Number_0;
            &&& is_number_text(text)
            &&& text.last() != '.' ==> is_decimal_literal(text)
        } by {
            lemma_number_tokens_start_with_digits(input@, i);
            if output[i]@->Number_0.last() != '.' {
                lemma_number_tokens_are_decimal(input@, i);
            }
        }
    }
    Ok(output)
}

} // verus!
