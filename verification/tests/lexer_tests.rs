use lang_frontend::lexer::{
    char_is_unquoted, consume, expect_next, keyword_or_identifier, lex, parse_identifier_or_keyword,
    parse_next_token, parse_number, parse_string, spells, take_while, test_word_or_rewind,
    LexingError, Token,
};
use lang_frontend::stream::CharStream;
use lang_frontend::text::{char_is_digit, chars_of};

fn number(text: &str) -> Token {
    Token::Number(String::from(text))
}

fn identifier(text: &str) -> Token {
    Token::Identifier(String::from(text))
}

fn rest_of(stream: &mut CharStream) -> String {
    lang_frontend::lexer::stringify(take_while(stream, |_| true))
}

#[test]
fn empty_returns_eof() {
    let result = lex(&"");
    assert_eq!(result.unwrap(), vec![Token::EOF])
}

#[test]
fn space_and_tab_are_whitespace() {
    let result = lex(&" \t");
    assert_eq!(result.unwrap(), vec![Token::Whitespace, Token::Whitespace, Token::EOF])
}

#[test]
fn strings_and_whitespace_parsed_correctly() {
    let input = "\"wow\" \"this\" \"string\"";
    let output = lex(&input);

    assert_eq!(output.unwrap(), vec![
        Token::String(String::from("wow")),
        Token::Whitespace,
        Token::String(String::from("this")),
        Token::Whitespace,
        Token::String(String::from("string")),
        Token::EOF,
    ])
}

#[test]
fn string_missing_terminator_fails() {
    let input = "\"wow this is a string";
    let output = lex(&input);

    assert_eq!(output.unwrap_err(), LexingError::UnexpectedEndOfInput);
}

#[test]
fn integer_is_parsed_correctly() {
    let input = "1 2 3 45";
    let output = lex(&input);

    assert_eq!(
        output.unwrap(),
        vec![
            Token::Number(String::from("1")),
            Token::Whitespace,
            Token::Number(String::from("2")),
            Token::Whitespace,
            Token::Number(String::from("3")),
            Token::Whitespace,
            Token::Number(String::from("45")),
            Token::EOF,
        ]
    )
}

#[test]
fn float_parsed_correctly() {
    let input = "1.21";
    let result = lex(&input);

    assert_eq!(result.unwrap(), vec![Token::Number(String::from("1.21")), Token::EOF])
}

#[test]
fn invalid_float_lookalike_returns_lexer_error() {
    let input = "1.1.1";
    let result = lex(&input);

    assert_eq!(result.unwrap_err(), LexingError::InvalidChar('.'));
}

#[test]
fn non_keywords_parsed_as_identifiers() {
    let input = "let someValue = 10;";
    let result = lex(&input);

    assert_eq!(
        result.unwrap(),
        vec![
            Token::Let,
            Token::Whitespace,
            Token::Identifier(String::from("someValue")),
            Token::Whitespace,
            Token::Equals,
            Token::Whitespace,
            Token::Number(String::from("10")),
            Token::SemiColon,
            Token::EOF,
        ]
    );
}

#[test]
fn every_single_character_token_is_recognised() {
    assert_eq!(
        lex(" \t=+\n;").unwrap(),
        vec![
            Token::Whitespace,
            Token::Whitespace,
            Token::Equals,
            Token::Plus,
            Token::NewLine,
            Token::SemiColon,
            Token::EOF,
        ]
    );
}

#[test]
fn reserved_words_need_the_whole_word() {
    assert_eq!(
        lex("let function letter functions le").unwrap(),
        vec![
            Token::Let,
            Token::Whitespace,
            Token::Function,
            Token::Whitespace,
            identifier("letter"),
            Token::Whitespace,
            identifier("functions"),
            Token::Whitespace,
            identifier("le"),
            Token::EOF,
        ]
    );
}

#[test]
fn reserved_words_are_case_sensitive() {
    assert_eq!(lex("Let").unwrap(), vec![identifier("Let"), Token::EOF]);
    assert_eq!(lex("FUNCTION").unwrap(), vec![identifier("FUNCTION"), Token::EOF]);
}

#[test]
fn a_word_goes_on_through_digits_and_letters_of_any_script() {
    assert_eq!(lex("x1y2").unwrap(), vec![identifier("x1y2"), Token::EOF]);
    assert_eq!(lex("caf\u{e9}+").unwrap(), vec![identifier("caf\u{e9}"), Token::Plus, Token::EOF]);
}

#[test]
fn a_word_ends_at_the_first_other_character() {
    assert_eq!(
        lex("ab;cd").unwrap(),
        vec![identifier("ab"), Token::SemiColon, identifier("cd"), Token::EOF]
    );
}

#[test]
fn a_number_directly_followed_by_a_word() {
    assert_eq!(lex("12ab").unwrap(), vec![number("12"), identifier("ab"), Token::EOF]);
}

#[test]
fn punctuation_between_the_letter_ranges_starts_no_token() {
    for c in ['[', '\\', ']', '^', '_', '`'] {
        assert_eq!(lex(&c.to_string()).unwrap_err(), LexingError::InvalidChar(c));
    }
    assert_eq!(lex("a_b").unwrap_err(), LexingError::InvalidChar('_'));
}

#[test]
fn characters_outside_the_table_are_invalid() {
    assert_eq!(lex("-").unwrap_err(), LexingError::InvalidChar('-'));
    assert_eq!(lex("a @").unwrap_err(), LexingError::InvalidChar('@'));
    assert_eq!(lex("\r").unwrap_err(), LexingError::InvalidChar('\r'));
    assert_eq!(lex("\u{e9}").unwrap_err(), LexingError::InvalidChar('\u{e9}'));
    assert_eq!(lex(".5").unwrap_err(), LexingError::InvalidChar('.'));
}

#[test]
fn the_first_error_wins() {
    assert_eq!(lex("1 ? \"open").unwrap_err(), LexingError::InvalidChar('?'));
    assert_eq!(lex("\"open ?").unwrap_err(), LexingError::UnexpectedEndOfInput);
}

#[test]
fn a_number_may_end_in_its_point() {
    assert_eq!(lex("1.").unwrap(), vec![number("1."), Token::EOF]);
    assert_eq!(lex("7.;").unwrap(), vec![number("7."), Token::SemiColon, Token::EOF]);
}

#[test]
fn a_string_keeps_its_characters_verbatim() {
    assert_eq!(
        lex("\"a\\n 1.1.1 _\t\"").unwrap(),
        vec![Token::String(String::from("a\\n 1.1.1 _\t")), Token::EOF]
    );
    assert_eq!(lex("\"\"").unwrap(), vec![Token::String(String::new()), Token::EOF]);
}

#[test]
fn a_lone_quote_is_an_open_string() {
    assert_eq!(lex("\"").unwrap_err(), LexingError::UnexpectedEndOfInput);
}

#[test]
fn success_ends_in_exactly_one_end_marker() {
    for input in ["", " ", "let x = 1;", "\"s\"\n12.5+ab", "1.", "function f"] {
        let tokens = lex(input).unwrap();
        assert!(!tokens.is_empty());
        assert_eq!(tokens[tokens.len() - 1], Token::EOF);
        assert!(tokens[..tokens.len() - 1].iter().all(|token| *token != Token::EOF));
    }
}

#[test]
fn number_tokens_are_digits_with_at_most_one_point() {
    let tokens = lex("0 12 3.4 56.78 9.").unwrap();
    let texts: Vec<String> = tokens
        .into_iter()
        .filter_map(|token| match token {
            Token::Number(text) => Some(text),
            _ => None,
        })
        .collect();
    assert_eq!(texts, vec!["0", "12", "3.4", "56.78", "9."]);
    for text in &texts {
        let parts: Vec<&str> = text.split('.').collect();
        assert!(parts.len() <= 2);
        assert!(!parts[0].is_empty());
        assert!(parts.iter().all(|part| part.chars().all(|c| c.is_ascii_digit())));
    }
}

#[test]
fn parse_next_token_reads_one_token_and_stops() {
    let mut stream = CharStream::new("let x");
    assert_eq!(parse_next_token(&mut stream), Ok(Token::Let));
    assert_eq!(parse_next_token(&mut stream), Ok(Token::Whitespace));
    assert_eq!(parse_next_token(&mut stream), Ok(identifier("x")));
    assert_eq!(parse_next_token(&mut stream), Ok(Token::EOF));
    assert_eq!(parse_next_token(&mut stream), Ok(Token::EOF));
}

#[test]
fn parse_next_token_leaves_an_invalid_character_unread() {
    let mut stream = CharStream::new("?x");
    assert_eq!(parse_next_token(&mut stream), Err(LexingError::InvalidChar('?')));
    assert_eq!(stream.peek(), Some('?'));
}

#[test]
fn parse_string_reads_through_the_closing_quote() {
    let mut stream = CharStream::new("\"ab\"cd");
    assert_eq!(parse_string(&mut stream), Ok(Token::String(String::from("ab"))));
    assert_eq!(rest_of(&mut stream), "cd");
}

#[test]
fn parse_string_needs_an_opening_quote() {
    let mut stream = CharStream::new("ab\"");
    assert_eq!(
        parse_string(&mut stream),
        Err(LexingError::UnexpectedCharacter { expected: '"', actual: 'a' })
    );
    assert_eq!(rest_of(&mut stream), "b\"");
}

#[test]
fn parse_string_at_the_end_of_the_input() {
    let mut stream = CharStream::new("");
    assert_eq!(parse_string(&mut stream), Err(LexingError::UnexpectedEndOfInput));
    let mut open = CharStream::new("\"ab");
    assert_eq!(parse_string(&mut open), Err(LexingError::UnexpectedEndOfInput));
    assert_eq!(open.peek(), None);
}

#[test]
fn parse_number_takes_the_longest_literal() {
    let mut stream = CharStream::new("12.50.3");
    assert_eq!(parse_number(&mut stream), Ok(number("12.50")));
    assert_eq!(rest_of(&mut stream), ".3");
}

#[test]
fn parse_number_without_a_point() {
    let mut stream = CharStream::new("42 ");
    assert_eq!(parse_number(&mut stream), Ok(number("42")));
    assert_eq!(rest_of(&mut stream), " ");
}

#[test]
fn parse_number_with_a_leading_point() {
    let mut stream = CharStream::new(".5x");
    assert_eq!(parse_number(&mut stream), Ok(number(".5")));
    assert_eq!(rest_of(&mut stream), "x");
}

#[test]
fn parse_number_on_no_digit_reads_nothing() {
    let mut stream = CharStream::new("ab");
    assert_eq!(parse_number(&mut stream), Err(LexingError::UnexpectedEndOfInput));
    assert_eq!(rest_of(&mut stream), "ab");
    let mut empty = CharStream::new("");
    assert_eq!(parse_number(&mut empty), Err(LexingError::UnexpectedEndOfInput));
}

#[test]
fn parse_identifier_or_keyword_takes_the_longest_word() {
    let mut stream = CharStream::new("function1 x");
    assert_eq!(parse_identifier_or_keyword(&mut stream), Ok(identifier("function1")));
    assert_eq!(rest_of(&mut stream), " x");
    let mut keyword = CharStream::new("function(");
    assert_eq!(parse_identifier_or_keyword(&mut keyword), Ok(Token::Function));
    assert_eq!(rest_of(&mut keyword), "(");
}

#[test]
fn parse_identifier_or_keyword_on_no_word_gives_an_empty_identifier() {
    let mut stream = CharStream::new("_a");
    assert_eq!(parse_identifier_or_keyword(&mut stream), Ok(identifier("")));
    assert_eq!(rest_of(&mut stream), "_a");
}

#[test]
fn keyword_or_identifier_classifies_a_word() {
    assert_eq!(keyword_or_identifier(vec!['l', 'e', 't']), Token::Let);
    assert_eq!(keyword_or_identifier(chars_of("function")), Token::Function);
    assert_eq!(keyword_or_identifier(chars_of("lets")), identifier("lets"));
    assert_eq!(keyword_or_identifier(chars_of("functio")), identifier("functio"));
    assert_eq!(keyword_or_identifier(chars_of("tel")), identifier("tel"));
    assert_eq!(keyword_or_identifier(Vec::new()), identifier(""));
}

#[test]
fn spells_compares_every_character() {
    assert!(spells(&vec!['l', 'e', 't'], "let"));
    assert!(spells(&Vec::new(), ""));
    assert!(spells(&vec!['\u{e9}'], "\u{e9}"));
    assert!(!spells(&vec!['l', 'e'], "let"));
    assert!(!spells(&vec!['l', 'e', 't', 's'], "let"));
    assert!(!spells(&vec!['l', 'e', 'T'], "let"));
    assert!(!spells(&Vec::new(), "let"));
    assert!(!spells(&vec!['l'], ""));
}

#[test]
fn consume_reads_one_character() {
    let mut stream = CharStream::new("ab");
    assert_eq!(consume(&mut stream, Token::Plus), Ok(Token::Plus));
    assert_eq!(rest_of(&mut stream), "b");
    let mut empty = CharStream::new("");
    assert_eq!(consume(&mut empty, Token::Equals), Ok(Token::Equals));
    assert_eq!(empty.peek(), None);
}

#[test]
fn expect_next_compares_the_character_it_reads() {
    let mut stream = CharStream::new("ab");
    assert_eq!(expect_next(&mut stream, 'a'), Ok(()));
    assert_eq!(
        expect_next(&mut stream, 'a'),
        Err(LexingError::UnexpectedCharacter { expected: 'a', actual: 'b' })
    );
    assert_eq!(expect_next(&mut stream, 'a'), Err(LexingError::UnexpectedEndOfInput));
}

#[test]
fn take_while_stops_at_the_first_refusal() {
    let mut stream = CharStream::new("aab\"a");
    assert_eq!(take_while(&mut stream, |c| c == 'a'), vec!['a', 'a']);
    assert_eq!(take_while(&mut stream, |c| c == 'a'), Vec::<char>::new());
    assert_eq!(take_while(&mut stream, char_is_unquoted), vec!['b']);
    assert_eq!(stream.peek(), Some('"'));
    stream.next();
    assert_eq!(take_while(&mut stream, char_is_digit), Vec::<char>::new());
    assert_eq!(take_while(&mut stream, char::is_alphanumeric), vec!['a']);
    assert_eq!(take_while(&mut stream, char::is_alphanumeric), Vec::<char>::new());
}

#[test]
fn test_word_or_rewind_looks_for_the_next_character_in_the_word() {
    let mut stream = CharStream::new("et");
    assert_eq!(test_word_or_rewind(&mut stream, "let"), None);
    assert_eq!(test_word_or_rewind(&mut stream, "lot"), Some("lot"));
    assert_eq!(test_word_or_rewind(&mut stream, ""), Some(""));
    assert_eq!(stream.peek(), Some('e'));
    let mut empty = CharStream::new("");
    assert_eq!(test_word_or_rewind(&mut empty, "let"), Some("let"));
}

#[test]
fn stringify_keeps_every_character_in_order() {
    assert_eq!(lang_frontend::lexer::stringify(vec!['a', '1', '\u{e9}', '"']), "a1\u{e9}\"");
    assert_eq!(lang_frontend::lexer::stringify(Vec::new()), "");
}

#[test]
fn chars_of_lists_the_characters() {
    assert_eq!(chars_of("a\u{e9}1"), vec!['a', '\u{e9}', '1']);
    assert_eq!(chars_of(""), Vec::<char>::new());
}

#[test]
fn character_classes() {
    assert!(char_is_digit('0') && char_is_digit('9'));
    assert!(!char_is_digit('/') && !char_is_digit(':') && !char_is_digit('a'));
    assert!(!char_is_digit('\u{663}'));
    assert!(char_is_unquoted('a') && !char_is_unquoted('"'));
}

#[test]
fn the_stream_reads_forward_with_one_character_of_lookahead() {
    let mut stream = CharStream::new("ab");
    assert_eq!(stream.peek(), Some('a'));
    assert_eq!(stream.peek(), Some('a'));
    assert_eq!(stream.next(), Some('a'));
    assert_eq!(stream.next(), Some('b'));
    assert_eq!(stream.peek(), None);
    assert_eq!(stream.next(), None);
    assert_eq!(stream.next(), None);
}
