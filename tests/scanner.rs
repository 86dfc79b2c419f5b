use yacc_grammar::{tokenize, Lexer, ScanError, Token};

fn kinds(input: &str) -> Vec<(Token, usize, usize)> {
    tokenize(input)
        .unwrap()
        .into_iter()
        .map(|t| (t.data, t.span.start, t.span.end))
        .collect()
}

#[test]
fn whitespace_and_comments_give_no_tokens() {
    assert!(tokenize("").unwrap().is_empty());
    assert!(tokenize("  \n\t // line comment\n/* block\n comment */ ").unwrap().is_empty());
    assert!(tokenize("// trailing comment without newline").unwrap().is_empty());
    assert!(tokenize("/**/\n/* a * b ** / */").unwrap().is_empty());
}

#[test]
fn nested_braces_make_one_code_token() {
    let input = "{ a { b { c } } d }";
    assert_eq!(kinds(input), vec![(Token::Code, 0, input.len())]);
    assert_eq!(kinds("x {{}} y"), vec![(Token::Ident, 0, 1), (Token::Code, 2, 6), (Token::Ident, 7, 8)]);
}

#[test]
fn unclosed_type_literal_is_an_error_token() {
    assert_eq!(kinds("<abc"), vec![(Token::Error, 0, 4)]);
    assert_eq!(kinds("<abc d"), vec![(Token::Error, 0, 5), (Token::Ident, 5, 6)]);
    assert_eq!(kinds("<expr>"), vec![(Token::Type, 0, 6)]);
}

#[test]
fn unclosed_code_block_aborts() {
    assert_eq!(tokenize("a { b { c }").unwrap_err(), ScanError::UnterminatedCode(2));
}

#[test]
fn rescanning_gives_the_same_tokens() {
    let input = "%token <t> A 'b' \"s\" 12 %% x: y { z } | w ;";
    assert_eq!(kinds(input), kinds(input));
}

#[test]
fn token_classes() {
    assert_eq!(
        kinds("= | : ; %% %pure-parser %name-prefix x_1 'c' \"str\" 42"),
        vec![
            (Token::Equal, 0, 1),
            (Token::Bar, 2, 3),
            (Token::Colon, 4, 5),
            (Token::SemiColon, 6, 7),
            (Token::PercentPercent, 8, 10),
            (Token::Directive, 11, 23),
            (Token::Directive, 24, 36),
            (Token::Ident, 37, 40),
            (Token::Char, 41, 44),
            (Token::String, 45, 50),
            (Token::Number, 51, 53),
        ]
    );
}

#[test]
fn stray_characters_are_error_tokens() {
    assert_eq!(kinds("#"), vec![(Token::Error, 0, 1)]);
    assert_eq!(kinds("_a"), vec![(Token::Error, 0, 1), (Token::Ident, 1, 2)]);
    assert_eq!(kinds("/x"), vec![(Token::Error, 0, 1), (Token::Ident, 1, 2)]);
    assert_eq!(kinds("%1"), vec![(Token::Error, 0, 2)]);
    assert_eq!(kinds("%"), vec![(Token::Error, 0, 1)]);
    assert_eq!(kinds("'ab"), vec![(Token::Error, 0, 3)]);
}

#[test]
fn multibyte_characters_are_consumed_whole() {
    assert_eq!(kinds("é"), vec![(Token::Error, 0, 2)]);
    assert_eq!(kinds("'é'"), vec![(Token::Char, 0, 4)]);
    assert_eq!(kinds("{ ü } \"ß\""), vec![(Token::Code, 0, 6), (Token::String, 7, 11)]);
    assert_eq!(kinds("<a€"), vec![(Token::Error, 0, 5)]);
}

#[test]
fn unterminated_constructs_abort() {
    assert_eq!(tokenize("x 'a").unwrap_err(), ScanError::UnterminatedChar(2));
    assert_eq!(tokenize("'").unwrap_err(), ScanError::UnterminatedChar(0));
    assert_eq!(tokenize("\"abc").unwrap_err(), ScanError::UnterminatedString(0));
    assert_eq!(tokenize("a /* b *").unwrap_err(), ScanError::UnterminatedComment(2));
}

#[test]
fn lexer_steps_one_token_at_a_time() {
    let mut lexer = Lexer::new("  ab\n:");
    let t = lexer.next().unwrap().unwrap();
    assert_eq!((t.data, t.span.start, t.span.end), (Token::Ident, 2, 4));
    assert_eq!(lexer.offset(), 4);
    let t = lexer.next().unwrap().unwrap();
    assert_eq!((t.data, t.span.start, t.span.end), (Token::Colon, 5, 6));
    assert!(lexer.next().unwrap().is_none());
    assert!(lexer.next().unwrap().is_none());
}
