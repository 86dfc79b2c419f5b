use yacc_grammar::{parse, Alternative, Directive, Lexer, ParseError, Parser, Rule, ScanError, Token};

fn strings(v: &[&str]) -> Vec<String> {
    v.iter().map(|s| s.to_string()).collect()
}

#[test]
fn left_directive_keeps_order() {
    let g = parse("%left a b c\n%%").unwrap();
    assert_eq!(g.directives, vec![Directive::Left { rule_names: strings(&["a", "b", "c"]) }]);
    assert!(g.rules.is_empty());
    assert_eq!(g.programs, "");
}

#[test]
fn rule_with_two_alternatives() {
    let g = parse("%%\nfoo: a b { $$ = 1; } | c ;").unwrap();
    assert_eq!(
        g.rules,
        vec![Rule {
            name: "foo".to_string(),
            alternatives: vec![
                Alternative {
                    elements: strings(&["a", "b"]),
                    action: Some("{ $$ = 1; }".to_string()),
                },
                Alternative { elements: strings(&["c"]), action: None },
            ],
        }]
    );
}

#[test]
fn missing_closing_brace_aborts_the_parse() {
    assert_eq!(
        parse("%%\nfoo: a { b ;").unwrap_err(),
        ParseError::Scan(ScanError::UnterminatedCode(10))
    );
}

#[test]
fn all_directive_kinds() {
    let input = "%pure-parser\n%expect 3\n%name-prefix=\"yy\"\n%locations\n\
                 %parse-param { int *p }\n%lex-param { void *s }\n%union { int n; }\n\
                 %type <expr> e 't'\n%token <num> NUM '+'\n%token IF\n%right '='\n%nonassoc LT\n%%\n";
    let g = parse(input).unwrap();
    assert_eq!(
        g.directives,
        vec![
            Directive::PureParser,
            Directive::Expect { number: 3 },
            Directive::NamePrefix { prefix: "\"yy\"".to_string() },
            Directive::Locations,
            Directive::ParseParam { params: "{ int *p }".to_string() },
            Directive::LexParam { params: "{ void *s }".to_string() },
            Directive::Union { code: "{ int n; }".to_string() },
            Directive::Type { type_tag: "<expr>".to_string(), rule_names: strings(&["e", "'t'"]) },
            Directive::Token { token_name: Some("<num>".to_string()), rule_names: strings(&["NUM", "'+'"]) },
            Directive::Token { token_name: None, rule_names: strings(&["IF"]) },
            Directive::Right { rule_names: strings(&["'='"]) },
            Directive::NonAssoc { rule_names: strings(&["LT"]) },
        ]
    );
}

#[test]
fn several_rules_and_empty_alternatives() {
    let g = parse("%%\n// rules\na: | 'x' b ;\nb: { act } ;\n%%\ntrailing code is not read").unwrap();
    assert_eq!(g.rules.len(), 2);
    assert_eq!(g.rules[0].name, "a");
    assert_eq!(
        g.rules[0].alternatives,
        vec![
            Alternative { elements: vec![], action: None },
            Alternative { elements: strings(&["'x'", "b"]), action: None },
        ]
    );
    assert_eq!(
        g.rules[1].alternatives,
        vec![Alternative { elements: vec![], action: Some("{ act }".to_string()) }]
    );
}

#[test]
fn expect_limits() {
    let g = parse("%expect 2147483647\n%%").unwrap();
    assert_eq!(g.directives, vec![Directive::Expect { number: 2147483647 }]);
    assert_eq!(parse("%expect 2147483648\n%%").unwrap_err(), ParseError::NumberOutOfRange { at: 8 });
}

#[test]
fn syntax_errors() {
    assert_eq!(
        parse("%left a").unwrap_err(),
        ParseError::Unexpected { expected: Token::PercentPercent, found: Token::Eof, at: 7, end: 7 }
    );
    assert_eq!(parse("%foo\n%%").unwrap_err(), ParseError::UnknownDirective { at: 0 });
    assert_eq!(
        parse("%%\nfoo: a :").unwrap_err(),
        ParseError::ExpectedBarOrSemiColon { found: Token::Colon, at: 10, end: 11 }
    );
    assert_eq!(
        parse("%%\nfoo a ;").unwrap_err(),
        ParseError::Unexpected { expected: Token::Colon, found: Token::Ident, at: 7, end: 8 }
    );
    assert_eq!(
        parse("%expect x\n%%").unwrap_err(),
        ParseError::Unexpected { expected: Token::Number, found: Token::Ident, at: 8, end: 9 }
    );
    assert_eq!(
        parse("%%\nfoo: a").unwrap_err(),
        ParseError::ExpectedBarOrSemiColon { found: Token::Eof, at: 9, end: 9 }
    );
    assert_eq!(parse("").unwrap_err(), ParseError::Unexpected {
        expected: Token::PercentPercent,
        found: Token::Eof,
        at: 0,
        end: 0,
    });
}

#[test]
fn scan_errors_stop_the_parse() {
    assert_eq!(parse("%% a: \"oops").unwrap_err(), ParseError::Scan(ScanError::UnterminatedString(6)));
    assert_eq!(parse("/* %%").unwrap_err(), ParseError::Scan(ScanError::UnterminatedComment(0)));
}

#[test]
fn parser_over_a_lexer() {
    let input = "%locations %% r: x ;";
    let mut parser = Parser::new(input, Lexer::new(input));
    let g = parser.parse_grammar().unwrap();
    assert_eq!(g.directives, vec![Directive::Locations]);
    assert_eq!(g.rules[0].name, "r");
}
