use yacc_grammar::{line_col, parse, Alternative, Directive, Grammar, Lexer, Parser, Rule, Token};

fn strings(v: &[&str]) -> Vec<String> {
    v.iter().map(|s| s.to_string()).collect()
}

#[test]
fn directive_lines() {
    assert_eq!(Directive::PureParser.to_text(), "%pure-parser\n");
    assert_eq!(Directive::Expect { number: 0 }.to_text(), "%expect 0\n");
    assert_eq!(Directive::Expect { number: 1203 }.to_text(), "%expect 1203\n");
    assert_eq!(Directive::Expect { number: -45 }.to_text(), "%expect -45\n");
    assert_eq!(Directive::Expect { number: i32::MIN }.to_text(), "%expect -2147483648\n");
    assert_eq!(
        Directive::Token { token_name: Some("<n>".to_string()), rule_names: strings(&["A", "'b'"]) }.to_text(),
        "%token <n> A 'b'\n"
    );
    assert_eq!(Directive::Token { token_name: None, rule_names: vec![] }.to_text(), "%token\n");
    assert_eq!(Directive::Left { rule_names: strings(&["a", "b"]) }.to_text(), "%left a b\n");
    assert_eq!(Directive::Union { code: "{ int x; }".to_string() }.to_text(), "%union { int x; }\n");
}

#[test]
fn rule_and_alternative_text() {
    let r = Rule {
        name: "foo".to_string(),
        alternatives: vec![
            Alternative { elements: strings(&["a", "b"]), action: Some("{ $$ = 1; }".to_string()) },
            Alternative { elements: strings(&["c"]), action: None },
        ],
    };
    assert_eq!(r.alternatives[1].to_text(), "c");
    assert_eq!(
        Alternative { elements: strings(&["a", "b"]), action: Some("{ x }".to_string()) }.to_text(),
        "a b { x }"
    );
    assert_eq!(Alternative { elements: vec![], action: None }.to_text(), "");
    assert_eq!(Alternative { elements: vec![], action: Some("{ x }".to_string()) }.to_text(), " { x }");
    let empty = Rule {
        name: "e".to_string(),
        alternatives: vec![
            Alternative { elements: vec![], action: None },
            Alternative { elements: vec![], action: Some("{ x }".to_string()) },
        ],
    };
    assert_eq!(empty.to_text(), "e: | { x } ;\n");
    assert_eq!(r.to_text(), "foo: a b { $$ = 1; } | c ;\n");
}

#[test]
fn grammar_text_with_programs() {
    let g = Grammar {
        directives: vec![Directive::Locations],
        rules: vec![],
        programs: "int main() {}".to_string(),
    };
    assert_eq!(g.to_text(), "%locations\n%%\n%%\nint main() {}");
}

#[test]
fn reparsing_printed_text_gives_the_same_document() {
    let input = "%pure-parser\n%expect 7\n%name-prefix=\"zz\"\n%locations\n%parse-param { int *p }\n\
                 %lex-param { void *s }\n%union { int n; char *s; }\n%type <e> expr 'x'\n\
                 %token <num> NUM\n%token PLUS '-'\n%left '+' '-'\n%right '^'\n%nonassoc UMINUS\n%%\n\
                 expr: expr '+' expr { $$ = $1 + $3; } | NUM | { empty(); } | ;\nstmt: expr ';' ;\n";
    let g = parse(input).unwrap();
    let printed = g.to_text();
    let again = parse(&printed).unwrap();
    assert_eq!(again, g);
    assert_eq!(again.to_text(), printed);
}

#[test]
fn line_and_column() {
    let input = "ab\ncd\n\u{e9}x";
    assert_eq!(line_col(input, 0), (1, 1));
    assert_eq!(line_col(input, 2), (1, 3));
    assert_eq!(line_col(input, 3), (2, 1));
    assert_eq!(line_col(input, 6), (3, 1));
    assert_eq!(line_col(input, 8), (3, 2));
    assert_eq!(line_col(input, 9), (3, 3));
}

#[test]
fn program_section_block() {
    let input = "{ int x; } rest";
    let mut parser = Parser::new(input, Lexer::new(input));
    assert_eq!(parser.parse_programs().unwrap(), "{ int x; }");
    assert_eq!(parser.parse_programs().unwrap(), "");
    let _ = Token::Eof;
}
