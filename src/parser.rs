use vstd::prelude::*;
use vstd::string::StringSliceAdditionalSpecFns;
use crate::grammar::{
    strings_view, Alternative, AlternativeView, Directive, DirectiveView, Grammar, GrammarView,
    Rule, RuleView,
};
use crate::lexer::{lemma_number_digits, Lexer};
use crate::parse_spec::{
    action, alternative, alternatives, code_arg, digits_value, directive, directives, expect,
    grammar_end, grammar_from, lookahead, names, rule, rules, text, ParseError,
};
use crate::scan_spec::{is_digit, DIGIT_0};
use crate::token::{Spanned, Token};
use crate::utf8_step::{
    lemma_concat_boundary, lemma_ends, lemma_finish, lemma_start, on_boundary, well_split,
};

verus! {

proof fn lemma_digits_grow(d: Seq<u8>, i: int, j: int)
    requires
        0 <= i <= j <= d.len(),
        forall|k: int| 0 <= k < d.len() ==> is_digit(#[trigger] d[k]),
    ensures
        0 <= digits_value(d.subrange(0, i)) <= digits_value(d.subrange(0, j)),
    decreases j,
{
    if j > 0 {
        assert(d.subrange(0, j).drop_last() =~= d.subrange(0, j - 1));
        if i < j {
            lemma_digits_grow(d, i, j - 1);
        } else {
            lemma_digits_grow(d, i - 1, j - 1);
            assert(d.subrange(0, i).drop_last() =~= d.subrange(0, i - 1));
        }
    }
}

/// Parses a whole grammar document.
pub fn parse(input: &str) -> (r: Result<Grammar, ParseError>)
    ensures
        match r {
            Ok(g) => grammar_from(input.spec_bytes(), 0) == Ok::<GrammarView, ParseError>(g@),
            Err(x) => grammar_from(input.spec_bytes(), 0) == Err::<GrammarView, ParseError>(x),
        },
{
    let lexer = Lexer::new(input);
    let mut parser = Parser::new(input, lexer);
    parser.parse_grammar()
}

/// A recursive-descent reader of grammar documents, with one token of lookahead.
pub struct Parser<'a> {
    input: &'a str,
    lexer: Lexer<'a>,
    ahead: Option<Spanned<Token>>,
    at: usize,
}

impl<'a> Parser<'a> {
    /// The bytes being parsed.
    pub closed spec fn source(&self) -> Seq<u8> {
        self.input.spec_bytes()
    }

    /// Byte offset of the first unconsumed input.
    pub closed spec fn position(&self) -> int {
        self.at as int
    }

    /// The scanner reads the same buffer; a lookahead token, when held, is the
    /// one that the buffer has at the current position.
    pub closed spec fn wf(&self) -> bool {
        let b = self.source();
        &&& self.lexer.wf()
        &&& self.lexer.source() == b
        &&& on_boundary(b, self.at as int)
        &&& match self.ahead {
            None => self.lexer.cursor() == self.at as int,
            Some(t) => {
                &&& lookahead(b, self.at as int) == Ok::<(Token, int, int), ParseError>(
                    (t.data, t.span.start as int, t.span.end as int),
                )
                &&& well_split(b, t.span.start as int, t.span.end as int)
                &&& self.at <= t.span.start
                &&& (t.data != Token::Eof ==> t.span.start < t.span.end)
                &&& self.lexer.cursor() == t.span.end as int
            },
        }
    }

    pub fn new(input: &'a str, lexer: Lexer<'a>) -> (r: Self)
        requires
            lexer.wf(),
            lexer.source() == input.spec_bytes(),
        ensures
            r.wf(),
            r.source() == input.spec_bytes(),
            r.position() == lexer.cursor(),
    {
        let at = lexer.offset();
        Parser { input, lexer, ahead: None, at }
    }

    /// The lookahead token: kind, start, end.
    fn peek(&mut self) -> (r: Result<(Token, usize, usize), ParseError>)
        requires
            old(self).wf(),
        ensures
            final(self).input == old(self).input,
            final(self).at == old(self).at,
            match r {
                Ok((k, s, e)) => {
                    &&& final(self).wf()
                    &&& final(self).ahead is Some
                    &&& lookahead(old(self).source(), old(self).at as int) == Ok::<
                        (Token, int, int),
                        ParseError,
                    >((k, s as int, e as int))
                    &&& well_split(old(self).source(), s as int, e as int)
                    &&& old(self).at <= s
                    &&& (k != Token::Eof ==> s < e)
                },
                Err(x) => lookahead(old(self).source(), old(self).at as int) == Err::<
                    (Token, int, int),
                    ParseError,
                >(x),
            },
    {
        let held = match &self.ahead {
            Some(t) => Some((t.data, t.span.start, t.span.end)),
            None => None,
        };
        match held {
            Some(h) => Ok(h),
            None => {
                match self.lexer.next() {
                    Err(e) => Err(ParseError::Scan(e)),
                    Ok(None) => {
                        let n = self.input.as_bytes().len();
                        proof {
                            lemma_ends(self.source(), self.at as int);
                            lemma_start(self.source(), n as int);
                        }
                        self.ahead = Some(Spanned::new(Token::Eof, n..n));
                        Ok((Token::Eof, n, n))
                    },
                    Ok(Some(t)) => {
                        let h = (t.data, t.span.start, t.span.end);
                        self.ahead = Some(t);
                        Ok(h)
                    },
                }
            },
        }
    }

    /// Consumes the lookahead token.
    fn advance(&mut self)
        requires
            old(self).wf(),
            old(self).ahead is Some,
        ensures
            final(self).wf(),
            final(self).input == old(self).input,
            old(self).ahead matches Some(t) && final(self).at == t.span.end,
    {
        let e = match &self.ahead {
            Some(t) => t.span.end,
            None => self.at,
        };
        proof {
            let t = self.ahead->Some_0;
            lemma_finish(self.source(), t.span.start as int, t.span.end as int);
        }
        self.ahead = None;
        self.at = e;
    }

    /// Consumes a token of kind `kind`, or fails naming what was found instead.
    fn expect(&mut self, kind: Token) -> (r: Result<(usize, usize), ParseError>)
        requires
            old(self).wf(),
            kind != Token::Eof,
        ensures
            final(self).input == old(self).input,
            match r {
                Ok((s, e)) => {
                    &&& expect(old(self).source(), old(self).at as int, kind) == Ok::<
                        (int, int),
                        ParseError,
                    >((s as int, e as int))
                    &&& final(self).wf()
                    &&& final(self).at == e
                    &&& well_split(old(self).source(), s as int, e as int)
                    &&& old(self).at <= s < e
                },
                Err(x) => expect(old(self).source(), old(self).at as int, kind) == Err::<
                    (int, int),
                    ParseError,
                >(x),
            },
    {
        match self.peek() {
            Err(x) => Err(x),
            Ok((k, s, e)) => {
                if k == kind {
                    self.advance();
                    Ok((s, e))
                } else {
                    Err(ParseError::Unexpected { expected: kind, found: k, at: s, end: e })
                }
            },
        }
    }

    /// The source text of the byte range `s..e`.
    fn text(&self, s: usize, e: usize) -> (r: String)
        requires
            well_split(self.source(), s as int, e as int),
        ensures
            r@ == text(self.source(), s as int, e as int),
    {
        let ghost b = self.source();
        let ghost n = b.len() as int;
        proof {
            lemma_finish(b, s as int, e as int);
            lemma_concat_boundary(b.subrange(0, s as int), b.subrange(s as int, n));
            assert(b.subrange(0, s as int) + b.subrange(s as int, n) =~= b);
        }
        let (_, tail) = self.input.split_at(s);
        proof {
            lemma_concat_boundary(b.subrange(s as int, e as int), b.subrange(e as int, n));
            assert(b.subrange(s as int, e as int) + b.subrange(e as int, n) =~= tail.spec_bytes());
        }
        let (mid, _) = tail.split_at(e - s);
        proof {
            assert(mid.spec_bytes() =~= b.subrange(s as int, e as int));
            vstd::utf8::encode_utf8_decode_utf8(mid@);
        }
        mid.to_owned()
    }

    /// Whether the bytes `s..e` spell `kw`.
    fn word_is(&self, s: usize, e: usize, kw: &str) -> (r: bool)
        requires
            s <= e <= self.source().len(),
        ensures
            r == (self.source().subrange(s as int, e as int) == kw.spec_bytes()),
    {
        let b = self.input.as_bytes();
        let k = kw.as_bytes();
        if e - s != k.len() {
            proof {
                assert(b@.subrange(s as int, e as int).len() != k@.len());
            }
            return false;
        }
        let mut i: usize = 0;
        while i < k.len()
            invariant
                i <= k@.len(),
                k@ == kw.spec_bytes(),
                b@ == self.source(),
                s + k@.len() == e,
                e <= b@.len(),
                forall|j: int| 0 <= j < i ==> b@[s + j] == k@[j],
            decreases k@.len() - i,
        {
            if b[s + i] != k[i] {
                proof {
                    assert(b@.subrange(s as int, e as int)[i as int] != k@[i as int]);
                }
                return false;
            }
            i = i + 1;
        }
        proof {
            assert(b@.subrange(s as int, e as int) =~= k@);
        }
        true
    }

    /// The value of the digits `s..e`, or `None` when it exceeds `i32::MAX`.
    fn number_value(&self, s: usize, e: usize) -> (r: Option<i32>)
        requires
            s <= e <= self.source().len(),
            forall|j: int| s <= j < e ==> is_digit(#[trigger] self.source()[j]),
        ensures
            match r {
                Some(v) => v as int == digits_value(self.source().subrange(s as int, e as int)),
                None => digits_value(self.source().subrange(s as int, e as int)) > i32::MAX,
            },
    {
        let b = self.input.as_bytes();
        let ghost d = b@.subrange(s as int, e as int);
        let mut v: u64 = 0;
        let mut i = s;
        while i < e
            invariant
                s <= i <= e,
                e <= b@.len(),
                d == b@.subrange(s as int, e as int),
                b@ == self.source(),
                forall|k: int| 0 <= k < d.len() ==> is_digit(#[trigger] d[k]),
                v as int == digits_value(d.subrange(0, i - s)),
                v <= i32::MAX,
            decreases e - i,
        {
            proof {
                assert(d.subrange(0, i - s + 1).drop_last() =~= d.subrange(0, i - s));
                assert(d[i - s] == b@[i as int]);
            }
            v = v * 10 + (b[i] - DIGIT_0) as u64;
            i = i + 1;
            if v > 2147483647 {
                proof {
                    lemma_digits_grow(d, i - s, d.len() as int);
                    assert(d.subrange(0, d.len() as int) =~= d);
                }
                return None;
            }
        }
        proof {
            assert(d.subrange(0, e - s) =~= d);
        }
        Some(v as i32)
    }

    /// The greedy run of `Ident` and `Char` tokens at the lookahead.
    #[verifier::rlimit(40)]
    fn names(&mut self) -> (r: Result<Vec<String>, ParseError>)
        requires
            old(self).wf(),
        ensures
            final(self).input == old(self).input,
            match r {
                Ok(v) => {
                    &&& names(old(self).source(), old(self).at as int) == Ok::<
                        (Seq<Seq<char>>, int),
                        ParseError,
                    >((strings_view(v), final(self).at as int))
                    &&& final(self).wf()
                    &&& old(self).at <= final(self).at
                },
                Err(x) => names(old(self).source(), old(self).at as int) == Err::<
                    (Seq<Seq<char>>, int),
                    ParseError,
                >(x),
            },
    {
        let ghost b = self.source();
        let ghost start = self.at as int;
        let mut v: Vec<String> = Vec::new();
        loop
            invariant
                self.wf(),
                self.input == old(self).input,
                b == self.source(),
                start == old(self).at,
                start <= self.at,
                names(b, start) == match names(b, self.at as int) {
                    Ok((rest, p)) => Ok((strings_view(v) + rest, p)),
                    Err(x) => Err(x),
                },
            decreases b.len() - self.at,
        {
            let ghost at = self.at as int;
            let (k, s, e) = match self.peek() {
                Ok(t) => t,
                Err(x) => {
                    assert(names(b, at) == Err::<(Seq<Seq<char>>, int), ParseError>(x));
                    return Err(x);
                },
            };
            if k == Token::Ident || k == Token::Char {
                assert(names(b, at) == match names(b, e as int) {
                    Ok((rest, p)) => Ok((seq![text(b, s as int, e as int)] + rest, p)),
                    Err(x) => Err::<(Seq<Seq<char>>, int), ParseError>(x),
                });
                self.advance();
                let t = self.text(s, e);
                let ghost before = strings_view(v);
                v.push(t);
                proof {
                    assert(strings_view(v) =~= before.push(t@));
                    match names(b, e as int) {
                        Ok((rest, p)) => {
                            assert(before + (seq![t@] + rest) =~= strings_view(v) + rest);
                        },
                        Err(_) => {},
                    }
                }
            } else {
                assert(names(b, at) == Ok::<(Seq<Seq<char>>, int), ParseError>((seq![], at)));
                proof {
                    assert(strings_view(v) + seq![] =~= strings_view(v));
                }
                return Ok(v);
            }
        }
    }

    /// One directive: its keyword, then the arguments that the keyword takes.
    #[verifier::rlimit(60)]
    fn parse_directive(&mut self) -> (r: Result<Directive, ParseError>)
        requires
            old(self).wf(),
        ensures
            final(self).input == old(self).input,
            match r {
                Ok(d) => {
                    &&& directive(old(self).source(), old(self).at as int) == Ok::<
                        (DirectiveView, int),
                        ParseError,
                    >((d@, final(self).at as int))
                    &&& final(self).wf()
                    &&& old(self).at < final(self).at
                },
                Err(x) => directive(old(self).source(), old(self).at as int) == Err::<
                    (DirectiveView, int),
                    ParseError,
                >(x),
            },
    {
        let ghost b = self.source();
        let (s, e) = match self.expect(Token::Directive) {
            Ok(p) => p,
            Err(x) => {
                return Err(x);
            },
        };
        if self.word_is(s, e, "%pure-parser") {
            Ok(Directive::PureParser)
        } else if self.word_is(s, e, "%expect") {
            let ghost p = self.at as int;
            let (s2, e2) = match self.expect(Token::Number) {
                Ok(p) => p,
                Err(x) => {
                    return Err(x);
                },
            };
            proof {
                lemma_number_digits(b, p);
            }
            match self.number_value(s2, e2) {
                Some(v) => Ok(Directive::Expect { number: v }),
                None => Err(ParseError::NumberOutOfRange { at: s2 }),
            }
        } else if self.word_is(s, e, "%name-prefix") {
            match self.expect(Token::Equal) {
                Ok(_) => {},
                Err(x) => {
                    return Err(x);
                },
            }
            let (s3, e3) = match self.expect(Token::String) {
                Ok(p) => p,
                Err(x) => {
                    return Err(x);
                },
            };
            Ok(Directive::NamePrefix { prefix: self.text(s3, e3) })
        } else if self.word_is(s, e, "%locations") {
            Ok(Directive::Locations)
        } else if self.word_is(s, e, "%parse-param") {
            match self.code_arg() {
                Ok(c) => Ok(Directive::ParseParam { params: c }),
                Err(x) => Err(x),
            }
        } else if self.word_is(s, e, "%lex-param") {
            match self.code_arg() {
                Ok(c) => Ok(Directive::LexParam { params: c }),
                Err(x) => Err(x),
            }
        } else if self.word_is(s, e, "%union") {
            match self.code_arg() {
                Ok(c) => Ok(Directive::Union { code: c }),
                Err(x) => Err(x),
            }
        } else if self.word_is(s, e, "%type") {
            let (s2, e2) = match self.expect(Token::Type) {
                Ok(p) => p,
                Err(x) => {
                    return Err(x);
                },
            };
            let tag = self.text(s2, e2);
            match self.names() {
                Ok(ns) => Ok(Directive::Type { type_tag: tag, rule_names: ns }),
                Err(x) => Err(x),
            }
        } else if self.word_is(s, e, "%token") {
            let (k, s2, e2) = match self.peek() {
                Ok(t) => t,
                Err(x) => {
                    return Err(x);
                },
            };
            let token_name = if k == Token::Type {
                self.advance();
                Some(self.text(s2, e2))
            } else {
                None
            };
            match self.names() {
                Ok(ns) => Ok(Directive::Token { token_name, rule_names: ns }),
                Err(x) => Err(x),
            }
        } else if self.word_is(s, e, "%left") {
            match self.names() {
                Ok(ns) => Ok(Directive::Left { rule_names: ns }),
                Err(x) => Err(x),
            }
        } else if self.word_is(s, e, "%right") {
            match self.names() {
                Ok(ns) => Ok(Directive::Right { rule_names: ns }),
                Err(x) => Err(x),
            }
        } else if self.word_is(s, e, "%nonassoc") {
            match self.names() {
                Ok(ns) => Ok(Directive::NonAssoc { rule_names: ns }),
                Err(x) => Err(x),
            }
        } else {
            Err(ParseError::UnknownDirective { at: s })
        }
    }

    /// A brace block argument.
    fn code_arg(&mut self) -> (r: Result<String, ParseError>)
        requires
            old(self).wf(),
        ensures
            final(self).input == old(self).input,
            match r {
                Ok(c) => {
                    &&& code_arg(old(self).source(), old(self).at as int) == Ok::<
                        (Seq<char>, int),
                        ParseError,
                    >((c@, final(self).at as int))
                    &&& final(self).wf()
                    &&& old(self).at < final(self).at
                },
                Err(x) => code_arg(old(self).source(), old(self).at as int) == Err::<
                    (Seq<char>, int),
                    ParseError,
                >(x),
            },
    {
        match self.expect(Token::Code) {
            Ok((s, e)) => Ok(self.text(s, e)),
            Err(x) => Err(x),
        }
    }

    /// Directives while the lookahead is a `Directive` token.
    #[verifier::rlimit(40)]
    fn parse_directives(&mut self) -> (r: Result<Vec<Directive>, ParseError>)
        requires
            old(self).wf(),
        ensures
            final(self).input == old(self).input,
            match r {
                Ok(v) => {
                    &&& directives(old(self).source(), old(self).at as int) == Ok::<
                        (Seq<DirectiveView>, int),
                        ParseError,
                    >((v@.map_values(|d: Directive| d@), final(self).at as int))
                    &&& final(self).wf()
                    &&& old(self).at <= final(self).at
                },
                Err(x) => directives(old(self).source(), old(self).at as int) == Err::<
                    (Seq<DirectiveView>, int),
                    ParseError,
                >(x),
            },
    {
        let ghost b = self.source();
        let ghost start = self.at as int;
        let mut v: Vec<Directive> = Vec::new();
        loop
            invariant
                self.wf(),
                self.input == old(self).input,
                b == self.source(),
                start == old(self).at,
                start <= self.at,
                directives(b, start) == match directives(b, self.at as int) {
                    Ok((rest, p)) => Ok((v@.map_values(|d: Directive| d@) + rest, p)),
                    Err(x) => Err(x),
                },
            decreases b.len() - self.at,
        {
            let ghost at = self.at as int;
            let k = match self.peek() {
                Ok((k, _, _)) => k,
                Err(x) => {
                    assert(directives(b, at) == Err::<(Seq<DirectiveView>, int), ParseError>(x));
                    return Err(x);
                },
            };
            if k == Token::Directive {
                let d = match self.parse_directive() {
                    Ok(d) => d,
                    Err(x) => {
                        assert(directives(b, at) == Err::<(Seq<DirectiveView>, int), ParseError>(x));
                        return Err(x);
                    },
                };
                let ghost p = self.at as int;
                let ghost before = v@.map_values(|d: Directive| d@);
                let ghost dv = d@;
                assert(directives(b, at) == match directives(b, p) {
                    Ok((rest, q)) => Ok((seq![dv] + rest, q)),
                    Err(x) => Err::<(Seq<DirectiveView>, int), ParseError>(x),
                });
                v.push(d);
                proof {
                    assert(v@.map_values(|d: Directive| d@) =~= before.push(dv));
                    match directives(b, p) {
                        Ok((rest, q)) => {
                            assert(before + (seq![dv] + rest) =~= v@.map_values(|d: Directive| d@) + rest);
                        },
                        Err(_) => {},
                    }
                }
            } else {
                assert(directives(b, at) == Ok::<(Seq<DirectiveView>, int), ParseError>((seq![], at)));
                proof {
                    assert(v@.map_values(|d: Directive| d@) + seq![] =~= v@.map_values(|d: Directive| d@));
                }
                return Ok(v);
            }
        }
    }

    /// One alternative: its symbols, then its action if a brace block follows.
    fn parse_alternative(&mut self) -> (r: Result<Alternative, ParseError>)
        requires
            old(self).wf(),
        ensures
            final(self).input == old(self).input,
            match r {
                Ok(a) => {
                    &&& alternative(old(self).source(), old(self).at as int) == Ok::<
                        (AlternativeView, int),
                        ParseError,
                    >((a@, final(self).at as int))
                    &&& final(self).wf()
                    &&& old(self).at <= final(self).at
                },
                Err(x) => alternative(old(self).source(), old(self).at as int) == Err::<
                    (AlternativeView, int),
                    ParseError,
                >(x),
            },
    {
        let elements = match self.names() {
            Ok(v) => v,
            Err(x) => {
                return Err(x);
            },
        };
        let (k, s, e) = match self.peek() {
            Ok(t) => t,
            Err(x) => {
                return Err(x);
            },
        };
        let action = if k == Token::Code {
            self.advance();
            Some(self.text(s, e))
        } else {
            None
        };
        Ok(Alternative { elements, action })
    }

    /// One rule: its name, `:`, then alternatives separated by `|` and closed by `;`.
    #[verifier::rlimit(40)]
    fn parse_rule(&mut self) -> (r: Result<Rule, ParseError>)
        requires
            old(self).wf(),
        ensures
            final(self).input == old(self).input,
            match r {
                Ok(x) => {
                    &&& rule(old(self).source(), old(self).at as int) == Ok::<
                        (RuleView, int),
                        ParseError,
                    >((x@, final(self).at as int))
                    &&& final(self).wf()
                    &&& old(self).at < final(self).at
                },
                Err(x) => rule(old(self).source(), old(self).at as int) == Err::<
                    (RuleView, int),
                    ParseError,
                >(x),
            },
    {
        let ghost b = self.source();
        let (s, e) = match self.expect(Token::Ident) {
            Ok(p) => p,
            Err(x) => {
                return Err(x);
            },
        };
        let name = self.text(s, e);
        match self.expect(Token::Colon) {
            Ok(_) => {},
            Err(x) => {
                return Err(x);
            },
        }
        let ghost start = self.at as int;
        let mut alts: Vec<Alternative> = Vec::new();
        loop
            invariant
                self.wf(),
                self.input == old(self).input,
                b == self.source(),
                old(self).at < start <= self.at,
                rule(b, old(self).at as int) == match alternatives(b, start) {
                    Ok((all, q)) => Ok((RuleView { name: name@, alternatives: all }, q)),
                    Err(x) => Err::<(RuleView, int), ParseError>(x),
                },
                alternatives(b, start) == match alternatives(b, self.at as int) {
                    Ok((rest, p)) => Ok((alts@.map_values(|a: Alternative| a@) + rest, p)),
                    Err(x) => Err(x),
                },
            decreases b.len() - self.at,
        {
            let ghost at = self.at as int;
            let alt = match self.parse_alternative() {
                Ok(a) => a,
                Err(x) => {
                    assert(alternatives(b, at) == Err::<(Seq<AlternativeView>, int), ParseError>(x));
                    return Err(x);
                },
            };
            let ghost p = self.at as int;
            let ghost av = alt@;
            let (k, s2, e2) = match self.peek() {
                Ok(t) => t,
                Err(x) => {
                    assert(alternatives(b, at) == Err::<(Seq<AlternativeView>, int), ParseError>(x));
                    return Err(x);
                },
            };
            let ghost before = alts@.map_values(|a: Alternative| a@);
            if k == Token::Bar {
                self.advance();
                assert(alternatives(b, at) == match alternatives(b, e2 as int) {
                    Ok((rest, q)) => Ok((seq![av] + rest, q)),
                    Err(x) => Err::<(Seq<AlternativeView>, int), ParseError>(x),
                });
                alts.push(alt);
                proof {
                    assert(alts@.map_values(|a: Alternative| a@) =~= before.push(av));
                    match alternatives(b, e2 as int) {
                        Ok((rest, q)) => {
                            assert(before + (seq![av] + rest) =~= alts@.map_values(|a: Alternative| a@) + rest);
                        },
                        Err(_) => {},
                    }
                }
            } else if k == Token::SemiColon {
                self.advance();
                assert(alternatives(b, at) == Ok::<(Seq<AlternativeView>, int), ParseError>((seq![av], e2 as int)));
                alts.push(alt);
                proof {
                    assert(alts@.map_values(|a: Alternative| a@) =~= before + seq![av]);
                }
                return Ok(Rule { name, alternatives: alts });
            } else {
                assert(alternatives(b, at) == Err::<(Seq<AlternativeView>, int), ParseError>(
                    ParseError::ExpectedBarOrSemiColon { found: k, at: s2, end: e2 },
                ));
                return Err(ParseError::ExpectedBarOrSemiColon { found: k, at: s2, end: e2 });
            }
        }
    }

    /// Rules while the lookahead is an `Ident`.
    #[verifier::rlimit(40)]
    fn parse_rules(&mut self) -> (r: Result<Vec<Rule>, ParseError>)
        requires
            old(self).wf(),
        ensures
            final(self).input == old(self).input,
            match r {
                Ok(v) => {
                    &&& rules(old(self).source(), old(self).at as int) == Ok::<
                        (Seq<RuleView>, int),
                        ParseError,
                    >((v@.map_values(|x: Rule| x@), final(self).at as int))
                    &&& final(self).wf()
                },
                Err(x) => rules(old(self).source(), old(self).at as int) == Err::<
                    (Seq<RuleView>, int),
                    ParseError,
                >(x),
            },
    {
        let ghost b = self.source();
        let ghost start = self.at as int;
        let mut v: Vec<Rule> = Vec::new();
        loop
            invariant
                self.wf(),
                self.input == old(self).input,
                b == self.source(),
                start == old(self).at,
                start <= self.at,
                rules(b, start) == match rules(b, self.at as int) {
                    Ok((rest, p)) => Ok((v@.map_values(|x: Rule| x@) + rest, p)),
                    Err(x) => Err(x),
                },
            decreases b.len() - self.at,
        {
            let ghost at = self.at as int;
            let k = match self.peek() {
                Ok((k, _, _)) => k,
                Err(x) => {
                    assert(rules(b, at) == Err::<(Seq<RuleView>, int), ParseError>(x));
                    return Err(x);
                },
            };
            if k == Token::Ident {
                let x = match self.parse_rule() {
                    Ok(x) => x,
                    Err(x) => {
                        assert(rules(b, at) == Err::<(Seq<RuleView>, int), ParseError>(x));
                        return Err(x);
                    },
                };
                let ghost p = self.at as int;
                let ghost before = v@.map_values(|x: Rule| x@);
                let ghost xv = x@;
                assert(rules(b, at) == match rules(b, p) {
                    Ok((rest, q)) => Ok((seq![xv] + rest, q)),
                    Err(x) => Err::<(Seq<RuleView>, int), ParseError>(x),
                });
                v.push(x);
                proof {
                    assert(v@.map_values(|x: Rule| x@) =~= before.push(xv));
                    match rules(b, p) {
                        Ok((rest, q)) => {
                            assert(before + (seq![xv] + rest) =~= v@.map_values(|x: Rule| x@) + rest);
                        },
                        Err(_) => {},
                    }
                }
            } else {
                assert(rules(b, at) == Ok::<(Seq<RuleView>, int), ParseError>((seq![], at)));
                proof {
                    assert(v@.map_values(|x: Rule| x@) + seq![] =~= v@.map_values(|x: Rule| x@));
                }
                return Ok(v);
            }
        }
    }

    /// Reads a whole document from the current position: directives, `%%`, rules.
    /// Reading stops after the last rule; what follows is left unread.
    pub fn parse_grammar(&mut self) -> (r: Result<Grammar, ParseError>)
        requires
            old(self).wf(),
        ensures
            match r {
                Ok(g) => {
                    &&& grammar_from(old(self).source(), old(self).position()) == Ok::<
                        GrammarView,
                        ParseError,
                    >(g@)
                    &&& final(self).wf()
                    &&& final(self).source() == old(self).source()
                    &&& final(self).position() == grammar_end(
                        old(self).source(),
                        old(self).position(),
                    )
                },
                Err(x) => grammar_from(old(self).source(), old(self).position()) == Err::<
                    GrammarView,
                    ParseError,
                >(x),
            },
    {
        let directives = match self.parse_directives() {
            Ok(v) => v,
            Err(x) => {
                return Err(x);
            },
        };
        match self.expect(Token::PercentPercent) {
            Ok(_) => {},
            Err(x) => {
                return Err(x);
            },
        }
        let rules = match self.parse_rules() {
            Ok(v) => v,
            Err(x) => {
                return Err(x);
            },
        };
        let g = Grammar { directives, rules, programs: String::new() };
        proof {
            assert(g@.programs =~= seq![]);
        }
        Ok(g)
    }

    /// The program section: the text of a brace block at the lookahead, else empty.
    pub fn parse_programs(&mut self) -> (r: Result<String, ParseError>)
        requires
            old(self).wf(),
        ensures
            match r {
                Ok(p) => {
                    &&& final(self).wf()
                    &&& final(self).source() == old(self).source()
                    &&& match lookahead(old(self).source(), old(self).position()) {
                        Ok((k, s, e)) => if k == Token::Code {
                            p@ == text(old(self).source(), s, e) && final(self).position() == e
                        } else {
                            p@ == Seq::<char>::empty() && final(self).position()
                                == old(self).position()
                        },
                        Err(_) => false,
                    }
                },
                Err(x) => lookahead(old(self).source(), old(self).position()) == Err::<
                    (Token, int, int),
                    ParseError,
                >(x),
            },
    {
        match self.peek() {
            Err(x) => Err(x),
            Ok((k, s, e)) => {
                if k == Token::Code {
                    self.advance();
                    Ok(self.text(s, e))
                } else {
                    let p = String::new();
                    proof {
                        assert(p@ =~= Seq::<char>::empty());
                    }
                    Ok(p)
                }
            },
        }
    }
}

} // verus!
