use vstd::prelude::*;
use vstd::string::StringSliceAdditionalSpecFns;
use vstd::utf8::decode_utf8;
use crate::grammar::{AlternativeView, DirectiveView, GrammarView, RuleView};
use crate::scan_spec::{scan, ScanError, ScanStep, DIGIT_0};
use crate::token::Token;

verus! {

/// Why a parse stopped. Offsets are byte offsets into the source.
#[derive(Debug, Clone, Copy, PartialEq, Eq, Structural)]
pub enum ParseError {
    /// The input ended inside a literal, a brace block or a comment.
    Scan(ScanError),
    /// A token of kind `expected` was required; `found` spans `at..end`.
    Unexpected { expected: Token, found: Token, at: usize, end: usize },
    /// An alternative was followed by neither `|` nor `;`, but by `found`, which
    /// spans `at..end`.
    ExpectedBarOrSemiColon { found: Token, at: usize, end: usize },
    /// A `%` keyword that names no known directive starts at `at`.
    UnknownDirective { at: usize },
    /// The `%expect` count starting at `at` does not fit in an `i32`.
    NumberOutOfRange { at: usize },
}

/// The lookahead token at `pos`, as kind, start and end; the end of input reads as `Eof`.
pub open spec fn lookahead(b: Seq<u8>, pos: int) -> Result<(Token, int, int), ParseError> {
    match scan(b, pos) {
        ScanStep::End => Ok((Token::Eof, b.len() as int, b.len() as int)),
        ScanStep::Found { kind, start, end } => Ok((kind, start, end)),
        ScanStep::Abort { error } => Err(ParseError::Scan(error)),
    }
}

/// The span of the token at `pos`, which must be of kind `kind`.
pub open spec fn expect(b: Seq<u8>, pos: int, kind: Token) -> Result<(int, int), ParseError> {
    match lookahead(b, pos) {
        Err(x) => Err(x),
        Ok((k, s, e)) => if k == kind {
            Ok((s, e))
        } else {
            Err(ParseError::Unexpected { expected: kind, found: k, at: s as usize, end: e as usize })
        },
    }
}

/// The source text of the byte range `s..e`.
pub open spec fn text(b: Seq<u8>, s: int, e: int) -> Seq<char> {
    decode_utf8(b.subrange(s, e))
}

/// Decimal value of a run of digits.
pub open spec fn digits_value(d: Seq<u8>) -> int
    decreases d.len(),
{
    if d.len() == 0 {
        0
    } else {
        digits_value(d.drop_last()) * 10 + (d.last() - DIGIT_0)
    }
}

pub open spec fn is_rule_name(k: Token) -> bool {
    k == Token::Ident || k == Token::Char
}

/// The greedy run of `Ident` and `Char` tokens at `pos`, as their texts.
/// (A found token always lies past `pos`, as `lemma_scan_progress` shows; the
/// bound is tested here, as in the other readers of repeated items, only to make
/// the recursion's measure visible.)
pub open spec fn names(b: Seq<u8>, pos: int) -> Result<(Seq<Seq<char>>, int), ParseError>
    decreases b.len() - pos,
{
    match lookahead(b, pos) {
        Err(x) => Err(x),
        Ok((k, s, e)) => if is_rule_name(k) && pos < e <= b.len() {
            match names(b, e) {
                Err(x) => Err(x),
                Ok((rest, p)) => Ok((seq![text(b, s, e)] + rest, p)),
            }
        } else {
            Ok((seq![], pos))
        },
    }
}

/// A directive whose arguments are a brace block.
pub open spec fn code_arg(b: Seq<u8>, pos: int) -> Result<(Seq<char>, int), ParseError> {
    match expect(b, pos, Token::Code) {
        Err(x) => Err(x),
        Ok((s, e)) => Ok((text(b, s, e), e)),
    }
}

pub open spec fn map_names(
    r: Result<(Seq<Seq<char>>, int), ParseError>,
    f: spec_fn(Seq<Seq<char>>) -> DirectiveView,
) -> Result<(DirectiveView, int), ParseError> {
    match r {
        Err(x) => Err(x),
        Ok((ns, p)) => Ok((f(ns), p)),
    }
}

pub open spec fn map_code(
    r: Result<(Seq<char>, int), ParseError>,
    f: spec_fn(Seq<char>) -> DirectiveView,
) -> Result<(DirectiveView, int), ParseError> {
    match r {
        Err(x) => Err(x),
        Ok((c, p)) => Ok((f(c), p)),
    }
}

/// The directive at `pos`, dispatched on its keyword.
pub open spec fn directive(b: Seq<u8>, pos: int) -> Result<(DirectiveView, int), ParseError> {
    match expect(b, pos, Token::Directive) {
        Err(x) => Err(x),
        Ok((s, e)) => {
            let w = b.subrange(s, e);
            if w == "%pure-parser".spec_bytes() {
                Ok((DirectiveView::PureParser, e))
            } else if w == "%expect".spec_bytes() {
                match expect(b, e, Token::Number) {
                    Err(x) => Err(x),
                    Ok((s2, e2)) => {
                        let v = digits_value(b.subrange(s2, e2));
                        if v <= i32::MAX {
                            Ok((DirectiveView::Expect { number: v }, e2))
                        } else {
                            Err(ParseError::NumberOutOfRange { at: s2 as usize })
                        }
                    },
                }
            } else if w == "%name-prefix".spec_bytes() {
                match expect(b, e, Token::Equal) {
                    Err(x) => Err(x),
                    Ok((_, e2)) => match expect(b, e2, Token::String) {
                        Err(x) => Err(x),
                        Ok((s3, e3)) => Ok((DirectiveView::NamePrefix { prefix: text(b, s3, e3) }, e3)),
                    },
                }
            } else if w == "%locations".spec_bytes() {
                Ok((DirectiveView::Locations, e))
            } else if w == "%parse-param".spec_bytes() {
                map_code(code_arg(b, e), |c| DirectiveView::ParseParam { params: c })
            } else if w == "%lex-param".spec_bytes() {
                map_code(code_arg(b, e), |c| DirectiveView::LexParam { params: c })
            } else if w == "%union".spec_bytes() {
                map_code(code_arg(b, e), |c| DirectiveView::Union { code: c })
            } else if w == "%type".spec_bytes() {
                match expect(b, e, Token::Type) {
                    Err(x) => Err(x),
                    Ok((s2, e2)) => map_names(
                        names(b, e2),
                        |ns| DirectiveView::Type { type_tag: text(b, s2, e2), rule_names: ns },
                    ),
                }
            } else if w == "%token".spec_bytes() {
                match lookahead(b, e) {
                    Err(x) => Err(x),
                    Ok((k, s2, e2)) => if k == Token::Type {
                        map_names(
                            names(b, e2),
                            |ns| DirectiveView::Token { token_name: Some(text(b, s2, e2)), rule_names: ns },
                        )
                    } else {
                        map_names(
                            names(b, e),
                            |ns| DirectiveView::Token { token_name: None, rule_names: ns },
                        )
                    },
                }
            } else if w == "%left".spec_bytes() {
                map_names(names(b, e), |ns| DirectiveView::Left { rule_names: ns })
            } else if w == "%right".spec_bytes() {
                map_names(names(b, e), |ns| DirectiveView::Right { rule_names: ns })
            } else if w == "%nonassoc".spec_bytes() {
                map_names(names(b, e), |ns| DirectiveView::NonAssoc { rule_names: ns })
            } else {
                Err(ParseError::UnknownDirective { at: s as usize })
            }
        },
    }
}

/// The directives at `pos`, one after another while the lookahead is a `Directive`.
pub open spec fn directives(b: Seq<u8>, pos: int) -> Result<(Seq<DirectiveView>, int), ParseError>
    decreases b.len() - pos,
{
    match lookahead(b, pos) {
        Err(x) => Err(x),
        Ok((k, _, _)) => if k == Token::Directive {
            match directive(b, pos) {
                Err(x) => Err(x),
                Ok((d, p)) => if pos < p <= b.len() {
                    match directives(b, p) {
                        Err(x) => Err(x),
                        Ok((ds, q)) => Ok((seq![d] + ds, q)),
                    }
                } else {
                    Ok((seq![d], p))
                },
            }
        } else {
            Ok((seq![], pos))
        },
    }
}

/// The optional action at `pos`.
pub open spec fn action(b: Seq<u8>, pos: int) -> Result<(Option<Seq<char>>, int), ParseError> {
    match lookahead(b, pos) {
        Err(x) => Err(x),
        Ok((k, s, e)) => if k == Token::Code {
            Ok((Some(text(b, s, e)), e))
        } else {
            Ok((None, pos))
        },
    }
}

/// One alternative at `pos`, up to (not including) its `|` or `;`.
pub open spec fn alternative(b: Seq<u8>, pos: int) -> Result<(AlternativeView, int), ParseError> {
    match names(b, pos) {
        Err(x) => Err(x),
        Ok((elements, p)) => match action(b, p) {
            Err(x) => Err(x),
            Ok((act, q)) => Ok((AlternativeView { elements, action: act }, q)),
        },
    }
}

/// The alternatives at `pos`, each closed by `|` or, for the last, by `;`.
pub open spec fn alternatives(b: Seq<u8>, pos: int) -> Result<
    (Seq<AlternativeView>, int),
    ParseError,
>
    decreases b.len() - pos,
{
    match alternative(b, pos) {
        Err(x) => Err(x),
        Ok((alt, p)) => match lookahead(b, p) {
            Err(x) => Err(x),
            Ok((k, s, e)) => if k == Token::Bar {
                if pos < e <= b.len() {
                    match alternatives(b, e) {
                        Err(x) => Err(x),
                        Ok((rest, q)) => Ok((seq![alt] + rest, q)),
                    }
                } else {
                    Ok((seq![alt], e))
                }
            } else if k == Token::SemiColon {
                Ok((seq![alt], e))
            } else {
                Err(ParseError::ExpectedBarOrSemiColon { found: k, at: s as usize, end: e as usize })
            },
        },
    }
}

/// The rule at `pos`: a name, `:`, and its alternatives.
pub open spec fn rule(b: Seq<u8>, pos: int) -> Result<(RuleView, int), ParseError> {
    match expect(b, pos, Token::Ident) {
        Err(x) => Err(x),
        Ok((s, e)) => match expect(b, e, Token::Colon) {
            Err(x) => Err(x),
            Ok((_, e2)) => match alternatives(b, e2) {
                Err(x) => Err(x),
                Ok((alts, p)) => Ok((RuleView { name: text(b, s, e), alternatives: alts }, p)),
            },
        },
    }
}

/// The rules at `pos`, one after another while the lookahead is an `Ident`.
pub open spec fn rules(b: Seq<u8>, pos: int) -> Result<(Seq<RuleView>, int), ParseError>
    decreases b.len() - pos,
{
    match lookahead(b, pos) {
        Err(x) => Err(x),
        Ok((k, _, _)) => if k == Token::Ident {
            match rule(b, pos) {
                Err(x) => Err(x),
                Ok((r, p)) => if pos < p <= b.len() {
                    match rules(b, p) {
                        Err(x) => Err(x),
                        Ok((rs, q)) => Ok((seq![r] + rs, q)),
                    }
                } else {
                    Ok((seq![r], p))
                },
            }
        } else {
            Ok((seq![], pos))
        },
    }
}

/// The document read from `pos`: directives, `%%`, then rules. What follows the
/// last rule is not read.
pub open spec fn grammar_from(b: Seq<u8>, pos: int) -> Result<GrammarView, ParseError> {
    match directives(b, pos) {
        Err(x) => Err(x),
        Ok((ds, p)) => match expect(b, p, Token::PercentPercent) {
            Err(x) => Err(x),
            Ok((_, e)) => match rules(b, e) {
                Err(x) => Err(x),
                Ok((rs, _)) => Ok(GrammarView { directives: ds, rules: rs, programs: seq![] }),
            },
        },
    }
}

/// Where reading stops after a successful `grammar_from`: just past the last rule.
pub open spec fn grammar_end(b: Seq<u8>, pos: int) -> int {
    match directives(b, pos) {
        Ok((_, p)) => match expect(b, p, Token::PercentPercent) {
            Ok((_, e)) => match rules(b, e) {
                Ok((_, q)) => q,
                Err(_) => pos,
            },
            Err(_) => pos,
        },
        Err(_) => pos,
    }
}

} // verus!
