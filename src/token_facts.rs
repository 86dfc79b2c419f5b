use vstd::prelude::*;
use vstd::string::StringSliceAdditionalSpecFns;
use vstd::utf8::{encode_utf8, is_ascii_chars, is_ascii_chars_encode_utf8};
use crate::grammar::DirectiveView;
use crate::lexer::{lemma_scan_progress, lemma_scan_split, tokens};
use crate::parse_spec::{directive, expect, is_rule_name, lookahead, names, text, ParseError};
use crate::scan_spec::{scan, ScanError, ScanStep};
use crate::token::Token;
use crate::utf8_step::{lemma_finish, on_boundary};

verus! {

/// The token stream from a boundary starts with the lookahead token, and after
/// that token it goes on from the token's end.
pub proof fn lemma_tokens_step(b: Seq<u8>, p: int, ts: Seq<(Token, int, int)>)
    requires
        on_boundary(b, p),
        tokens(b, p) == Ok::<Seq<(Token, int, int)>, ScanError>(ts),
    ensures
        ts.len() == 0 ==> lookahead(b, p) == Ok::<(Token, int, int), ParseError>(
            (Token::Eof, b.len() as int, b.len() as int),
        ),
        ts.len() > 0 ==> {
            &&& lookahead(b, p) == Ok::<(Token, int, int), ParseError>(ts[0])
            &&& p <= ts[0].1 < ts[0].2 <= b.len()
            &&& on_boundary(b, ts[0].2)
            &&& tokens(b, ts[0].2) == Ok::<Seq<(Token, int, int)>, ScanError>(ts.drop_first())
        },
{
    lemma_scan_progress(b, p);
    lemma_scan_split(b, p);
    match scan(b, p) {
        ScanStep::Found { kind, start, end } => {
            lemma_finish(b, start, end);
            match tokens(b, end) {
                Ok(rest) => {
                    assert((seq![(kind, start, end)] + rest).drop_first() =~= rest);
                },
                Err(_) => {},
            }
        },
        _ => {},
    }
}

/// The texts of the first `m` tokens of `ts`.
pub open spec fn texts_of(b: Seq<u8>, ts: Seq<(Token, int, int)>, m: int) -> Seq<Seq<char>> {
    Seq::new(m as nat, |i: int| text(b, ts[i].1, ts[i].2))
}

/// When the token stream at `p` begins with `m` rule-name tokens (`Ident` or
/// `Char`) followed by a token of another kind or by the end, the run of names
/// read at `p` is exactly their texts, in order, and reading stops after the last.
pub proof fn lemma_names_from_tokens(b: Seq<u8>, p: int, ts: Seq<(Token, int, int)>, m: int)
    requires
        on_boundary(b, p),
        tokens(b, p) == Ok::<Seq<(Token, int, int)>, ScanError>(ts),
        0 <= m <= ts.len(),
        forall|i: int| 0 <= i < m ==> is_rule_name(#[trigger] ts[i].0),
        m == ts.len() || !is_rule_name(ts[m].0),
    ensures
        names(b, p) == Ok::<(Seq<Seq<char>>, int), ParseError>(
            (texts_of(b, ts, m), if m == 0 {
                p
            } else {
                ts[m - 1].2
            }),
        ),
    decreases m,
{
    lemma_tokens_step(b, p, ts);
    if m == 0 {
        assert(texts_of(b, ts, 0) =~= Seq::<Seq<char>>::empty());
    } else {
        let rest = ts.drop_first();
        assert forall|i: int| 0 <= i < m - 1 implies is_rule_name(#[trigger] rest[i].0) by {
            assert(rest[i] == ts[i + 1]);
            assert(is_rule_name(ts[i + 1].0));
        }
        if m < ts.len() {
            assert(rest[m - 1] == ts[m]);
        }
        assert(is_rule_name(ts[0].0));
        lemma_names_from_tokens(b, ts[0].2, rest, m - 1);
        assert(seq![text(b, ts[0].1, ts[0].2)] + texts_of(b, rest, m - 1) =~= texts_of(b, ts, m));
        if m > 1 {
            assert(rest[m - 2] == ts[m - 1]);
        }
    }
}

/// `%left` is none of the keywords that the directive reader tries before it.
proof fn lemma_left_keyword(w: Seq<u8>)
    requires
        w == "%left".spec_bytes(),
    ensures
        w != "%pure-parser".spec_bytes(),
        w != "%expect".spec_bytes(),
        w != "%name-prefix".spec_bytes(),
        w != "%locations".spec_bytes(),
        w != "%parse-param".spec_bytes(),
        w != "%lex-param".spec_bytes(),
        w != "%union".spec_bytes(),
        w != "%type".spec_bytes(),
        w != "%token".spec_bytes(),
{
    reveal_strlit("%left");
    reveal_strlit("%pure-parser");
    reveal_strlit("%expect");
    reveal_strlit("%name-prefix");
    reveal_strlit("%locations");
    reveal_strlit("%parse-param");
    reveal_strlit("%lex-param");
    reveal_strlit("%union");
    reveal_strlit("%type");
    reveal_strlit("%token");
    assert(is_ascii_chars("%left"@));
    is_ascii_chars_encode_utf8("%left"@);
    assert(w.len() == 5);
    assert(w[1] == 'l' as u8);
    assert(is_ascii_chars("%pure-parser"@));
    is_ascii_chars_encode_utf8("%pure-parser"@);
    assert(is_ascii_chars("%expect"@));
    is_ascii_chars_encode_utf8("%expect"@);
    assert(is_ascii_chars("%name-prefix"@));
    is_ascii_chars_encode_utf8("%name-prefix"@);
    assert(is_ascii_chars("%locations"@));
    is_ascii_chars_encode_utf8("%locations"@);
    assert(is_ascii_chars("%parse-param"@));
    is_ascii_chars_encode_utf8("%parse-param"@);
    assert(is_ascii_chars("%lex-param"@));
    is_ascii_chars_encode_utf8("%lex-param"@);
    assert(is_ascii_chars("%union"@));
    is_ascii_chars_encode_utf8("%union"@);
    assert(is_ascii_chars("%type"@));
    is_ascii_chars_encode_utf8("%type"@);
    assert("%type".spec_bytes()[1] == 't' as u8);
    assert(is_ascii_chars("%token"@));
    is_ascii_chars_encode_utf8("%token"@);
    assert(w != "%pure-parser".spec_bytes());
    assert(w != "%expect".spec_bytes());
    assert(w != "%name-prefix".spec_bytes());
    assert(w != "%locations".spec_bytes());
    assert(w != "%parse-param".spec_bytes());
    assert(w != "%lex-param".spec_bytes());
    assert(w != "%union".spec_bytes());
    assert(w != "%type".spec_bytes());
    assert(w != "%token".spec_bytes());
}

/// A `%left` directive followed by `m` rule-name tokens and then a token of
/// another kind (or the end) reads as `Left` with those names, in source order;
/// reading stops before the token that ended the run.
pub proof fn lemma_left_directive(b: Seq<u8>, p: int, ts: Seq<(Token, int, int)>, m: int)
    requires
        on_boundary(b, p),
        tokens(b, p) == Ok::<Seq<(Token, int, int)>, ScanError>(ts),
        1 <= ts.len(),
        ts[0].0 == Token::Directive,
        b.subrange(ts[0].1, ts[0].2) == "%left".spec_bytes(),
        0 <= m < ts.len(),
        forall|i: int| 1 <= i <= m ==> is_rule_name(#[trigger] ts[i].0),
        m + 1 == ts.len() || !is_rule_name(ts[m + 1].0),
    ensures
        directive(b, p) == Ok::<(DirectiveView, int), ParseError>(
            (DirectiveView::Left { rule_names: texts_of(b, ts.drop_first(), m) }, ts[m].2),
        ),
{
    lemma_tokens_step(b, p, ts);
    let rest = ts.drop_first();
    assert forall|i: int| 0 <= i < m implies is_rule_name(#[trigger] rest[i].0) by {
        assert(rest[i] == ts[i + 1]);
        assert(is_rule_name(ts[i + 1].0));
    }
    if m < rest.len() {
        assert(rest[m] == ts[m + 1]);
    }
    lemma_names_from_tokens(b, ts[0].2, rest, m);
    if m > 0 {
        assert(rest[m - 1] == ts[m]);
    }
    assert(expect(b, p, Token::Directive) == Ok::<(int, int), ParseError>((ts[0].1, ts[0].2)));
    let w = b.subrange(ts[0].1, ts[0].2);
    lemma_left_keyword(w);
}

} // verus!
