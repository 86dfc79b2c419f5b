use vstd::prelude::*;
use vstd::utf8::{decode_utf8, encode_utf8, encode_utf8_decode_utf8, is_ascii_chars, is_ascii_chars_encode_utf8};
use crate::display::spaced;
use crate::parse_spec::{lookahead, names, text, ParseError};
use crate::scan_spec::{classify, found, in_run, run_end, scan, skip_trivia, Run, ScanError, ScanStep};
use crate::token::Token;

verus! {

pub open spec fn is_letter(c: char) -> bool {
    ('a' <= c <= 'z') || ('A' <= c <= 'Z')
}

pub open spec fn is_word_char(c: char) -> bool {
    is_letter(c) || ('0' <= c <= '9') || c == '_'
}

/// The text of an `Ident` token: a letter, then letters, digits and `_`.
pub open spec fn is_ident_text(t: Seq<char>) -> bool {
    &&& t.len() >= 1
    &&& is_letter(t[0])
    &&& forall|k: int| 1 <= k < t.len() ==> is_word_char(#[trigger] t[k])
}

proof fn lemma_spaced_prefix(ns: Seq<Seq<char>>, k: int, m: int)
    requires
        0 <= k <= m <= ns.len(),
    ensures
        spaced(ns.subrange(0, k)).len() <= spaced(ns.subrange(0, m)).len(),
        forall|i: int| 0 <= i < spaced(ns.subrange(0, k)).len() ==> #[trigger] spaced(ns.subrange(0, m))[i]
            == spaced(ns.subrange(0, k))[i],
    decreases m - k,
{
    if k < m {
        lemma_spaced_prefix(ns, k, m - 1);
        assert(ns.subrange(0, m).drop_last() =~= ns.subrange(0, m - 1));
    }
}

proof fn lemma_spaced_ascii(ns: Seq<Seq<char>>)
    requires
        forall|i: int| 0 <= i < ns.len() ==> is_ident_text(#[trigger] ns[i]),
    ensures
        is_ascii_chars(spaced(ns)),
    decreases ns.len(),
{
    reveal_strlit(" ");
    if ns.len() > 0 {
        lemma_spaced_ascii(ns.drop_last());
        let s = spaced(ns);
        let t = ns.last();
        assert(is_ident_text(ns[ns.len() - 1]));
        assert forall|i: int| 0 <= i < s.len() implies '\0' <= #[trigger] s[i] <= '\u{7f}' by {
            let p = spaced(ns.drop_last());
            if i >= p.len() + 1 {
                assert(s[i] == t[i - p.len() - 1]);
                if i - p.len() - 1 > 0 {
                    assert(is_word_char(t[i - p.len() - 1]));
                }
            }
        }
    }
}

proof fn lemma_run_exact(b: Seq<u8>, i: int, e: int, k: Run)
    requires
        0 <= i <= e <= b.len(),
        forall|t: int| i <= t < e ==> in_run(k, #[trigger] b[t]),
        e == b.len() || !in_run(k, b[e]),
    ensures
        run_end(b, i, k) == e,
    decreases e - i,
{
    if i < e {
        lemma_run_exact(b, i + 1, e, k);
    }
}

proof fn lemma_names_from(ns: Seq<Seq<char>>, j: int)
    requires
        forall|i: int| 0 <= i < ns.len() ==> is_ident_text(#[trigger] ns[i]),
        0 <= j <= ns.len(),
    ensures
        names(encode_utf8(spaced(ns) + "\n"@), spaced(ns.subrange(0, j)).len() as int) == Ok::<
            (Seq<Seq<char>>, int),
            ParseError,
        >((ns.subrange(j, ns.len() as int), spaced(ns).len() as int)),
    decreases ns.len() - j,
{
    reveal_strlit("\n");
    reveal_strlit(" ");
    let whole = spaced(ns) + "\n"@;
    let b = encode_utf8(whole);
    let n = ns.len() as int;
    lemma_spaced_ascii(ns);
    assert(is_ascii_chars(whole));
    is_ascii_chars_encode_utf8(whole);
    assert(ns.subrange(0, n) =~= ns);
    let off = spaced(ns.subrange(0, j)).len() as int;
    lemma_spaced_prefix(ns, j, n);
    if j == n {
        assert(whole[off] == '\n');
        assert(b[off] == 10);
        assert(skip_trivia(b, off + 1) == Ok::<int, ScanError>(off + 1));
        assert(scan(b, off) == ScanStep::End);
        assert(ns.subrange(j, n) =~= Seq::<Seq<char>>::empty());
    } else {
        let t = ns[j];
        assert(is_ident_text(t));
        let pre = ns.subrange(0, j + 1);
        assert(pre.drop_last() =~= ns.subrange(0, j));
        assert(pre.last() == t);
        let next = off + 1 + t.len();
        assert(spaced(pre).len() == next);
        lemma_spaced_prefix(ns, j + 1, n);
        assert forall|k: int| 0 <= k < t.len() implies #[trigger] whole[off + 1 + k] == t[k] by {
            assert(spaced(pre)[off + 1 + k] == t[k]);
        }
        assert(whole[off] == ' ') by {
            assert(spaced(pre)[off] == ' ');
        }
        if j + 1 < n {
            let pre2 = ns.subrange(0, j + 2);
            assert(pre2.drop_last() =~= pre);
            lemma_spaced_prefix(ns, j + 2, n);
            assert(spaced(pre2)[next] == ' ');
            assert(whole[next] == ' ');
        } else {
            assert(whole[next] == '\n');
        }
        assert(b[off] == 32);
        assert(b[off + 1] == t[0] as u8);
        assert forall|p: int| off + 2 <= p < next implies in_run(Run::Word, #[trigger] b[p]) by {
            assert(b[p] == whole[p] as u8);
            assert(whole[p] == t[p - off - 1]);
            assert(is_word_char(t[p - off - 1]));
        }
        lemma_run_exact(b, off + 2, next, Run::Word);
        assert(skip_trivia(b, off + 1) == Ok::<int, ScanError>(off + 1));
        assert(classify(b, off + 1) == found(Token::Ident, off + 1, next));
        assert(scan(b, off) == found(Token::Ident, off + 1, next));
        assert(b.subrange(off + 1, next) =~= encode_utf8(t)) by {
            assert(is_ascii_chars(t));
            is_ascii_chars_encode_utf8(t);
        }
        encode_utf8_decode_utf8(t);
        assert(text(b, off + 1, next) == t);
        lemma_names_from(ns, j + 1);
        assert(ns.subrange(j, n) =~= seq![t] + ns.subrange(j + 1, n));
    }
}

/// Identifier names as the printer writes them (each after a space), ended by a
/// line break, read back as the same names.
pub proof fn lemma_names_reread(ns: Seq<Seq<char>>)
    requires
        forall|i: int| 0 <= i < ns.len() ==> is_ident_text(#[trigger] ns[i]),
    ensures
        names(encode_utf8(spaced(ns) + "\n"@), 0) == Ok::<(Seq<Seq<char>>, int), ParseError>(
            (ns, spaced(ns).len() as int),
        ),
{
    lemma_names_from(ns, 0);
    assert(ns.subrange(0, 0).len() == 0);
    assert(ns.subrange(0, ns.len() as int) =~= ns);
}

} // verus!
