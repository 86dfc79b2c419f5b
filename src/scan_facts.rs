use vstd::prelude::*;
use vstd::utf8::valid_utf8;
use crate::lexer::{lemma_trivia_split, tokens, Lexer};
use crate::scan_spec::{
    classify, code_end, found, is_space, scan, scan_next_pos, skip_block_comment, skip_line_comment,
    skip_trivia, ScanError, ScanStep, LBRACE, NEWLINE, RBRACE, SLASH, STAR,
};
use crate::token::Token;
use crate::utf8_step::{char_len, lemma_start, lemma_step, on_boundary, well_split};

verus! {

/// Two scanners made fresh over equal buffers produce identical token sequences.
pub proof fn lemma_rescan_identical(x: Lexer, y: Lexer)
    requires
        x.source() == y.source(),
        x.cursor() == 0,
        y.cursor() == 0,
    ensures
        tokens(x.source(), x.cursor()) == tokens(y.source(), y.cursor()),
{
}

/// Brace depth after the first `k` bytes of `s`.
pub open spec fn brace_depth(s: Seq<u8>, k: int) -> int
    decreases k,
{
    if k <= 0 || k > s.len() {
        0
    } else {
        brace_depth(s, k - 1) + (if s[k - 1] == LBRACE {
            1int
        } else if s[k - 1] == RBRACE {
            -1int
        } else {
            0int
        })
    }
}

/// `s` is one `{ ... }` block whose braces pair up, nested to any depth.
pub open spec fn balanced_block(s: Seq<u8>) -> bool {
    &&& s.len() >= 2
    &&& s[0] == LBRACE
    &&& brace_depth(s, s.len() as int) == 0
    &&& forall|k: int| 1 <= k < s.len() ==> #[trigger] brace_depth(s, k) >= 1
}

proof fn lemma_depth_flat(s: Seq<u8>, i: int, j: int)
    requires
        0 <= i <= j <= s.len(),
        forall|k: int| i <= k < j ==> #[trigger] s[k] != LBRACE && s[k] != RBRACE,
    ensures
        brace_depth(s, j) == brace_depth(s, i),
    decreases j - i,
{
    if i < j {
        lemma_depth_flat(s, i, j - 1);
    }
}

proof fn lemma_code_walk(b: Seq<u8>, o: int, s: Seq<u8>, i: int)
    requires
        balanced_block(s),
        0 <= o,
        o + s.len() <= b.len(),
        b.subrange(o, o + s.len()) == s,
        1 <= i < s.len(),
        well_split(b, o, o + i),
    ensures
        code_end(b, o + i, brace_depth(s, i) as nat) == Some(o + s.len()),
    decreases s.len() - i,
{
    let n = s.len() as int;
    assert(forall|k: int| 0 <= k < n ==> b[o + k] == #[trigger] s[k]) by {
        assert forall|k: int| 0 <= k < n implies b[o + k] == #[trigger] s[k] by {
            assert(b.subrange(o, o + n)[k] == b[o + k]);
        }
    }
    assert(brace_depth(s, n - 1) >= 1);
    assert(s[n - 1] == RBRACE);
    let d = brace_depth(s, i);
    assert(d >= 1);
    lemma_step(b, o, o + i);
    if s[i] == LBRACE {
        assert(brace_depth(s, i + 1) == d + 1);
        lemma_code_walk(b, o, s, i + 1);
    } else if s[i] == RBRACE {
        assert(brace_depth(s, i + 1) == d - 1);
        if d > 1 {
            lemma_code_walk(b, o, s, i + 1);
        } else {
            if i + 1 < n {
                assert(brace_depth(s, i + 1) >= 1);
            }
        }
    } else {
        let w = char_len(b, o + i);
        assert(i + w < n) by {
            if i + w >= n {
                assert(b[o + n - 1] < 0x80);
            }
        }
        assert forall|k: int| i <= k < i + w implies #[trigger] s[k] != LBRACE && s[k] != RBRACE by {
            if k > i {
                assert(b[o + k] >= 0x80);
            }
        }
        lemma_depth_flat(s, i, i + w);
        lemma_code_walk(b, o, s, i + w);
    }
}

/// When the first thing past the blanks and comments at the cursor is a balanced
/// brace block, nested to any depth, the scanner yields one `Code` token that
/// covers exactly that block, and the next scan starts right after it.
pub proof fn lemma_block_is_one_token(b: Seq<u8>, pos: int, start: int, blk: Seq<u8>)
    requires
        on_boundary(b, pos),
        skip_trivia(b, pos) == Ok::<int, ScanError>(start),
        balanced_block(blk),
        start + blk.len() <= b.len(),
        b.subrange(start, start + blk.len()) == blk,
    ensures
        scan(b, pos) == found(Token::Code, start, start + blk.len()),
        scan_next_pos(b, pos) == start + blk.len(),
{
    lemma_trivia_split(b, pos);
    assert(b.subrange(start, start + blk.len())[0] == b[start]);
    assert(b[start] == LBRACE);
    lemma_start(b, start);
    lemma_step(b, start, start);
    assert(brace_depth(blk, 0) == 0);
    assert(brace_depth(blk, 1) == 1);
    lemma_code_walk(b, start, blk, 1);
    assert(classify(b, start) == found(Token::Code, start, start + blk.len()));
}

/// `//`, text without a line break, and the line break that ends it.
pub open spec fn line_comment(p: Seq<u8>) -> bool {
    &&& p.len() >= 3
    &&& p[0] == SLASH
    &&& p[1] == SLASH
    &&& p[p.len() - 1] == NEWLINE
    &&& forall|k: int| 2 <= k < p.len() - 1 ==> #[trigger] p[k] != NEWLINE
}

/// `//` and text without a line break, running to the end of the input.
pub open spec fn open_line_comment(p: Seq<u8>) -> bool {
    &&& p.len() >= 2
    &&& p[0] == SLASH
    &&& p[1] == SLASH
    &&& forall|k: int| 2 <= k < p.len() ==> #[trigger] p[k] != NEWLINE
}

/// `/*`, text in which `*/` does not occur, and `*/`.
pub open spec fn block_comment(p: Seq<u8>) -> bool {
    &&& p.len() >= 4
    &&& p[0] == SLASH
    &&& p[1] == STAR
    &&& p[p.len() - 2] == STAR
    &&& p[p.len() - 1] == SLASH
    &&& forall|k: int| 2 <= k < p.len() - 2 ==> !(#[trigger] p[k] == STAR && p[k + 1] == SLASH)
}

/// One blank character or one comment.
pub open spec fn blank_piece(p: Seq<u8>) -> bool {
    ||| (p.len() == 1 && is_space(p[0]))
    ||| line_comment(p)
    ||| block_comment(p)
}

proof fn lemma_line_to_end(b: Seq<u8>, j: int)
    requires
        well_split(b, 0, j),
        forall|k: int| j <= k < b.len() ==> #[trigger] b[k] != NEWLINE,
    ensures
        skip_line_comment(b, j) == Ok::<int, ScanError>(b.len() as int),
    decreases b.len() - j,
{
    if j < b.len() {
        lemma_step(b, 0, j);
        lemma_line_to_end(b, j + char_len(b, j));
    }
}

proof fn lemma_line_to_newline(b: Seq<u8>, j: int, m: int)
    requires
        well_split(b, 0, j),
        j < m <= b.len(),
        b[m - 1] == NEWLINE,
        forall|k: int| j <= k < m - 1 ==> #[trigger] b[k] != NEWLINE,
    ensures
        skip_line_comment(b, j) == skip_trivia(b, m),
        well_split(b, 0, m),
    decreases m - j,
{
    lemma_step(b, 0, j);
    if j < m - 1 {
        let w = char_len(b, j);
        if j + w > m - 1 {
            assert(b[m - 1] >= 0x80);
        }
        lemma_line_to_newline(b, j + w, m);
    }
}

proof fn lemma_block_to_close(b: Seq<u8>, j: int, m: int, opened: int)
    requires
        well_split(b, 0, j),
        j + 2 <= m <= b.len(),
        b[m - 2] == STAR,
        b[m - 1] == SLASH,
        forall|k: int| j <= k < m - 2 ==> !(#[trigger] b[k] == STAR && b[k + 1] == SLASH),
    ensures
        skip_block_comment(b, j, opened) == skip_trivia(b, m),
        well_split(b, 0, m),
    decreases m - j,
{
    lemma_step(b, 0, j);
    if j < m - 2 {
        let w = char_len(b, j);
        if j + w > m - 2 {
            assert(b[m - 2] >= 0x80);
        }
        lemma_block_to_close(b, j + w, m, opened);
    } else {
        lemma_step(b, 0, j + 1);
    }
}

proof fn lemma_blank_pieces(b: Seq<u8>, i: int, pieces: Seq<Seq<u8>>, tail: Seq<u8>)
    requires
        well_split(b, 0, i),
        b.subrange(i, b.len() as int) == pieces.flatten() + tail,
        forall|k: int| 0 <= k < pieces.len() ==> blank_piece(#[trigger] pieces[k]),
        tail.len() == 0 || open_line_comment(tail),
    ensures
        skip_trivia(b, i) == Ok::<int, ScanError>(b.len() as int),
    decreases pieces.len(),
{
    let n = b.len() as int;
    if pieces.len() == 0 {
        assert(b.subrange(i, n) =~= tail);
        assert forall|k: int| 0 <= k < tail.len() implies b[i + k] == #[trigger] tail[k] by {
            assert(b.subrange(i, n)[k] == b[i + k]);
        }
        if tail.len() > 0 {
            lemma_step(b, 0, i);
            lemma_step(b, 0, i + 1);
            assert forall|k: int| i + 2 <= k < n implies #[trigger] b[k] != NEWLINE by {
                assert(b[i + (k - i)] == tail[k - i]);
            }
            lemma_line_to_end(b, i + 2);
        }
    } else {
        let p = pieces[0];
        let rest = pieces.drop_first();
        let m = i + p.len();
        assert(pieces.flatten() == p + rest.flatten());
        assert(b.subrange(i, n) =~= p + (rest.flatten() + tail));
        assert(p.len() <= n - i) by {
            assert((p + (rest.flatten() + tail)).len() == n - i);
        }
        assert forall|k: int| 0 <= k < p.len() implies b[i + k] == #[trigger] p[k] by {
            assert(b.subrange(i, n)[k] == b[i + k]);
        }
        assert(b.subrange(m, n) =~= rest.flatten() + tail) by {
            assert forall|k: int| 0 <= k < n - m implies b.subrange(m, n)[k] == (rest.flatten()
                + tail)[k] by {
                assert(b.subrange(i, n)[p.len() + k] == b[m + k]);
            }
        }
        assert forall|k: int| 0 <= k < rest.len() implies blank_piece(#[trigger] rest[k]) by {
            assert(rest[k] == pieces[k + 1]);
        }
        if p.len() == 1 && is_space(p[0]) {
            lemma_step(b, 0, i);
            lemma_blank_pieces(b, m, rest, tail);
        } else if line_comment(p) {
            lemma_step(b, 0, i);
            lemma_step(b, 0, i + 1);
            assert forall|k: int| i + 2 <= k < m - 1 implies #[trigger] b[k] != NEWLINE by {
                assert(b[i + (k - i)] == p[k - i]);
            }
            assert(b[m - 1] == p[p.len() - 1]);
            lemma_line_to_newline(b, i + 2, m);
            lemma_blank_pieces(b, m, rest, tail);
        } else {
            lemma_step(b, 0, i);
            lemma_step(b, 0, i + 1);
            assert forall|k: int| i + 2 <= k < m - 2 implies !(#[trigger] b[k] == STAR && b[k + 1]
                == SLASH) by {
                assert(b[i + (k - i)] == p[k - i]);
                assert(b[i + (k + 1 - i)] == p[k + 1 - i]);
            }
            assert(b[m - 2] == p[p.len() - 2]);
            assert(b[m - 1] == p[p.len() - 1]);
            lemma_block_to_close(b, i + 2, m, i);
            lemma_blank_pieces(b, m, rest, tail);
        }
    }
}

/// A text made only of blanks and comments (each line comment ended by a line
/// break, save possibly one that runs to the end) scans to no token at all.
pub proof fn lemma_blank_text_has_no_tokens(pieces: Seq<Seq<u8>>, tail: Seq<u8>)
    requires
        forall|k: int| 0 <= k < pieces.len() ==> blank_piece(#[trigger] pieces[k]),
        tail.len() == 0 || open_line_comment(tail),
        valid_utf8(pieces.flatten() + tail),
    ensures
        tokens(pieces.flatten() + tail, 0) == Ok::<Seq<(Token, int, int)>, ScanError>(seq![]),
{
    let b = pieces.flatten() + tail;
    assert(b.subrange(0, 0).len() == 0);
    assert(b.subrange(0, b.len() as int) =~= b);
    lemma_blank_pieces(b, 0, pieces, tail);
    assert(scan(b, 0) == ScanStep::End);
}

} // verus!
