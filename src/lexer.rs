use vstd::prelude::*;
use vstd::string::StringSliceAdditionalSpecFns;
use vstd::utf8::valid_utf8;
use crate::scan_spec::{
    classify, code_end, found, in_run, is_alpha, is_digit, is_space, run_end, scan,
    scan_next_pos, skip_block_comment, skip_line_comment, skip_trivia, string_end, Run,
    ScanError, ScanStep, BAR, COLON, DASH, DIGIT_0, DIGIT_9, DQUOTE, EQUAL, LANGLE, LBRACE,
    LOWER_A, LOWER_Z, NEWLINE, PERCENT, QUOTE, RANGLE, RBRACE, SEMI, SLASH, SPACE, STAR, TAB,
    UNDERSCORE, UPPER_A, UPPER_Z,
};
use crate::token::Spanned;
use crate::token::Token;
use crate::utf8_step::{
    char_len, char_len_at, lemma_ends, lemma_finish, lemma_start, lemma_step, on_boundary,
    well_split,
};

verus! {

fn is_space_byte(c: u8) -> (r: bool)
    ensures
        r == is_space(c),
{
    c == SPACE || c == TAB || c == NEWLINE
}

fn is_alpha_byte(c: u8) -> (r: bool)
    ensures
        r == is_alpha(c),
{
    (LOWER_A <= c && c <= LOWER_Z) || (UPPER_A <= c && c <= UPPER_Z)
}

fn is_digit_byte(c: u8) -> (r: bool)
    ensures
        r == is_digit(c),
{
    DIGIT_0 <= c && c <= DIGIT_9
}

fn in_run_byte(k: Run, c: u8) -> (r: bool)
    ensures
        r == in_run(k, c),
{
    let word = is_alpha_byte(c) || is_digit_byte(c) || c == UNDERSCORE;
    match k {
        Run::Digits => is_digit_byte(c),
        Run::Word => word,
        Run::DirectiveWord => word || c == DASH,
    }
}

fn scan_run(b: &[u8], i: usize, k: Run) -> (r: usize)
    requires
        i <= b@.len(),
    ensures
        r as int == run_end(b@, i as int, k),
        i <= r <= b@.len(),
{
    let mut j = i;
    while j < b.len() && in_run_byte(k, b[j])
        invariant
            i <= j <= b@.len(),
            run_end(b@, i as int, k) == run_end(b@, j as int, k),
        decreases b@.len() - j,
    {
        j = j + 1;
    }
    j
}

fn scan_trivia(b: &[u8], pos: usize) -> (r: Result<usize, ScanError>)
    requires
        pos <= b@.len(),
    ensures
        match r {
            Ok(s) => skip_trivia(b@, pos as int) == Ok::<int, ScanError>(s as int) && pos <= s
                <= b@.len(),
            Err(e) => skip_trivia(b@, pos as int) == Err::<int, ScanError>(e),
        },
{
    let n = b.len();
    let mut i = pos;
    // 0: between tokens, 1: inside a line comment, 2: inside a block comment
    let mut mode: u8 = 0;
    let mut opened: usize = 0;
    loop
        invariant
            pos <= i <= n,
            n == b@.len(),
            mode <= 2,
            skip_trivia(b@, pos as int) == (if mode == 0 {
                skip_trivia(b@, i as int)
            } else if mode == 1 {
                skip_line_comment(b@, i as int)
            } else {
                skip_block_comment(b@, i as int, opened as int)
            }),
        decreases n - i,
    {
        if mode == 0 {
            if i >= n {
                return Ok(i);
            }
            let c = b[i];
            if is_space_byte(c) {
                i = i + 1;
            } else if c == SLASH && i + 1 < n && b[i + 1] == SLASH {
                i = i + 2;
                mode = 1;
            } else if c == SLASH && i + 1 < n && b[i + 1] == STAR {
                opened = i;
                i = i + 2;
                mode = 2;
            } else {
                return Ok(i);
            }
        } else if mode == 1 {
            if i >= n {
                return Ok(i);
            }
            if b[i] == NEWLINE {
                i = i + 1;
                mode = 0;
            } else {
                i = i + char_len_at(b, i);
            }
        } else {
            if i >= n {
                return Err(ScanError::UnterminatedComment(opened));
            }
            if b[i] == STAR && i + 1 < n && b[i + 1] == SLASH {
                i = i + 2;
                mode = 0;
            } else {
                i = i + char_len_at(b, i);
            }
        }
    }
}

fn scan_string(b: &[u8], i: usize) -> (r: Option<usize>)
    requires
        i <= b@.len(),
    ensures
        match r {
            Some(e) => string_end(b@, i as int) == Some(e as int) && i < e <= b@.len(),
            None => string_end(b@, i as int) == None::<int>,
        },
{
    let mut j = i;
    while j < b.len()
        invariant
            i <= j <= b@.len(),
            string_end(b@, i as int) == string_end(b@, j as int),
        decreases b@.len() - j,
    {
        if b[j] == DQUOTE {
            return Some(j + 1);
        }
        j = j + char_len_at(b, j);
    }
    None
}

fn scan_code(b: &[u8], i: usize) -> (r: Option<usize>)
    requires
        1 <= i <= b@.len(),
    ensures
        match r {
            Some(e) => code_end(b@, i as int, 1) == Some(e as int) && i < e <= b@.len(),
            None => code_end(b@, i as int, 1) == None::<int>,
        },
{
    let n = b.len();
    let mut j = i;
    let mut depth: usize = 1;
    while j < n
        invariant
            n == b@.len(),
            i <= j <= b@.len(),
            1 <= i,
            1 <= depth <= j - i + 1,
            code_end(b@, i as int, 1) == code_end(b@, j as int, depth as nat),
        decreases b@.len() - j,
    {
        let c = b[j];
        if c == LBRACE {
            depth = depth + 1;
            j = j + 1;
        } else if c == RBRACE {
            if depth <= 1 {
                return Some(j + 1);
            }
            depth = depth - 1;
            j = j + 1;
        } else {
            j = j + char_len_at(b, j);
        }
    }
    None
}

/// Classifies the token starting at `s`; `Err` for an input that ends inside it.
fn scan_token(b: &[u8], s: usize) -> (r: Result<(Token, usize), ScanError>)
    requires
        s < b@.len(),
    ensures
        match r {
            Ok((kind, e)) => classify(b@, s as int) == found(kind, s as int, e as int) && s < e
                <= b@.len(),
            Err(error) => classify(b@, s as int) == (ScanStep::Abort { error }),
        },
{
    let n = b.len();
    let c = b[s];
    if c == QUOTE {
        if s + 1 >= n {
            return Err(ScanError::UnterminatedChar(s));
        }
        let m = s + 1 + char_len_at(b, s + 1);
        if m >= n {
            Err(ScanError::UnterminatedChar(s))
        } else if b[m] == QUOTE {
            Ok((Token::Char, m + 1))
        } else {
            Ok((Token::Error, m + char_len_at(b, m)))
        }
    } else if c == EQUAL {
        Ok((Token::Equal, s + 1))
    } else if c == BAR {
        Ok((Token::Bar, s + 1))
    } else if c == COLON {
        Ok((Token::Colon, s + 1))
    } else if c == SEMI {
        Ok((Token::SemiColon, s + 1))
    } else if is_digit_byte(c) {
        Ok((Token::Number, scan_run(b, s + 1, Run::Digits)))
    } else if c == DQUOTE {
        match scan_string(b, s + 1) {
            Some(e) => Ok((Token::String, e)),
            None => Err(ScanError::UnterminatedString(s)),
        }
    } else if c == PERCENT {
        if s + 1 >= n {
            Ok((Token::Error, s + 1))
        } else if b[s + 1] == PERCENT {
            Ok((Token::PercentPercent, s + 2))
        } else if is_alpha_byte(b[s + 1]) {
            Ok((Token::Directive, scan_run(b, s + 2, Run::DirectiveWord)))
        } else {
            Ok((Token::Error, s + 1 + char_len_at(b, s + 1)))
        }
    } else if c == LBRACE {
        match scan_code(b, s + 1) {
            Some(e) => Ok((Token::Code, e)),
            None => Err(ScanError::UnterminatedCode(s)),
        }
    } else if is_alpha_byte(c) {
        Ok((Token::Ident, scan_run(b, s + 1, Run::Word)))
    } else if c == LANGLE {
        let j = scan_run(b, s + 1, Run::Word);
        if j >= n {
            Ok((Token::Error, n))
        } else if b[j] == RANGLE {
            Ok((Token::Type, j + 1))
        } else {
            Ok((Token::Error, j + char_len_at(b, j)))
        }
    } else {
        Ok((Token::Error, s + char_len_at(b, s)))
    }
}

proof fn lemma_run_split(b: Seq<u8>, s: int, i: int, k: Run)
    requires
        well_split(b, s, i),
    ensures
        well_split(b, s, run_end(b, i, k)),
    decreases b.len() - i,
{
    if 0 <= i < b.len() && in_run(k, b[i]) {
        lemma_step(b, s, i);
        lemma_run_split(b, s, i + 1, k);
    }
}

pub proof fn lemma_trivia_split(b: Seq<u8>, i: int)
    requires
        on_boundary(b, i),
    ensures
        skip_trivia(b, i) matches Ok(t) ==> on_boundary(b, t),
    decreases b.len() - i, 1int,
{
    let n = b.len() as int;
    if i < n {
        lemma_start(b, i);
        lemma_step(b, i, i);
        lemma_finish(b, i, i + char_len(b, i));
        if is_space(b[i]) {
            lemma_trivia_split(b, i + 1);
        } else if b[i] == SLASH && i + 1 < n && (b[i + 1] == SLASH || b[i + 1] == STAR) {
            lemma_start(b, i + 1);
            lemma_step(b, i + 1, i + 1);
            lemma_finish(b, i + 1, i + 2);
            if b[i + 1] == SLASH {
                lemma_line_comment_split(b, i + 2);
            } else {
                lemma_block_comment_split(b, i + 2, i);
            }
        }
    }
}

proof fn lemma_line_comment_split(b: Seq<u8>, i: int)
    requires
        on_boundary(b, i),
    ensures
        skip_line_comment(b, i) matches Ok(t) ==> on_boundary(b, t),
    decreases b.len() - i, 0int,
{
    if i < b.len() {
        lemma_start(b, i);
        lemma_step(b, i, i);
        lemma_finish(b, i, i + char_len(b, i));
        if b[i] == NEWLINE {
            lemma_trivia_split(b, i + 1);
        } else {
            lemma_line_comment_split(b, i + char_len(b, i));
        }
    }
}

proof fn lemma_block_comment_split(b: Seq<u8>, i: int, start: int)
    requires
        on_boundary(b, i),
    ensures
        skip_block_comment(b, i, start) matches Ok(t) ==> on_boundary(b, t),
    decreases b.len() - i, 0int,
{
    let n = b.len() as int;
    if i < n {
        lemma_start(b, i);
        lemma_step(b, i, i);
        lemma_finish(b, i, i + char_len(b, i));
        if b[i] == STAR && i + 1 < n && b[i + 1] == SLASH {
            lemma_start(b, i + 1);
            lemma_step(b, i + 1, i + 1);
            lemma_finish(b, i + 1, i + 2);
            lemma_trivia_split(b, i + 2);
        } else {
            lemma_block_comment_split(b, i + char_len(b, i), start);
        }
    }
}

proof fn lemma_string_split(b: Seq<u8>, s: int, i: int)
    requires
        well_split(b, s, i),
    ensures
        string_end(b, i) matches Some(e) ==> well_split(b, s, e),
    decreases b.len() - i,
{
    if i < b.len() {
        lemma_step(b, s, i);
        if b[i] != DQUOTE {
            lemma_string_split(b, s, i + char_len(b, i));
        }
    }
}

proof fn lemma_code_split(b: Seq<u8>, s: int, i: int, depth: nat)
    requires
        well_split(b, s, i),
    ensures
        code_end(b, i, depth) matches Some(e) ==> well_split(b, s, e),
    decreases b.len() - i,
{
    if i < b.len() {
        lemma_step(b, s, i);
        if b[i] == LBRACE {
            lemma_code_split(b, s, i + 1, depth + 1);
        } else if b[i] == RBRACE {
            if depth > 1 {
                lemma_code_split(b, s, i + 1, (depth - 1) as nat);
            }
        } else {
            lemma_code_split(b, s, i + char_len(b, i), depth);
        }
    }
}

proof fn lemma_classify_split(b: Seq<u8>, s: int)
    requires
        on_boundary(b, s),
        s < b.len(),
    ensures
        classify(b, s) matches ScanStep::Found { start, end, .. } ==> start == s && well_split(
            b,
            s,
            end,
        ),
{
    let n = b.len() as int;
    lemma_start(b, s);
    lemma_step(b, s, s);
    let c = b[s];
    if c == QUOTE {
        if s + 1 < n {
            lemma_step(b, s, s + 1);
            let m = s + 1 + char_len(b, s + 1);
            if m < n {
                lemma_step(b, s, m);
            }
        }
    } else if is_digit(c) {
        lemma_run_split(b, s, s + 1, Run::Digits);
    } else if c == DQUOTE {
        lemma_string_split(b, s, s + 1);
    } else if c == PERCENT {
        if s + 1 < n {
            lemma_step(b, s, s + 1);
            if is_alpha(b[s + 1]) {
                lemma_run_split(b, s, s + 2, Run::DirectiveWord);
            }
        }
    } else if c == LBRACE {
        lemma_code_split(b, s, s + 1, 1);
    } else if is_alpha(c) {
        lemma_run_split(b, s, s + 1, Run::Word);
    } else if c == LANGLE {
        lemma_run_split(b, s, s + 1, Run::Word);
        let j = run_end(b, s + 1, Run::Word);
        if j < n {
            lemma_step(b, s, j);
        }
    }
}

proof fn lemma_run_all(b: Seq<u8>, i: int, k: Run)
    requires
        0 <= i,
    ensures
        forall|j: int| i <= j < run_end(b, i, k) ==> in_run(k, #[trigger] b[j]),
    decreases b.len() - i,
{
    if 0 <= i < b.len() && in_run(k, b[i]) {
        lemma_run_all(b, i + 1, k);
    }
}

proof fn lemma_trivia_ahead(b: Seq<u8>, i: int)
    ensures
        skip_trivia(b, i) matches Ok(t) ==> i <= t,
    decreases b.len() - i, 1int,
{
    if 0 <= i < b.len() {
        if is_space(b[i]) {
            lemma_trivia_ahead(b, i + 1);
        } else if b[i] == SLASH && i + 1 < b.len() && b[i + 1] == SLASH {
            lemma_line_ahead(b, i + 2);
        } else if b[i] == SLASH && i + 1 < b.len() && b[i + 1] == STAR {
            lemma_block_ahead(b, i + 2, i);
        }
    }
}

proof fn lemma_line_ahead(b: Seq<u8>, i: int)
    ensures
        skip_line_comment(b, i) matches Ok(t) ==> i <= t,
    decreases b.len() - i, 0int,
{
    if 0 <= i < b.len() {
        if b[i] == NEWLINE {
            lemma_trivia_ahead(b, i + 1);
        } else {
            lemma_line_ahead(b, i + char_len(b, i));
        }
    }
}

proof fn lemma_block_ahead(b: Seq<u8>, i: int, start: int)
    ensures
        skip_block_comment(b, i, start) matches Ok(t) ==> i <= t,
    decreases b.len() - i, 0int,
{
    if 0 <= i < b.len() {
        if b[i] == STAR && i + 1 < b.len() && b[i + 1] == SLASH {
            lemma_trivia_ahead(b, i + 2);
        } else {
            lemma_block_ahead(b, i + char_len(b, i), start);
        }
    }
}

proof fn lemma_string_ahead(b: Seq<u8>, i: int)
    ensures
        string_end(b, i) matches Some(e) ==> i < e,
    decreases b.len() - i,
{
    if 0 <= i < b.len() && b[i] != DQUOTE {
        lemma_string_ahead(b, i + char_len(b, i));
    }
}

proof fn lemma_code_ahead(b: Seq<u8>, i: int, depth: nat)
    ensures
        code_end(b, i, depth) matches Some(e) ==> i < e,
    decreases b.len() - i,
{
    if 0 <= i < b.len() {
        if b[i] == LBRACE {
            lemma_code_ahead(b, i + 1, depth + 1);
        } else if b[i] == RBRACE {
            if depth > 1 {
                lemma_code_ahead(b, i + 1, (depth - 1) as nat);
            }
        } else {
            lemma_code_ahead(b, i + char_len(b, i), depth);
        }
    }
}

proof fn lemma_run_ahead(b: Seq<u8>, i: int, k: Run)
    ensures
        i <= run_end(b, i, k),
    decreases b.len() - i,
{
    if 0 <= i < b.len() && in_run(k, b[i]) {
        lemma_run_ahead(b, i + 1, k);
    }
}

/// A token found from `pos` starts at or after `pos`, is not empty, and ends
/// within the buffer.
pub proof fn lemma_scan_progress(b: Seq<u8>, pos: int)
    requires
        on_boundary(b, pos),
    ensures
        scan(b, pos) matches ScanStep::Found { start, end, .. } ==> pos <= start < end <= b.len(),
{
    lemma_scan_split(b, pos);
    lemma_trivia_ahead(b, pos);
    if let Ok(s) = skip_trivia(b, pos) {
        if s < b.len() {
            lemma_run_ahead(b, s + 1, Run::Digits);
            lemma_run_ahead(b, s + 1, Run::Word);
            lemma_run_ahead(b, s + 2, Run::DirectiveWord);
            lemma_string_ahead(b, s + 1);
            lemma_code_ahead(b, s + 1, 1);
        }
    }
}

/// A `Number` token is made of decimal digits only.
pub proof fn lemma_number_digits(b: Seq<u8>, pos: int)
    requires
        on_boundary(b, pos),
        scan(b, pos) matches ScanStep::Found { kind, .. } && kind == Token::Number,
    ensures
        scan(b, pos) matches ScanStep::Found { start, end, .. } && forall|j: int|
            start <= j < end ==> is_digit(#[trigger] b[j]),
{
    lemma_trivia_split(b, pos);
    if let Ok(s) = skip_trivia(b, pos) {
        if 0 <= s < b.len() && is_digit(b[s]) {
            lemma_run_all(b, s + 1, Run::Digits);
            assert(classify(b, s) == found(Token::Number, s, run_end(b, s + 1, Run::Digits)));
        }
    }
}

/// Every token that the scanner finds from a boundary is a well-formed piece of text.
pub proof fn lemma_scan_split(b: Seq<u8>, pos: int)
    requires
        on_boundary(b, pos),
    ensures
        scan(b, pos) matches ScanStep::Found { start, end, .. } ==> well_split(b, start, end),
{
    lemma_trivia_split(b, pos);
    if let Ok(s) = skip_trivia(b, pos) {
        if s < b.len() {
            lemma_classify_split(b, s);
        }
    }
}

/// The tokens from `pos` to the end of the input, as kind, start and end; the
/// first construct that the input ends inside of makes it an error. (The bound on
/// `end` always holds, by `lemma_scan_progress`; it is tested to show the measure.)
pub open spec fn tokens(b: Seq<u8>, pos: int) -> Result<Seq<(Token, int, int)>, ScanError>
    decreases b.len() - pos,
{
    match scan(b, pos) {
        ScanStep::End => Ok(seq![]),
        ScanStep::Abort { error } => Err(error),
        ScanStep::Found { kind, start, end } => if pos < end <= b.len() {
            match tokens(b, end) {
                Ok(rest) => Ok(seq![(kind, start, end)] + rest),
                Err(e) => Err(e),
            }
        } else {
            Ok(seq![(kind, start, end)])
        },
    }
}

pub open spec fn spanned_view(t: Spanned<Token>) -> (Token, int, int) {
    (t.data, t.span.start as int, t.span.end as int)
}

/// Scans the whole input with a fresh scanner.
pub fn tokenize(input: &str) -> (r: Result<Vec<Spanned<Token>>, ScanError>)
    ensures
        match r {
            Ok(v) => tokens(input.spec_bytes(), 0) == Ok::<Seq<(Token, int, int)>, ScanError>(
                v@.map_values(|t: Spanned<Token>| spanned_view(t)),
            ),
            Err(e) => tokens(input.spec_bytes(), 0) == Err::<Seq<(Token, int, int)>, ScanError>(e),
        },
{
    let ghost b = input.spec_bytes();
    let mut lexer = Lexer::new(input);
    let mut v: Vec<Spanned<Token>> = Vec::new();
    loop
        invariant
            lexer.wf(),
            b == input.spec_bytes(),
            lexer.source() == b,
            0 <= lexer.cursor() <= b.len(),
            tokens(b, 0) == match tokens(b, lexer.cursor()) {
                Ok(rest) => Ok(v@.map_values(|t: Spanned<Token>| spanned_view(t)) + rest),
                Err(e) => Err(e),
            },
        decreases b.len() - lexer.cursor(),
    {
        let ghost at = lexer.cursor();
        match lexer.next() {
            Err(e) => {
                assert(tokens(b, at) == Err::<Seq<(Token, int, int)>, ScanError>(e));
                return Err(e);
            },
            Ok(None) => {
                assert(tokens(b, at) == Ok::<Seq<(Token, int, int)>, ScanError>(seq![]));
                proof {
                    let w = v@.map_values(|t: Spanned<Token>| spanned_view(t));
                    assert(w + seq![] =~= w);
                }
                return Ok(v);
            },
            Ok(Some(t)) => {
                let ghost tv = spanned_view(t);
                let ghost before = v@.map_values(|t: Spanned<Token>| spanned_view(t));
                v.push(t);
                proof {
                    assert(v@.map_values(|t: Spanned<Token>| spanned_view(t)) =~= before.push(tv));
                    match tokens(b, tv.2) {
                        Ok(rest) => {
                            assert(before + (seq![tv] + rest) =~= v@.map_values(
                                |t: Spanned<Token>| spanned_view(t),
                            ) + rest);
                        },
                        Err(_) => {},
                    }
                }
            },
        }
    }
}

/// A scanner over a borrowed text buffer, with a byte cursor that only moves forward.
#[derive(Debug)]
pub struct Lexer<'a> {
    input: &'a str,
    pos: usize,
}

impl<'a> Lexer<'a> {
    /// The bytes being scanned.
    pub closed spec fn source(&self) -> Seq<u8> {
        self.input.spec_bytes()
    }

    /// The byte offset where the next scan starts.
    pub closed spec fn cursor(&self) -> int {
        self.pos as int
    }

    /// The cursor stands on a character boundary of the buffer.
    pub open spec fn wf(&self) -> bool {
        on_boundary(self.source(), self.cursor())
    }

    /// The cursor, as a byte offset.
    pub fn offset(&self) -> (r: usize)
        ensures
            r as int == self.cursor(),
    {
        self.pos
    }

    pub fn new(input: &'a str) -> (r: Self)
        ensures
            r.source() == input.spec_bytes(),
            r.cursor() == 0,
            r.wf(),
    {
        proof {
            let b = input.spec_bytes();
            vstd::utf8::encode_utf8_valid_utf8(input@);
            assert(b.subrange(0, b.len() as int) =~= b);
            assert(b.subrange(0, 0).len() == 0);
        }
        Lexer { input, pos: 0 }
    }

    /// Scans the next token, skipping whitespace and comments; `Ok(None)` at the
    /// end of the input, `Err` when the input ends inside a literal, a brace block
    /// or a comment. After the end or an error the cursor rests at the end.
    pub fn next(&mut self) -> (r: Result<Option<Spanned<Token>>, ScanError>)
        requires
            old(self).wf(),
        ensures
            final(self).wf(),
            final(self).source() == old(self).source(),
            final(self).cursor() == scan_next_pos(old(self).source(), old(self).cursor()),
            match r {
                Ok(None) => scan(old(self).source(), old(self).cursor()) == ScanStep::End,
                Ok(Some(t)) => scan(old(self).source(), old(self).cursor()) == found(
                    t.data,
                    t.span.start as int,
                    t.span.end as int,
                ) && well_split(old(self).source(), t.span.start as int, t.span.end as int)
                    && old(self).cursor() <= t.span.start < t.span.end,
                Err(e) => scan(old(self).source(), old(self).cursor()) == (ScanStep::Abort {
                    error: e,
                }),
            },
    {
        let b = self.input.as_bytes();
        proof {
            lemma_scan_split(b@, self.pos as int);
            lemma_ends(b@, self.pos as int);
        }
        match scan_trivia(b, self.pos) {
            Err(e) => {
                self.pos = b.len();
                Err(e)
            },
            Ok(s) => {
                if s >= b.len() {
                    self.pos = b.len();
                    Ok(None)
                } else {
                    match scan_token(b, s) {
                        Err(e) => {
                            self.pos = b.len();
                            Err(e)
                        },
                        Ok((kind, e)) => {
                            proof {
                                lemma_finish(b@, s as int, e as int);
                            }
                            self.pos = e;
                            Ok(Some(Spanned::new(kind, s..e)))
                        },
                    }
                }
            },
        }
    }
}

} // verus!
