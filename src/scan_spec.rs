use vstd::prelude::*;
use crate::token::Token;
use crate::utf8_step::char_len;

verus! {

pub const SPACE: u8 = 0x20;
pub const TAB: u8 = 0x09;
pub const NEWLINE: u8 = 0x0a;
pub const LOWER_A: u8 = 0x61;
pub const LOWER_Z: u8 = 0x7a;
pub const UPPER_A: u8 = 0x41;
pub const UPPER_Z: u8 = 0x5a;
pub const DIGIT_0: u8 = 0x30;
pub const DIGIT_9: u8 = 0x39;
pub const UNDERSCORE: u8 = 0x5f;
pub const DASH: u8 = 0x2d;
pub const SLASH: u8 = 0x2f;
pub const STAR: u8 = 0x2a;
pub const DQUOTE: u8 = 0x22;
pub const LBRACE: u8 = 0x7b;
pub const RBRACE: u8 = 0x7d;
pub const QUOTE: u8 = 0x27;
pub const EQUAL: u8 = 0x3d;
pub const BAR: u8 = 0x7c;
pub const COLON: u8 = 0x3a;
pub const SEMI: u8 = 0x3b;
pub const PERCENT: u8 = 0x25;
pub const LANGLE: u8 = 0x3c;
pub const RANGLE: u8 = 0x3e;

/// A construct that the input ended inside of; each carries the byte offset where
/// the construct starts.
#[derive(Debug, Clone, Copy, PartialEq, Eq, Structural)]
pub enum ScanError {
    UnterminatedChar(usize),
    UnterminatedString(usize),
    UnterminatedCode(usize),
    UnterminatedComment(usize),
}

/// What one scanning step yields from a cursor position.
pub enum ScanStep {
    End,
    Found { kind: Token, start: int, end: int },
    Abort { error: ScanError },
}

/// The character classes that the scanner consumes in runs.
#[derive(Clone, Copy, PartialEq, Eq, Structural)]
pub enum Run {
    Digits,
    Word,
    DirectiveWord,
}

pub open spec fn is_space(c: u8) -> bool {
    c == SPACE || c == TAB || c == NEWLINE
}

pub open spec fn is_alpha(c: u8) -> bool {
    (LOWER_A <= c <= LOWER_Z) || (UPPER_A <= c <= UPPER_Z)
}

pub open spec fn is_digit(c: u8) -> bool {
    DIGIT_0 <= c <= DIGIT_9
}

pub open spec fn is_word(c: u8) -> bool {
    is_alpha(c) || is_digit(c) || c == UNDERSCORE
}

pub open spec fn in_run(k: Run, c: u8) -> bool {
    match k {
        Run::Digits => is_digit(c),
        Run::Word => is_word(c),
        Run::DirectiveWord => is_word(c) || c == DASH,
    }
}

/// End of the longest run of class `k` starting at `i`.
pub open spec fn run_end(b: Seq<u8>, i: int, k: Run) -> int
    decreases b.len() - i,
{
    if 0 <= i < b.len() && in_run(k, b[i]) {
        run_end(b, i + 1, k)
    } else {
        i
    }
}

/// Position of the first token at or after `i`, past whitespace and comments.
pub open spec fn skip_trivia(b: Seq<u8>, i: int) -> Result<int, ScanError>
    decreases b.len() - i,
{
    if i < 0 || i >= b.len() {
        Ok(i)
    } else if is_space(b[i]) {
        skip_trivia(b, i + 1)
    } else if b[i] == SLASH && i + 1 < b.len() && b[i + 1] == SLASH {
        skip_line_comment(b, i + 2)
    } else if b[i] == SLASH && i + 1 < b.len() && b[i + 1] == STAR {
        skip_block_comment(b, i + 2, i)
    } else {
        Ok(i)
    }
}

/// Inside a `//` comment at `i`.
pub open spec fn skip_line_comment(b: Seq<u8>, i: int) -> Result<int, ScanError>
    decreases b.len() - i,
{
    if i < 0 || i >= b.len() {
        Ok(i)
    } else if b[i] == NEWLINE {
        skip_trivia(b, i + 1)
    } else {
        skip_line_comment(b, i + char_len(b, i))
    }
}

/// Inside a `/*` comment, opened at `start`, at `i`.
pub open spec fn skip_block_comment(b: Seq<u8>, i: int, start: int) -> Result<int, ScanError>
    decreases b.len() - i,
{
    if i < 0 || i >= b.len() {
        Err(ScanError::UnterminatedComment(start as usize))
    } else if b[i] == STAR && i + 1 < b.len() && b[i + 1] == SLASH {
        skip_trivia(b, i + 2)
    } else {
        skip_block_comment(b, i + char_len(b, i), start)
    }
}

/// End of a string literal whose body starts at `i` (just past the closing quote).
pub open spec fn string_end(b: Seq<u8>, i: int) -> Option<int>
    decreases b.len() - i,
{
    if i < 0 || i >= b.len() {
        None
    } else if b[i] == DQUOTE {
        Some(i + 1)
    } else {
        string_end(b, i + char_len(b, i))
    }
}

/// End of a brace block, at `i` with `depth` braces open (just past the last one closed).
pub open spec fn code_end(b: Seq<u8>, i: int, depth: nat) -> Option<int>
    decreases b.len() - i,
{
    if i < 0 || i >= b.len() {
        None
    } else if b[i] == LBRACE {
        code_end(b, i + 1, depth + 1)
    } else if b[i] == RBRACE {
        if depth <= 1 {
            Some(i + 1)
        } else {
            code_end(b, i + 1, (depth - 1) as nat)
        }
    } else {
        code_end(b, i + char_len(b, i), depth)
    }
}

pub open spec fn found(kind: Token, start: int, end: int) -> ScanStep {
    ScanStep::Found { kind, start, end }
}

/// The token whose first byte is at `s`, with `s` inside the buffer and past all trivia.
pub open spec fn classify(b: Seq<u8>, s: int) -> ScanStep {
    let n = b.len() as int;
    let c = b[s];
    if c == QUOTE {
        if s + 1 >= n {
            ScanStep::Abort { error: ScanError::UnterminatedChar(s as usize) }
        } else {
            let m = s + 1 + char_len(b, s + 1);
            if m >= n {
                ScanStep::Abort { error: ScanError::UnterminatedChar(s as usize) }
            } else if b[m] == QUOTE {
                found(Token::Char, s, m + 1)
            } else {
                found(Token::Error, s, m + char_len(b, m))
            }
        }
    } else if c == EQUAL {
        found(Token::Equal, s, s + 1)
    } else if c == BAR {
        found(Token::Bar, s, s + 1)
    } else if c == COLON {
        found(Token::Colon, s, s + 1)
    } else if c == SEMI {
        found(Token::SemiColon, s, s + 1)
    } else if is_digit(c) {
        found(Token::Number, s, run_end(b, s + 1, Run::Digits))
    } else if c == DQUOTE {
        match string_end(b, s + 1) {
            Some(e) => found(Token::String, s, e),
            None => ScanStep::Abort { error: ScanError::UnterminatedString(s as usize) },
        }
    } else if c == PERCENT {
        if s + 1 >= n {
            found(Token::Error, s, s + 1)
        } else if b[s + 1] == PERCENT {
            found(Token::PercentPercent, s, s + 2)
        } else if is_alpha(b[s + 1]) {
            found(Token::Directive, s, run_end(b, s + 2, Run::DirectiveWord))
        } else {
            found(Token::Error, s, s + 1 + char_len(b, s + 1))
        }
    } else if c == LBRACE {
        match code_end(b, s + 1, 1) {
            Some(e) => found(Token::Code, s, e),
            None => ScanStep::Abort { error: ScanError::UnterminatedCode(s as usize) },
        }
    } else if is_alpha(c) {
        found(Token::Ident, s, run_end(b, s + 1, Run::Word))
    } else if c == LANGLE {
        let j = run_end(b, s + 1, Run::Word);
        if j >= n {
            found(Token::Error, s, n)
        } else if b[j] == RANGLE {
            found(Token::Type, s, j + 1)
        } else {
            found(Token::Error, s, j + char_len(b, j))
        }
    } else {
        found(Token::Error, s, s + char_len(b, s))
    }
}

/// The next step of a scanner over `b` whose cursor is at `pos`.
pub open spec fn scan(b: Seq<u8>, pos: int) -> ScanStep {
    match skip_trivia(b, pos) {
        Err(e) => ScanStep::Abort { error: e },
        Ok(s) => if s >= b.len() {
            ScanStep::End
        } else {
            classify(b, s)
        },
    }
}

/// Where the cursor stands after that step.
pub open spec fn scan_next_pos(b: Seq<u8>, pos: int) -> int {
    match scan(b, pos) {
        ScanStep::Found { end, .. } => end,
        _ => b.len() as int,
    }
}

} // verus!
