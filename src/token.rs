use vstd::prelude::*;

verus! {

/// The lexical class of a scanned unit.
#[derive(Debug, Clone, Copy, PartialEq, Eq, Structural)]
pub enum Token {
    /// `=`
    Equal,
    /// `%%`
    PercentPercent,
    /// `>` (never produced on its own: it closes a `Type`)
    GreaterThan,
    /// `<` (never produced on its own: it opens a `Type`)
    LessThan,
    /// `|`
    Bar,
    /// `:`
    Colon,
    /// `;`
    SemiColon,
    /// a balanced `{ ... }` block
    Code,
    /// a letter, then letters, digits and `_`
    Ident,
    /// `"..."`
    String,
    /// the end of the input, as the recognizer's lookahead sees it
    Eof,
    /// `%` and a keyword
    Directive,
    /// `'c'`
    Char,
    /// decimal digits
    Number,
    /// `<name>`
    Type,
    /// an unrecognized lexeme
    Error,
}

/// A value tagged with the half-open byte range of the source it came from.
#[derive(Debug)]
pub struct Spanned<T> {
    pub data: T,
    pub span: std::ops::Range<usize>,
}

impl<T> Spanned<T> {
    pub fn new(data: T, span: std::ops::Range<usize>) -> (r: Self)
        ensures
            r.data == data,
            r.span == span,
    {
        Spanned { data, span }
    }
}

} // verus!
