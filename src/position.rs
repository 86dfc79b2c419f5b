use vstd::prelude::*;
use vstd::string::StringSliceAdditionalSpecFns;
use crate::scan_spec::NEWLINE;

verus! {

/// 1-based line and column of byte offset `k`: lines end at each line break, and
/// the column counts characters (bytes that do not continue a UTF-8 sequence).
pub open spec fn line_col_at(b: Seq<u8>, k: int) -> (int, int)
    decreases k,
{
    if k <= 0 {
        (1, 1)
    } else {
        let (l, c) = line_col_at(b, k - 1);
        if b[k - 1] == NEWLINE {
            (l + 1, 1)
        } else if 0x80 <= b[k - 1] <= 0xbf {
            (l, c)
        } else {
            (l, c + 1)
        }
    }
}

/// Line and column, both from 1, of the byte offset `pos` in `input`.
pub fn line_col(input: &str, pos: usize) -> (r: (usize, usize))
    requires
        pos <= input.spec_bytes().len(),
        pos < usize::MAX,
    ensures
        (r.0 as int, r.1 as int) == line_col_at(input.spec_bytes(), pos as int),
{
    let b = input.as_bytes();
    let mut line: usize = 1;
    let mut col: usize = 1;
    let mut i: usize = 0;
    while i < pos
        invariant
            i <= pos,
            pos < usize::MAX,
            pos <= b@.len(),
            1 <= line <= i + 1,
            1 <= col <= i + 1,
            (line as int, col as int) == line_col_at(b@, i as int),
        decreases pos - i,
    {
        let c = b[i];
        if c == NEWLINE {
            line = line + 1;
            col = 1;
        } else if !(0x80 <= c && c <= 0xbf) {
            col = col + 1;
        }
        i = i + 1;
    }
    (line, col)
}

} // verus!
