use vstd::prelude::*;
use vstd::utf8::*;

verus! {

/// Number of bytes the scanner consumes for the character that starts at `i`:
/// the width announced by its leading byte, cut off at the end of the buffer.
pub open spec fn char_len(b: Seq<u8>, i: int) -> int {
    let c = b[i];
    let w: int = if c < 0x80 {
        1
    } else if c >= 0xf0 {
        4
    } else if c >= 0xe0 {
        3
    } else if c >= 0xc0 {
        2
    } else {
        1
    };
    if i + w <= b.len() {
        w
    } else {
        b.len() - i
    }
}

/// `i` splits `b` into two well-formed UTF-8 halves.
pub open spec fn on_boundary(b: Seq<u8>, i: int) -> bool {
    &&& 0 <= i <= b.len()
    &&& valid_utf8(b.subrange(0, i))
    &&& valid_utf8(b.subrange(i, b.len() as int))
}

/// `s..e` cuts `b` into three well-formed UTF-8 pieces.
pub open spec fn well_split(b: Seq<u8>, s: int, e: int) -> bool {
    &&& 0 <= s <= e <= b.len()
    &&& valid_utf8(b.subrange(0, s))
    &&& valid_utf8(b.subrange(s, e))
    &&& valid_utf8(b.subrange(e, b.len() as int))
}

/// Width of the character at `i`, as `char_len` states it.
pub fn char_len_at(b: &[u8], i: usize) -> (w: usize)
    requires
        i < b@.len(),
    ensures
        w as int == char_len(b@, i as int),
        1 <= w <= b@.len() - i,
{
    let c = b[i];
    let w: usize = if c < 0x80 {
        1
    } else if c >= 0xf0 {
        4
    } else if c >= 0xe0 {
        3
    } else if c >= 0xc0 {
        2
    } else {
        1
    };
    if w <= b.len() - i {
        w
    } else {
        b.len() - i
    }
}

/// Concatenating two well-formed halves puts a character boundary between them.
pub proof fn lemma_concat_boundary(p: Seq<u8>, q: Seq<u8>)
    requires
        valid_utf8(p),
        valid_utf8(q),
    ensures
        valid_utf8(p + q),
        is_char_boundary(p + q, p.len() as int),
    decreases p.len(),
{
    broadcast use valid_utf8_concat;

    if p.len() > 0 {
        let rest = pop_first_scalar(p);
        assert(pop_first_scalar(p).len() < p.len());
        lemma_concat_boundary(rest, q);
        assert(pop_first_scalar(p + q) =~= rest + q);
    } else {
        assert(p + q =~= q);
    }
}

/// Stepping over one character keeps the three pieces well formed.
pub proof fn lemma_step(b: Seq<u8>, s: int, i: int)
    requires
        well_split(b, s, i),
        i < b.len(),
    ensures
        well_split(b, s, i + char_len(b, i)),
        b[i] < 0x80 ==> char_len(b, i) == 1,
        forall|k: int| i < k < i + char_len(b, i) ==> #[trigger] b[k] >= 0x80,
{
    let n = b.len() as int;
    let rest = b.subrange(i, n);
    assert(valid_first_scalar(rest));
    let w = length_of_first_scalar(rest);
    assert(w == char_len(b, i));
    assert(pop_first_scalar(rest) =~= b.subrange(i + w, n));
    assert(take_first_scalar(rest) =~= b.subrange(i, i + w));
    assert(valid_utf8(b.subrange(i, i + w))) by {
        reveal_with_fuel(valid_utf8, 2);
        assert(pop_first_scalar(b.subrange(i, i + w)).len() == 0);
    }
    assert(forall|k: int| i < k < i + w ==> #[trigger] b[k] >= 0x80) by {
        assert forall|k: int| i < k < i + w implies #[trigger] b[k] >= 0x80 by {
            assert(b[k] == rest[k - i]);
        }
    }
    valid_utf8_concat(b.subrange(s, i), b.subrange(i, i + w));
    assert(b.subrange(s, i) + b.subrange(i, i + w) =~= b.subrange(s, i + w));
}

/// A boundary starts an empty well-formed piece.
pub proof fn lemma_start(b: Seq<u8>, i: int)
    requires
        on_boundary(b, i),
    ensures
        well_split(b, i, i),
{
    assert(b.subrange(i, i).len() == 0);
}

/// The end of a well-formed piece is a boundary, and so is its start.
pub proof fn lemma_finish(b: Seq<u8>, s: int, e: int)
    requires
        well_split(b, s, e),
    ensures
        on_boundary(b, e),
        on_boundary(b, s),
{
    let n = b.len() as int;
    valid_utf8_concat(b.subrange(0, s), b.subrange(s, e));
    assert(b.subrange(0, s) + b.subrange(s, e) =~= b.subrange(0, e));
    valid_utf8_concat(b.subrange(s, e), b.subrange(e, n));
    assert(b.subrange(s, e) + b.subrange(e, n) =~= b.subrange(s, n));
}

/// A boundary anywhere means the whole buffer is well formed, so both of its ends
/// are boundaries too.
pub proof fn lemma_ends(b: Seq<u8>, p: int)
    requires
        on_boundary(b, p),
    ensures
        valid_utf8(b),
        on_boundary(b, 0),
        on_boundary(b, b.len() as int),
{
    let n = b.len() as int;
    valid_utf8_concat(b.subrange(0, p), b.subrange(p, n));
    assert(b.subrange(0, p) + b.subrange(p, n) =~= b);
    assert(b.subrange(0, n) =~= b);
    assert(b.subrange(0, 0).len() == 0);
    assert(b.subrange(n, n).len() == 0);
}

} // verus!
