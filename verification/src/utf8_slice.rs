//! Slicing a `&str` at byte offsets next to ASCII delimiters. Scanners work on the UTF-8 bytes of
//! a body (where ASCII delimiters can never sit inside a multi-byte character); this module turns
//! a byte range back into text.

use vstd::prelude::*;
use vstd::utf8::{
    decode_utf8, encode_utf8, encode_utf8_decode_utf8, encode_utf8_valid_utf8, is_char_boundary,
    is_char_boundary_iff_not_is_continuation_byte, is_char_boundary_start_end_of_seq,
    valid_utf8, valid_utf8_split,
};

verus! {

/// In valid UTF-8, the byte after an ASCII byte starts a character (or is the end).
pub proof fn lemma_ascii_boundaries(b: Seq<u8>, i: int)
    requires
        valid_utf8(b),
        0 <= i < b.len(),
        b[i] < 0x80,
    ensures
        is_char_boundary(b, i),
        is_char_boundary(b, i + 1),
{
    is_char_boundary_iff_not_is_continuation_byte(b, i);
    if i + 1 == b.len() {
        is_char_boundary_start_end_of_seq(b);
    } else {
        valid_utf8_split(b, i);
        let rest = b.subrange(i, b.len() as int);
        assert(rest[0] == b[i]);
        reveal_with_fuel(valid_utf8, 2);
        let tail = rest.subrange(1, rest.len() as int);
        assert(tail =~= b.subrange(i + 1, b.len() as int));
        assert(tail[0] == b[i + 1]);
        is_char_boundary_iff_not_is_continuation_byte(b, i + 1);
    }
}

/// The encoding of a concatenation is the concatenation of the encodings.
pub proof fn lemma_encode_concat(a: Seq<char>, b: Seq<char>)
    ensures
        encode_utf8(a + b) == encode_utf8(a) + encode_utf8(b),
    decreases a.len(),
{
    if a.len() == 0 {
        assert(a + b =~= b);
        assert(encode_utf8(a) + encode_utf8(b) =~= encode_utf8(b));
    } else {
        assert((a + b).drop_first() =~= a.drop_first() + b);
        lemma_encode_concat(a.drop_first(), b);
        assert(encode_utf8(a + b) =~= encode_utf8(a) + encode_utf8(b));
    }
}

/// Every character takes at least one byte.
pub proof fn lemma_encode_len(a: Seq<char>)
    ensures
        a.len() <= encode_utf8(a).len(),
    decreases a.len(),
{
    if a.len() > 0 {
        lemma_encode_len(a.drop_first());
    }
}

/// A piece of a text never takes more bytes than the text.
pub proof fn lemma_encode_subrange_len(a: Seq<char>, i: int, j: int)
    requires
        0 <= i <= j <= a.len(),
    ensures
        encode_utf8(a.subrange(i, j)).len() <= encode_utf8(a).len(),
        j - i <= encode_utf8(a).len(),
{
    assert(a =~= a.take(i) + a.subrange(i, j) + a.skip(j));
    lemma_encode_concat(a.take(i) + a.subrange(i, j), a.skip(j));
    lemma_encode_concat(a.take(i), a.subrange(i, j));
    lemma_encode_len(a.subrange(i, j));
}

/// The text `s[from..to]` where `from` and `to` are byte offsets that are character boundaries.
pub fn slice_bytes(s: &str, from: usize, to: usize) -> (out: String)
    requires
        from <= to <= encode_utf8(s@).len(),
        is_char_boundary(encode_utf8(s@), from as int),
        is_char_boundary(encode_utf8(s@), to as int),
    ensures
        out@ == decode_utf8(encode_utf8(s@).subrange(from as int, to as int)),
        valid_utf8(encode_utf8(s@).subrange(from as int, to as int)),
{
    let ghost b = encode_utf8(s@);
    proof {
        encode_utf8_valid_utf8(s@);
        valid_utf8_split(b, to as int);
        let p = b.subrange(0, to as int);
        if from < to {
            is_char_boundary_iff_not_is_continuation_byte(b, from as int);
            assert(p[from as int] == b[from as int]);
            is_char_boundary_iff_not_is_continuation_byte(p, from as int);
        } else {
            is_char_boundary_start_end_of_seq(p);
        }
        valid_utf8_split(p, from as int);
        assert(p.subrange(from as int, p.len() as int) =~= b.subrange(from as int, to as int));
    }
    let (head, _) = s.split_at(to);
    proof {
        encode_utf8_valid_utf8(head@);
    }
    let (_, mid) = head.split_at(from);
    proof {
        encode_utf8_decode_utf8(mid@);
        assert(encode_utf8(mid@) =~= b.subrange(from as int, to as int));
    }
    mid.to_owned()
}

} // verus!
