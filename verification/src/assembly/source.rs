//! Cutting pieces out of source text without leaving the text: every piece is
//! a `&str` of the text it came from.
use vstd::prelude::*;
use vstd::string::StringSliceAdditionalSpecFns;
use vstd::utf8::{
    encode_utf8_valid_utf8, is_char_boundary, is_char_boundary_iff_not_is_continuation_byte,
    is_char_boundary_start_end_of_seq, is_continuation_byte, length_of_first_scalar,
    pop_first_scalar, valid_utf8,
};

verus! {

/// Whether `bytes` can be cut at `at` by looking at its neighbours alone: at
/// either end, or beside a byte of one-byte text.
pub open spec fn cut_point(bytes: Seq<u8>, at: int) -> bool {
    &&& 0 <= at <= bytes.len()
    &&& (at == 0 || at == bytes.len() || bytes[at] < 0x80 || bytes[at - 1] < 0x80)
}

/// In well-formed text the byte before a continuation byte is never a
/// one-byte character.
proof fn lemma_continuation_follows_longer(bytes: Seq<u8>, at: int)
    requires
        valid_utf8(bytes),
        0 < at < bytes.len(),
        is_continuation_byte(bytes[at]),
    ensures
        bytes[at - 1] >= 0x80,
    decreases bytes.len(),
{
    reveal_with_fuel(valid_utf8, 2);
    let first = length_of_first_scalar(bytes);
    if at >= first {
        let rest = pop_first_scalar(bytes);
        assert(rest.len() == bytes.len() - first);
        if at == first {
            // a continuation byte cannot start the rest of the text
            assert(rest[0] == bytes[at]);
        } else {
            assert(rest[at - first] == bytes[at]);
            assert(rest[at - first - 1] == bytes[at - 1]);
            lemma_continuation_follows_longer(rest, at - first);
        }
    }
}

/// A cut point is a character boundary.
pub proof fn lemma_cut_point_is_boundary(bytes: Seq<u8>, at: int)
    requires
        valid_utf8(bytes),
        cut_point(bytes, at),
    ensures
        is_char_boundary(bytes, at),
{
    is_char_boundary_start_end_of_seq(bytes);
    if 0 < at < bytes.len() {
        is_char_boundary_iff_not_is_continuation_byte(bytes, at);
        if is_continuation_byte(bytes[at]) {
            lemma_continuation_follows_longer(bytes, at);
        }
    }
}

/// The text from byte `from` on.
pub fn tail<'a>(s: &'a str, from: usize) -> (rest: &'a str)
    requires
        cut_point(s.spec_bytes(), from as int),
    ensures
        rest.spec_bytes() == s.spec_bytes().subrange(from as int, s.spec_bytes().len() as int),
{
    proof {
        encode_utf8_valid_utf8(s@);
        lemma_cut_point_is_boundary(s.spec_bytes(), from as int);
    }
    let (_, rest) = s.split_at(from);
    rest
}

/// The text from byte `from` up to byte `to`.
pub fn between<'a>(s: &'a str, from: usize, to: usize) -> (piece: &'a str)
    requires
        from <= to,
        cut_point(s.spec_bytes(), from as int),
        cut_point(s.spec_bytes(), to as int),
    ensures
        piece.spec_bytes() == s.spec_bytes().subrange(from as int, to as int),
{
    proof {
        encode_utf8_valid_utf8(s@);
        lemma_cut_point_is_boundary(s.spec_bytes(), to as int);
    }
    let (head, _) = s.split_at(to);
    proof {
        encode_utf8_valid_utf8(head@);
        lemma_cut_point_is_boundary(head.spec_bytes(), from as int);
    }
    let (_, piece) = head.split_at(from);
    assert(piece.spec_bytes() =~= s.spec_bytes().subrange(from as int, to as int));
    piece
}

} // verus!
