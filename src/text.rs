//! Byte constants of the template language, and UTF-8 facts about them.

use vstd::prelude::*;
use vstd::string::StringSliceAdditionalSpecFns;
use vstd::utf8::*;

verus! {

pub const OPEN_BRACE: u8 = 0x7b;

pub const CLOSE_BRACE: u8 = 0x7d;

pub const COLON: u8 = 0x3a;

pub const HASH: u8 = 0x23;

pub const QUESTION_MARK: u8 = 0x3f;

pub const LOWER_B: u8 = 0x62;

pub const LOWER_X: u8 = 0x78;

pub const DIGIT_ZERO: u8 = 0x30;

pub const DIGIT_NINE: u8 = 0x39;


/// An ASCII byte of valid UTF-8 is a character on its own: there are
/// character boundaries both before and after it.
pub proof fn lemma_ascii_boundaries(bytes: Seq<u8>, i: int)
    requires
        valid_utf8(bytes),
        0 <= i < bytes.len(),
        bytes[i] <= 0x7f,
    ensures
        is_char_boundary(bytes, i),
        is_char_boundary(bytes, i + 1),
{
    is_char_boundary_iff_not_is_continuation_byte(bytes, i);
    lemma_ascii_boundary_after(bytes, i);
}

proof fn lemma_ascii_boundary_after(bytes: Seq<u8>, i: int)
    requires
        valid_utf8(bytes),
        0 <= i < bytes.len(),
        bytes[i] <= 0x7f,
    ensures
        is_char_boundary(bytes, i + 1),
    decreases bytes.len(),
{
    let l = length_of_first_scalar(bytes);
    let rest = pop_first_scalar(bytes);
    assert(valid_first_scalar(bytes) && valid_utf8(rest));
    if i < l {
        assert(i == 0 && l == 1);
        assert(is_char_boundary(rest, 0));
    } else {
        assert(rest[i - l] == bytes[i]);
        lemma_ascii_boundary_after(rest, i - l);
    }
}

/// Encoding a concatenation concatenates the encodings.
pub proof fn lemma_encode_utf8_concat(a: Seq<char>, b: Seq<char>)
    ensures
        encode_utf8(a + b) == encode_utf8(a) + encode_utf8(b),
    decreases a.len(),
{
    if a.len() == 0 {
        assert(a + b =~= b);
        assert(encode_utf8(a) =~= Seq::<u8>::empty());
        assert(encode_utf8(a) + encode_utf8(b) =~= encode_utf8(b));
    } else {
        assert((a + b).drop_first() =~= a.drop_first() + b);
        lemma_encode_utf8_concat(a.drop_first(), b);
        assert(encode_utf8(a + b) =~= encode_utf8(a) + encode_utf8(b));
    }
}

/// The part of `s` between byte offsets `lo` and `hi`, both character
/// boundaries.
pub fn substring(s: &str, lo: usize, hi: usize) -> (r: &str)
    requires
        lo <= hi <= s.spec_bytes().len(),
        is_char_boundary(s.spec_bytes(), lo as int),
        is_char_boundary(s.spec_bytes(), hi as int),
    ensures
        r.spec_bytes() == s.spec_bytes().subrange(lo as int, hi as int),
{
    proof {
        encode_utf8_valid_utf8(s@);
    }
    let (head, _) = s.split_at(hi);
    proof {
        assert(is_char_boundary(head.spec_bytes(), lo as int)) by {
            lemma_boundary_in_prefix(s.spec_bytes(), lo as int, hi as int);
        }
    }
    let (_, r) = head.split_at(lo);
    assert(r.spec_bytes() =~= s.spec_bytes().subrange(lo as int, hi as int));
    r
}

/// A character boundary of a valid text is also one of each prefix that it
/// lies within, when the prefix ends at a boundary.
proof fn lemma_boundary_in_prefix(bytes: Seq<u8>, lo: int, hi: int)
    requires
        valid_utf8(bytes),
        0 <= lo <= hi <= bytes.len(),
        is_char_boundary(bytes, lo),
        is_char_boundary(bytes, hi),
    ensures
        valid_utf8(bytes.subrange(0, hi)),
        is_char_boundary(bytes.subrange(0, hi), lo),
{
    valid_utf8_split(bytes, hi);
    let p = bytes.subrange(0, hi);
    if lo == hi {
        is_char_boundary_start_end_of_seq(p);
    } else {
        is_char_boundary_iff_not_is_continuation_byte(bytes, lo);
        is_char_boundary_iff_not_is_continuation_byte(p, lo);
    }
}

} // verus!
