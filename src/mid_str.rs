//! Literal text between arguments, with `}}` escapes.

use vstd::prelude::*;
use vstd::string::{StringExecFns, StringSliceAdditionalSpecFns};
use vstd::utf8::*;

use crate::error::{ErrorKindModel, ErrorModel, ParseError, ParseErrorKind};
use crate::text::{lemma_ascii_boundaries, lemma_encode_utf8_concat, substring, CLOSE_BRACE};

verus! {

/// Literal text `s` with each `}}` turned into `}`; `Err(p)` where a `}` at
/// offset `p` is not doubled.
pub open spec fn unescape(s: Seq<u8>) -> Result<Seq<u8>, int>
    decreases s.len(),
{
    if s.len() == 0 {
        Ok(Seq::empty())
    } else if s[0] == CLOSE_BRACE {
        if s.len() >= 2 && s[1] == CLOSE_BRACE {
            match unescape(s.subrange(2, s.len() as int)) {
                Ok(t) => Ok(seq![CLOSE_BRACE] + t),
                Err(p) => Err(p + 2),
            }
        } else {
            Err(0)
        }
    } else {
        match unescape(s.drop_first()) {
            Ok(t) => Ok(seq![s[0]] + t),
            Err(p) => Err(p + 1),
        }
    }
}

/// Text with no `}` unescapes to itself.
pub proof fn lemma_unescape_plain(s: Seq<u8>)
    requires
        forall|i: int| 0 <= i < s.len() ==> s[i] != CLOSE_BRACE,
    ensures
        unescape(s) == Ok::<Seq<u8>, int>(s),
    decreases s.len(),
{
    if s.len() > 0 {
        lemma_unescape_plain(s.drop_first());
        assert(seq![s[0]] + s.drop_first() =~= s);
    } else {
        assert(s =~= Seq::<u8>::empty());
    }
}

/// Parses the text between arguments, turning each `}}` into `}`.
///
/// `starts_at` is the offset of `input` in the template.
pub fn parse_mid_str(input: &str, starts_at: usize) -> (r: Result<String, ParseError>)
    requires
        starts_at + input.spec_bytes().len() <= usize::MAX,
    ensures
        match unescape(input.spec_bytes()) {
            Ok(t) => r is Ok && encode_utf8(r->Ok_0@) == t,
            Err(p) => r is Err && r->Err_0@ == (ErrorModel {
                pos: starts_at + p,
                kind: ErrorKindModel::InvalidClosedArg,
            }),
        },
{
    let bytes = input.as_bytes();
    let ghost s = input.spec_bytes();
    let n = bytes.len();
    let mut buffer = String::new();
    let mut start: usize = 0;
    let mut i: usize = 0;
    proof {
        encode_utf8_valid_utf8(input@);
        is_char_boundary_start_end_of_seq(s);
        assert(s.subrange(0, n as int) =~= s);
        assert(encode_utf8(buffer@) =~= Seq::<u8>::empty());
    }
    while i < n
        invariant
            bytes@ == s,
            s == input.spec_bytes(),
            valid_utf8(s),
            n == s.len(),
            starts_at + n <= usize::MAX,
            start <= i <= n,
            is_char_boundary(s, start as int),
            match unescape(s.subrange(i as int, n as int)) {
                Ok(t) => unescape(s) == Ok::<Seq<u8>, int>(
                    encode_utf8(buffer@) + s.subrange(start as int, i as int) + t,
                ),
                Err(p) => unescape(s) == Err::<Seq<u8>, int>(p + i),
            },
        decreases n - i,
    {
        let ghost rest = s.subrange(i as int, n as int);
        if bytes[i] == CLOSE_BRACE {
            if i + 1 < n && bytes[i + 1] == CLOSE_BRACE {
                proof {
                    lemma_ascii_boundaries(s, i as int);
                    lemma_ascii_boundaries(s, i + 1);
                    assert(rest.subrange(2, rest.len() as int) =~= s.subrange(i + 2, n as int));
                }
                let ghost old_buffer = buffer@;
                let piece = substring(input, start, i + 1);
                buffer.append(piece);
                proof {
                    lemma_encode_utf8_concat(old_buffer, piece@);
                    assert(s.subrange(start as int, i + 1) =~= s.subrange(start as int, i as int)
                        + seq![CLOSE_BRACE]);
                    assert(s.subrange(i + 2, i + 2) =~= Seq::<u8>::empty());
                    match unescape(s.subrange(i + 2, n as int)) {
                        Ok(t) => {
                            assert(encode_utf8(old_buffer) + s.subrange(start as int, i as int) + (
                            seq![CLOSE_BRACE] + t) =~= encode_utf8(buffer@) + s.subrange(
                                i + 2,
                                i + 2,
                            ) + t);
                        },
                        Err(p) => {},
                    }
                }
                start = i + 2;
                i = i + 2;
            } else {
                return Err(ParseError { pos: starts_at + i, kind: ParseErrorKind::InvalidClosedArg });
            }
        } else {
            proof {
                assert(rest.drop_first() =~= s.subrange(i + 1, n as int));
                match unescape(s.subrange(i + 1, n as int)) {
                    Ok(t) => {
                        assert(s.subrange(start as int, i as int) + (seq![s[i as int]] + t)
                            =~= s.subrange(start as int, i + 1) + t);
                        assert(encode_utf8(buffer@) + s.subrange(start as int, i as int) + (seq![
                            s[i as int],
                        ] + t) =~= encode_utf8(buffer@) + s.subrange(start as int, i + 1) + t);
                    },
                    Err(p) => {},
                }
            }
            i = i + 1;
        }
    }
    let ghost old_buffer = buffer@;
    let piece = substring(input, start, n);
    buffer.append(piece);
    proof {
        lemma_encode_utf8_concat(old_buffer, piece@);
        assert(s.subrange(n as int, n as int) =~= Seq::<u8>::empty());
        assert(encode_utf8(old_buffer) + s.subrange(start as int, n as int) + Seq::<u8>::empty()
            =~= encode_utf8(buffer@));
    }
    Ok(buffer)
}

} // verus!
