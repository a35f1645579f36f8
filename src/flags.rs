//! The formatting part of an argument.

use vstd::prelude::*;
use vstd::string::StringSliceAdditionalSpecFns;

use crate::error::{ErrorKindModel, ErrorModel, ParseError, ParseErrorKind};
use crate::text::{HASH, LOWER_B, LOWER_X, QUESTION_MARK};

verus! {

/// How an argument is rendered.
#[derive(Clone, Copy, Debug, PartialEq, Eq, Structural)]
pub enum FormattingMode {
    Display,
    DebugRegular,
    DebugBinary,
    DebugHex,
}

/// The parsed formatting part of an argument (`{:#x?}` and the like).
#[derive(Clone, Copy, Debug, PartialEq, Eq, Structural)]
pub struct FormattingFlags {
    pub mode: FormattingMode,
    pub alternate: bool,
}

/// One flag character applied to the flags read so far; `None` where the
/// character is not a flag, or sets the base a second time.
pub open spec fn flag_step(f: FormattingFlags, c: u8) -> Option<FormattingFlags> {
    if c == LOWER_B && f.mode == FormattingMode::DebugRegular {
        Some(FormattingFlags { mode: FormattingMode::DebugBinary, ..f })
    } else if c == LOWER_X && f.mode == FormattingMode::DebugRegular {
        Some(FormattingFlags { mode: FormattingMode::DebugHex, ..f })
    } else if c == HASH {
        Some(FormattingFlags { alternate: true, ..f })
    } else {
        None
    }
}

/// The flag characters `s` read left to right, starting from plain debug.
pub open spec fn scan_flags(s: Seq<u8>) -> Option<FormattingFlags>
    decreases s.len(),
{
    if s.len() == 0 {
        Some(FormattingFlags { mode: FormattingMode::DebugRegular, alternate: false })
    } else {
        match scan_flags(s.drop_last()) {
            Some(f) => flag_step(f, s.last()),
            None => None,
        }
    }
}

/// The flags that formatting text `s` denotes, or `None` where it is not
/// valid: `""` and `"#"` are display; anything else is debug, with one
/// trailing `?` dropped before the flag characters are read.
pub open spec fn flags_of(s: Seq<u8>) -> Option<FormattingFlags> {
    if s.len() == 0 {
        Some(FormattingFlags { mode: FormattingMode::Display, alternate: false })
    } else if s =~= seq![HASH] {
        Some(FormattingFlags { mode: FormattingMode::Display, alternate: true })
    } else if s.last() == QUESTION_MARK {
        scan_flags(s.drop_last())
    } else {
        scan_flags(s)
    }
}

/// Parses the formatting part of an argument, the text after its `:`.
///
/// `starts_at` is the offset of `input` in the template.
pub fn parse_formatting(input: &str, starts_at: usize) -> (r: Result<FormattingFlags, ParseError>)
    ensures
        match flags_of(input.spec_bytes()) {
            Some(f) => r == Ok::<FormattingFlags, ParseError>(f),
            None => r is Err && r->Err_0@ == (ErrorModel {
                pos: starts_at as int,
                kind: ErrorKindModel::UnknownFormatting(input.spec_bytes()),
            }),
        },
{
    let bytes = input.as_bytes();
    let ghost s = input.spec_bytes();
    let n = bytes.len();
    if n == 0 {
        return Ok(FormattingFlags { mode: FormattingMode::Display, alternate: false });
    }
    if n == 1 && bytes[0] == HASH {
        assert(s =~= seq![HASH]);
        return Ok(FormattingFlags { mode: FormattingMode::Display, alternate: true });
    }
    assert(!(s =~= seq![HASH]));
    let end: usize = if bytes[n - 1] == QUESTION_MARK { n - 1 } else { n };
    assert(s.take(n as int) =~= s);
    assert(s.take((n - 1) as int) =~= s.drop_last());
    let mut flags = FormattingFlags { mode: FormattingMode::DebugRegular, alternate: false };
    let mut i: usize = 0;
    assert(s.take(0) =~= Seq::<u8>::empty());
    while i < end
        invariant
            end <= n == s.len(),
            bytes@ == s,
            s == input.spec_bytes(),
            0 <= i <= end,
            flags_of(s) == scan_flags(s.take(end as int)),
            scan_flags(s.take(i as int)) == Some(flags),
        decreases end - i,
    {
        let c = bytes[i];
        assert(s.take(i + 1).drop_last() =~= s.take(i as int));
        if c == LOWER_B && flags.mode == FormattingMode::DebugRegular {
            flags = FormattingFlags { mode: FormattingMode::DebugBinary, ..flags };
        } else if c == LOWER_X && flags.mode == FormattingMode::DebugRegular {
            flags = FormattingFlags { mode: FormattingMode::DebugHex, ..flags };
        } else if c == HASH {
            flags = FormattingFlags { alternate: true, ..flags };
        } else {
            assert(scan_flags(s.take(i + 1)) is None);
            assert(forall|j: int| i < j <= end ==> #[trigger] scan_flags(s.take(j)) is None) by {
                lemma_scan_fails_on(s, i + 1, end as int);
            }
            return Err(
                ParseError {
                    pos: starts_at,
                    kind: ParseErrorKind::UnknownFormatting { what: input.to_owned() },
                },
            );
        }
        i = i + 1;
    }
    Ok(flags)
}

/// Once the scan of a prefix fails, the scan of every longer prefix fails.
proof fn lemma_scan_fails_on(s: Seq<u8>, i: int, end: int)
    requires
        0 <= i <= end <= s.len(),
        scan_flags(s.take(i)) is None,
    ensures
        forall|j: int| i <= j <= end ==> #[trigger] scan_flags(s.take(j)) is None,
    decreases end - i,
{
    if i < end {
        assert(s.take(i + 1).drop_last() =~= s.take(i));
        lemma_scan_fails_on(s, i + 1, end);
    }
}

} // verus!
