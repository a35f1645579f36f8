//! The selector of an argument: which value it refers to.

use vstd::prelude::*;
use vstd::string::StringSliceAdditionalSpecFns;
use vstd::utf8::*;

use crate::error::{ErrorKindModel, ErrorModel, ParseError, ParseErrorKind};
use crate::text::{DIGIT_NINE, DIGIT_ZERO};

verus! {

/// Which value an argument refers to.
#[derive(Debug, PartialEq, Eq)]
pub enum Selector {
    /// `{}`: the next value in order.
    ImplicitPositional,
    /// `{3}`: the value at that index.
    ExplicitPositional(usize),
    /// `{name}`: the value of that name.
    Named(String),
}

/// The abstract form of a selector: a name as its UTF-8 bytes.
pub enum SelectorModel {
    ImplicitPositional,
    ExplicitPositional(int),
    Named(Seq<u8>),
}

impl View for Selector {
    type V = SelectorModel;

    open spec fn view(&self) -> SelectorModel {
        match self {
            Selector::ImplicitPositional => SelectorModel::ImplicitPositional,
            Selector::ExplicitPositional(n) => SelectorModel::ExplicitPositional(*n as int),
            Selector::Named(s) => SelectorModel::Named(encode_utf8(s@)),
        }
    }
}

/// Whether syn reads the text `s` as exactly one identifier.
pub uninterp spec fn syn_accepts_ident(s: Seq<char>) -> bool;

/// Relies on `syn::parse_str::<syn::Ident>`: it succeeds or fails, and which
/// depends on the text alone.
#[verifier::external_body]
fn is_identifier(s: &str) -> (r: bool)
    ensures
        r == syn_accepts_ident(s@),
{
    syn::parse_str::<syn::Ident>(s).is_ok()
}

pub open spec fn is_digit(c: u8) -> bool {
    DIGIT_ZERO <= c <= DIGIT_NINE
}

pub open spec fn all_digits(s: Seq<u8>) -> bool {
    forall|i: int| 0 <= i < s.len() ==> is_digit(#[trigger] s[i])
}

/// The number that the decimal digits `s` spell.
pub open spec fn decimal_value(s: Seq<u8>) -> nat
    decreases s.len(),
{
    if s.len() == 0 {
        0
    } else {
        decimal_value(s.drop_last()) * 10 + (s.last() - DIGIT_ZERO) as nat
    }
}

/// What selector text `s` denotes, or the kind of error it raises: empty is
/// implicit; text starting with a digit must be a `usize` in decimal (leading
/// zeros allowed); anything else must be an identifier.
pub open spec fn selector_of(s: Seq<u8>) -> Result<SelectorModel, ErrorKindModel> {
    if s.len() == 0 {
        Ok(SelectorModel::ImplicitPositional)
    } else if is_digit(s[0]) {
        if all_digits(s) && decimal_value(s) <= usize::MAX {
            Ok(SelectorModel::ExplicitPositional(decimal_value(s) as int))
        } else {
            Err(ErrorKindModel::NotANumber(s))
        }
    } else if syn_accepts_ident(decode_utf8(s)) {
        Ok(SelectorModel::Named(s))
    } else {
        Err(ErrorKindModel::NotAnIdent(s))
    }
}

proof fn lemma_decimal_value_grows(s: Seq<u8>, i: int, j: int)
    requires
        0 <= i <= j <= s.len(),
        all_digits(s),
    ensures
        decimal_value(s.take(i)) <= decimal_value(s.take(j)),
    decreases j - i,
{
    if i < j {
        lemma_decimal_value_grows(s, i, j - 1);
        assert(s.take(j).drop_last() =~= s.take(j - 1));
    }
}

/// Reads `s` as a decimal number: `Some` exactly when `s` is a non-empty
/// run of digits whose value fits in a `usize`.
pub fn parse_index(s: &[u8]) -> (r: Option<usize>)
    ensures
        r == (if s@.len() > 0 && all_digits(s@) && decimal_value(s@) <= usize::MAX {
            Some(decimal_value(s@) as usize)
        } else {
            None
        }),
{
    let n = s.len();
    if n == 0 {
        return None;
    }
    let mut value: usize = 0;
    let mut i: usize = 0;
    assert(s@.take(0) =~= Seq::<u8>::empty());
    while i < n
        invariant
            n == s@.len(),
            i <= n,
            forall|k: int| 0 <= k < i ==> is_digit(#[trigger] s@[k]),
            value as nat == decimal_value(s@.take(i as int)),
        decreases n - i,
    {
        let c = s[i];
        if c < DIGIT_ZERO || c > DIGIT_NINE {
            assert(!is_digit(s@[i as int]));
            return None;
        }
        assert(s@.take(i + 1).drop_last() =~= s@.take(i as int));
        let digit = (c - DIGIT_ZERO) as usize;
        match value.checked_mul(10) {
            Some(scaled) => match scaled.checked_add(digit) {
                Some(next) => {
                    value = next;
                },
                None => {
                    proof {
                        if all_digits(s@) {
                            lemma_decimal_value_grows(s@, i + 1, n as int);
                            assert(s@.take(n as int) =~= s@);
                        }
                    }
                    return None;
                },
            },
            None => {
                proof {
                    if all_digits(s@) {
                        lemma_decimal_value_grows(s@, i + 1, n as int);
                        assert(s@.take(n as int) =~= s@);
                    }
                }
                return None;
            },
        }
        i = i + 1;
    }
    assert(s@.take(n as int) =~= s@);
    Some(value)
}

/// Parses the selector of an argument, the text before its first `:`.
///
/// `starts_at` is the offset of `input` in the template.
pub fn parse_which_arg(input: &str, starts_at: usize) -> (r: Result<Selector, ParseError>)
    ensures
        match selector_of(input.spec_bytes()) {
            Ok(m) => r is Ok && r->Ok_0@ == m,
            Err(k) => r is Err && r->Err_0@ == (ErrorModel { pos: starts_at as int, kind: k }),
        },
{
    let bytes = input.as_bytes();
    if bytes.len() == 0 {
        Ok(Selector::ImplicitPositional)
    } else if DIGIT_ZERO <= bytes[0] && bytes[0] <= DIGIT_NINE {
        match parse_index(bytes) {
            Some(number) => Ok(Selector::ExplicitPositional(number)),
            None => Err(
                ParseError {
                    pos: starts_at,
                    kind: ParseErrorKind::NotANumber { what: input.to_owned() },
                },
            ),
        }
    } else {
        proof {
            encode_utf8_decode_utf8(input@);
        }
        parse_ident(input, starts_at)
    }
}

/// Parses a selector that starts with neither a digit nor nothing: it must
/// be an identifier.
///
/// `starts_at` is the offset of `ident_str` in the template.
pub fn parse_ident(ident_str: &str, starts_at: usize) -> (r: Result<Selector, ParseError>)
    ensures
        syn_accepts_ident(ident_str@) ==> r is Ok && r->Ok_0@ == SelectorModel::Named(
            ident_str.spec_bytes(),
        ),
        !syn_accepts_ident(ident_str@) ==> r is Err && r->Err_0@ == (ErrorModel {
            pos: starts_at as int,
            kind: ErrorKindModel::NotAnIdent(ident_str.spec_bytes()),
        }),
{
    if is_identifier(ident_str) {
        Ok(Selector::Named(ident_str.to_owned()))
    } else {
        Err(
            ParseError {
                pos: starts_at,
                kind: ParseErrorKind::NotAnIdent { what: ident_str.to_owned() },
            },
        )
    }
}

} // verus!
