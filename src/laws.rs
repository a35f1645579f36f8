//! Laws of the parser on templates without arguments: plain text, and
//! unmatched braces.

use vstd::prelude::*;

use crate::error::{ErrorKindModel, ErrorModel};
use crate::format_str::{
    first_index, lemma_first_index, merge_literals, parse_spec, tokens_from, ComponentModel,
};
use crate::mid_str::{lemma_unescape_plain, unescape};
use crate::text::{CLOSE_BRACE, OPEN_BRACE};

verus! {

/// Where `c` does not occur from `from` on, the search for it ends at the end.
proof fn lemma_first_index_absent(s: Seq<u8>, c: u8, from: int)
    requires
        0 <= from <= s.len(),
        forall|i: int| from <= i < s.len() ==> s[i] != c,
    ensures
        first_index(s, c, from) == s.len(),
{
    lemma_first_index(s, c, from);
}

/// Text whose first `}` at offset `p` is not doubled fails to unescape there.
proof fn lemma_unescape_lone_close(t: Seq<u8>, p: int)
    requires
        0 <= p < t.len(),
        t[p] == CLOSE_BRACE,
        p + 1 == t.len() || t[p + 1] != CLOSE_BRACE,
        forall|i: int| 0 <= i < p ==> t[i] != CLOSE_BRACE,
    ensures
        unescape(t) == Err::<Seq<u8>, int>(p),
    decreases p,
{
    if p > 0 {
        lemma_unescape_lone_close(t.drop_first(), p - 1);
    }
}

/// A template with no `{` and no `}` parses to a single literal equal to
/// the whole template (an empty template parses to no component at all).
pub proof fn lemma_plain_text_is_one_literal(s: Seq<u8>)
    requires
        s.len() > 0,
        forall|i: int| 0 <= i < s.len() ==> s[i] != OPEN_BRACE && s[i] != CLOSE_BRACE,
    ensures
        parse_spec(s) == Ok::<Seq<ComponentModel>, ErrorModel>(seq![ComponentModel::Str(s)]),
{
    lemma_first_index_absent(s, OPEN_BRACE, 0);
    assert(s.subrange(0, s.len() as int) =~= s);
    lemma_unescape_plain(s);
    let ts = seq![ComponentModel::Str(s)];
    assert(tokens_from(s, 0) == Ok::<Seq<ComponentModel>, ErrorModel>(ts));
    assert(ts.drop_last() =~= Seq::<ComponentModel>::empty());
    assert(merge_literals(ts.drop_last()) =~= Seq::<ComponentModel>::empty());
    assert(Seq::<ComponentModel>::empty().push(ComponentModel::Str(s)) =~= ts);
    assert(merge_literals(ts) =~= ts);
}

/// A `}` that is not doubled, with no brace before it, fails the parse with
/// `InvalidClosedArg` at its own offset.
pub proof fn lemma_lone_close_brace_fails(s: Seq<u8>, p: int)
    requires
        0 <= p < s.len(),
        s[p] == CLOSE_BRACE,
        p + 1 == s.len() || s[p + 1] != CLOSE_BRACE,
        forall|i: int| 0 <= i < p ==> s[i] != OPEN_BRACE && s[i] != CLOSE_BRACE,
    ensures
        parse_spec(s) == Err::<Seq<ComponentModel>, ErrorModel>(
            ErrorModel { pos: p, kind: ErrorKindModel::InvalidClosedArg },
        ),
{
    lemma_first_index(s, OPEN_BRACE, 0);
    let open = first_index(s, OPEN_BRACE, 0);
    assert(open > p);
    lemma_unescape_lone_close(s.subrange(0, open), p);
}

/// A `{` that is not doubled, with no brace before it and no `}` after it,
/// fails the parse with `UnclosedArg` at its own offset.
pub proof fn lemma_unclosed_open_brace_fails(s: Seq<u8>, p: int)
    requires
        0 <= p < s.len(),
        s[p] == OPEN_BRACE,
        p + 1 == s.len() || s[p + 1] != OPEN_BRACE,
        forall|i: int| 0 <= i < p ==> s[i] != OPEN_BRACE && s[i] != CLOSE_BRACE,
        forall|i: int| p < i < s.len() ==> s[i] != CLOSE_BRACE,
    ensures
        parse_spec(s) == Err::<Seq<ComponentModel>, ErrorModel>(
            ErrorModel { pos: p, kind: ErrorKindModel::UnclosedArg },
        ),
{
    lemma_first_index(s, OPEN_BRACE, 0);
    assert(first_index(s, OPEN_BRACE, 0) == p);
    lemma_unescape_plain(s.subrange(0, p));
    lemma_first_index_absent(s, CLOSE_BRACE, p + 1);
}

} // verus!
