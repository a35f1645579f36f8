//! Whole templates: literal runs and arguments.

use vstd::prelude::*;
use vstd::string::{StringExecFns, StringSliceAdditionalSpecFns};
use vstd::utf8::*;

use crate::error::{ErrorKindModel, ErrorModel, ParseError, ParseErrorKind};
use crate::flags::{flags_of, parse_formatting, FormattingFlags};
use crate::mid_str::{parse_mid_str, unescape};
use crate::selector::{parse_which_arg, selector_of, Selector, SelectorModel};
use crate::text::{
    lemma_ascii_boundaries, lemma_encode_utf8_concat, substring, CLOSE_BRACE, COLON, OPEN_BRACE,
};

verus! {

/// One argument placeholder: which value, and how to render it.
#[derive(Debug, PartialEq, Eq)]
pub struct FmtArg {
    pub which_arg: Selector,
    pub formatting: FormattingFlags,
}

/// A piece of a parsed template.
#[derive(Debug, PartialEq, Eq)]
pub enum FmtStrComponent {
    /// Literal text, with escapes resolved.
    Str(String),
    /// An argument placeholder.
    Arg(FmtArg),
}

/// A parsed template: its pieces in order.
#[derive(Debug, PartialEq, Eq)]
pub struct FormatStr {
    pub list: Vec<FmtStrComponent>,
}

impl FmtStrComponent {
    /// A literal component holding a copy of `s`.
    pub fn str(s: &str) -> (r: Self)
        ensures
            r@ == ComponentModel::Str(s.spec_bytes()),
    {
        FmtStrComponent::Str(s.to_owned())
    }

    /// An argument component.
    pub fn arg(which_arg: Selector, formatting: FormattingFlags) -> (r: Self)
        ensures
            r@ == ComponentModel::Arg(which_arg@, formatting),
    {
        FmtStrComponent::Arg(FmtArg::new(which_arg, formatting))
    }
}

impl FmtArg {
    pub fn new(which_arg: Selector, formatting: FormattingFlags) -> (r: Self)
        ensures
            r.which_arg@ == which_arg@,
            r.formatting == formatting,
    {
        FmtArg { which_arg, formatting }
    }
}

/// The abstract form of a component: literal text as its UTF-8 bytes.
pub enum ComponentModel {
    Str(Seq<u8>),
    Arg(SelectorModel, FormattingFlags),
}

impl View for FmtStrComponent {
    type V = ComponentModel;

    open spec fn view(&self) -> ComponentModel {
        match self {
            FmtStrComponent::Str(s) => ComponentModel::Str(encode_utf8(s@)),
            FmtStrComponent::Arg(a) => ComponentModel::Arg(a.which_arg@, a.formatting),
        }
    }
}

/// The abstract form of a list of components.
pub open spec fn components_view(list: Seq<FmtStrComponent>) -> Seq<ComponentModel> {
    list.map_values(|c: FmtStrComponent| c@)
}

impl View for FormatStr {
    type V = Seq<ComponentModel>;

    open spec fn view(&self) -> Seq<ComponentModel> {
        components_view(self.list@)
    }
}

/// The offset of the first `c` in `s` at or after `from`, or `s.len()`.
pub open spec fn first_index(s: Seq<u8>, c: u8, from: int) -> int
    decreases s.len() - from,
{
    if from < 0 || from >= s.len() {
        s.len() as int
    } else if s[from] == c {
        from
    } else {
        first_index(s, c, from + 1)
    }
}

/// The search for `c` stops at a `c`, or at the end, and passes no `c`.
pub proof fn lemma_first_index(s: Seq<u8>, c: u8, from: int)
    requires
        0 <= from <= s.len(),
    ensures
        from <= first_index(s, c, from) <= s.len(),
        first_index(s, c, from) < s.len() ==> s[first_index(s, c, from)] == c,
        forall|k: int| from <= k < first_index(s, c, from) ==> s[k] != c,
    decreases s.len() - from,
{
    if from < s.len() && s[from] != c {
        lemma_first_index(s, c, from + 1);
    }
}

/// The argument whose text between the braces is `s`, `at` being the offset
/// of `s` in the template: the selector is what precedes the first `:`, the
/// formatting what follows it.
pub open spec fn arg_of(s: Seq<u8>, at: int) -> Result<ComponentModel, ErrorModel> {
    let colon = first_index(s, COLON, 0);
    let formatting = if colon < s.len() {
        s.subrange(colon + 1, s.len() as int)
    } else {
        Seq::empty()
    };
    match selector_of(s.subrange(0, colon)) {
        Err(kind) => Err(ErrorModel { pos: at, kind }),
        Ok(m) => match flags_of(formatting) {
            Some(f) => Ok(ComponentModel::Arg(m, f)),
            None => Err(
                ErrorModel {
                    pos: at + colon + 1,
                    kind: ErrorKindModel::UnknownFormatting(formatting),
                },
            ),
        },
    }
}

/// The pieces of template `s` from offset `start` on, literal runs
/// unmerged and possibly empty, or the first error.
pub open spec fn tokens_from(s: Seq<u8>, start: int) -> Result<Seq<ComponentModel>, ErrorModel>
    decreases s.len() - start,
    when 0 <= start <= s.len()
    via tokens_from_decreases
{
    let open = first_index(s, OPEN_BRACE, start);
    match unescape(s.subrange(start, open)) {
        Err(p) => Err(ErrorModel { pos: start + p, kind: ErrorKindModel::InvalidClosedArg }),
        Ok(text) => {
            let lit = ComponentModel::Str(text);
            if open == s.len() {
                Ok(seq![lit])
            } else if open + 1 < s.len() && s[open + 1] == OPEN_BRACE {
                match tokens_from(s, open + 2) {
                    Ok(rest) => Ok(seq![lit, ComponentModel::Str(seq![OPEN_BRACE])] + rest),
                    Err(e) => Err(e),
                }
            } else {
                let close = first_index(s, CLOSE_BRACE, open + 1);
                if close == s.len() {
                    Err(ErrorModel { pos: open, kind: ErrorKindModel::UnclosedArg })
                } else {
                    match arg_of(s.subrange(open + 1, close), open + 1) {
                        Err(e) => Err(e),
                        Ok(a) => match tokens_from(s, close + 1) {
                            Ok(rest) => Ok(seq![lit, a] + rest),
                            Err(e) => Err(e),
                        },
                    }
                }
            }
        },
    }
}

#[via_fn]
proof fn tokens_from_decreases(s: Seq<u8>, start: int) {
    lemma_first_index(s, OPEN_BRACE, start);
    let open = first_index(s, OPEN_BRACE, start);
    if open < s.len() {
        lemma_first_index(s, CLOSE_BRACE, open + 1);
    }
}

/// `cs` with component `c` added at the end: an empty literal is dropped,
/// and a literal that follows a literal is joined to it.
pub open spec fn add_component(cs: Seq<ComponentModel>, c: ComponentModel) -> Seq<
    ComponentModel,
> {
    match c {
        ComponentModel::Str(t) => if t.len() == 0 {
            cs
        } else if cs.len() > 0 && cs.last() is Str {
            cs.drop_last().push(ComponentModel::Str(cs.last()->Str_0 + t))
        } else {
            cs.push(c)
        },
        ComponentModel::Arg(..) => cs.push(c),
    }
}

/// The pieces `ts` with empty literals dropped and adjacent literals joined.
pub open spec fn merge_literals(ts: Seq<ComponentModel>) -> Seq<ComponentModel>
    decreases ts.len(),
{
    if ts.len() == 0 {
        Seq::empty()
    } else {
        add_component(merge_literals(ts.drop_last()), ts.last())
    }
}

/// The components that template `s` parses to, or the first error.
pub open spec fn parse_spec(s: Seq<u8>) -> Result<Seq<ComponentModel>, ErrorModel> {
    match tokens_from(s, 0) {
        Ok(ts) => Ok(merge_literals(ts)),
        Err(e) => Err(e),
    }
}


/// The offset of the first `c` in `bytes` at or after `from`, or the length.
fn find_from(bytes: &[u8], c: u8, from: usize) -> (r: usize)
    requires
        from <= bytes@.len(),
    ensures
        r == first_index(bytes@, c, from as int),
{
    let mut i = from;
    while i < bytes.len()
        invariant
            from <= i <= bytes@.len(),
            first_index(bytes@, c, from as int) == first_index(bytes@, c, i as int),
        decreases bytes@.len() - i,
    {
        if bytes[i] == c {
            return i;
        }
        i = i + 1;
    }
    i
}

/// Adds literal text to the end of `list`, joined to a literal already
/// there; empty text adds nothing.
fn push_literal(list: &mut Vec<FmtStrComponent>, text: String)
    ensures
        components_view(final(list)@) == add_component(
            components_view(old(list)@),
            ComponentModel::Str(encode_utf8(text@)),
        ),
{
    let ghost before = components_view(list@);
    if text.as_str().is_empty() {
        assert(encode_utf8(text@) =~= Seq::<u8>::empty());
        return;
    }
    assert(encode_utf8(text@).len() > 0);
    match list.pop() {
        Some(FmtStrComponent::Str(mut last)) => {
            let ghost last_view = last@;
            last.append(text.as_str());
            proof {
                lemma_encode_utf8_concat(last_view, text@);
            }
            list.push(FmtStrComponent::Str(last));
        },
        Some(other) => {
            list.push(other);
            list.push(FmtStrComponent::Str(text));
        },
        None => {
            list.push(FmtStrComponent::Str(text));
        },
    }
    assert(components_view(list@) =~= add_component(
        before,
        ComponentModel::Str(encode_utf8(text@)),
    ));
}

/// Parses the text between the braces of an argument (`:?`, `foo:`, `0`).
///
/// `starts_at` is the offset of `input` in the template.
fn parse_fmt_arg(input: &str, starts_at: usize) -> (r: Result<FmtArg, ParseError>)
    requires
        starts_at + input.spec_bytes().len() <= usize::MAX,
    ensures
        match arg_of(input.spec_bytes(), starts_at as int) {
            Ok(a) => r is Ok && a == ComponentModel::Arg(r->Ok_0.which_arg@, r->Ok_0.formatting),
            Err(e) => r is Err && r->Err_0@ == e,
        },
{
    let bytes = input.as_bytes();
    let ghost s = input.spec_bytes();
    let n = bytes.len();
    let colon = find_from(bytes, COLON, 0);
    proof {
        lemma_first_index(s, COLON, 0);
        encode_utf8_valid_utf8(input@);
        is_char_boundary_start_end_of_seq(s);
        if colon < n {
            lemma_ascii_boundaries(s, colon as int);
        }
    }
    let which_arg = match parse_which_arg(substring(input, 0, colon), starts_at) {
        Ok(w) => w,
        Err(e) => {
            return Err(e);
        },
    };
    let formatting = if colon < n {
        parse_formatting(substring(input, colon + 1, n), starts_at + colon + 1)
    } else {
        let r = parse_formatting(substring(input, n, n), starts_at + n);
        assert(s.subrange(n as int, n as int) =~= Seq::<u8>::empty());
        r
    };
    match formatting {
        Ok(f) => Ok(FmtArg { which_arg, formatting: f }),
        Err(e) => Err(e),
    }
}


/// The result of `tokens_from` at an earlier offset, given the pieces read
/// from there up to `start` and the result from `start` on.
pub open spec fn with_prefix(
    prefix: Seq<ComponentModel>,
    rest: Result<Seq<ComponentModel>, ErrorModel>,
) -> Result<Seq<ComponentModel>, ErrorModel> {
    match rest {
        Ok(ts) => Ok(prefix + ts),
        Err(e) => Err(e),
    }
}

/// Parses a template into its literal runs and argument placeholders.
pub fn parse_format_str(input: &str) -> (r: Result<FormatStr, ParseError>)
    ensures
        match parse_spec(input.spec_bytes()) {
            Ok(cs) => r is Ok && r->Ok_0@ == cs,
            Err(e) => r is Err && r->Err_0@ == e,
        },
{
    let bytes = input.as_bytes();
    let ghost s = input.spec_bytes();
    let n = bytes.len();
    let mut list: Vec<FmtStrComponent> = Vec::new();
    let mut start: usize = 0;
    let ghost prefix: Seq<ComponentModel> = Seq::empty();
    proof {
        encode_utf8_valid_utf8(input@);
        is_char_boundary_start_end_of_seq(s);
        assert(components_view(list@) =~= merge_literals(prefix));
        assert(with_prefix(prefix, tokens_from(s, 0)) =~~= tokens_from(s, 0)) by {
            match tokens_from(s, 0) {
                Ok(ts) => {
                    assert(prefix + ts =~= ts);
                },
                Err(e) => {},
            }
        }
    }
    loop
        invariant
            bytes@ == s,
            s == input.spec_bytes(),
            valid_utf8(s),
            n == s.len(),
            start <= n,
            is_char_boundary(s, start as int),
            is_char_boundary(s, n as int),
            tokens_from(s, 0) == with_prefix(prefix, tokens_from(s, start as int)),
            components_view(list@) == merge_literals(prefix),
        decreases n - start,
    {
        let open = find_from(bytes, OPEN_BRACE, start);
        proof {
            lemma_first_index(s, OPEN_BRACE, start as int);
            if open < n {
                lemma_ascii_boundaries(s, open as int);
            }
        }
        let text = match parse_mid_str(substring(input, start, open), start) {
            Ok(t) => t,
            Err(e) => {
                return Err(e);
            },
        };
        let ghost lit = ComponentModel::Str(encode_utf8(text@));
        push_literal(&mut list, text);
        proof {
            assert(prefix.push(lit).drop_last() =~= prefix);
            assert(components_view(list@) == merge_literals(prefix.push(lit)));
        }
        if open == n {
            proof {
                assert(prefix + seq![lit] =~= prefix.push(lit));
            }
            return Ok(FormatStr { list });
        }
        if open + 1 < n && bytes[open + 1] == OPEN_BRACE {
            proof {
                lemma_ascii_boundaries(s, open + 1);
            }
            let brace = substring(input, open, open + 1);
            let ghost brace_lit = ComponentModel::Str(seq![OPEN_BRACE]);
            proof {
                assert(brace.spec_bytes() =~= seq![OPEN_BRACE]);
            }
            push_literal(&mut list, brace.to_owned());
            proof {
                let p2 = prefix.push(lit).push(brace_lit);
                assert(p2.drop_last() =~= prefix.push(lit));
                match tokens_from(s, open + 2) {
                    Ok(rest) => {
                        assert(prefix + (seq![lit, brace_lit] + rest) =~= p2 + rest);
                    },
                    Err(e) => {},
                }
                prefix = p2;
            }
            start = open + 2;
        } else {
            let close = find_from(bytes, CLOSE_BRACE, open + 1);
            proof {
                lemma_first_index(s, CLOSE_BRACE, open + 1);
            }
            if close == n {
                return Err(ParseError { pos: open, kind: ParseErrorKind::UnclosedArg });
            }
            proof {
                lemma_ascii_boundaries(s, close as int);
            }
            let arg = match parse_fmt_arg(substring(input, open + 1, close), open + 1) {
                Ok(a) => a,
                Err(e) => {
                    return Err(e);
                },
            };
            let ghost a = ComponentModel::Arg(arg.which_arg@, arg.formatting);
            let ghost before_arg = list@;
            list.push(FmtStrComponent::Arg(arg));
            assert(components_view(list@) =~= components_view(before_arg).push(a));
            proof {
                let p2 = prefix.push(lit).push(a);
                assert(p2.drop_last() =~= prefix.push(lit));
                assert(components_view(list@) =~= merge_literals(p2));
                match tokens_from(s, close + 1) {
                    Ok(rest) => {
                        assert(prefix + (seq![lit, a] + rest) =~= p2 + rest);
                    },
                    Err(e) => {},
                }
                prefix = p2;
            }
            start = close + 1;
        }
    }
}


impl std::str::FromStr for FormatStr {
    type Err = ParseError;

    fn from_str(input: &str) -> Result<FormatStr, ParseError> {
        parse_format_str(input)
    }
}

} // verus!
