//! Template text written back from components, and the proof that a
//! parsed template, written back, parses to the same components.

use vstd::prelude::*;
use vstd::utf8::decode_utf8;

use crate::error::{ErrorKindModel, ErrorModel};
use crate::flags::{flags_of, scan_flags, FormattingFlags, FormattingMode};
use crate::format_str::{
    add_component, arg_of, first_index, lemma_first_index, merge_literals, parse_spec,
    tokens_from, with_prefix, ComponentModel,
};
use crate::mid_str::unescape;
use crate::selector::{
    all_digits, decimal_value, is_digit, selector_of, syn_accepts_ident, SelectorModel,
};
use crate::text::{
    CLOSE_BRACE, COLON, DIGIT_ZERO, HASH, LOWER_B, LOWER_X, OPEN_BRACE, QUESTION_MARK,
};

verus! {

/// The shortest decimal spelling of `n`.
pub open spec fn decimal_digits(n: nat) -> Seq<u8>
    decreases n,
{
    if n < 10 {
        seq![(DIGIT_ZERO + n) as u8]
    } else {
        decimal_digits(n / 10).push((DIGIT_ZERO + n % 10) as u8)
    }
}

proof fn lemma_decimal_digits(n: nat)
    ensures
        decimal_digits(n).len() > 0,
        all_digits(decimal_digits(n)),
        decimal_value(decimal_digits(n)) == n,
    decreases n,
{
    let d = decimal_digits(n);
    let e = Seq::<u8>::empty();
    assert(decimal_value(e) == 0);
    if n < 10 {
        assert(d.drop_last() =~= e);
        assert(d.last() == DIGIT_ZERO + n);
    } else {
        lemma_decimal_digits(n / 10);
        assert(d.drop_last() =~= decimal_digits(n / 10));
        assert(d.last() == DIGIT_ZERO + n % 10);
        assert(n == (n / 10) * 10 + n % 10) by (nonlinear_arith);
    }
}

/// The selector as template text: nothing, a number, or the name itself.
pub open spec fn selector_text(sel: SelectorModel) -> Seq<u8> {
    match sel {
        SelectorModel::ImplicitPositional => Seq::empty(),
        SelectorModel::ExplicitPositional(n) => decimal_digits(n as nat),
        SelectorModel::Named(x) => x,
    }
}

/// The flags as template text, with the `:` that introduces them.
pub open spec fn flags_text(f: FormattingFlags) -> Seq<u8> {
    let alt = if f.alternate {
        seq![HASH]
    } else {
        Seq::empty()
    };
    match f.mode {
        FormattingMode::Display => if f.alternate {
            seq![COLON, HASH]
        } else {
            Seq::empty()
        },
        FormattingMode::DebugRegular => seq![COLON] + alt + seq![QUESTION_MARK],
        FormattingMode::DebugBinary => seq![COLON] + alt + seq![LOWER_B, QUESTION_MARK],
        FormattingMode::DebugHex => seq![COLON] + alt + seq![LOWER_X, QUESTION_MARK],
    }
}

/// An argument written back as template text, braces included.
pub open spec fn arg_text(sel: SelectorModel, f: FormattingFlags) -> Seq<u8> {
    seq![OPEN_BRACE] + selector_text(sel) + flags_text(f) + seq![CLOSE_BRACE]
}

/// A selector that some argument of a parsed template can hold: an index
/// that fits in a `usize`, or a name that does not start with a digit or a
/// `{`, holds no `:` or `}`, and that syn accepts as an identifier.
pub open spec fn valid_selector(sel: SelectorModel) -> bool {
    match sel {
        SelectorModel::ImplicitPositional => true,
        SelectorModel::ExplicitPositional(n) => 0 <= n <= usize::MAX,
        SelectorModel::Named(x) => {
            &&& x.len() > 0
            &&& !is_digit(x[0])
            &&& x[0] != OPEN_BRACE
            &&& forall|i: int| 0 <= i < x.len() ==> x[i] != COLON && x[i] != CLOSE_BRACE
            &&& syn_accepts_ident(decode_utf8(x))
        },
    }
}

proof fn lemma_flags_text_parses(f: FormattingFlags)
    ensures
        flags_text(f).len() == 0 || flags_text(f)[0] == COLON,
        forall|i: int| 0 <= i < flags_text(f).len() ==> flags_text(f)[i] != CLOSE_BRACE,
        flags_of(
            if flags_text(f).len() == 0 {
                Seq::empty()
            } else {
                flags_text(f).drop_first()
            },
        ) == Some(f),
{
    let t = flags_text(f);
    let e = Seq::<u8>::empty();
    let regular = FormattingFlags { mode: FormattingMode::DebugRegular, alternate: false };
    assert(scan_flags(e) == Some(regular));
    assert(seq![HASH].drop_last() =~= e);
    if f.mode != FormattingMode::Display {
        let base = match f.mode {
            FormattingMode::DebugBinary => seq![LOWER_B],
            FormattingMode::DebugHex => seq![LOWER_X],
            _ => e,
        };
        let alt = if f.alternate {
            seq![HASH]
        } else {
            e
        };
        let core = alt + base;
        assert(t =~= seq![COLON] + core + seq![QUESTION_MARK]);
        let body = t.drop_first();
        assert(body =~= core.push(QUESTION_MARK));
        assert(body.drop_last() =~= core);
        assert(body.last() == QUESTION_MARK);
        assert(!(body =~= seq![HASH])) by {
            if body =~= seq![HASH] {
                assert(body[0] == HASH);
            }
        }
        let after_alt = if f.alternate {
            FormattingFlags { mode: FormattingMode::DebugRegular, alternate: true }
        } else {
            regular
        };
        assert(scan_flags(alt) == Some(after_alt));
        if base.len() == 1 {
            assert(core.drop_last() =~= alt);
        } else {
            assert(core =~= alt);
        }
        assert(scan_flags(core) == Some(f));
    } else if f.alternate {
        assert(t.drop_first() =~= seq![HASH]);
    }
}

/// Literal text written back as template text: each brace doubled.
pub open spec fn escape(t: Seq<u8>) -> Seq<u8>
    decreases t.len(),
{
    if t.len() == 0 {
        Seq::empty()
    } else {
        let head = if t[0] == OPEN_BRACE || t[0] == CLOSE_BRACE {
            seq![t[0], t[0]]
        } else {
            seq![t[0]]
        };
        head + escape(t.drop_first())
    }
}

pub proof fn lemma_escape_concat(a: Seq<u8>, b: Seq<u8>)
    ensures
        escape(a + b) == escape(a) + escape(b),
    decreases a.len(),
{
    if a.len() == 0 {
        assert(a + b =~= b);
        assert(escape(a) + escape(b) =~= escape(b));
    } else {
        assert((a + b).drop_first() =~= a.drop_first() + b);
        lemma_escape_concat(a.drop_first(), b);
        assert(escape(a + b) =~= escape(a) + escape(b));
    }
}

/// Text with no `{` escapes to text with no `{`, which unescapes back.
proof fn lemma_escape_no_open(w: Seq<u8>)
    requires
        forall|i: int| 0 <= i < w.len() ==> w[i] != OPEN_BRACE,
    ensures
        forall|i: int| 0 <= i < escape(w).len() ==> escape(w)[i] != OPEN_BRACE,
        unescape(escape(w)) == Ok::<Seq<u8>, int>(w),
    decreases w.len(),
{
    if w.len() == 0 {
        assert(w =~= Seq::<u8>::empty());
    } else {
        let rest = w.drop_first();
        lemma_escape_no_open(rest);
        let e = escape(w);
        if w[0] == CLOSE_BRACE {
            assert(e.subrange(2, e.len() as int) =~= escape(rest));
        } else {
            assert(e.drop_first() =~= escape(rest));
        }
        assert(seq![w[0]] + rest =~= w);
    }
}

/// The texts of a list of literals, joined.
pub open spec fn joined_text(ts: Seq<ComponentModel>) -> Seq<u8>
    decreases ts.len(),
{
    if ts.len() == 0 {
        Seq::empty()
    } else {
        joined_text(ts.drop_last()) + match ts.last() {
            ComponentModel::Str(t) => t,
            ComponentModel::Arg(..) => Seq::empty(),
        }
    }
}

pub open spec fn all_literals(ts: Seq<ComponentModel>) -> bool {
    forall|i: int| 0 <= i < ts.len() ==> #[trigger] ts[i] is Str
}

proof fn lemma_joined_text_concat(a: Seq<ComponentModel>, b: Seq<ComponentModel>)
    ensures
        joined_text(a + b) == joined_text(a) + joined_text(b),
    decreases b.len(),
{
    if b.len() == 0 {
        assert(a + b =~= a);
        assert(joined_text(a) + joined_text(b) =~= joined_text(a));
    } else {
        assert((a + b).drop_last() =~= a + b.drop_last());
        lemma_joined_text_concat(a, b.drop_last());
        assert(joined_text(a + b) =~= joined_text(a) + joined_text(b));
    }
}

proof fn lemma_joined_text_short(a: Seq<u8>, b: Seq<u8>)
    ensures
        joined_text(seq![ComponentModel::Str(a)]) == a,
        joined_text(seq![ComponentModel::Str(a), ComponentModel::Str(b)]) == a + b,
{
    let one = seq![ComponentModel::Str(a)];
    let two = seq![ComponentModel::Str(a), ComponentModel::Str(b)];
    assert(one.drop_last() =~= Seq::<ComponentModel>::empty());
    assert(two.drop_last() =~= one);
    assert(joined_text(Seq::<ComponentModel>::empty()) =~= Seq::<u8>::empty());
    assert(joined_text(one) =~= a);
}

/// The pieces read at offset `k` of `s`, where an argument's template text
/// stands: an empty literal, the argument, and what follows it.
/// The text between the braces of an argument's template text: it holds no
/// `}`, does not start with `{`, and reads back as that argument.
proof fn lemma_arg_body(sel: SelectorModel, f: FormattingFlags, at: int)
    requires
        valid_selector(sel),
    ensures
        forall|i: int|
            0 <= i < (selector_text(sel) + flags_text(f)).len() ==> (selector_text(sel)
                + flags_text(f))[i] != CLOSE_BRACE,
        (selector_text(sel) + flags_text(f)).len() > 0 ==> (selector_text(sel) + flags_text(
            f,
        ))[0] != OPEN_BRACE,
        arg_of(selector_text(sel) + flags_text(f), at) == Ok::<ComponentModel, ErrorModel>(
            ComponentModel::Arg(sel, f),
        ),
{
    let st = selector_text(sel);
    let ft = flags_text(f);
    lemma_flags_text_parses(f);
    if let SelectorModel::ExplicitPositional(v) = sel {
        lemma_decimal_digits(v as nat);
    }
    assert(forall|i: int| 0 <= i < st.len() ==> st[i] != COLON && st[i] != CLOSE_BRACE);
    let body = st + ft;
    assert(forall|i: int| 0 <= i < st.len() ==> body[i] == st[i]);
    assert(forall|i: int| st.len() <= i < body.len() ==> body[i] == ft[i - st.len()]);
    lemma_first_index(body, COLON, 0);
    let colon = first_index(body, COLON, 0);
    if ft.len() > 0 {
        assert(body[st.len() as int] == COLON);
    }
    assert(colon == st.len());
    assert(body.subrange(0, colon) =~= st);
    if ft.len() > 0 {
        assert(body.subrange(colon + 1, body.len() as int) =~= ft.drop_first());
    }
    if let SelectorModel::Named(x) = sel {
        assert(st[0] == x[0]);
    }
    assert(selector_of(st) == Ok::<SelectorModel, ErrorKindModel>(sel));
}

/// The pieces read at offset `k` of `s`, where an argument's template text
/// stands: an empty literal, the argument, and what follows it.
proof fn lemma_tokens_of_arg(s: Seq<u8>, k: int, sel: SelectorModel, f: FormattingFlags)
    requires
        valid_selector(sel),
        0 <= k,
        k + arg_text(sel, f).len() <= s.len(),
        s.subrange(k, k + arg_text(sel, f).len()) == arg_text(sel, f),
    ensures
        tokens_from(s, k) == with_prefix(
            seq![ComponentModel::Str(Seq::empty()), ComponentModel::Arg(sel, f)],
            tokens_from(s, k + arg_text(sel, f).len()),
        ),
{
    let t = arg_text(sel, f);
    let body = selector_text(sel) + flags_text(f);
    let end = k + t.len();
    lemma_arg_body(sel, f, k + 1);
    assert(t =~= seq![OPEN_BRACE] + body + seq![CLOSE_BRACE]);
    assert(forall|i: int| k <= i < end ==> s[i] == t[i - k]);
    assert(forall|i: int| k + 1 <= i < end - 1 ==> s[i] == body[i - k - 1]);
    assert(s[end - 1] == CLOSE_BRACE);
    lemma_first_index(s, OPEN_BRACE, k);
    assert(first_index(s, OPEN_BRACE, k) == k);
    assert(s.subrange(k, k) =~= Seq::<u8>::empty());
    assert(unescape(Seq::<u8>::empty()) == Ok::<Seq<u8>, int>(Seq::empty()));
    assert(s[k + 1] != OPEN_BRACE);
    lemma_first_index(s, CLOSE_BRACE, k + 1);
    assert(first_index(s, CLOSE_BRACE, k + 1) == end - 1);
    assert(s.subrange(k + 1, end - 1) =~= body);
}

/// `acc` with the pieces `ts` added one by one, as parsing adds them.
pub open spec fn merge_onto(acc: Seq<ComponentModel>, ts: Seq<ComponentModel>) -> Seq<
    ComponentModel,
>
    decreases ts.len(),
{
    if ts.len() == 0 {
        acc
    } else {
        add_component(merge_onto(acc, ts.drop_last()), ts.last())
    }
}

proof fn lemma_merge_onto_empty(ts: Seq<ComponentModel>)
    ensures
        merge_literals(ts) == merge_onto(Seq::empty(), ts),
    decreases ts.len(),
{
    if ts.len() > 0 {
        lemma_merge_onto_empty(ts.drop_last());
    }
}

proof fn lemma_merge_onto_concat(
    acc: Seq<ComponentModel>,
    a: Seq<ComponentModel>,
    b: Seq<ComponentModel>,
)
    ensures
        merge_onto(acc, a + b) == merge_onto(merge_onto(acc, a), b),
    decreases b.len(),
{
    if b.len() == 0 {
        assert(a + b =~= a);
    } else {
        assert((a + b).drop_last() =~= a + b.drop_last());
        lemma_merge_onto_concat(acc, a, b.drop_last());
    }
}

/// Adding literals after an argument (or onto nothing) adds one literal,
/// their joined text, or nothing when that is empty.
proof fn lemma_merge_onto_literals(acc: Seq<ComponentModel>, ls: Seq<ComponentModel>)
    requires
        acc.len() == 0 || acc.last() is Arg,
        all_literals(ls),
    ensures
        merge_onto(acc, ls) == (if joined_text(ls).len() == 0 {
            acc
        } else {
            acc.push(ComponentModel::Str(joined_text(ls)))
        }),
    decreases ls.len(),
{
    if ls.len() > 0 {
        let init = ls.drop_last();
        assert(all_literals(init)) by {
            assert(forall|i: int| 0 <= i < init.len() ==> init[i] == ls[i]);
        }
        lemma_merge_onto_literals(acc, init);
        assert(ls[ls.len() - 1] is Str);
        if joined_text(init).len() == 0 {
            assert(joined_text(ls) =~= ls.last()->Str_0);
        }
        assert(merge_onto(acc, ls) =~= (if joined_text(ls).len() == 0 {
            acc
        } else {
            acc.push(ComponentModel::Str(joined_text(ls)))
        }));
    }
}


/// Offset `j` of `s` is the end, or a `{` that opens an argument.
pub open spec fn at_end_or_argument(s: Seq<u8>, j: int) -> bool {
    j == s.len() || (0 <= j < s.len() && s[j] == OPEN_BRACE && (j + 1 == s.len() || s[j + 1]
        != OPEN_BRACE))
}

/// The pieces `ls` followed by those of `r` after its first, which is the
/// empty literal before an argument.
pub open spec fn with_tail(
    ls: Seq<ComponentModel>,
    r: Result<Seq<ComponentModel>, ErrorModel>,
) -> Result<Seq<ComponentModel>, ErrorModel> {
    match r {
        Ok(ts) => Ok(ls + ts.drop_first()),
        Err(e) => Err(e),
    }
}

/// The pieces read at offset `k` of `s`, where text with no `{` that
/// unescapes to `w` runs up to the end or an argument.
proof fn lemma_tokens_of_plain_before(s: Seq<u8>, k: int, end: int, w: Seq<u8>)
    requires
        0 <= k <= end <= s.len(),
        forall|j: int| k <= j < end ==> s[j] != OPEN_BRACE,
        unescape(s.subrange(k, end)) == Ok::<Seq<u8>, int>(w),
        at_end_or_argument(s, end),
    ensures
        tokens_from(s, k) == with_tail(seq![ComponentModel::Str(w)], tokens_from(s, end)),
{
    let lit = ComponentModel::Str(w);
    let empty = ComponentModel::Str(Seq::empty());
    lemma_first_index(s, OPEN_BRACE, k);
    lemma_first_index(s, OPEN_BRACE, end);
    assert(first_index(s, OPEN_BRACE, k) == end);
    assert(first_index(s, OPEN_BRACE, end) == end);
    assert(s.subrange(end, end) =~= Seq::<u8>::empty());
    assert(unescape(Seq::<u8>::empty()) == Ok::<Seq<u8>, int>(Seq::empty()));
    if end == s.len() {
        assert(seq![empty].drop_first() =~= Seq::<ComponentModel>::empty());
        assert(seq![lit] + Seq::<ComponentModel>::empty() =~= seq![lit]);
    } else {
        lemma_first_index(s, CLOSE_BRACE, end + 1);
        let close = first_index(s, CLOSE_BRACE, end + 1);
        if close < s.len() {
            match arg_of(s.subrange(end + 1, close), end + 1) {
                Ok(a) => match tokens_from(s, close + 1) {
                    Ok(rest) => {
                        assert((seq![empty, a] + rest).drop_first() =~= seq![a] + rest);
                        assert(seq![lit] + (seq![a] + rest) =~= seq![lit, a] + rest);
                    },
                    Err(_) => {},
                },
                Err(_) => {},
            }
        }
    }
}

/// The pieces read at offset `k` of `s`, where escaped text `w` stands and
/// is followed by the end or by an argument: literals joining to `w`, then
/// what is read from the end of `w` on.
proof fn lemma_tokens_of_escaped_before(s: Seq<u8>, k: int, w: Seq<u8>) -> (ls: Seq<
    ComponentModel,
>)
    requires
        0 <= k,
        k + escape(w).len() <= s.len(),
        s.subrange(k, k + escape(w).len()) == escape(w),
        at_end_or_argument(s, k + escape(w).len()),
    ensures
        all_literals(ls),
        joined_text(ls) == w,
        tokens_from(s, k) == with_tail(ls, tokens_from(s, k + escape(w).len())),
    decreases w.len(),
{
    let end = k + escape(w).len();
    lemma_first_index(w, OPEN_BRACE, 0);
    let i = first_index(w, OPEN_BRACE, 0);
    let w1 = w.subrange(0, i);
    let w2 = w.subrange(i, w.len() as int);
    assert(w =~= w1 + w2);
    lemma_escape_concat(w1, w2);
    lemma_escape_no_open(w1);
    let e1 = escape(w1);
    let e2 = escape(w2);
    let sub = s.subrange(k, end);
    assert(sub == e1 + e2);
    let m = k + e1.len();
    assert(forall|j: int| k <= j < end ==> s[j] == sub[j - k]);
    assert(forall|j: int| k <= j < m ==> s[j] == e1[j - k]);
    assert(forall|j: int| m <= j < end ==> s[j] == e2[j - m]);
    lemma_first_index(s, OPEN_BRACE, k);
    let open = first_index(s, OPEN_BRACE, k);
    let lit = ComponentModel::Str(w1);
    if i == w.len() {
        assert(w2 =~= Seq::<u8>::empty());
        assert(s.subrange(k, end) =~= e1);
        lemma_tokens_of_plain_before(s, k, end, w1);
        lemma_joined_text_short(w1, w1);
        seq![lit]
    } else {
        let w3 = w2.drop_first();
        assert(e2 =~= seq![OPEN_BRACE, OPEN_BRACE] + escape(w3));
        assert(s[m] == OPEN_BRACE && s[m + 1] == OPEN_BRACE);
        assert(open == m);
        assert(s.subrange(k, open) =~= e1);
        assert(s.subrange(m + 2, end) =~= escape(w3));
        let ls3 = lemma_tokens_of_escaped_before(s, m + 2, w3);
        let brace = ComponentModel::Str(seq![OPEN_BRACE]);
        let ls = seq![lit, brace] + ls3;
        assert(tokens_from(s, k) == with_prefix(seq![lit, brace], tokens_from(s, m + 2)));
        match tokens_from(s, end) {
            Ok(r) => {
                assert(seq![lit, brace] + (ls3 + r.drop_first()) =~= ls + r.drop_first());
            },
            Err(_) => {},
        }
        assert(all_literals(ls)) by {
            assert(forall|j: int| 2 <= j < ls.len() ==> ls[j] == ls3[j - 2]);
        }
        lemma_joined_text_concat(seq![lit, brace], ls3);
        lemma_joined_text_short(w1, seq![OPEN_BRACE]);
        assert(w2 =~= seq![OPEN_BRACE] + w3);
        assert(joined_text(ls) =~= w);
        ls
    }
}


/// A component written back as template text.
pub open spec fn component_text(c: ComponentModel) -> Seq<u8> {
    match c {
        ComponentModel::Str(t) => escape(t),
        ComponentModel::Arg(sel, f) => arg_text(sel, f),
    }
}

/// Components written back as template text, in order.
pub open spec fn template_of(cs: Seq<ComponentModel>) -> Seq<u8>
    decreases cs.len(),
{
    if cs.len() == 0 {
        Seq::empty()
    } else {
        component_text(cs[0]) + template_of(cs.drop_first())
    }
}

/// Components as a parse gives them: every literal non-empty, no two
/// literals adjacent, every selector valid.
pub open spec fn well_formed(cs: Seq<ComponentModel>) -> bool {
    &&& forall|i: int|
        0 <= i < cs.len() ==> match #[trigger] cs[i] {
            ComponentModel::Str(t) => t.len() > 0,
            ComponentModel::Arg(sel, _) => valid_selector(sel),
        }
    &&& forall|i: int| 0 < i < cs.len() && #[trigger] cs[i] is Str ==> cs[i - 1] is Arg
}

proof fn lemma_arg_text_head(sel: SelectorModel, f: FormattingFlags)
    requires
        valid_selector(sel),
    ensures
        arg_text(sel, f).len() >= 2,
        arg_text(sel, f)[0] == OPEN_BRACE,
        arg_text(sel, f)[1] != OPEN_BRACE,
{
    let body = selector_text(sel) + flags_text(f);
    lemma_arg_body(sel, f, 0);
    assert(arg_text(sel, f) =~= seq![OPEN_BRACE] + body + seq![CLOSE_BRACE]);
    if body.len() > 0 {
        assert(arg_text(sel, f)[1] == body[0]);
    }
}

proof fn lemma_merge_onto_empty_literal(acc: Seq<ComponentModel>)
    ensures
        merge_onto(acc, seq![ComponentModel::Str(Seq::empty())]) == acc,
{
    let one = seq![ComponentModel::Str(Seq::<u8>::empty())];
    assert(one.drop_last() =~= Seq::<ComponentModel>::empty());
    assert(merge_onto(acc, one.drop_last()) == acc);
    assert(one.last() == ComponentModel::Str(Seq::<u8>::empty()));
}

/// Adding an empty literal, an argument, and then pieces `r` that add
/// `rest` after the argument, adds the argument and `rest`.
proof fn lemma_merge_after_arg(acc: Seq<ComponentModel>, c: ComponentModel, r: Seq<ComponentModel>)
    requires
        c is Arg,
    ensures
        merge_onto(acc, seq![ComponentModel::Str(Seq::empty()), c] + r) == merge_onto(
            acc.push(c),
            r,
        ),
{
    let e = ComponentModel::Str(Seq::empty());
    lemma_merge_onto_concat(acc, seq![e, c], r);
    assert(seq![e, c].drop_last() =~= seq![e]);
    assert(seq![e].drop_last() =~= Seq::<ComponentModel>::empty());
    lemma_merge_onto_empty_literal(acc);
    assert(merge_onto(acc, seq![e, c]) =~= acc.push(c));
}

/// Adding literals that join to non-empty text, and then the pieces of `r`
/// after its first, an empty literal, is adding that text as one literal
/// and then all of `r`.
proof fn lemma_merge_after_literals(
    acc: Seq<ComponentModel>,
    ls: Seq<ComponentModel>,
    r: Seq<ComponentModel>,
)
    requires
        acc.len() == 0 || acc.last() is Arg,
        all_literals(ls),
        joined_text(ls).len() > 0,
        r.len() > 0,
        r[0] == ComponentModel::Str(Seq::empty()),
    ensures
        merge_onto(acc, ls + r.drop_first()) == merge_onto(
            acc.push(ComponentModel::Str(joined_text(ls))),
            r,
        ),
{
    let e = ComponentModel::Str(Seq::empty());
    let c = ComponentModel::Str(joined_text(ls));
    let tail = r.drop_first();
    lemma_merge_onto_concat(acc, ls, tail);
    lemma_merge_onto_literals(acc, ls);
    assert(r =~= seq![e] + tail);
    lemma_merge_onto_concat(acc.push(c), seq![e], tail);
    assert(seq![e].drop_last() =~= Seq::<ComponentModel>::empty());
    lemma_merge_onto_empty_literal(acc.push(c));
}

/// Where the rest of `s` from `k` is `a` followed by `b`, `a` stands at `k`
/// and `b` right after it.
proof fn lemma_split_rest(s: Seq<u8>, k: int, a: Seq<u8>, b: Seq<u8>)
    requires
        0 <= k <= s.len(),
        s.subrange(k, s.len() as int) == a + b,
    ensures
        k + a.len() <= s.len(),
        s.subrange(k, k + a.len()) == a,
        s.subrange(k + a.len(), s.len() as int) == b,
{
    let sub = s.subrange(k, s.len() as int);
    assert(sub.len() == a.len() + b.len());
    assert(forall|i: int| 0 <= i < a.len() ==> sub[i] == a[i]);
    assert(forall|i: int| 0 <= i < b.len() ==> sub[a.len() + i] == b[i]);
    assert(s.subrange(k, k + a.len()) =~= a);
    assert(s.subrange(k + a.len(), s.len() as int) =~= b);
}

/// From an offset where the template text of well-formed components `cs`
/// stands, parsing succeeds, and adding the pieces read onto `acc` adds `cs`.
#[verifier::rlimit(60)]
proof fn lemma_tokens_of_template(
    s: Seq<u8>,
    k: int,
    cs: Seq<ComponentModel>,
    acc: Seq<ComponentModel>,
)
    requires
        0 <= k <= s.len(),
        s.subrange(k, s.len() as int) == template_of(cs),
        well_formed(cs),
        cs.len() > 0 && cs[0] is Str ==> acc.len() == 0 || acc.last() is Arg,
    ensures
        tokens_from(s, k) is Ok,
        merge_onto(acc, tokens_from(s, k)->Ok_0) == acc + cs,
        cs.len() == 0 || cs[0] is Arg ==> tokens_from(s, k)->Ok_0.len() > 0 && tokens_from(
            s,
            k,
        )->Ok_0[0] == ComponentModel::Str(Seq::empty()),
    decreases cs.len(),
{
    let e = ComponentModel::Str(Seq::empty());
    if cs.len() == 0 {
        assert(k == s.len());
        lemma_first_index(s, OPEN_BRACE, k);
        assert(s.subrange(k, k) =~= Seq::<u8>::empty());
        assert(unescape(Seq::<u8>::empty()) == Ok::<Seq<u8>, int>(Seq::empty()));
        assert(tokens_from(s, k) == Ok::<Seq<ComponentModel>, ErrorModel>(seq![e]));
        assert(seq![e].drop_last() =~= Seq::<ComponentModel>::empty());
        lemma_merge_onto_empty_literal(acc);
        assert(acc + cs =~= acc);
    } else {
        let c = cs[0];
        let rest = cs.drop_first();
        assert(well_formed(rest)) by {
            assert(forall|i: int| 0 <= i < rest.len() ==> rest[i] == cs[i + 1]);
        }
        let ct = component_text(c);
        let end = k + ct.len();
        lemma_split_rest(s, k, ct, template_of(rest));
        assert(acc.push(c) + rest =~= acc + cs);
        match c {
            ComponentModel::Arg(sel, f) => {
                assert(valid_selector(sel));
                lemma_tokens_of_arg(s, k, sel, f);
                lemma_tokens_of_template(s, end, rest, acc.push(c));
                lemma_merge_after_arg(acc, c, tokens_from(s, end)->Ok_0);
            },
            ComponentModel::Str(t) => {
                assert(t.len() > 0);
                if rest.len() > 0 {
                    assert(cs[1] is Arg);
                    assert(rest[0] == cs[1]);
                    if let ComponentModel::Arg(sel2, f2) = rest[0] {
                        lemma_arg_text_head(sel2, f2);
                        let tr = template_of(rest);
                        assert(tr == arg_text(sel2, f2) + template_of(rest.drop_first()));
                        assert(s[end] == tr[0] && s[end + 1] == tr[1]);
                    }
                } else {
                    assert(template_of(rest).len() == 0);
                }
                assert(at_end_or_argument(s, end));
                let ls = lemma_tokens_of_escaped_before(s, k, t);
                lemma_tokens_of_template(s, end, rest, acc.push(c));
                lemma_merge_after_literals(acc, ls, tokens_from(s, end)->Ok_0);
            },
        }
    }
}

/// Well-formed components, written back as template text, parse to
/// themselves.
pub proof fn lemma_template_parses_back(cs: Seq<ComponentModel>)
    requires
        well_formed(cs),
    ensures
        parse_spec(template_of(cs)) == Ok::<Seq<ComponentModel>, ErrorModel>(cs),
{
    let t = template_of(cs);
    assert(t.subrange(0, t.len() as int) =~= t);
    lemma_tokens_of_template(t, 0, cs, Seq::empty());
    lemma_merge_onto_empty(tokens_from(t, 0)->Ok_0);
    assert(Seq::<ComponentModel>::empty() + cs =~= cs);
}


pub open spec fn args_valid(ts: Seq<ComponentModel>) -> bool {
    forall|i: int| 0 <= i < ts.len() && #[trigger] ts[i] is Arg ==> valid_selector(ts[i]->Arg_0)
}

/// An argument read from text with no `}` that does not start with `{` has
/// a valid selector.
proof fn lemma_arg_of_valid(body: Seq<u8>, at: int)
    requires
        forall|i: int| 0 <= i < body.len() ==> body[i] != CLOSE_BRACE,
        body.len() > 0 ==> body[0] != OPEN_BRACE,
        arg_of(body, at) is Ok,
    ensures
        arg_of(body, at)->Ok_0 is Arg,
        valid_selector(arg_of(body, at)->Ok_0->Arg_0),
{
    lemma_first_index(body, COLON, 0);
    let colon = first_index(body, COLON, 0);
    let st = body.subrange(0, colon);
    assert(forall|i: int| 0 <= i < st.len() ==> st[i] == body[i]);
}

proof fn lemma_tokens_args_valid(s: Seq<u8>, k: int)
    requires
        0 <= k <= s.len(),
        tokens_from(s, k) is Ok,
    ensures
        args_valid(tokens_from(s, k)->Ok_0),
    decreases s.len() - k,
{
    lemma_first_index(s, OPEN_BRACE, k);
    let open = first_index(s, OPEN_BRACE, k);
    if open < s.len() {
        let text = unescape(s.subrange(k, open))->Ok_0;
        let lit = ComponentModel::Str(text);
        if open + 1 < s.len() && s[open + 1] == OPEN_BRACE {
            lemma_tokens_args_valid(s, open + 2);
            let rest = tokens_from(s, open + 2)->Ok_0;
            let ts = seq![lit, ComponentModel::Str(seq![OPEN_BRACE])] + rest;
            assert(forall|i: int| 2 <= i < ts.len() ==> ts[i] == rest[i - 2]);
        } else {
            lemma_first_index(s, CLOSE_BRACE, open + 1);
            let close = first_index(s, CLOSE_BRACE, open + 1);
            let body = s.subrange(open + 1, close);
            assert(forall|i: int| 0 <= i < body.len() ==> body[i] == s[open + 1 + i]);
            lemma_arg_of_valid(body, open + 1);
            lemma_tokens_args_valid(s, close + 1);
            let a = arg_of(body, open + 1)->Ok_0;
            let rest = tokens_from(s, close + 1)->Ok_0;
            let ts = seq![lit, a] + rest;
            assert(forall|i: int| 2 <= i < ts.len() ==> ts[i] == rest[i - 2]);
        }
    }
}

/// Merging pieces whose arguments are valid gives well-formed components.
proof fn lemma_merge_well_formed(ts: Seq<ComponentModel>)
    requires
        args_valid(ts),
    ensures
        well_formed(merge_literals(ts)),
    decreases ts.len(),
{
    if ts.len() > 0 {
        let init = ts.drop_last();
        assert(args_valid(init)) by {
            assert(forall|i: int| 0 <= i < init.len() ==> init[i] == ts[i]);
        }
        lemma_merge_well_formed(init);
        let cs = merge_literals(init);
        let t = ts.last();
        assert(ts[ts.len() - 1] == t);
        let r = merge_literals(ts);
        assert(r == add_component(cs, t));
        if t is Str && t->Str_0.len() > 0 && cs.len() > 0 && cs.last() is Str {
            assert(cs[cs.len() - 1] is Str);
            assert(forall|i: int| 0 <= i < cs.len() - 1 ==> r[i] == cs[i]);
        } else if t is Str && t->Str_0.len() == 0 {
        } else {
            assert(forall|i: int| 0 <= i < cs.len() ==> r[i] == cs[i]);
        }
    }
}

/// Writing the components of a parsed template back as template text, and
/// parsing that text, gives the same components again.
pub proof fn lemma_reparse_gives_same(s: Seq<u8>)
    requires
        parse_spec(s) is Ok,
    ensures
        parse_spec(template_of(parse_spec(s)->Ok_0)) == parse_spec(s),
{
    lemma_tokens_args_valid(s, 0);
    lemma_merge_well_formed(tokens_from(s, 0)->Ok_0);
    lemma_template_parses_back(parse_spec(s)->Ok_0);
}

} // verus!
