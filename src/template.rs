//! Writing parsed components back as template text.

use vstd::prelude::*;
use vstd::string::*;
use vstd::utf8::*;

use crate::flags::{FormattingFlags, FormattingMode};
use crate::format_str::{ComponentModel, FmtArg, FmtStrComponent, FormatStr};
use crate::round_trip::{
    arg_text, component_text, decimal_digits, escape, flags_text, lemma_escape_concat,
    selector_text, template_of,
};
use crate::selector::Selector;
use crate::text::{
    lemma_ascii_boundaries, lemma_encode_utf8_concat, substring, CLOSE_BRACE, DIGIT_ZERO, OPEN_BRACE,
};

verus! {

broadcast use is_ascii_spec_bytes;

/// Appends `piece` to `buf`.
fn append_str(buf: &mut String, piece: &str)
    ensures
        encode_utf8(final(buf)@) == encode_utf8(old(buf)@) + piece.spec_bytes(),
{
    let ghost before = buf@;
    buf.append(piece);
    proof {
        lemma_encode_utf8_concat(before, piece@);
    }
}

fn open_brace_str() -> (r: &'static str)
    ensures
        r.spec_bytes() == seq![OPEN_BRACE],
{
    proof {
        reveal_strlit("{");
    }
    let r = "{";
    assert(is_ascii(r));
    assert(r.spec_bytes() =~= seq![OPEN_BRACE]);
    r
}

fn close_brace_str() -> (r: &'static str)
    ensures
        r.spec_bytes() == seq![CLOSE_BRACE],
{
    proof {
        reveal_strlit("}");
    }
    let r = "}";
    assert(is_ascii(r));
    assert(r.spec_bytes() =~= seq![CLOSE_BRACE]);
    r
}

/// The one-digit text of `d`.
fn digit_str(d: usize) -> (r: &'static str)
    requires
        d < 10,
    ensures
        r.spec_bytes() == seq![(DIGIT_ZERO + d) as u8],
{
    proof {
        reveal_strlit("0123456789");
    }
    let digits = "0123456789";
    proof {
        let b = digits.spec_bytes();
        assert(is_ascii(digits));
        assert(b =~= seq![0x30u8, 0x31, 0x32, 0x33, 0x34, 0x35, 0x36, 0x37, 0x38, 0x39]);
        encode_utf8_valid_utf8(digits@);
        lemma_ascii_boundaries(b, d as int);
    }
    let r = substring(digits, d, d + 1);
    assert(r.spec_bytes() =~= seq![(DIGIT_ZERO + d) as u8]);
    r
}

/// The template text of formatting flags, with the `:` that introduces them.
fn flags_str(f: FormattingFlags) -> (r: &'static str)
    ensures
        r.spec_bytes() == flags_text(f),
{
    match (f.mode, f.alternate) {
        (FormattingMode::Display, false) => {
            proof {
                reveal_strlit("");
            }
            let r = "";
            assert(is_ascii(r));
            assert(r.spec_bytes() =~= flags_text(f));
            r
        },
        (FormattingMode::Display, true) => {
            proof {
                reveal_strlit(":#");
            }
            let r = ":#";
            assert(is_ascii(r));
            assert(r.spec_bytes() =~= flags_text(f));
            r
        },
        (FormattingMode::DebugRegular, false) => {
            proof {
                reveal_strlit(":?");
            }
            let r = ":?";
            assert(is_ascii(r));
            assert(r.spec_bytes() =~= flags_text(f));
            r
        },
        (FormattingMode::DebugRegular, true) => {
            proof {
                reveal_strlit(":#?");
            }
            let r = ":#?";
            assert(is_ascii(r));
            assert(r.spec_bytes() =~= flags_text(f));
            r
        },
        (FormattingMode::DebugBinary, false) => {
            proof {
                reveal_strlit(":b?");
            }
            let r = ":b?";
            assert(is_ascii(r));
            assert(r.spec_bytes() =~= flags_text(f));
            r
        },
        (FormattingMode::DebugBinary, true) => {
            proof {
                reveal_strlit(":#b?");
            }
            let r = ":#b?";
            assert(is_ascii(r));
            assert(r.spec_bytes() =~= flags_text(f));
            r
        },
        (FormattingMode::DebugHex, false) => {
            proof {
                reveal_strlit(":x?");
            }
            let r = ":x?";
            assert(is_ascii(r));
            assert(r.spec_bytes() =~= flags_text(f));
            r
        },
        (FormattingMode::DebugHex, true) => {
            proof {
                reveal_strlit(":#x?");
            }
            let r = ":#x?";
            assert(is_ascii(r));
            assert(r.spec_bytes() =~= flags_text(f));
            r
        },
    }
}

/// Appends the shortest decimal spelling of `n`.
fn push_decimal(buf: &mut String, n: usize)
    ensures
        encode_utf8(final(buf)@) == encode_utf8(old(buf)@) + decimal_digits(n as nat),
    decreases n,
{
    let ghost before = encode_utf8(buf@);
    if n >= 10 {
        push_decimal(buf, n / 10);
    }
    append_str(buf, digit_str(n % 10));
    proof {
        if n >= 10 {
            assert(before + decimal_digits(n as nat) =~= before + decimal_digits((n / 10) as nat)
                + seq![(DIGIT_ZERO + n % 10) as u8]);
        } else {
            assert(before + decimal_digits(n as nat) =~= before + seq![(DIGIT_ZERO + n % 10) as u8]);
        }
    }
}


/// Text with no brace escapes to itself.
proof fn lemma_escape_plain(x: Seq<u8>)
    requires
        forall|j: int| 0 <= j < x.len() ==> x[j] != OPEN_BRACE && x[j] != CLOSE_BRACE,
    ensures
        escape(x) == x,
    decreases x.len(),
{
    if x.len() == 0 {
        assert(x =~= Seq::<u8>::empty());
    } else {
        lemma_escape_plain(x.drop_first());
        assert(seq![x[0]] + x.drop_first() =~= x);
    }
}

/// Escaping the prefix of `s` up to `end`, where `s` holds no brace from
/// `start` to `end`.
proof fn lemma_escape_prefix(s: Seq<u8>, start: int, end: int)
    requires
        0 <= start <= end <= s.len(),
        forall|j: int| start <= j < end ==> s[j] != OPEN_BRACE && s[j] != CLOSE_BRACE,
    ensures
        escape(s.subrange(0, end)) == escape(s.subrange(0, start)) + s.subrange(start, end),
{
    let plain = s.subrange(start, end);
    assert(s.subrange(0, end) =~= s.subrange(0, start) + plain);
    lemma_escape_concat(s.subrange(0, start), plain);
    lemma_escape_plain(plain);
}

/// Appends literal text with each brace doubled.
fn push_escaped(buf: &mut String, t: &str)
    ensures
        encode_utf8(final(buf)@) == encode_utf8(old(buf)@) + escape(t.spec_bytes()),
{
    let bytes = t.as_bytes();
    let ghost s = t.spec_bytes();
    let ghost before = encode_utf8(buf@);
    let n = bytes.len();
    let mut start: usize = 0;
    let mut i: usize = 0;
    proof {
        encode_utf8_valid_utf8(t@);
        is_char_boundary_start_end_of_seq(s);
        assert(s.subrange(0, 0) =~= Seq::<u8>::empty());
        assert(escape(Seq::<u8>::empty()) =~= Seq::<u8>::empty());
        assert(before + Seq::<u8>::empty() =~= before);
    }
    while i < n
        invariant
            bytes@ == s,
            s == t.spec_bytes(),
            valid_utf8(s),
            n == s.len(),
            start <= i <= n,
            is_char_boundary(s, start as int),
            is_char_boundary(s, n as int),
            forall|j: int| start <= j < i ==> s[j] != OPEN_BRACE && s[j] != CLOSE_BRACE,
            encode_utf8(buf@) == before + escape(s.subrange(0, start as int)),
        decreases n - i,
    {
        if bytes[i] == OPEN_BRACE || bytes[i] == CLOSE_BRACE {
            proof {
                lemma_ascii_boundaries(s, i as int);
            }
            let ghost mid = encode_utf8(buf@);
            append_str(buf, substring(t, start, i + 1));
            append_str(buf, substring(t, i, i + 1));
            proof {
                lemma_escape_prefix(s, start as int, i as int);
                let b = s[i as int];
                assert(s.subrange(0, i + 1) =~= s.subrange(0, i as int) + seq![b]);
                lemma_escape_concat(s.subrange(0, i as int), seq![b]);
                assert(b == OPEN_BRACE || b == CLOSE_BRACE);
                assert(seq![b].drop_first() =~= Seq::<u8>::empty());
                assert(escape(Seq::<u8>::empty()) =~= Seq::<u8>::empty());
                assert(seq![b][0] == b);
                assert(escape(seq![b]) =~= seq![b, b]);
                assert(s.subrange(start as int, i + 1) =~= s.subrange(start as int, i as int)
                    + seq![b]);
                assert(encode_utf8(buf@) =~= before + escape(s.subrange(0, i + 1)));
            }
            start = i + 1;
        }
        i = i + 1;
    }
    append_str(buf, substring(t, start, n));
    proof {
        lemma_escape_prefix(s, start as int, n as int);
        assert(s.subrange(0, n as int) =~= s);
        assert(encode_utf8(buf@) =~= before + escape(s));
    }
}

/// Appends an argument's template text, braces included.
fn push_arg(buf: &mut String, a: &FmtArg)
    ensures
        encode_utf8(final(buf)@) == encode_utf8(old(buf)@) + arg_text(a.which_arg@, a.formatting),
{
    let ghost before = encode_utf8(buf@);
    append_str(buf, open_brace_str());
    let ghost after_open = encode_utf8(buf@);
    match &a.which_arg {
        Selector::ImplicitPositional => {
            assert(after_open + selector_text(a.which_arg@) =~= after_open);
        },
        Selector::ExplicitPositional(n) => {
            push_decimal(buf, *n);
        },
        Selector::Named(x) => {
            append_str(buf, x.as_str());
        },
    }
    append_str(buf, flags_str(a.formatting));
    append_str(buf, close_brace_str());
    assert(encode_utf8(buf@) =~= before + arg_text(a.which_arg@, a.formatting));
}

/// Writing out one more component appends its text.
proof fn lemma_template_of_push(cs: Seq<ComponentModel>, c: ComponentModel)
    ensures
        template_of(cs.push(c)) == template_of(cs) + component_text(c),
    decreases cs.len(),
{
    if cs.len() == 0 {
        assert(cs.push(c).drop_first() =~= cs);
        assert(template_of(cs) =~= Seq::<u8>::empty());
        assert(template_of(cs.push(c)) =~= template_of(cs) + component_text(c));
    } else {
        assert(cs.push(c).drop_first() =~= cs.drop_first().push(c));
        lemma_template_of_push(cs.drop_first(), c);
        assert(template_of(cs.push(c)) =~= template_of(cs) + component_text(c));
    }
}

impl FormatStr {
    /// Writes the components back as template text: literal braces doubled,
    /// indices in shortest decimal, debug flags with their trailing `?`.
    pub fn to_template(&self) -> (r: String)
        ensures
            encode_utf8(r@) == template_of(self@),
    {
        let mut buf = String::new();
        let mut i: usize = 0;
        proof {
            assert(self@.take(0) =~= Seq::<ComponentModel>::empty());
            assert(encode_utf8(buf@) =~= Seq::<u8>::empty());
        }
        while i < self.list.len()
            invariant
                i <= self.list@.len(),
                self@.len() == self.list@.len(),
                encode_utf8(buf@) == template_of(self@.take(i as int)),
            decreases self.list@.len() - i,
        {
            let c = &self.list[i];
            proof {
                assert(self@[i as int] == c@);
            }
            match c {
                FmtStrComponent::Str(t) => {
                    push_escaped(&mut buf, t.as_str());
                },
                FmtStrComponent::Arg(a) => {
                    push_arg(&mut buf, a);
                },
            }
            proof {
                lemma_template_of_push(self@.take(i as int), self@[i as int]);
                assert(self@.take(i + 1) =~= self@.take(i as int).push(self@[i as int]));
            }
            i = i + 1;
        }
        assert(self@.take(i as int) =~= self@);
        buf
    }
}

} // verus!
