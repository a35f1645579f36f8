use format_str_parsing::{
    parse_format_str, parse_formatting, parse_ident, parse_index, parse_mid_str, parse_which_arg,
    FmtArg,
    FmtStrComponent, FormatStr, FormattingFlags, FormattingMode, ParseError, ParseErrorKind,
    Selector,
};

fn lit(s: &str) -> FmtStrComponent {
    FmtStrComponent::str(s)
}

fn arg(which_arg: Selector, mode: FormattingMode, alternate: bool) -> FmtStrComponent {
    FmtStrComponent::arg(which_arg, FormattingFlags { mode, alternate })
}

fn parsed(s: &str) -> Vec<FmtStrComponent> {
    parse_format_str(s).expect("template should parse").list
}

fn failed(s: &str) -> ParseError {
    match parse_format_str(s) {
        Ok(f) => panic!("expected an error, got {:?}", f),
        Err(e) => e,
    }
}

fn only_flags(s: &str) -> FormattingFlags {
    match parsed(s).as_slice() {
        [FmtStrComponent::Arg(a)] => a.formatting,
        other => panic!("expected one argument, got {:?}", other),
    }
}

fn only_selector(s: &str) -> Selector {
    match parse_format_str(s).expect("template should parse").list.pop() {
        Some(FmtStrComponent::Arg(a)) => a.which_arg,
        other => panic!("expected an argument, got {:?}", other),
    }
}

#[test]
fn plain_text_is_one_literal() {
    assert_eq!(parsed("hello world"), vec![lit("hello world")]);
    assert_eq!(parsed("a:b#?x"), vec![lit("a:b#?x")]);
    assert_eq!(parsed("héllo ñ"), vec![lit("héllo ñ")]);
}

#[test]
fn empty_template_has_no_component() {
    assert_eq!(parsed(""), vec![]);
}

#[test]
fn escaped_braces() {
    assert_eq!(parsed("{{"), vec![lit("{")]);
    assert_eq!(parsed("}}"), vec![lit("}")]);
    assert_eq!(parsed("{{{{"), vec![lit("{{")]);
    assert_eq!(parsed("a{{b}}c"), vec![lit("a{b}c")]);
}

#[test]
fn literals_are_joined_around_escapes() {
    assert_eq!(
        parsed("x{{{}}}y"),
        vec![lit("x{"), arg(Selector::ImplicitPositional, FormattingMode::Display, false), lit("}y")]
    );
}

#[test]
fn lone_close_brace_fails() {
    assert_eq!(failed("a}b"), ParseError { pos: 1, kind: ParseErrorKind::InvalidClosedArg });
    assert_eq!(failed("}"), ParseError { pos: 0, kind: ParseErrorKind::InvalidClosedArg });
    assert_eq!(failed("{}}"), ParseError { pos: 2, kind: ParseErrorKind::InvalidClosedArg });
    assert_eq!(failed("}}}"), ParseError { pos: 2, kind: ParseErrorKind::InvalidClosedArg });
}

#[test]
fn unmatched_open_brace_fails() {
    assert_eq!(failed("a{b"), ParseError { pos: 1, kind: ParseErrorKind::UnclosedArg });
    assert_eq!(failed("{"), ParseError { pos: 0, kind: ParseErrorKind::UnclosedArg });
    assert_eq!(failed("{}{:?"), ParseError { pos: 2, kind: ParseErrorKind::UnclosedArg });
}

#[test]
fn offsets_count_bytes() {
    assert_eq!(failed("é{"), ParseError { pos: 2, kind: ParseErrorKind::UnclosedArg });
    assert_eq!(failed("ñ}"), ParseError { pos: 2, kind: ParseErrorKind::InvalidClosedArg });
    assert_eq!(
        failed("€{:q}"),
        ParseError { pos: 5, kind: ParseErrorKind::UnknownFormatting { what: "q".to_string() } }
    );
}

#[test]
fn implicit_argument() {
    assert_eq!(
        parsed("{}"),
        vec![arg(Selector::ImplicitPositional, FormattingMode::Display, false)]
    );
}

#[test]
fn back_to_back_arguments() {
    assert_eq!(
        parsed("{}{}"),
        vec![
            arg(Selector::ImplicitPositional, FormattingMode::Display, false),
            arg(Selector::ImplicitPositional, FormattingMode::Display, false),
        ]
    );
}

#[test]
fn mixed_template() {
    assert_eq!(
        parsed("ab{0:?}cd{x}"),
        vec![
            lit("ab"),
            arg(Selector::ExplicitPositional(0), FormattingMode::DebugRegular, false),
            lit("cd"),
            arg(Selector::Named("x".to_string()), FormattingMode::Display, false),
        ]
    );
}

#[test]
fn explicit_positional() {
    assert_eq!(only_selector("{3}"), Selector::ExplicitPositional(3));
    assert_eq!(only_selector("{3:#?}"), Selector::ExplicitPositional(3));
}

#[test]
fn leading_zeros_are_accepted() {
    assert_eq!(only_selector("{007}"), Selector::ExplicitPositional(7));
}

#[test]
fn bad_numbers_fail() {
    assert_eq!(
        failed("ab{1a}"),
        ParseError { pos: 3, kind: ParseErrorKind::NotANumber { what: "1a".to_string() } }
    );
    let too_big = format!("{}0", usize::MAX);
    assert_eq!(
        failed(&format!("{{{}}}", too_big)),
        ParseError { pos: 1, kind: ParseErrorKind::NotANumber { what: too_big } }
    );
}

#[test]
fn largest_index() {
    let max = usize::MAX.to_string();
    assert_eq!(only_selector(&format!("{{{}}}", max)), Selector::ExplicitPositional(usize::MAX));
}

#[test]
fn named_argument() {
    assert_eq!(only_selector("{name}"), Selector::Named("name".to_string()));
    assert_eq!(only_selector("{_x1:x}"), Selector::Named("_x1".to_string()));
}

#[test]
fn bad_identifiers_fail() {
    assert_eq!(
        failed("x{a-b}"),
        ParseError { pos: 2, kind: ParseErrorKind::NotAnIdent { what: "a-b".to_string() } }
    );
    assert_eq!(
        failed("{fn}"),
        ParseError { pos: 1, kind: ParseErrorKind::NotAnIdent { what: "fn".to_string() } }
    );
}

#[test]
fn display_flags() {
    assert_eq!(only_flags("{:}"), FormattingFlags { mode: FormattingMode::Display, alternate: false });
    assert_eq!(only_flags("{:#}"), FormattingFlags { mode: FormattingMode::Display, alternate: true });
}

#[test]
fn debug_flags() {
    assert_eq!(
        only_flags("{:?}"),
        FormattingFlags { mode: FormattingMode::DebugRegular, alternate: false }
    );
    assert_eq!(
        only_flags("{:#?}"),
        FormattingFlags { mode: FormattingMode::DebugRegular, alternate: true }
    );
    assert_eq!(
        only_flags("{:##?}"),
        FormattingFlags { mode: FormattingMode::DebugRegular, alternate: true }
    );
}

#[test]
fn hex_and_binary_flags() {
    let hex = FormattingFlags { mode: FormattingMode::DebugHex, alternate: false };
    assert_eq!(only_flags("{:x}"), hex);
    assert_eq!(only_flags("{:x?}"), hex);
    assert_eq!(
        only_flags("{:b}"),
        FormattingFlags { mode: FormattingMode::DebugBinary, alternate: false }
    );
    assert_eq!(
        only_flags("{:#x?}"),
        FormattingFlags { mode: FormattingMode::DebugHex, alternate: true }
    );
}

#[test]
fn two_bases_fail() {
    assert_eq!(
        failed("{:bx}"),
        ParseError { pos: 2, kind: ParseErrorKind::UnknownFormatting { what: "bx".to_string() } }
    );
    assert_eq!(
        failed("{:xx?}"),
        ParseError { pos: 2, kind: ParseErrorKind::UnknownFormatting { what: "xx?".to_string() } }
    );
}

#[test]
fn unknown_flag_fails() {
    assert_eq!(
        failed("{:z}"),
        ParseError { pos: 2, kind: ParseErrorKind::UnknownFormatting { what: "z".to_string() } }
    );
    assert_eq!(
        failed("{a:??}"),
        ParseError { pos: 3, kind: ParseErrorKind::UnknownFormatting { what: "??".to_string() } }
    );
}

#[test]
fn first_error_wins() {
    assert_eq!(
        failed("{1a:z}"),
        ParseError { pos: 1, kind: ParseErrorKind::NotANumber { what: "1a".to_string() } }
    );
    assert_eq!(
        failed("{:z}}"),
        ParseError { pos: 2, kind: ParseErrorKind::UnknownFormatting { what: "z".to_string() } }
    );
}

#[test]
fn mid_str_unescapes() {
    assert_eq!(parse_mid_str("a}}b}}", 10), Ok("a}b}".to_string()));
    assert_eq!(parse_mid_str("", 10), Ok(String::new()));
    assert_eq!(
        parse_mid_str("a}b", 10),
        Err(ParseError { pos: 11, kind: ParseErrorKind::InvalidClosedArg })
    );
}

#[test]
fn formatting_directly() {
    assert_eq!(
        parse_formatting("", 4),
        Ok(FormattingFlags { mode: FormattingMode::Display, alternate: false })
    );
    assert_eq!(
        parse_formatting("#b", 4),
        Ok(FormattingFlags { mode: FormattingMode::DebugBinary, alternate: true })
    );
    assert_eq!(
        parse_formatting("?x", 4),
        Err(ParseError { pos: 4, kind: ParseErrorKind::UnknownFormatting { what: "?x".to_string() } })
    );
}

#[test]
fn selector_directly() {
    assert_eq!(parse_which_arg("", 0), Ok(Selector::ImplicitPositional));
    assert_eq!(parse_which_arg("42", 0), Ok(Selector::ExplicitPositional(42)));
    assert_eq!(parse_which_arg("abc", 0), Ok(Selector::Named("abc".to_string())));
    assert_eq!(
        parse_which_arg("a b", 7),
        Err(ParseError { pos: 7, kind: ParseErrorKind::NotAnIdent { what: "a b".to_string() } })
    );
}

#[test]
fn index_directly() {
    assert_eq!(parse_index(b"0"), Some(0));
    assert_eq!(parse_index(b"0120"), Some(120));
    assert_eq!(parse_index(b""), None);
    assert_eq!(parse_index(b"+1"), None);
    assert_eq!(parse_index(b"12x"), None);
}

#[test]
fn from_str_parses() {
    let f: FormatStr = "a{}".parse().expect("template should parse");
    assert_eq!(
        f.list,
        vec![lit("a"), arg(Selector::ImplicitPositional, FormattingMode::Display, false)]
    );
}

#[test]
fn template_text_is_canonical() {
    let f = parse_format_str("a{{b{007:x}}}{name:#}{}{:#b}").expect("template should parse");
    assert_eq!(f.to_template(), "a{{b{7:x?}}}{name:#}{}{:#b?}");
    assert_eq!(parse_format_str("").expect("empty template").to_template(), "");
}

#[test]
fn reparsing_written_template_gives_same_components() {
    for t in ["a{{b{007:x}}}{name:#}", "{:#b}{}", "}}{{", "x{0}y{1:?}z", "é{ñ:#}ü"] {
        let first = parse_format_str(t).expect("template should parse");
        let again = parse_format_str(&first.to_template()).expect("written template should parse");
        assert_eq!(again, first);
    }
}

#[test]
fn ident_directly() {
    assert_eq!(parse_ident("foo_bar", 3), Ok(Selector::Named("foo_bar".to_string())));
    assert_eq!(
        parse_ident("self", 3),
        Err(ParseError { pos: 3, kind: ParseErrorKind::NotAnIdent { what: "self".to_string() } })
    );
}

#[test]
fn constructors_build_components() {
    let flags = FormattingFlags { mode: FormattingMode::DebugHex, alternate: true };
    assert_eq!(
        FmtStrComponent::arg(Selector::ExplicitPositional(2), flags),
        FmtStrComponent::Arg(FmtArg::new(Selector::ExplicitPositional(2), flags))
    );
    assert_eq!(FmtStrComponent::str("ab"), FmtStrComponent::Str("ab".to_string()));
}
