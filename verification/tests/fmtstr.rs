use zfmt::fmtstr::{parse_format_str, Align, FmtType, FormatStrError, ParsedSpec, Placeholder, Segment};

fn lit(s: &str) -> Segment {
    Segment::Literal(s.to_owned())
}

fn ph(name: &str) -> Segment {
    Segment::Placeholder(Placeholder { name: name.to_owned(), spec: ParsedSpec::default() })
}

#[test]
fn all_literal() {
    assert_eq!(parse_format_str("hello").unwrap(), vec![lit("hello")]);
}

#[test]
fn single_placeholder() {
    assert_eq!(parse_format_str("{x}").unwrap(), vec![ph("x")]);
}

#[test]
fn mixed() {
    assert_eq!(parse_format_str("val={x} ok").unwrap(), vec![lit("val="), ph("x"), lit(" ok")]);
}

#[test]
fn escaped_braces() {
    assert_eq!(parse_format_str("{{}}").unwrap(), vec![lit("{}")]);
}

#[test]
fn spec_hex_lower() {
    let segs = parse_format_str("{addr:x}").unwrap();
    if let Segment::Placeholder(p) = &segs[0] {
        assert_eq!(p.spec.fmt_type, FmtType::LowerHex);
    } else {
        panic!("expected placeholder");
    }
}

#[test]
fn spec_full() {
    let segs = parse_format_str("{n:>+#08.3x}").unwrap();
    if let Segment::Placeholder(p) = &segs[0] {
        assert_eq!(p.spec.align, Align::Right);
        assert!(p.spec.sign);
        assert!(p.spec.alternate);
        assert!(p.spec.zero_pad);
        assert_eq!(p.spec.width, Some(8));
        assert_eq!(p.spec.precision, Some(3));
        assert_eq!(p.spec.fmt_type, FmtType::LowerHex);
    } else {
        panic!("expected placeholder");
    }
}

#[test]
fn empty_name_is_error() {
    assert!(parse_format_str("{}").is_err());
}

#[test]
fn unclosed_brace_is_error() {
    assert!(parse_format_str("{x").is_err());
}

#[test]
fn spec_char_fourcc() {
    let segs = parse_format_str("{tag:c}").unwrap();
    if let Segment::Placeholder(p) = &segs[0] {
        assert_eq!(p.spec.fmt_type, FmtType::Char);
    } else {
        panic!("expected placeholder");
    }
}

#[test]
fn unknown_type_is_error() {
    assert!(parse_format_str("{x:z}").is_err());
}

#[test]
fn format_errors_say_why() {
    assert_eq!(parse_format_str("ab{x"), Err(FormatStrError::UnclosedBrace { byte: 2 }));
    assert_eq!(parse_format_str("é{x"), Err(FormatStrError::UnclosedBrace { byte: 2 }));
    assert_eq!(parse_format_str("a}b"), Err(FormatStrError::UnexpectedClose));
    assert_eq!(parse_format_str("{ :x}"), Err(FormatStrError::EmptyName));
    assert_eq!(parse_format_str("{x:300}"), Err(FormatStrError::WidthTooLarge));
    assert_eq!(parse_format_str("{x:.}"), Err(FormatStrError::MissingPrecision));
    assert_eq!(parse_format_str("{x:.256}"), Err(FormatStrError::PrecisionTooLarge));
    assert_eq!(parse_format_str("{x:q}"), Err(FormatStrError::UnknownType { found: 'q' }));
    assert_eq!(parse_format_str("{x:xx}"), Err(FormatStrError::TrailingChars));
}

#[test]
fn names_are_trimmed_and_widths_parsed() {
    let segs = parse_format_str("{ v :<12}").unwrap();
    assert_eq!(
        segs,
        vec![Segment::Placeholder(Placeholder {
            name: "v".to_owned(),
            spec: ParsedSpec { align: Align::Left, width: Some(12), ..ParsedSpec::default() },
        })]
    );
    assert_eq!(parse_format_str("").unwrap(), vec![]);
}
