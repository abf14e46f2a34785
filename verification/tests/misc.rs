use customasm::asm2::{bits_until_alignment, check_bank_overlap, validate_names, AstField, BankOutput, DefList, ResolutionState};
use customasm::configuration::{
    does_variable_exists, get_variable_type, parse_pattern, parse_variable_type, PatternSegment, Token, VariableType,
};
use customasm::diagn::{Report, Span};
use customasm::expr::{convert_string_encoding, resolve_builtin_fn, ExprBuiltinFn};
use customasm::instrset::is_reserved_var;
use customasm::reporter::Reporter;

#[test]
fn alignment_padding() {
    assert_eq!(bits_until_alignment(5, 4), 3);
    assert_eq!(bits_until_alignment(8, 4), 0);
    assert_eq!(bits_until_alignment(0, 8), 0);
    assert_eq!(bits_until_alignment(7, 0), 0);
    assert_eq!(bits_until_alignment(9, 8), 7);
}

#[test]
fn def_list_positions() {
    let mut l: DefList<u32> = DefList::new();
    l.define(0, 10);
    l.define(1, 20);
    l.define(0, 5);
    assert_eq!(*l.get(0), 5);
    assert_eq!(*l.get(2), 20);
    *l.get_mut(1) = 99;
    assert_eq!(*l.get(1), 99);
    assert_eq!(*l.get(2), 20);
}

#[test]
fn resolution_state_merges() {
    let mut s = ResolutionState::Resolved;
    s.merge(ResolutionState::Resolved);
    assert!(matches!(s, ResolutionState::Resolved));
    s.merge(ResolutionState::Unresolved);
    assert!(matches!(s, ResolutionState::Unresolved));
    s.merge(ResolutionState::Resolved);
    assert!(matches!(s, ResolutionState::Unresolved));
}

fn bank(name: &str, offset: Option<usize>, size: Option<usize>) -> BankOutput {
    BankOutput { name: name.to_string(), span: Span::new_dummy(), output_offset: offset, addr_size: size, addr_unit: 8 }
}

#[test]
fn overlapping_banks_are_reported() {
    let mut report = Report::new();
    let banks = vec![bank("default", Some(0), None), bank("a", Some(0), Some(4)), bank("b", Some(64), Some(4))];
    assert!(check_bank_overlap(&mut report, &banks).is_ok());
    assert_eq!(report.len(), 0);

    let banks = vec![bank("default", Some(0), None), bank("a", Some(0), Some(4)), bank("b", Some(16), Some(4))];
    assert!(check_bank_overlap(&mut report, &banks).is_err());
    let msgs = report.messages();
    assert_eq!(msgs.len(), 1);
    assert_eq!(msgs[0].descr, "output of bank `a` overlaps with bank `b`");
    assert_eq!(msgs[0].inner[0].descr, "bank `b` defined here");

    let mut report = Report::new();
    let banks = vec![bank("default", Some(0), None), bank("a", None, Some(4)), bank("b", Some(0), None)];
    assert!(check_bank_overlap(&mut report, &banks).is_ok());
}

#[test]
fn builtin_functions_by_name() {
    assert!(matches!(resolve_builtin_fn("$le", false), Some(ExprBuiltinFn::Le)));
    assert!(matches!(resolve_builtin_fn("le", true), Some(ExprBuiltinFn::Le)));
    assert!(matches!(resolve_builtin_fn("$strlen", false), Some(ExprBuiltinFn::Strlen)));
    assert!(resolve_builtin_fn("le", false).is_none());
    assert!(resolve_builtin_fn("$le", true).is_none());
    assert!(resolve_builtin_fn("no_such_fn", false).is_none());
}

#[test]
fn string_encodings() {
    assert_eq!(convert_string_encoding("Hi", "utf8"), vec![0x48, 0x69]);
    assert_eq!(convert_string_encoding("é", "utf8"), vec![0xc3, 0xa9]);
    assert_eq!(convert_string_encoding("€", "utf8"), vec![0xe2, 0x82, 0xac]);
    assert_eq!(convert_string_encoding("😀", "utf8"), vec![0xf0, 0x9f, 0x98, 0x80]);
    assert_eq!(convert_string_encoding("A", "utf16be"), vec![0x00, 0x41]);
    assert_eq!(convert_string_encoding("A", "utf16le"), vec![0x41, 0x00]);
    assert_eq!(convert_string_encoding("😀", "utf16be"), vec![0xd8, 0x3d, 0xde, 0x00]);
    assert_eq!(convert_string_encoding("😀", "utf16le"), vec![0x3d, 0xd8, 0x00, 0xde]);
    assert_eq!(convert_string_encoding("A", "utf32be"), vec![0, 0, 0, 0x41]);
    assert_eq!(convert_string_encoding("A", "utf32le"), vec![0x41, 0, 0, 0]);
    assert_eq!(convert_string_encoding("aé€", "ascii"), vec![0x61, 0xe9, 0x00]);
    for s in ["", "abc", "é€😀"] {
        assert_eq!(convert_string_encoding(s, "utf8"), s.as_bytes().to_vec());
        let units: Vec<u8> = s.encode_utf16().flat_map(|u| u.to_be_bytes()).collect();
        assert_eq!(convert_string_encoding(s, "utf16be"), units);
    }
}

#[test]
fn reserved_variables() {
    assert!(is_reserved_var("pc"));
    assert!(!is_reserved_var("pcx"));
    assert!(!is_reserved_var(""));
}

#[test]
fn variable_types() {
    let t = parse_variable_type("u8").ok().unwrap();
    assert_eq!((t.size_bits, t.signed), (8, false));
    let t = parse_variable_type("i16").ok().unwrap();
    assert_eq!((t.size_bits, t.signed), (16, true));
    assert!(parse_variable_type("x8").is_err());
    let segs = vec![
        PatternSegment::Literal("ld".to_string()),
        PatternSegment::Variable("a".to_string(), VariableType { size_bits: 8, signed: false }),
    ];
    assert!(does_variable_exists(&segs, "a"));
    assert!(!does_variable_exists(&segs, "ld"));
    assert_eq!(get_variable_type(&segs, "a").map(|t| t.size_bits), Some(8));
}

#[test]
fn reporter_lines() {
    let mut r = Reporter::new();
    r.error("one");
    r.error_span("two", &Span::new(0, 1, 2));
    assert_eq!(r.print_lines(), vec!["error: one".to_string(), "error: two".to_string()]);
}

#[test]
fn field_names_are_checked() {
    let mut report = Report::new();
    let fields = vec![
        AstField { span: Span::new(0, 0, 4), name: "size".to_string() },
        AstField { span: Span::new(0, 5, 9), name: "bits".to_string() },
        AstField { span: Span::new(0, 9, 12), name: "foo".to_string() },
    ];
    assert!(validate_names(&mut report, &fields, &vec!["size", "bits", "outp"]).is_err());
    let msgs = report.messages();
    assert_eq!(msgs.len(), 1);
    assert_eq!(msgs[0].descr, "invalid field `foo`");
    let mut report = Report::new();
    assert!(validate_names(&mut report, &fields[..2].iter().map(|f| AstField { span: f.span, name: f.name.clone() }).collect(), &vec!["size", "bits"]).is_ok());
    assert_eq!(report.len(), 0);
}

#[test]
fn rule_patterns() {
    let tokens = vec![
        Token::Identifier("ld".to_string()),
        Token::Operator("{".to_string()),
        Token::Identifier("a".to_string()),
        Token::Operator(":".to_string()),
        Token::Identifier("u8".to_string()),
        Token::Operator("}".to_string()),
        Token::Operator(",".to_string()),
        Token::Operator("->".to_string()),
        Token::End,
    ];
    let (segs, end) = parse_pattern(&tokens, 0).ok().unwrap();
    assert_eq!(end, 7);
    assert_eq!(segs.len(), 3);
    assert!(matches!(&segs[0], PatternSegment::Literal(s) if s == "ld"));
    assert!(matches!(&segs[1], PatternSegment::Variable(n, t) if n == "a" && t.size_bits == 8 && !t.signed));
    assert!(matches!(&segs[2], PatternSegment::Literal(s) if s == ","));

    let dup = vec![
        Token::Operator("{".to_string()),
        Token::Identifier("a".to_string()),
        Token::Operator(":".to_string()),
        Token::Identifier("u8".to_string()),
        Token::Operator("}".to_string()),
        Token::Operator("{".to_string()),
        Token::Identifier("a".to_string()),
        Token::Operator(":".to_string()),
        Token::Identifier("u8".to_string()),
        Token::Operator("}".to_string()),
        Token::Operator("->".to_string()),
    ];
    assert!(parse_pattern(&dup, 0).is_err());
    assert!(parse_pattern(&vec![Token::End], 0).is_err());
}
