use customasm::diagn::Report;
use customasm::output_format::{parse_output_format, OutputFormat};

fn messages(report: &Report) -> Vec<String> {
    report.messages().iter().map(|m| m.descr.clone()).collect()
}

#[test]
fn plain_format_names() {
    let mut report = Report::new();
    assert!(matches!(parse_output_format(&mut report, "binary"), Ok(OutputFormat::Binary)));
    assert!(matches!(parse_output_format(&mut report, "hexstr"), Ok(OutputFormat::HexStr)));
    assert!(matches!(parse_output_format(&mut report, "c"), Ok(OutputFormat::HexC)));
    assert!(matches!(parse_output_format(&mut report, "hexc"), Ok(OutputFormat::HexC)));
    assert!(matches!(parse_output_format(&mut report, "mesen-mlb"), Ok(OutputFormat::SymbolsMesenMlb)));
    assert!(matches!(parse_output_format(&mut report, "logisim16"), Ok(OutputFormat::LogiSim16)));
    assert!(messages(&report).is_empty());
}

#[test]
fn annotated_arguments_and_defaults() {
    let mut report = Report::new();
    assert!(matches!(
        parse_output_format(&mut report, "annotated"),
        Ok(OutputFormat::Annotated { base: 16, group: 2 })
    ));
    assert!(matches!(
        parse_output_format(&mut report, "annotated,base:2,group:4"),
        Ok(OutputFormat::Annotated { base: 2, group: 4 })
    ));
    assert!(matches!(
        parse_output_format(&mut report, "annotatedbin"),
        Ok(OutputFormat::Annotated { base: 2, group: 8 })
    ));
    assert!(matches!(
        parse_output_format(&mut report, "annotated,base:16,base:8"),
        Ok(OutputFormat::Annotated { base: 8, group: 2 })
    ));
    assert!(messages(&report).is_empty());
}

#[test]
fn checked_numeric_arguments() {
    let mut report = Report::new();
    assert!(parse_output_format(&mut report, "annotated,base:3").is_err());
    assert_eq!(messages(&report), vec!["invalid format argument `annotated,base:3`".to_string()]);

    let mut report = Report::new();
    assert!(parse_output_format(&mut report, "annotated,group:0").is_err());
    assert_eq!(messages(&report), vec!["invalid format argument `annotated,group:0`".to_string()]);

    let mut report = Report::new();
    assert!(parse_output_format(&mut report, "tcgame,base:8").is_err());
    assert_eq!(messages(&report), vec!["invalid format argument `tcgame,base:8`".to_string()]);

    let mut report = Report::new();
    assert!(matches!(
        parse_output_format(&mut report, "intelhex,addr_unit:16"),
        Ok(OutputFormat::IntelHex { address_unit: 16 })
    ));
    assert!(matches!(
        parse_output_format(&mut report, "tcgame,base:2"),
        Ok(OutputFormat::TCGame { base: 2, group: 2 })
    ));
    assert!(parse_output_format(&mut report, "intelhex,addr_unit:x").is_err());
    assert_eq!(messages(&report), vec!["invalid format argument `intelhex,addr_unit:x`".to_string()]);
}

#[test]
fn list_format_strings() {
    let mut report = Report::new();
    match parse_output_format(&mut report, "list,base:2,before:\"<\",between:\" \"") {
        Ok(OutputFormat::List(opts)) => {
            assert_eq!(opts.base, 2);
            assert_eq!(opts.digits_per_group, 2);
            assert_eq!(opts.groups_per_group2, 16);
            assert_eq!(opts.str_before, "<");
            assert_eq!(opts.str_after, "");
            assert_eq!(opts.str_between_groups, " ");
            assert_eq!(opts.str_between_groups2, "");
        }
        _ => panic!("expected the list format"),
    }
    assert!(messages(&report).is_empty());

    assert!(parse_output_format(&mut report, "list,before:x").is_err());
    assert_eq!(messages(&report), vec!["invalid format argument `list,before:x`".to_string()]);
}

#[test]
fn unknown_format() {
    let mut report = Report::new();
    assert!(parse_output_format(&mut report, "foo").is_err());
    assert_eq!(messages(&report), vec!["unknown format `foo`".to_string()]);
    assert!(report.stop_at_errors().is_err());
}

#[test]
fn unknown_arguments_are_each_reported() {
    let mut report = Report::new();
    assert!(parse_output_format(&mut report, "hexstr,x,y:1").is_err());
    assert_eq!(
        messages(&report),
        vec!["unknown format argument `hexstr,x`".to_string(), "unknown format argument `hexstr,y`".to_string()]
    );
}

#[test]
fn argument_with_two_colons() {
    let mut report = Report::new();
    assert!(parse_output_format(&mut report, "binary,a:b:c").is_err());
    assert_eq!(messages(&report), vec!["invalid format argument `binary,a:b:c`".to_string()]);
}

#[test]
fn errors_nest_in_open_contexts() {
    let mut report = Report::new();
    report.push_parent("while reading arguments", customasm::diagn::Span::new_dummy());
    assert!(parse_output_format(&mut report, "foo").is_err());
    let msgs = report.messages();
    assert_eq!(msgs.len(), 1);
    assert_eq!(msgs[0].descr, "while reading arguments");
    assert_eq!(msgs[0].inner.len(), 1);
    assert_eq!(msgs[0].inner[0].descr, "unknown format `foo`");
}

#[test]
fn list_format_strings_with_escapes() {
    let mut report = Report::new();
    match parse_output_format(&mut report, "list,before:\"\\n\",after:\"\\x41\\u{42}\\\"\\\\\",between:\"\\t\\0\"") {
        Ok(OutputFormat::List(opts)) => {
            assert_eq!(opts.str_before, "\n");
            assert_eq!(opts.str_after, "AB\"\\");
            assert_eq!(opts.str_between_groups, "\t\0");
        }
        _ => panic!("expected the list format"),
    }
    assert!(messages(&report).is_empty());

    assert!(parse_output_format(&mut report, "list,before:\"\\q\"").is_err());
    assert_eq!(messages(&report), vec!["invalid format argument `list,before:\"\\q\"`".to_string()]);

    let mut report = Report::new();
    assert!(parse_output_format(&mut report, "list,after:\"\\u{d800}\"").is_err());
    assert!(parse_output_format(&mut report, "list,after:\"\\u{}\"").is_err());
    assert!(parse_output_format(&mut report, "list,after:\"a\"b\"").is_err());
    assert_eq!(messages(&report).len(), 3);
}
