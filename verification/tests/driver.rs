use customasm::diagn::Report;
use customasm::driver::{command_from_parses, derive_output_filename, parse_command, parse_define_arg, DefineValue, GroupArgs};
use customasm::output_format::OutputFormat;

fn args(list: &[&str]) -> Vec<String> {
    list.iter().map(|s| s.to_string()).collect()
}

fn messages(report: &Report) -> Vec<String> {
    report.messages().iter().map(|m| m.descr.clone()).collect()
}

#[test]
fn one_output_with_format_and_file() {
    let mut report = Report::new();
    let cmd = parse_command(&mut report, &args(&["customasm", "main.asm", "-f", "hexstr", "-o", "out.txt"])).ok().unwrap();
    assert_eq!(cmd.input_filenames, vec!["main.asm".to_string()]);
    assert_eq!(cmd.output_groups.len(), 1);
    assert!(matches!(cmd.output_groups[0].format, Some(OutputFormat::HexStr)));
    assert_eq!(cmd.output_groups[0].output_filename, Some("out.txt".to_string()));
    assert!(!cmd.output_groups[0].printout);
    assert!(cmd.use_colors);
    assert!(!cmd.quiet);
    assert!(messages(&report).is_empty());
}

#[test]
fn default_format_and_derived_name() {
    let mut report = Report::new();
    let cmd = parse_command(&mut report, &args(&["customasm", "main.asm"])).ok().unwrap();
    assert!(matches!(cmd.output_groups[0].format, Some(OutputFormat::Binary)));
    assert_eq!(cmd.output_groups[0].output_filename, Some("main.bin".to_string()));

    let cmd = parse_command(&mut report, &args(&["customasm", "main.asm", "-p"])).ok().unwrap();
    assert!(matches!(cmd.output_groups[0].format, Some(OutputFormat::Annotated { base: 16, group: 2 })));
    assert!(cmd.output_groups[0].printout);
    assert_eq!(cmd.output_groups[0].output_filename, None);
}

#[test]
fn groups_between_double_dashes() {
    let mut report = Report::new();
    let cmd = parse_command(&mut report, &args(&["customasm", "a.asm", "-q", "--", "-f", "hexstr", "--", "-f", "mesen-mlb"]))
        .ok()
        .unwrap();
    assert_eq!(cmd.output_groups.len(), 3);
    assert_eq!(cmd.output_groups[0].output_filename, Some("a.bin".to_string()));
    assert_eq!(cmd.output_groups[1].output_filename, Some("a.txt".to_string()));
    assert_eq!(cmd.output_groups[2].output_filename, Some("a.mlb".to_string()));
    assert!(cmd.quiet);
}

#[test]
fn options_of_the_run() {
    let mut report = Report::new();
    let cmd = parse_command(
        &mut report,
        &args(&["customasm", "a.asm", "--color=off", "-t", "7", "-d", "A=1", "-d", "B", "-d", "C=-5", "-d", "D=false", "--debug-iters", "--debug-no-optimize-static"]),
    )
    .ok()
    .unwrap();
    assert!(!cmd.use_colors);
    assert_eq!(cmd.opts.max_iterations, Some(7));
    assert!(cmd.opts.debug_iterations);
    assert!(!cmd.opts.optimize_statically_known);
    assert!(cmd.opts.optimize_instruction_matching);
    let defs = &cmd.opts.driver_symbol_defs;
    assert_eq!(defs.len(), 4);
    assert_eq!(defs[0].name, "A");
    assert!(matches!(&defs[0].value, DefineValue::Integer { negative: false, digits } if digits == "1"));
    assert!(matches!(defs[1].value, DefineValue::Bool(true)));
    assert!(matches!(&defs[2].value, DefineValue::Integer { negative: true, digits } if digits == "5"));
    assert!(matches!(defs[3].value, DefineValue::Bool(false)));
}

#[test]
fn errors_on_the_command_line() {
    let mut report = Report::new();
    assert!(parse_command(&mut report, &args(&["customasm", "-f", "foo"])).is_err());
    assert_eq!(messages(&report), vec!["unknown format `foo`".to_string()]);

    let mut report = Report::new();
    assert!(parse_command(&mut report, &args(&["customasm", "--color=maybe"])).is_err());
    assert_eq!(messages(&report), vec!["invalid argument for `--color`".to_string()]);

    let mut report = Report::new();
    assert!(parse_command(&mut report, &args(&["customasm", "-t", "0"])).is_err());
    assert_eq!(messages(&report), vec!["invalid argument for `--iters`".to_string()]);

    let mut report = Report::new();
    assert!(parse_command(&mut report, &args(&["customasm", "-d", "A=1=2"])).is_err());
    assert_eq!(messages(&report), vec!["invalid define argument `A=1=2`".to_string()]);

    let mut report = Report::new();
    assert!(parse_command(&mut report, &args(&["customasm", "-z"])).is_err());
    assert_eq!(messages(&report), vec!["Unrecognized option: 'z'".to_string()]);

    let mut report = Report::new();
    assert!(parse_command(&mut report, &args(&["customasm", "main.bin"])).is_err());
    assert_eq!(messages(&report), vec!["cannot derive safe output filename".to_string()]);
}

#[test]
fn define_arguments() {
    let mut report = Report::new();
    let d = parse_define_arg(&mut report, "X").ok().unwrap();
    assert_eq!(d.name, "X");
    assert!(matches!(d.value, DefineValue::Bool(true)));
    let d = parse_define_arg(&mut report, "X=true").ok().unwrap();
    assert!(matches!(d.value, DefineValue::Bool(true)));
    let d = parse_define_arg(&mut report, "X=0x10").ok().unwrap();
    assert!(matches!(&d.value, DefineValue::Integer { negative: false, digits } if digits == "0x10"));
    assert!(messages(&report).is_empty());
    assert!(parse_define_arg(&mut report, "X=1=2").is_err());
    assert_eq!(messages(&report), vec!["invalid define argument `X=1=2`".to_string()]);
}

#[test]
fn derived_output_names() {
    let mut report = Report::new();
    assert_eq!(derive_output_filename(&mut report, &OutputFormat::Binary, "prog.asm").ok().unwrap(), "prog.bin");
    assert_eq!(derive_output_filename(&mut report, &OutputFormat::SymbolsMesenMlb, "prog.asm").ok().unwrap(), "prog.mlb");
    assert_eq!(derive_output_filename(&mut report, &OutputFormat::HexStr, "dir/prog").ok().unwrap(), "dir/prog.txt");
    assert!(messages(&report).is_empty());
    assert!(derive_output_filename(&mut report, &OutputFormat::HexStr, "prog.txt").is_err());
    assert_eq!(messages(&report), vec!["cannot derive safe output filename".to_string()]);
}

fn group() -> GroupArgs {
    GroupArgs {
        format: None,
        output: None,
        print: false,
        quiet: false,
        version: false,
        help: false,
        defines: Vec::new(),
        debug_iters: false,
        debug_no_optimize_static: false,
        debug_no_optimize_matcher: false,
        color: None,
        iters: None,
        free: Vec::new(),
    }
}

#[test]
fn build_from_given_option_values() {
    let mut report = Report::new();
    let mut a = group();
    a.free = vec!["x.asm".to_string()];
    a.version = true;
    let mut b = group();
    b.format = Some("annotated,base:2".to_string());
    b.print = true;
    b.color = Some(Some("on".to_string()));
    let cmd = command_from_parses(&mut report, &vec![Ok(a), Ok(b)]).ok().unwrap();
    assert!(cmd.show_version);
    assert!(!cmd.show_help);
    assert_eq!(cmd.input_filenames, vec!["x.asm".to_string()]);
    assert!(matches!(cmd.output_groups[0].format, Some(OutputFormat::Binary)));
    assert_eq!(cmd.output_groups[0].output_filename, Some("x.bin".to_string()));
    assert!(matches!(cmd.output_groups[1].format, Some(OutputFormat::Annotated { base: 2, group: 2 })));
    assert!(cmd.output_groups[1].printout);
    assert_eq!(cmd.output_groups[1].output_filename, None);
    assert!(messages(&report).is_empty());

    let mut c = group();
    c.color = Some(None);
    assert!(command_from_parses(&mut report, &vec![Ok(c)]).is_err());
    assert_eq!(messages(&report), vec!["invalid argument for `--color`".to_string()]);
}

#[test]
fn groups_are_read_in_order_with_their_parses() {
    let mut report = Report::new();
    let mut a = group();
    a.format = Some("foo".to_string());
    let parses = vec![Ok(a), Err("Unrecognized option: 'z'".to_string())];
    assert!(command_from_parses(&mut report, &parses).is_err());
    assert_eq!(messages(&report), vec!["unknown format `foo`".to_string()]);

    let mut report = Report::new();
    let parses = vec![Ok(group()), Err("Unrecognized option: 'z'".to_string())];
    assert!(command_from_parses(&mut report, &parses).is_err());
    assert_eq!(messages(&report), vec!["Unrecognized option: 'z'".to_string()]);
}

#[test]
fn plain_input_file_gives_binary_output() {
    let mut report = Report::new();
    let c = parse_command(&mut report, &args(&["customasm", "main.asm"])).ok().unwrap();
    assert_eq!(c.input_filenames, vec!["main.asm".to_string()]);
    assert_eq!(c.output_groups.len(), 1);
    assert!(matches!(c.output_groups[0].format, Some(OutputFormat::Binary)));
    assert!(!c.output_groups[0].printout);
    assert_eq!(c.output_groups[0].output_filename, Some("main.bin".to_string()));
    assert!(!c.quiet);
    assert!(c.use_colors);
    assert!(!c.show_help);
    assert_eq!(report.len(), 0);
}

#[test]
fn derived_names_from_stems() {
    let mut report = Report::new();
    assert_eq!(derive_output_filename(&mut report, &OutputFormat::Binary, "a.b.asm").ok().unwrap(), "a.b.bin");
    assert_eq!(derive_output_filename(&mut report, &OutputFormat::Binary, ".hidden").ok().unwrap(), ".hidden.bin");
    assert_eq!(derive_output_filename(&mut report, &OutputFormat::Binary, "noext").ok().unwrap(), "noext.bin");
    assert!(messages(&report).is_empty());
}

#[test]
fn define_values_must_be_numbers() {
    let mut report = Report::new();
    let d = parse_define_arg(&mut report, "X=1_000").ok().unwrap();
    assert!(matches!(&d.value, DefineValue::Integer { negative: false, digits } if digits == "1_000"));
    let d = parse_define_arg(&mut report, "X=-0b101").ok().unwrap();
    assert!(matches!(&d.value, DefineValue::Integer { negative: true, digits } if digits == "0b101"));
    let d = parse_define_arg(&mut report, "X=0o17").ok().unwrap();
    assert!(matches!(&d.value, DefineValue::Integer { negative: false, digits } if digits == "0o17"));
    assert!(messages(&report).is_empty());

    assert!(parse_define_arg(&mut report, "X=abc").is_err());
    assert!(parse_define_arg(&mut report, "Y=0b102").is_err());
    assert!(parse_define_arg(&mut report, "Z=-").is_err());
    assert!(parse_define_arg(&mut report, "W=").is_err());
    assert!(parse_define_arg(&mut report, "V=0x").is_err());
    assert_eq!(
        messages(&report),
        vec![
            "invalid value for define `X`".to_string(),
            "invalid value for define `Y`".to_string(),
            "invalid value for define `Z`".to_string(),
            "invalid value for define `W`".to_string(),
            "invalid value for define `V`".to_string(),
        ]
    );

    let mut report = Report::new();
    assert!(parse_command(&mut report, &args(&["customasm", "main.asm", "-d", "N=ten"])).is_err());
    assert_eq!(messages(&report), vec!["invalid value for define `N`".to_string()]);
}

#[test]
fn derived_names_keep_the_directory() {
    let mut report = Report::new();
    assert_eq!(derive_output_filename(&mut report, &OutputFormat::Binary, "src/main.asm").ok().unwrap(), "src/main.bin");
    assert_eq!(derive_output_filename(&mut report, &OutputFormat::HexStr, "a.b/c/prog").ok().unwrap(), "a.b/c/prog.txt");
    let c = parse_command(&mut report, &args(&["customasm", "src/main.asm"])).ok().unwrap();
    assert_eq!(c.output_groups[0].output_filename, Some("src/main.bin".to_string()));
    assert!(messages(&report).is_empty());
}
