//! The assembler's command line: groups of arguments separated by `--`,
//! each naming one output with its format and destination, together with
//! the options of the whole run.
use vstd::prelude::*;
use crate::diagn::{MessageView, Report, ReportView};
use crate::output_format::{FormatView, OutputFormat, parse_format, parse_output_format, reported};
use crate::text::{chars_to_string, hex_digit, hex_digit_value, parse_unsigned, parse_unsigned_chars, pieces_view, split_chars, split_on, str_chars, str_eq};

verus! {

/// The value given to a constant defined on the command line: a boolean,
/// or a number kept as the text of its digits for the assembler to read,
/// with its sign apart.
pub enum DefineValue {
    Bool(bool),
    Integer { negative: bool, digits: String },
}

/// A constant defined on the command line.
pub struct DriverSymbolDef {
    pub name: String,
    pub value: DefineValue,
}

/// The abstract value of a defined constant's value.
pub enum DefineValueView {
    Bool(bool),
    Integer { negative: bool, digits: Seq<char> },
}

/// The abstract value of a defined constant: its name and value.
pub struct DefineView {
    pub name: Seq<char>,
    pub value: DefineValueView,
}

impl View for DriverSymbolDef {
    type V = DefineView;

    open spec fn view(&self) -> DefineView {
        DefineView {
            name: self.name@,
            value: match self.value {
                DefineValue::Bool(b) => DefineValueView::Bool(b),
                DefineValue::Integer { negative, digits } => DefineValueView::Integer { negative, digits: digits@ },
            },
        }
    }
}

/// The message for a define argument with more than one `=`.
pub open spec fn invalid_define_message(raw: Seq<char>) -> Seq<char> {
    "invalid define argument `"@ + raw + "`"@
}

/// The message for a define whose value is not a number.
pub open spec fn invalid_value_message(name: Seq<char>) -> Seq<char> {
    "invalid value for define `"@ + name + "`"@
}

/// The base of a number written as `t`, and the length of the prefix that
/// names it: `0x` for 16, `0b` for 2, `0o` for 8, none for 10.
pub open spec fn number_radix(t: Seq<char>) -> (nat, int) {
    if t.len() >= 2 && t[0] == '0' && t[1] == 'x' {
        (16, 2)
    } else if t.len() >= 2 && t[0] == '0' && t[1] == 'b' {
        (2, 2)
    } else if t.len() >= 2 && t[0] == '0' && t[1] == 'o' {
        (8, 2)
    } else {
        (10, 0)
    }
}

/// Whether `c` is a digit in base `radix`.
pub open spec fn is_digit_in(c: char, radix: nat) -> bool {
    match hex_digit_value(c) {
        Some(d) => d < radix,
        None => false,
    }
}

/// Whether `t` is a number: after its prefix (`number_radix`), digits of
/// its base, at least one, with `_` anywhere among them.
pub open spec fn is_number_text(t: Seq<char>) -> bool {
    let (radix, p) = number_radix(t);
    &&& forall|i: int| p <= i < t.len() ==> t[i] == '_' || is_digit_in(#[trigger] t[i], radix)
    &&& exists|i: int| p <= i < t.len() && #[trigger] t[i] != '_'
}

/// The constant a `-d` argument defines: `name` alone is `true`;
/// `name=true` and `name=false` are booleans; `name=value` is a number
/// (`is_number_text`), a leading `-` being its sign, and any other value
/// an error; more than one `=` is an error.
pub open spec fn define_of(raw: Seq<char>) -> Result<DefineView, Seq<char>> {
    let parts = split_on(raw, '=');
    if parts.len() == 1 {
        Ok(DefineView { name: parts[0], value: DefineValueView::Bool(true) })
    } else if parts.len() != 2 {
        Err(invalid_define_message(raw))
    } else {
        let v = parts[1];
        if v == "true"@ {
            Ok(DefineView { name: parts[0], value: DefineValueView::Bool(true) })
        } else if v == "false"@ {
            Ok(DefineView { name: parts[0], value: DefineValueView::Bool(false) })
        } else {
            let negative = v.len() > 0 && v[0] == '-';
            let digits = if negative { v.drop_first() } else { v };
            if is_number_text(digits) {
                Ok(DefineView { name: parts[0], value: DefineValueView::Integer { negative, digits } })
            } else {
                Err(invalid_value_message(parts[0]))
            }
        }
    }
}

/// Whether two character vectors are equal.
fn same_chars(v: &Vec<char>, s: &str) -> (r: bool)
    ensures
        r == (v@ == s@),
{
    let w = str_chars(s);
    if v.len() != w.len() {
        return false;
    }
    let mut i: usize = 0;
    while i < v.len()
        invariant
            v@.len() == w@.len(),
            w@ == s@,
            i <= v@.len(),
            forall|k: int| 0 <= k < i ==> v@[k] == w@[k],
        decreases v.len() - i,
    {
        if v[i] != w[i] {
            return false;
        }
        i = i + 1;
    }
    assert(v@ =~= w@);
    true
}

/// The characters of `v` from position `from` on, as a string.
fn string_from(v: &Vec<char>, from: usize) -> (r: String)
    requires
        from <= v@.len(),
    ensures
        r@ == v@.skip(from as int),
{
    let mut out: Vec<char> = Vec::new();
    let mut i: usize = from;
    while i < v.len()
        invariant
            from <= i <= v@.len(),
            out@ == v@.subrange(from as int, i as int),
        decreases v.len() - i,
    {
        out.push(v[i]);
        i = i + 1;
        assert(out@ =~= v@.subrange(from as int, i as int));
    }
    assert(v@.subrange(from as int, v@.len() as int) =~= v@.skip(from as int));
    chars_to_string(&out)
}

/// Whether `t` is a number, as `is_number_text` says.
fn is_number_chars(t: &Vec<char>) -> (r: bool)
    ensures
        r == is_number_text(t@),
{
    let n = t.len();
    let (radix, p): (u32, usize) = if n >= 2 && t[0] == '0' && t[1] == 'x' {
        (16, 2)
    } else if n >= 2 && t[0] == '0' && t[1] == 'b' {
        (2, 2)
    } else if n >= 2 && t[0] == '0' && t[1] == 'o' {
        (8, 2)
    } else {
        (10, 0)
    };
    assert(number_radix(t@) == (radix as nat, p as int));
    let mut any_digit = false;
    let mut i: usize = p;
    while i < n
        invariant
            n == t@.len(),
            p <= i <= n,
            number_radix(t@) == (radix as nat, p as int),
            forall|k: int| p <= k < i ==> t@[k] == '_' || is_digit_in(#[trigger] t@[k], radix as nat),
            any_digit <==> exists|k: int| p <= k < i && #[trigger] t@[k] != '_',
        decreases n - i,
    {
        let c = t[i];
        if c != '_' {
            match hex_digit(c) {
                Some(d) => {
                    if d >= radix {
                        assert(!is_digit_in(t@[i as int], radix as nat));
                        return false;
                    }
                },
                None => {
                    assert(!is_digit_in(t@[i as int], radix as nat));
                    return false;
                },
            }
            any_digit = true;
        }
        i = i + 1;
    }
    any_digit
}

/// The message for a define whose value is not a number.
fn invalid_value_error(name: &String) -> (r: String)
    ensures
        r@ == invalid_value_message(name@),
{
    let mut msg: Vec<char> = Vec::new();
    crate::text::push_str(&mut msg, "invalid value for define `");
    crate::text::push_str(&mut msg, name.as_str());
    crate::text::push_str(&mut msg, "`");
    chars_to_string(&msg)
}

/// Reads a `-d` argument, reporting an argument with more than one `=`,
/// or a value that is neither a boolean nor a number, as an error.
pub fn parse_define_arg(report: &mut Report, raw_str: &str) -> (r: Result<DriverSymbolDef, ()>)
    ensures
        match define_of(raw_str@) {
            Ok(d) => r matches Ok(x) && x@ == d && final(report)@ == old(report)@,
            Err(e) => r is Err && final(report)@ == (ReportView {
                messages: old(report)@.messages + reported(old(report)@.parents, seq![e]),
                ..old(report)@
            }),
        },
{
    let raw = str_chars(raw_str);
    let parts = split_chars(&raw, '=');
    let ghost pv = pieces_view(parts@);
    assert(pv[0] == parts@[0]@);
    let name = string_from(&parts[0], 0);
    assert(parts@[0]@.skip(0) =~= parts@[0]@);
    if parts.len() == 1 {
        return Ok(DriverSymbolDef { name, value: DefineValue::Bool(true) });
    }
    if parts.len() != 2 {
        let mut msg: Vec<char> = Vec::new();
        crate::text::push_str(&mut msg, "invalid define argument `");
        crate::text::push_str(&mut msg, raw_str);
        crate::text::push_str(&mut msg, "`");
        let msg = chars_to_string(&msg);
        let ghost before = report@;
        report.error(msg.as_str());
        assert(report@.messages =~= before.messages + reported(before.parents, seq![msg@]));
        return Err(());
    }
    let v = &parts[1];
    assert(pv[1] == v@);
    let value = if same_chars(v, "true") {
        DefineValue::Bool(true)
    } else if same_chars(v, "false") {
        DefineValue::Bool(false)
    } else {
        let negative = v.len() > 0 && v[0] == '-';
        let from: usize = if negative { 1 } else { 0 };
        assert(v@.skip(0) =~= v@);
        assert(negative ==> v@.skip(1) =~= v@.drop_first());
        let digits = string_from(v, from);
        let digit_chars = str_chars(digits.as_str());
        if !is_number_chars(&digit_chars) {
            let msg = invalid_value_error(&name);
            let ghost before = report@;
            report.error(msg.as_str());
            assert(report@.messages =~= before.messages + reported(before.parents, seq![msg@]));
            return Err(());
        }
        DefineValue::Integer { negative, digits }
    };
    Ok(DriverSymbolDef { name, value })
}

/// One output the command line asks for: its format, whether it is
/// printed to the screen, and the file it is written to.
pub struct CommandOutput {
    pub format: Option<OutputFormat>,
    pub printout: bool,
    pub output_filename: Option<String>,
}

/// The assembler's options that the command line sets; a maximum number
/// of iterations not given leaves the assembler's own.
pub struct DriverOptions {
    pub max_iterations: Option<usize>,
    pub debug_iterations: bool,
    pub optimize_statically_known: bool,
    pub optimize_instruction_matching: bool,
    pub driver_symbol_defs: Vec<DriverSymbolDef>,
}

/// What the command line asks the assembler to do.
pub struct Command {
    pub input_filenames: Vec<String>,
    pub output_groups: Vec<CommandOutput>,
    pub opts: DriverOptions,
    pub quiet: bool,
    pub use_colors: bool,
    pub show_version: bool,
    pub show_help: bool,
}

/// The abstract value of an output.
pub struct OutputView {
    pub format: Option<FormatView>,
    pub printout: bool,
    pub output_filename: Option<Seq<char>>,
}

/// The abstract value of a command.
pub struct CommandView {
    pub input_filenames: Seq<Seq<char>>,
    pub output_groups: Seq<OutputView>,
    pub max_iterations: Option<usize>,
    pub debug_iterations: bool,
    pub optimize_statically_known: bool,
    pub optimize_instruction_matching: bool,
    pub defines: Seq<DefineView>,
    pub quiet: bool,
    pub use_colors: bool,
    pub show_version: bool,
    pub show_help: bool,
}

/// The abstract values of a list of outputs.
pub open spec fn outputs_view(s: Seq<CommandOutput>) -> Seq<OutputView> {
    s.map_values(|o: CommandOutput| o@)
}

/// The abstract values of a list of defined constants.
pub open spec fn defines_view(s: Seq<DriverSymbolDef>) -> Seq<DefineView> {
    s.map_values(|d: DriverSymbolDef| d@)
}

/// The abstract values of a list of strings.
pub open spec fn strings_view(s: Seq<String>) -> Seq<Seq<char>> {
    s.map_values(|x: String| x@)
}

impl View for CommandOutput {
    type V = OutputView;

    open spec fn view(&self) -> OutputView {
        OutputView {
            format: match self.format {
                Some(f) => Some(f@),
                None => None,
            },
            printout: self.printout,
            output_filename: match self.output_filename {
                Some(n) => Some(n@),
                None => None,
            },
        }
    }
}

impl View for Command {
    type V = CommandView;

    open spec fn view(&self) -> CommandView {
        CommandView {
            input_filenames: strings_view(self.input_filenames@),
            output_groups: outputs_view(self.output_groups@),
            max_iterations: self.opts.max_iterations,
            debug_iterations: self.opts.debug_iterations,
            optimize_statically_known: self.opts.optimize_statically_known,
            optimize_instruction_matching: self.opts.optimize_instruction_matching,
            defines: defines_view(self.opts.driver_symbol_defs@),
            quiet: self.quiet,
            use_colors: self.use_colors,
            show_version: self.show_version,
            show_help: self.show_help,
        }
    }
}

/// What one group of arguments holds, as the option parser read it: the
/// value of each option taking one, whether each flag was given, the
/// `--color` option with its value if it was given, and the free
/// arguments.
pub struct GroupArgs {
    pub format: Option<String>,
    pub output: Option<String>,
    pub print: bool,
    pub quiet: bool,
    pub version: bool,
    pub help: bool,
    pub defines: Vec<String>,
    pub debug_iters: bool,
    pub debug_no_optimize_static: bool,
    pub debug_no_optimize_matcher: bool,
    pub color: Option<Option<String>>,
    pub iters: Option<String>,
    pub free: Vec<String>,
}

/// The abstract value of a group of arguments.
pub struct GroupView {
    pub format: Option<Seq<char>>,
    pub output: Option<Seq<char>>,
    pub print: bool,
    pub quiet: bool,
    pub version: bool,
    pub help: bool,
    pub defines: Seq<Seq<char>>,
    pub debug_iters: bool,
    pub debug_no_optimize_static: bool,
    pub debug_no_optimize_matcher: bool,
    pub color: Option<Option<Seq<char>>>,
    pub iters: Option<Seq<char>>,
    pub free: Seq<Seq<char>>,
}

/// The abstract value of an optional string.
pub open spec fn opt_view(s: Option<String>) -> Option<Seq<char>> {
    match s {
        Some(x) => Some(x@),
        None => None,
    }
}

impl View for GroupArgs {
    type V = GroupView;

    open spec fn view(&self) -> GroupView {
        GroupView {
            format: opt_view(self.format),
            output: opt_view(self.output),
            print: self.print,
            quiet: self.quiet,
            version: self.version,
            help: self.help,
            defines: strings_view(self.defines@),
            debug_iters: self.debug_iters,
            debug_no_optimize_static: self.debug_no_optimize_static,
            debug_no_optimize_matcher: self.debug_no_optimize_matcher,
            color: match self.color {
                Some(c) => Some(opt_view(c)),
                None => None,
            },
            iters: opt_view(self.iters),
            free: strings_view(self.free@),
        }
    }
}

/// The command before any argument is read: no inputs or outputs, colors
/// on, both optimizations on.
pub open spec fn initial_command() -> CommandView {
    CommandView {
        input_filenames: Seq::empty(),
        output_groups: Seq::empty(),
        max_iterations: None,
        debug_iterations: false,
        optimize_statically_known: true,
        optimize_instruction_matching: true,
        defines: Seq::empty(),
        quiet: false,
        use_colors: true,
        show_version: false,
        show_help: false,
    }
}

/// The constants the first `n` define arguments give, or the first error.
pub open spec fn defines_of(ds: Seq<Seq<char>>, n: int) -> Result<Seq<DefineView>, Seq<char>>
    decreases n,
{
    if n <= 0 {
        Ok(Seq::empty())
    } else {
        match defines_of(ds, n - 1) {
            Err(e) => Err(e),
            Ok(v) => match define_of(ds[n - 1]) {
                Ok(d) => Ok(v.push(d)),
                Err(e) => Err(e),
            },
        }
    }
}

/// The message for a `--color` value other than `on` or `off`.
pub open spec fn color_message() -> Seq<char> {
    "invalid argument for `--color`"@
}

/// The message for a `--iters` value that is not a positive number.
pub open spec fn iters_message() -> Seq<char> {
    "invalid argument for `--iters`"@
}

/// The format a group asks for, or the errors reading it reports.
pub open spec fn group_format(g: GroupView) -> Result<Option<FormatView>, Seq<Seq<char>>> {
    match g.format {
        None => Ok(None),
        Some(f) => match parse_format(f).0 {
            Some(v) => Ok(Some(v)),
            None => Err(parse_format(f).1),
        },
    }
}

/// Whether colors are used after the group: as before when it has no
/// `--color`, on or off by its value, else an error.
pub open spec fn group_colors(c: CommandView, g: GroupView) -> Option<bool> {
    match g.color {
        None => Some(c.use_colors),
        Some(Some(v)) => if v == "on"@ {
            Some(true)
        } else if v == "off"@ {
            Some(false)
        } else {
            None
        },
        Some(None) => None,
    }
}

/// The maximum number of iterations after the group: as before when it
/// has no `--iters`, its positive value, else an error.
pub open spec fn group_iters(c: CommandView, g: GroupView) -> Option<Option<usize>> {
    match g.iters {
        None => Some(c.max_iterations),
        Some(t) => match parse_unsigned(t, usize::MAX as nat) {
            Some(n) => if n == 0 { None } else { Some(Some(n as usize)) },
            None => None,
        },
    }
}

/// The command after a group whose values were all read: its free
/// arguments are inputs, it adds one output, and its flags and values
/// combine with those before.
pub open spec fn committed(c: CommandView, g: GroupView, format: Option<FormatView>, ds: Seq<DefineView>, uc: bool, mi: Option<usize>) -> CommandView {
    CommandView {
        input_filenames: c.input_filenames + g.free,
        output_groups: c.output_groups.push(OutputView { format: format, printout: g.print, output_filename: g.output }),
        max_iterations: mi,
        debug_iterations: c.debug_iterations || g.debug_iters,
        optimize_statically_known: c.optimize_statically_known && !g.debug_no_optimize_static,
        optimize_instruction_matching: c.optimize_instruction_matching && !g.debug_no_optimize_matcher,
        defines: c.defines + ds,
        quiet: c.quiet || g.quiet,
        use_colors: uc,
        show_version: c.show_version || g.version,
        show_help: c.show_help || g.help,
    }
}

/// The command after reading one more group of arguments, or the errors
/// reported on the first problem: its format, then its defines, then
/// `--color`, then `--iters`.
pub open spec fn group_step(c: CommandView, g: GroupView) -> Result<CommandView, Seq<Seq<char>>> {
    match group_format(g) {
        Err(e) => Err(e),
        Ok(format) => match defines_of(g.defines, g.defines.len() as int) {
            Err(e) => Err(seq![e]),
            Ok(ds) => match group_colors(c, g) {
                None => Err(seq![color_message()]),
                Some(uc) => match group_iters(c, g) {
                    None => Err(seq![iters_message()]),
                    Some(mi) => Ok(committed(c, g, format, ds, uc, mi)),
                },
            },
        },
    }
}

/// The command after reading the first `n` groups, given the outcome of
/// parsing each (what it asks for, or the text of the parse failure), or
/// the errors of the first problem.
pub open spec fn parses_step(ps: Seq<Result<GroupView, Seq<char>>>, n: int) -> Result<CommandView, Seq<Seq<char>>>
    decreases n,
{
    if n <= 0 {
        Ok(initial_command())
    } else {
        match parses_step(ps, n - 1) {
            Err(e) => Err(e),
            Ok(c) => match ps[n - 1] {
                Err(t) => Err(seq![t]),
                Ok(g) => group_step(c, g),
            },
        }
    }
}

/// The output with its default format when it has none: the annotated
/// listing when printed, the binary otherwise.
pub open spec fn with_default_format(o: OutputView) -> OutputView {
    match o.format {
        Some(_) => o,
        None => OutputView {
            format: Some(if o.printout { FormatView::Annotated { base: 16, group: 2 } } else { FormatView::Binary }),
            ..o
        },
    }
}

/// The command with every output given its default format.
pub open spec fn with_default_formats(c: CommandView) -> CommandView {
    CommandView { output_groups: c.output_groups.map_values(|o: OutputView| with_default_format(o)), ..c }
}

/// Once reading defines fails, reading more fails the same way.
proof fn lemma_defines_err(ds: Seq<Seq<char>>, k: int, n: int)
    requires
        1 <= k <= n,
        defines_of(ds, k) is Err,
    ensures
        defines_of(ds, n) == defines_of(ds, k),
    decreases n - k,
{
    if k < n {
        lemma_defines_err(ds, k, n - 1);
    }
}

/// Once reading groups fails, reading more fails the same way.
proof fn lemma_parses_err(ps: Seq<Result<GroupView, Seq<char>>>, k: int, n: int)
    requires
        1 <= k <= n,
        parses_step(ps, k) is Err,
    ensures
        parses_step(ps, n) == parses_step(ps, k),
    decreases n - k,
{
    if k < n {
        lemma_parses_err(ps, k, n - 1);
    }
}

/// A copy of an optional string.
fn copy_opt(s: &Option<String>) -> (r: Option<String>)
    ensures
        opt_view(r) == opt_view(*s),
{
    match s {
        Some(x) => Some(x.clone()),
        None => None,
    }
}

/// Reports `descr` as an error and fails.
fn fail_with(report: &mut Report, descr: &str) -> (r: Result<(), ()>)
    ensures
        r is Err,
        final(report)@ == (ReportView {
            messages: old(report)@.messages + reported(old(report)@.parents, seq![descr@]),
            ..old(report)@
        }),
{
    let ghost before = report@;
    report.error(descr);
    assert(report@.messages =~= before.messages + reported(before.parents, seq![descr@]));
    Err(())
}

/// The format a group asks for, as `group_format` says, its errors
/// reported.
fn read_format(report: &mut Report, g: &GroupArgs) -> (r: Result<Option<OutputFormat>, ()>)
    ensures
        match group_format(g@) {
            Ok(f) => r matches Ok(x) && f == (match x {
                Some(v) => Some(v@),
                None => None,
            }) && final(report)@ == old(report)@,
            Err(e) => r is Err && final(report)@ == (ReportView {
                messages: old(report)@.messages + reported(old(report)@.parents, e),
                ..old(report)@
            }),
        },
{
    let ghost r0 = report@;
    match &g.format {
        None => Ok(None),
        Some(f) => {
            proof { crate::output_format::law_parse_fails_iff_reported(f@); }
            match parse_output_format(report, f.as_str()) {
                Ok(v) => {
                    assert(reported(r0.parents, parse_format(f@).1) =~= Seq::<MessageView>::empty());
                    assert(report@.messages =~= r0.messages);
                    Ok(Some(v))
                },
                Err(()) => Err(()),
            }
        },
    }
}

/// The constants a group defines, as `defines_of` says, the first error
/// reported.
fn read_defines(report: &mut Report, g: &GroupArgs) -> (r: Result<Vec<DriverSymbolDef>, ()>)
    ensures
        match defines_of(g@.defines, g@.defines.len() as int) {
            Ok(ds) => r matches Ok(x) && defines_view(x@) == ds && final(report)@ == old(report)@,
            Err(e) => r is Err && final(report)@ == (ReportView {
                messages: old(report)@.messages + reported(old(report)@.parents, seq![e]),
                ..old(report)@
            }),
        },
{
    let ghost gv = g@;
    let mut ds: Vec<DriverSymbolDef> = Vec::new();
    let n = g.defines.len();
    let mut i: usize = 0;
    assert(defines_view(ds@) =~= Seq::<DefineView>::empty());
    while i < n
        invariant
            gv == g@,
            n == g.defines@.len(),
            gv.defines == strings_view(g.defines@),
            i <= n,
            report@ == old(report)@,
            defines_of(gv.defines, i as int) == Ok::<Seq<DefineView>, Seq<char>>(defines_view(ds@)),
        decreases n - i,
    {
        assert(gv.defines[i as int] == g.defines@[i as int]@);
        match parse_define_arg(report, g.defines[i].as_str()) {
            Ok(d) => {
                let ghost before = defines_view(ds@);
                ds.push(d);
                assert(defines_view(ds@) =~= before.push(d@));
            },
            Err(()) => {
                proof { lemma_defines_err(gv.defines, i as int + 1, n as int); }
                return Err(());
            },
        }
        i = i + 1;
    }
    Ok(ds)
}

/// Whether colors are used after a group, as `group_colors` says, a bad
/// value reported.
fn read_colors(report: &mut Report, current: bool, g: &GroupArgs) -> (r: Result<bool, ()>)
    ensures
        match group_colors(CommandView { use_colors: current, ..initial_command() }, g@) {
            Some(b) => r == Ok::<bool, ()>(b) && final(report)@ == old(report)@,
            None => r is Err && final(report)@ == (ReportView {
                messages: old(report)@.messages + reported(old(report)@.parents, seq![color_message()]),
                ..old(report)@
            }),
        },
{
    match &g.color {
        None => Ok(current),
        Some(Some(v)) => {
            if str_eq(v.as_str(), "on") {
                Ok(true)
            } else if str_eq(v.as_str(), "off") {
                Ok(false)
            } else {
                let _ = fail_with(report, "invalid argument for `--color`");
                Err(())
            }
        },
        Some(None) => {
            let _ = fail_with(report, "invalid argument for `--color`");
            Err(())
        },
    }
}

/// The maximum number of iterations after a group, as `group_iters`
/// says, a bad value reported.
fn read_iters(report: &mut Report, current: Option<usize>, g: &GroupArgs) -> (r: Result<Option<usize>, ()>)
    ensures
        match group_iters(CommandView { max_iterations: current, ..initial_command() }, g@) {
            Some(m) => r == Ok::<Option<usize>, ()>(m) && final(report)@ == old(report)@,
            None => r is Err && final(report)@ == (ReportView {
                messages: old(report)@.messages + reported(old(report)@.parents, seq![iters_message()]),
                ..old(report)@
            }),
        },
{
    match &g.iters {
        None => Ok(current),
        Some(t) => {
            let tc = str_chars(t.as_str());
            match parse_unsigned_chars(&tc, usize::MAX as u64) {
                Some(v) => {
                    if v == 0 {
                        let _ = fail_with(report, "invalid argument for `--iters`");
                        Err(())
                    } else {
                        Ok(Some(v as usize))
                    }
                },
                None => {
                    let _ = fail_with(report, "invalid argument for `--iters`");
                    Err(())
                },
            }
        },
    }
}

/// Reads one more group of arguments into `cmd`, as `group_step` says.
#[verifier::spinoff_prover]
fn apply_group(cmd: &mut Command, report: &mut Report, g: &GroupArgs) -> (r: Result<(), ()>)
    ensures
        match group_step(old(cmd)@, g@) {
            Ok(c) => r is Ok && final(cmd)@ == c && final(report)@ == old(report)@,
            Err(e) => r is Err && final(report)@ == (ReportView {
                messages: old(report)@.messages + reported(old(report)@.parents, e),
                ..old(report)@
            }),
        },
{
    let format = match read_format(report, g) {
        Ok(f) => f,
        Err(()) => {
            return Err(());
        },
    };
    let ds = match read_defines(report, g) {
        Ok(d) => d,
        Err(()) => {
            return Err(());
        },
    };
    let use_colors = match read_colors(report, cmd.use_colors, g) {
        Ok(b) => b,
        Err(()) => {
            return Err(());
        },
    };
    let max_iterations = match read_iters(report, cmd.opts.max_iterations, g) {
        Ok(m) => m,
        Err(()) => {
            return Err(());
        },
    };
    commit_group(cmd, g, format, ds, use_colors, max_iterations);
    Ok(())
}

/// Adds what a group asked for, as `committed` says.
fn commit_group(cmd: &mut Command, g: &GroupArgs, format: Option<OutputFormat>, ds: Vec<DriverSymbolDef>, use_colors: bool, max_iterations: Option<usize>)
    ensures
        final(cmd)@ == committed(old(cmd)@, g@, match format {
            Some(f) => Some(f@),
            None => None,
        }, defines_view(ds@), use_colors, max_iterations),
{
    let ghost c0 = cmd@;
    let ghost gv = g@;
    let ghost fv = match format {
        Some(ref f) => Some(f@),
        None => None,
    };
    let ghost ov = OutputView { format: fv, printout: g.print, output_filename: opt_view(g.output) };
    let ghost dsv = defines_view(ds@);
    let mut ds = ds;
    add_inputs(cmd, &g.free);
    let out = CommandOutput { format: format, printout: g.print, output_filename: copy_opt(&g.output) };
    let ghost outs0 = outputs_view(cmd.output_groups@);
    cmd.output_groups.push(out);
    assert(outputs_view(cmd.output_groups@) =~= outs0.push(ov));
    let ghost defs0 = defines_view(cmd.opts.driver_symbol_defs@);
    cmd.opts.driver_symbol_defs.append(&mut ds);
    assert(defines_view(cmd.opts.driver_symbol_defs@) =~= defs0 + dsv);
    cmd.opts.max_iterations = max_iterations;
    cmd.opts.debug_iterations = cmd.opts.debug_iterations || g.debug_iters;
    cmd.opts.optimize_statically_known = cmd.opts.optimize_statically_known && !g.debug_no_optimize_static;
    cmd.opts.optimize_instruction_matching = cmd.opts.optimize_instruction_matching && !g.debug_no_optimize_matcher;
    cmd.quiet = cmd.quiet || g.quiet;
    cmd.use_colors = use_colors;
    cmd.show_version = cmd.show_version || g.version;
    cmd.show_help = cmd.show_help || g.help;
    assert(cmd@ =~= committed(c0, gv, fv, dsv, use_colors, max_iterations));
}

/// Appends copies of `free` to the command's input files.
fn add_inputs(cmd: &mut Command, free: &Vec<String>)
    ensures
        strings_view(final(cmd).input_filenames@) == strings_view(old(cmd).input_filenames@) + strings_view(free@),
        final(cmd).output_groups@ == old(cmd).output_groups@,
        final(cmd).opts == old(cmd).opts,
        final(cmd).quiet == old(cmd).quiet,
        final(cmd).use_colors == old(cmd).use_colors,
        final(cmd).show_version == old(cmd).show_version,
        final(cmd).show_help == old(cmd).show_help,
{
    let ghost fv = strings_view(free@);
    let ghost inputs0 = strings_view(cmd.input_filenames@);
    let nf = free.len();
    let mut k: usize = 0;
    while k < nf
        invariant
            fv == strings_view(free@),
            nf == free@.len(),
            k <= nf,
            strings_view(cmd.input_filenames@) == inputs0 + fv.take(k as int),
            cmd.output_groups@ == old(cmd).output_groups@,
            cmd.opts == old(cmd).opts,
            cmd.quiet == old(cmd).quiet,
            cmd.use_colors == old(cmd).use_colors,
            cmd.show_version == old(cmd).show_version,
            cmd.show_help == old(cmd).show_help,
        decreases nf - k,
    {
        let ghost before = strings_view(cmd.input_filenames@);
        cmd.input_filenames.push(free[k].clone());
        assert(strings_view(cmd.input_filenames@) =~= before.push(fv[k as int]));
        assert(fv.take(k + 1) =~= fv.take(k as int).push(fv[k as int]));
        k = k + 1;
    }
    assert(fv.take(nf as int) =~= fv);
}

/// The output with its default format when it has none.
fn default_format(o: CommandOutput) -> (r: CommandOutput)
    ensures
        r@ == with_default_format(o@),
{
    match o.format {
        Some(_) => o,
        None => {
            let f = if o.printout { OutputFormat::Annotated { base: 16, group: 2 } } else { OutputFormat::Binary };
            CommandOutput { format: Some(f), printout: o.printout, output_filename: o.output_filename }
        },
    }
}

/// Gives every output of `cmd` its default format.
fn apply_default_formats(cmd: &mut Command)
    ensures
        final(cmd)@ == with_default_formats(old(cmd)@),
{
    let ghost c0 = cmd@;
    let ghost orig = outputs_view(cmd.output_groups@);
    let mut rest: Vec<CommandOutput> = Vec::new();
    std::mem::swap(&mut rest, &mut cmd.output_groups);
    let n = rest.len();
    let mut k: usize = 0;
    assert(outputs_view(cmd.output_groups@) =~= Seq::<OutputView>::empty());
    assert(outputs_view(rest@) =~= orig.skip(0));
    while k < n
        invariant
            n == orig.len(),
            k <= n,
            rest@.len() == n - k,
            outputs_view(rest@) == orig.skip(k as int),
            outputs_view(cmd.output_groups@)
                == orig.take(k as int).map_values(|o: OutputView| with_default_format(o)),
            cmd.input_filenames@ == old(cmd).input_filenames@,
            cmd.opts == old(cmd).opts,
            cmd.quiet == old(cmd).quiet,
            cmd.use_colors == old(cmd).use_colors,
            cmd.show_version == old(cmd).show_version,
            cmd.show_help == old(cmd).show_help,
        decreases n - k,
    {
        let ghost before = outputs_view(cmd.output_groups@);
        let ghost rv = outputs_view(rest@);
        assert(rv[0] == orig[k as int]);
        let ghost rest0 = rest@;
        let o = rest.remove(0);
        assert(rest@ == rest0.remove(0));
        assert forall|j: int| 0 <= j < rest@.len() implies #[trigger] outputs_view(rest@)[j] == orig.skip(k + 1)[j] by {
            assert(rest@[j] == rest0[j + 1]);
            assert(rv[j + 1] == rest0[j + 1]@);
        }
        assert(outputs_view(rest@) =~= orig.skip(k + 1));
        let d = default_format(o);
        cmd.output_groups.push(d);
        assert(outputs_view(cmd.output_groups@) =~= before.push(with_default_format(orig[k as int])));
        assert(orig.take(k + 1).map_values(|o: OutputView| with_default_format(o))
            =~= orig.take(k as int).map_values(|o: OutputView| with_default_format(o)).push(with_default_format(orig[k as int])));
        k = k + 1;
    }
    assert(orig.take(n as int) =~= orig);
    assert(cmd@ =~= with_default_formats(c0));
}

/// The outcomes of parsing groups of arguments, by their abstract values.
pub open spec fn parses_view(ps: Seq<Result<GroupArgs, String>>) -> Seq<Result<GroupView, Seq<char>>> {
    ps.map_values(|p: Result<GroupArgs, String>| match p {
        Ok(g) => Ok(g@),
        Err(t) => Err(t@),
    })
}

/// Whether an output of `c` needs a file name made for it: it is not
/// printed, has none, and there is an input file to name it after.
pub open spec fn needs_name(c: CommandView, o: OutputView) -> bool {
    !o.printout && o.output_filename is None && c.input_filenames.len() >= 1
}

/// Whether some output of `c` needs a file name made for it.
pub open spec fn any_needs_name(c: CommandView) -> bool {
    exists|i: int| 0 <= i < c.output_groups.len() && needs_name(c, #[trigger] c.output_groups[i])
}

/// Whether the names made for the outputs of `c` are known here: none is
/// needed, or the first input is a plain path.
pub open spec fn naming_known(c: CommandView) -> bool {
    !any_needs_name(c) || is_plain_path(c.input_filenames[0])
}

/// The output `o` of `c` with a file name made for it where it needs one:
/// the first input's name with the extension of the output's format, as
/// `safe_name` takes it; none when that is the input's own name.
pub open spec fn output_named(c: CommandView, o: OutputView) -> Option<OutputView> {
    if needs_name(c, o) {
        match o.format {
            Some(f) => match safe_name(path_with_ext(c.input_filenames[0], extension_for(f)), c.input_filenames[0]) {
                Some(n) => Some(OutputView { output_filename: Some(n), ..o }),
                None => None,
            },
            None => None,
        }
    } else {
        Some(o)
    }
}

/// The first `n` outputs of `c`, each named as `output_named` says; none
/// when a name fails.
pub open spec fn outputs_named(c: CommandView, n: int) -> Option<Seq<OutputView>>
    decreases n,
{
    if n <= 0 {
        Some(Seq::empty())
    } else {
        match outputs_named(c, n - 1) {
            None => None,
            Some(os) => match output_named(c, c.output_groups[n - 1]) {
                None => None,
                Some(o) => Some(os.push(o)),
            },
        }
    }
}

/// The command with every output that needs one given a file name; none
/// when a name fails.
pub open spec fn named_command(c: CommandView) -> Option<CommandView> {
    match outputs_named(c, c.output_groups.len() as int) {
        Some(os) => Some(CommandView { output_groups: os, ..c }),
        None => None,
    }
}

/// Once naming fails, naming more outputs fails.
proof fn lemma_named_none(c: CommandView, k: int, n: int)
    requires
        1 <= k <= n,
        outputs_named(c, k) is None,
    ensures
        outputs_named(c, n) is None,
    decreases n - k,
{
    if k < n {
        lemma_named_none(c, k, n - 1);
    }
}

/// Whether `r`, with the report going from `before` to `after`, is what
/// reading groups of arguments whose parses are `ps` gives: the first
/// problem reported, and fails; else every output gets its default format
/// and, where it needs one, a file name after the first input, a name
/// that would be the input's own reported as a failure.
pub open spec fn command_outcome(ps: Seq<Result<GroupView, Seq<char>>>, r: Result<Command, ()>, before: ReportView, after: ReportView) -> bool {
    match parses_step(ps, ps.len() as int) {
        Err(e) => r is Err && after == (ReportView { messages: before.messages + reported(before.parents, e), ..before }),
        Ok(c0) => {
            let c1 = with_default_formats(c0);
            &&& (r matches Ok(c) ==> names_filled(c1, c@) && outputs_complete(c@) && after == before)
            &&& (r is Err ==> after == (ReportView {
                messages: before.messages + reported(before.parents, seq![unsafe_name_message()]),
                ..before
            }))
            &&& (naming_known(c1) ==> match named_command(c1) {
                Some(c2) => r matches Ok(c) && c@ == c2,
                None => r is Err,
            })
        },
    }
}

/// The command that groups of arguments ask for, given the outcome of
/// parsing each: the groups are read in order as `group_step` says, a
/// failed parse reporting its text; then every output gets its default
/// format and, unless printed, a file name after the first input.
pub fn command_from_parses(report: &mut Report, parses: &Vec<Result<GroupArgs, String>>) -> (r: Result<Command, ()>)
    ensures
        command_outcome(parses_view(parses@), r, old(report)@, final(report)@),
{
    let ghost ps = parses_view(parses@);
    let mut cmd = Command {
        input_filenames: Vec::new(),
        output_groups: Vec::new(),
        opts: DriverOptions {
            max_iterations: None,
            debug_iterations: false,
            optimize_statically_known: true,
            optimize_instruction_matching: true,
            driver_symbol_defs: Vec::new(),
        },
        quiet: false,
        use_colors: true,
        show_version: false,
        show_help: false,
    };
    assert(strings_view(cmd.input_filenames@) =~= Seq::<Seq<char>>::empty());
    assert(outputs_view(cmd.output_groups@) =~= Seq::<OutputView>::empty());
    assert(defines_view(cmd.opts.driver_symbol_defs@) =~= Seq::<DefineView>::empty());
    assert(cmd@ == initial_command());
    let n = parses.len();
    let mut i: usize = 0;
    while i < n
        invariant
            ps == parses_view(parses@),
            n == parses@.len(),
            i <= n,
            report@ == old(report)@,
            parses_step(ps, i as int) == Ok::<CommandView, Seq<Seq<char>>>(cmd@),
        decreases n - i,
    {
        match &parses[i] {
            Err(t) => {
                assert(ps[i as int] == Err::<GroupView, Seq<char>>(t@));
                let _ = fail_with(report, t.as_str());
                proof { lemma_parses_err(ps, i as int + 1, n as int); }
                return Err(());
            },
            Ok(g) => {
                assert(ps[i as int] == Ok::<GroupView, Seq<char>>(g@));
                match apply_group(&mut cmd, report, g) {
                    Ok(()) => {},
                    Err(()) => {
                        proof { lemma_parses_err(ps, i as int + 1, n as int); }
                        return Err(());
                    },
                }
            },
        }
        i = i + 1;
    }
    let ghost c0 = cmd@;
    apply_default_formats(&mut cmd);
    assert forall|k: int| 0 <= k < cmd@.output_groups.len() implies (#[trigger] cmd@.output_groups[k]).format is Some by {
        assert(cmd@.output_groups[k] == with_default_format(c0.output_groups[k]));
    }
    match name_outputs(report, &mut cmd) {
        Ok(()) => Ok(cmd),
        Err(()) => Err(()),
    }
}

/// The extension of the file an output of format `f` is written to.
pub open spec fn extension_for(f: FormatView) -> Seq<char> {
    match f {
        FormatView::Binary => "bin"@,
        FormatView::SymbolsMesenMlb => "mlb"@,
        _ => "txt"@,
    }
}

/// The extension of the file an output of format `format` is written to.
fn extension_of(format: &OutputFormat) -> (r: &'static str)
    ensures
        r@ == extension_for(format@),
{
    match format {
        OutputFormat::Binary => "bin",
        OutputFormat::SymbolsMesenMlb => "mlb",
        _ => "txt",
    }
}

/// Whether `s` is a file name that every platform reads as one plain
/// component: not empty, not `.` or `..`, and holding no `/`, `\` or `:`.
pub open spec fn is_plain_file_name(s: Seq<char>) -> bool {
    &&& s.len() > 0
    &&& s != "."@
    &&& s != ".."@
    &&& !s.contains('/')
    &&& !s.contains('\\')
    &&& !s.contains(':')
}

/// The index of the last `.` in `s`, or -1 when there is none.
pub open spec fn last_dot(s: Seq<char>) -> int
    decreases s.len(),
{
    if s.len() == 0 {
        -1
    } else if s.last() == '.' {
        s.len() - 1
    } else {
        last_dot(s.drop_last())
    }
}

/// The stem of a file name: the part before its last `.`, or the whole
/// name when it has no `.` past its first character.
pub open spec fn file_stem(s: Seq<char>) -> Seq<char> {
    if last_dot(s) > 0 {
        s.take(last_dot(s))
    } else {
        s
    }
}

/// A plain file name with its extension set to `ext`: the stem, a `.` and
/// `ext`.
pub open spec fn with_extension(name: Seq<char>, ext: Seq<char>) -> Seq<char> {
    file_stem(name) + "."@ + ext
}

/// The index of the last `/` in `s`, or -1 when there is none.
pub open spec fn last_slash(s: Seq<char>) -> int
    decreases s.len(),
{
    if s.len() == 0 {
        -1
    } else if s.last() == '/' {
        s.len() - 1
    } else {
        last_slash(s.drop_last())
    }
}

/// The directory part of a path: everything up to its last `/`, that
/// included; empty when it has none.
pub open spec fn dir_prefix(s: Seq<char>) -> Seq<char> {
    s.take(last_slash(s) + 1)
}

/// The final component of a path: everything after its last `/`.
pub open spec fn final_component(s: Seq<char>) -> Seq<char> {
    s.skip(last_slash(s) + 1)
}

/// Whether every platform splits `s` at its `/` alone, with a plain file
/// name last: it holds no `\` or `:`, does not open with `//`, and its
/// final component is a plain file name.
pub open spec fn is_plain_path(s: Seq<char>) -> bool {
    &&& !s.contains('\\')
    &&& !s.contains(':')
    &&& !(s.len() >= 2 && s[0] == '/' && s[1] == '/')
    &&& is_plain_file_name(final_component(s))
}

/// A plain path with the extension of its file name set to `ext`: the
/// directory part, then the file name with that extension.
pub open spec fn path_with_ext(s: Seq<char>, ext: Seq<char>) -> Seq<char> {
    dir_prefix(s) + with_extension(final_component(s), ext)
}

/// `std::path::PathBuf::set_extension` on `path`, read back as text: the
/// path with the extension of its file name replaced by `ext`, or added.
/// The library panics on an extension that holds a path separator, which
/// `requires` leaves out. How a path splits into components differs
/// between platforms, so the result is stated only for a plain path and
/// a non-empty extension: `/` separates components everywhere, and the
/// library documents that `set_extension` changes only the file name,
/// the final component, replacing what follows its stem (`file_stem`)
/// with a `.` and the extension.
#[verifier::external_body]
fn path_with_extension(path: &str, ext: &str) -> (r: String)
    requires
        !ext@.contains('/'),
        !ext@.contains('\\'),
    ensures
        is_plain_path(path@) && ext@.len() > 0 ==> r@ == path_with_ext(path@, ext@),
{
    let mut p = std::path::PathBuf::from(path);
    p.set_extension(ext);
    p.to_string_lossy().into_owned()
}

/// The output file name made from `derived`, a name derived from the input
/// file `input`: every `\` turned into `/`; none when that is the input's
/// own name.
pub open spec fn safe_name(derived: Seq<char>, input: Seq<char>) -> Option<Seq<char>> {
    let n = derived.map_values(|c: char| if c == '\\' { '/' } else { c });
    if n == input {
        None
    } else {
        Some(n)
    }
}

/// The message for an output file name that would overwrite the input.
pub open spec fn unsafe_name_message() -> Seq<char> {
    "cannot derive safe output filename"@
}

/// Checks a name derived for an output as `safe_name` says, reporting a
/// name that would overwrite the input.
pub fn safe_output_filename(report: &mut Report, derived: &str, input_filename: &str) -> (r: Result<String, ()>)
    ensures
        match safe_name(derived@, input_filename@) {
            Some(n) => r matches Ok(x) && x@ == n && final(report)@ == old(report)@,
            None => r is Err && final(report)@ == (ReportView {
                messages: old(report)@.messages + reported(old(report)@.parents, seq![unsafe_name_message()]),
                ..old(report)@
            }),
        },
{
    let d = str_chars(derived);
    let mut out: Vec<char> = Vec::new();
    let mut i: usize = 0;
    while i < d.len()
        invariant
            d@ == derived@,
            i <= d@.len(),
            out@ == d@.take(i as int).map_values(|c: char| if c == '\\' { '/' } else { c }),
        decreases d.len() - i,
    {
        let c = d[i];
        out.push(if c == '\\' { '/' } else { c });
        i = i + 1;
        assert(out@ =~= d@.take(i as int).map_values(|c: char| if c == '\\' { '/' } else { c }));
    }
    assert(d@.take(d@.len() as int) =~= d@);
    let name = chars_to_string(&out);
    if str_eq(name.as_str(), input_filename) {
        let _ = fail_with(report, "cannot derive safe output filename");
        return Err(());
    }
    Ok(name)
}

/// The name of the file an output of format `format` is written to when
/// none is given: the first input file's name with the format's extension,
/// `\` turned into `/`. Whatever the path library makes of the name, the
/// result is never the input's own name, and holds no `\`; a name equal
/// to the input's is reported and fails. For a plain path the name is
/// its directory part, then its file name's stem with the extension.
pub fn derive_output_filename(report: &mut Report, format: &OutputFormat, input_filename: &str) -> (r: Result<String, ()>)
    ensures
        is_plain_path(input_filename@) ==> match safe_name(path_with_ext(input_filename@, extension_for(format@)), input_filename@) {
            Some(n) => r matches Ok(x) && x@ == n,
            None => r is Err,
        },
        r matches Ok(x) ==> x@ != input_filename@ && !x@.contains('\\') && final(report)@ == old(report)@,
        r is Err ==> final(report)@ == (ReportView {
            messages: old(report)@.messages + reported(old(report)@.parents, seq![unsafe_name_message()]),
            ..old(report)@
        }),
{
    let extension = extension_of(format);
    proof {
        reveal_strlit("bin");
        reveal_strlit("mlb");
        reveal_strlit("txt");
    }
    let derived = path_with_extension(input_filename, extension);
    let r = safe_output_filename(report, derived.as_str(), input_filename);
    proof {
        if let Ok(ref x) = r {
            let n = derived@.map_values(|c: char| if c == '\\' { '/' } else { c });
            assert(x@ == n);
            if x@.contains('\\') {
                let k = choose|k: int| 0 <= k < x@.len() && x@[k] == '\\';
                assert(n[k] == (if derived@[k] == '\\' { '/' } else { derived@[k] }));
            }
        }
    }
    r
}

#[verifier::external_type_specification]
#[verifier::external_body]
pub struct ExOptions(getopts::Options);

#[verifier::external_type_specification]
#[verifier::external_body]
pub struct ExMatches(getopts::Matches);

#[verifier::external_type_specification]
#[verifier::external_body]
pub struct ExFail(getopts::Fail);

/// The declaration of one option: its short and its long name (either may
/// be empty), whether it takes a value, and how often it may be given.
pub type OptionDecl = (Seq<char>, Seq<char>, ValueUse, Occurrence);

/// What an option set holds: the options it declares, in order.
pub uninterp spec fn declared_options(opts: getopts::Options) -> Seq<OptionDecl>;

/// Whether an option set parses in getopts' default style: free arguments
/// may stand between options, and only `--` opens a long option.
pub uninterp spec fn default_style(opts: getopts::Options) -> bool;

/// The names the options of `ds` are known by: the short and the long name
/// of each, where given.
pub open spec fn decl_names(ds: Seq<OptionDecl>) -> Set<Seq<char>>
    decreases ds.len(),
{
    if ds.len() == 0 {
        Set::empty()
    } else {
        decl_names(ds.drop_last()).union(names_of(ds.last().0, ds.last().1))
    }
}

/// The names of the options an option set declares.
pub open spec fn declared_names(opts: getopts::Options) -> Set<Seq<char>> {
    decl_names(declared_options(opts))
}

/// What getopts' parse of `args` gives for options declared as `ds`, in
/// the default style: for each name an option is known by, its
/// occurrences in order (as `option_occurrences` reads them), and the free
/// arguments; or the text of the failure.
pub uninterp spec fn option_parse(ds: Seq<OptionDecl>, args: Seq<Seq<char>>) -> Result<(Map<Seq<char>, Seq<Option<Seq<char>>>>, Seq<Seq<char>>), Seq<char>>;

/// The text a parse failure displays.
pub uninterp spec fn fail_text(f: getopts::Fail) -> Seq<char>;

/// The names of the options known to the parse that gave `m`.
pub uninterp spec fn known_names(m: getopts::Matches) -> Set<Seq<char>>;

/// What a parse holds: for each option name it knows, short or long, the
/// occurrences of that option in the order they were given, each the
/// value given with it, or `None` where the option took no value.
pub uninterp spec fn option_occurrences(m: getopts::Matches) -> Map<Seq<char>, Seq<Option<Seq<char>>>>;

/// The free arguments of a parse: those that are no option or option value.
pub uninterp spec fn free_of(m: getopts::Matches) -> Seq<Seq<char>>;

/// The values among `occ`, in order, leaving out the occurrences without one.
pub open spec fn given_values(occ: Seq<Option<Seq<char>>>) -> Seq<Seq<char>>
    decreases occ.len(),
{
    if occ.len() == 0 {
        Seq::empty()
    } else {
        match occ[0] {
            Some(v) => seq![v] + given_values(occ.drop_first()),
            None => given_values(occ.drop_first()),
        }
    }
}

/// The value of the first occurrence in `occ`, if there is one and it has
/// a value.
pub open spec fn first_value(occ: Seq<Option<Seq<char>>>) -> Option<Seq<char>> {
    if occ.len() > 0 {
        occ[0]
    } else {
        None
    }
}

/// Whether every character of `s` is ASCII.
pub open spec fn is_ascii_text(s: Seq<char>) -> bool {
    forall|i: int| 0 <= i < s.len() ==> (#[trigger] s[i] as u32) < 128
}

/// Whether getopts accepts `short` and `long` as the names of an option: a
/// short name of at most one character and a long name of none or more
/// than one, both ASCII, not both empty.
pub open spec fn valid_option_names(short: Seq<char>, long: Seq<char>) -> bool {
    is_ascii_text(short) && is_ascii_text(long) && short.len() <= 1 && long.len() != 1 && (short.len() > 0 || long.len() > 0)
}

/// The names given: each of `short` and `long` that is not empty.
pub open spec fn names_of(short: Seq<char>, long: Seq<char>) -> Set<Seq<char>> {
    (if short.len() > 0 { set![short] } else { Set::empty() }).union(if long.len() > 0 { set![long] } else { Set::empty() })
}

/// Whether an option takes a value.
pub enum ValueUse {
    Required,
    Forbidden,
    Optional,
}

/// How often an option may be given.
pub enum Occurrence {
    Required,
    Optional,
    Multiple,
}

/// `getopts::Options::new`: claims the new set declares no option and
/// parses in the default style.
#[verifier::external_body]
fn new_options() -> (r: getopts::Options)
    ensures
        declared_options(r) == Seq::<OptionDecl>::empty(),
        default_style(r),
{
    getopts::Options::new()
}

/// `getopts::Options::optopt`: claims an option that takes a value and
/// may be given once is declared after those before, the style
/// unchanged. The library panics on names of other lengths, which
/// `requires` leaves out.
#[verifier::external_body]
fn declare_optopt(opts: &mut getopts::Options, short: &str, long: &str, desc: &str, hint: &str)
    requires
        valid_option_names(short@, long@),
    ensures
        declared_options(*final(opts)) == declared_options(*old(opts)).push((short@, long@, ValueUse::Required, Occurrence::Optional)),
        default_style(*final(opts)) == default_style(*old(opts)),
{
    opts.optopt(short, long, desc, hint);
}

/// `getopts::Options::optflag`: claims a flag, which takes no value and
/// may be given once, is declared after those before, the style
/// unchanged.
#[verifier::external_body]
fn declare_optflag(opts: &mut getopts::Options, short: &str, long: &str, desc: &str)
    requires
        valid_option_names(short@, long@),
    ensures
        declared_options(*final(opts)) == declared_options(*old(opts)).push((short@, long@, ValueUse::Forbidden, Occurrence::Optional)),
        default_style(*final(opts)) == default_style(*old(opts)),
{
    opts.optflag(short, long, desc);
}

/// `getopts::Options::opt`: claims the option is declared after those
/// before, as `value` and `occur` say, the style unchanged.
#[verifier::external_body]
fn declare_opt(opts: &mut getopts::Options, short: &str, long: &str, desc: &str, hint: &str, value: ValueUse, occur: Occurrence)
    requires
        valid_option_names(short@, long@),
    ensures
        declared_options(*final(opts)) == declared_options(*old(opts)).push((short@, long@, value, occur)),
        default_style(*final(opts)) == default_style(*old(opts)),
{
    let hasarg = match value {
        ValueUse::Required => getopts::HasArg::Yes,
        ValueUse::Forbidden => getopts::HasArg::No,
        ValueUse::Optional => getopts::HasArg::Maybe,
    };
    let occur = match occur {
        Occurrence::Required => getopts::Occur::Req,
        Occurrence::Optional => getopts::Occur::Optional,
        Occurrence::Multiple => getopts::Occur::Multi,
    };
    opts.opt(short, long, desc, hint, hasarg, occur);
}

/// `getopts::Options::parse`: claims a successful parse knows the names
/// the option set declares, and, for a set in the default style, that
/// the parse is `option_parse` of the declared options and the arguments:
/// what the parse holds and its free arguments, or the failure. The
/// library panics on an option with names it does not accept, which
/// `requires` leaves out.
#[verifier::external_body]
fn parse_options(opts: &getopts::Options, args: &Vec<String>) -> (r: Result<getopts::Matches, getopts::Fail>)
    requires
        forall|i: int| 0 <= i < declared_options(*opts).len()
            ==> valid_option_names(#[trigger] declared_options(*opts)[i].0, declared_options(*opts)[i].1),
    ensures
        r matches Ok(m) ==> known_names(m) == declared_names(*opts),
        default_style(*opts) ==> match option_parse(declared_options(*opts), strings_view(args@)) {
            Ok(p) => r matches Ok(m) && option_occurrences(m) == p.0 && free_of(m) == p.1,
            Err(t) => r matches Err(f) && fail_text(f) == t,
        },
{
    opts.parse(args)
}

/// `getopts::Matches::opt_present`: whether the option occurs at least
/// once. The library panics on a name it does not know, which `requires`
/// leaves out.
#[verifier::external_body]
fn opt_present(m: &getopts::Matches, name: &str) -> (r: bool)
    requires
        known_names(*m).contains(name@),
    ensures
        r == (option_occurrences(*m)[name@].len() > 0),
{
    m.opt_present(name)
}

/// `getopts::Matches::opt_str`: the value of the option's first
/// occurrence, if it occurs and that occurrence has a value. The library
/// panics on a name it does not know, which `requires` leaves out.
#[verifier::external_body]
fn opt_str(m: &getopts::Matches, name: &str) -> (r: Option<String>)
    requires
        known_names(*m).contains(name@),
    ensures
        opt_view(r) == first_value(option_occurrences(*m)[name@]),
{
    m.opt_str(name)
}

/// `getopts::Matches::opt_strs`: the values given with the option's
/// occurrences, in order. The library panics on a name it does not know,
/// which `requires` leaves out.
#[verifier::external_body]
fn opt_strs(m: &getopts::Matches, name: &str) -> (r: Vec<String>)
    requires
        known_names(*m).contains(name@),
    ensures
        strings_view(r@) == given_values(option_occurrences(*m)[name@]),
{
    m.opt_strs(name)
}

/// The free arguments of a parse, a copy of `getopts::Matches::free`.
#[verifier::external_body]
fn free_args(m: &getopts::Matches) -> (r: Vec<String>)
    ensures
        strings_view(r@) == free_of(*m),
{
    m.free.clone()
}

/// The text of a parse failure, as `getopts::Fail` displays it.
#[verifier::external_body]
fn fail_message(f: &getopts::Fail) -> (r: String)
    ensures
        r@ == fail_text(*f),
{
    format!("{}", f)
}

/// The names of the options the command line takes.
pub open spec fn command_option_names() -> Set<Seq<char>> {
    set![
        "f"@, "format"@, "o"@, "output"@, "t"@, "iters"@, "p"@, "print"@, "q"@, "quiet"@, "d"@, "define"@,
        "color"@, "debug-iters"@, "debug-no-optimize-static"@, "debug-no-optimize-matcher"@, "v"@, "version"@,
        "h"@, "help"@
    ]
}

/// The options the command line takes, in the order they are declared.
pub open spec fn command_options() -> Seq<OptionDecl> {
    seq![
        ("f"@, "format"@, ValueUse::Required, Occurrence::Optional),
        ("o"@, "output"@, ValueUse::Optional, Occurrence::Optional),
        ("t"@, "iters"@, ValueUse::Optional, Occurrence::Optional),
        ("p"@, "print"@, ValueUse::Forbidden, Occurrence::Optional),
        ("q"@, "quiet"@, ValueUse::Forbidden, Occurrence::Optional),
        ("d"@, "define"@, ValueUse::Required, Occurrence::Multiple),
        (""@, "color"@, ValueUse::Optional, Occurrence::Optional),
        (""@, "debug-iters"@, ValueUse::Forbidden, Occurrence::Optional),
        (""@, "debug-no-optimize-static"@, ValueUse::Forbidden, Occurrence::Optional),
        (""@, "debug-no-optimize-matcher"@, ValueUse::Forbidden, Occurrence::Optional),
        ("v"@, "version"@, ValueUse::Forbidden, Occurrence::Optional),
        ("h"@, "help"@, ValueUse::Forbidden, Occurrence::Optional)
    ]
}

/// The options the command line takes.
pub fn make_opts() -> (r: getopts::Options)
    ensures
        declared_options(r) == command_options(),
        default_style(r),
        declared_names(r) == command_option_names(),
        forall|i: int| 0 <= i < declared_options(r).len()
            ==> valid_option_names(#[trigger] declared_options(r)[i].0, declared_options(r)[i].1),
{
    proof {
        reveal_strlit("");
        reveal_strlit("f");
        reveal_strlit("format");
        reveal_strlit("o");
        reveal_strlit("output");
        reveal_strlit("t");
        reveal_strlit("iters");
        reveal_strlit("p");
        reveal_strlit("print");
        reveal_strlit("q");
        reveal_strlit("quiet");
        reveal_strlit("d");
        reveal_strlit("define");
        reveal_strlit("color");
        reveal_strlit("debug-iters");
        reveal_strlit("debug-no-optimize-static");
        reveal_strlit("debug-no-optimize-matcher");
        reveal_strlit("v");
        reveal_strlit("version");
        reveal_strlit("h");
        reveal_strlit("help");
    }
    let mut opts = new_options();
    declare_optopt(&mut opts, "f", "format", "The format of the output file.\nSee below for possible values.", "FORMAT");
    declare_opt(&mut opts, "o", "output", "The name of the output file.", "FILE", ValueUse::Optional, Occurrence::Optional);
    declare_opt(&mut opts, "t", "iters", "The max number of resolution iterations to attempt.", "NUM",
        ValueUse::Optional, Occurrence::Optional);
    declare_optflag(&mut opts, "p", "print", "Print the output to the screen instead of writing to a file.");
    declare_optflag(&mut opts, "q", "quiet", "Suppress progress reports.");
    declare_opt(&mut opts, "d", "define", "Defines a constant.", "VALUE", ValueUse::Required, Occurrence::Multiple);
    declare_opt(&mut opts, "", "color", "Style the output with colors. [on/off]", "VALUE", ValueUse::Optional,
        Occurrence::Optional);
    declare_optflag(&mut opts, "", "debug-iters", "Print debug info for the resolution iterations.");
    declare_optflag(&mut opts, "", "debug-no-optimize-static", "Prevent optimization of statically-known values.");
    declare_optflag(&mut opts, "", "debug-no-optimize-matcher", "Prevent optimization of the instruction matcher algorithm.");
    declare_optflag(&mut opts, "v", "version", "Display version information.");
    declare_optflag(&mut opts, "h", "help", "Display this information.");
    assert(declared_options(opts) =~= command_options());
    proof {
        reveal_with_fuel(decl_names, 13);
        assert(names_of(""@, "color"@) =~= set!["color"@]);
        assert(names_of(""@, "debug-iters"@) =~= set!["debug-iters"@]);
        assert(names_of(""@, "debug-no-optimize-static"@) =~= set!["debug-no-optimize-static"@]);
        assert(names_of(""@, "debug-no-optimize-matcher"@) =~= set!["debug-no-optimize-matcher"@]);
    }
    assert(declared_names(opts) =~= command_option_names());
    opts
}

/// The pieces of `s` between the occurrences of `--`.
pub open spec fn split_groups(s: Seq<Seq<char>>) -> Seq<Seq<Seq<char>>>
    decreases s.len(),
{
    if s.len() == 0 {
        seq![Seq::empty()]
    } else if s.last() == "--"@ {
        split_groups(s.drop_last()).push(Seq::empty())
    } else {
        let p = split_groups(s.drop_last());
        p.update(p.len() - 1, p.last().push(s.last()))
    }
}

/// The groups of arguments: those after the program's name, split at each
/// `--`.
pub open spec fn arg_groups(args: Seq<Seq<char>>) -> Seq<Seq<Seq<char>>> {
    split_groups(args.drop_first())
}

/// The abstract values of a list of lists of strings.
pub open spec fn groups_of_strings_view(g: Seq<Vec<String>>) -> Seq<Seq<Seq<char>>> {
    g.map_values(|v: Vec<String>| strings_view(v@))
}

/// The arguments after the first, split at each `--`.
fn split_arg_groups(args: &Vec<String>) -> (r: Vec<Vec<String>>)
    requires
        args@.len() >= 1,
    ensures
        groups_of_strings_view(r@) == arg_groups(strings_view(args@)),
{
    let ghost a = strings_view(args@).drop_first();
    let mut groups: Vec<Vec<String>> = Vec::new();
    let mut cur: Vec<String> = Vec::new();
    let mut i: usize = 1;
    assert(a.take(0) =~= Seq::<Seq<char>>::empty());
    assert(strings_view(cur@) =~= Seq::<Seq<char>>::empty());
    assert(groups_of_strings_view(groups@) =~= Seq::<Seq<Seq<char>>>::empty());
    assert(groups_of_strings_view(groups@).push(strings_view(cur@)) =~= split_groups(a.take(0)));
    while i < args.len()
        invariant
            a == strings_view(args@).drop_first(),
            1 <= i <= args@.len(),
            groups_of_strings_view(groups@).push(strings_view(cur@)) == split_groups(a.take(i - 1)),
        decreases args.len() - i,
    {
        let ghost before = groups_of_strings_view(groups@).push(strings_view(cur@));
        assert(a.take(i as int).drop_last() =~= a.take(i - 1));
        assert(a.take(i as int).last() == args@[i as int]@);
        if str_eq(args[i].as_str(), "--") {
            let done = cur;
            groups.push(done);
            cur = Vec::new();
            assert(strings_view(cur@) =~= Seq::<Seq<char>>::empty());
            assert(groups_of_strings_view(groups@).push(strings_view(cur@)) =~= before.push(Seq::empty()));
        } else {
            let ghost cv = strings_view(cur@);
            cur.push(args[i].clone());
            assert(strings_view(cur@) =~= cv.push(args@[i as int]@));
            assert(groups_of_strings_view(groups@).push(strings_view(cur@))
                =~= before.update(before.len() - 1, before.last().push(args@[i as int]@)));
        }
        i = i + 1;
    }
    assert(a.take(args@.len() - 1) =~= a);
    let ghost gv = groups_of_strings_view(groups@);
    let ghost last = strings_view(cur@);
    groups.push(cur);
    assert(groups_of_strings_view(groups@) =~= gv.push(last));
    groups
}

/// What a parse holds of one group of arguments: the first value of
/// `-f`, `-o` and `-t`, whether each flag occurs, every value of `-d`,
/// for `--color` whether it occurs and the value of its first occurrence,
/// and the free arguments.
pub open spec fn group_view_of(m: getopts::Matches) -> GroupView {
    group_view_from(option_occurrences(m), free_of(m))
}

/// What a group asks for, from the occurrences of each option and the
/// free arguments of its parse.
pub open spec fn group_view_from(occ: Map<Seq<char>, Seq<Option<Seq<char>>>>, free: Seq<Seq<char>>) -> GroupView {
    GroupView {
        format: first_value(occ["f"@]),
        output: first_value(occ["o"@]),
        print: occ["p"@].len() > 0,
        quiet: occ["q"@].len() > 0,
        version: occ["v"@].len() > 0,
        help: occ["h"@].len() > 0,
        defines: given_values(occ["d"@]),
        debug_iters: occ["debug-iters"@].len() > 0,
        debug_no_optimize_static: occ["debug-no-optimize-static"@].len() > 0,
        debug_no_optimize_matcher: occ["debug-no-optimize-matcher"@].len() > 0,
        color: if occ["color"@].len() > 0 { Some(first_value(occ["color"@])) } else { None },
        iters: first_value(occ["t"@]),
        free: free,
    }
}

/// The outcome of parsing one group of arguments for the command's
/// options: what it asks for, or the text of the failure.
pub open spec fn group_parse(a: Seq<Seq<char>>) -> Result<GroupView, Seq<char>> {
    match option_parse(command_options(), a) {
        Ok(p) => Ok(group_view_from(p.0, p.1)),
        Err(t) => Err(t),
    }
}

/// The outcomes of parsing each group of the command line `args`.
pub open spec fn command_parses(args: Seq<Seq<char>>) -> Seq<Result<GroupView, Seq<char>>> {
    arg_groups(args).map_values(|a: Seq<Seq<char>>| group_parse(a))
}

/// What the option parser found in one group of arguments.
fn group_args(m: &getopts::Matches) -> (r: GroupArgs)
    requires
        known_names(*m) == command_option_names(),
    ensures
        r@ == group_view_of(*m),
{
    let color = if opt_present(m, "color") {
        Some(opt_str(m, "color"))
    } else {
        None
    };
    GroupArgs {
        format: opt_str(m, "f"),
        output: opt_str(m, "o"),
        print: opt_present(m, "p"),
        quiet: opt_present(m, "q"),
        version: opt_present(m, "v"),
        help: opt_present(m, "h"),
        defines: opt_strs(m, "d"),
        debug_iters: opt_present(m, "debug-iters"),
        debug_no_optimize_static: opt_present(m, "debug-no-optimize-static"),
        debug_no_optimize_matcher: opt_present(m, "debug-no-optimize-matcher"),
        color: color,
        iters: opt_str(m, "t"),
        free: free_args(m),
    }
}

/// Whether every output of `c` has a format, and a file name unless it is
/// printed or there is no input to name it after.
pub open spec fn outputs_complete(c: CommandView) -> bool {
    forall|i: int| 0 <= i < c.output_groups.len() ==> (#[trigger] c.output_groups[i]).format is Some
        && (!c.output_groups[i].printout && c.input_filenames.len() >= 1 ==> c.output_groups[i].output_filename is Some)
}

/// Whether `b` is `a` with file names given to some outputs that had
/// none, and nothing else changed.
pub open spec fn names_filled(a: CommandView, b: CommandView) -> bool {
    &&& b == (CommandView { output_groups: b.output_groups, ..a })
    &&& b.output_groups.len() == a.output_groups.len()
    &&& forall|i: int| 0 <= i < a.output_groups.len() ==> (#[trigger] b.output_groups[i]).format == a.output_groups[i].format
        && b.output_groups[i].printout == a.output_groups[i].printout
        && (a.output_groups[i].output_filename is Some ==> b.output_groups[i].output_filename == a.output_groups[i].output_filename)
}

/// Names each output that is not printed and has no file name after the
/// first input file, when there is one; a name that would overwrite the
/// input is reported and fails.
fn name_outputs(report: &mut Report, cmd: &mut Command) -> (r: Result<(), ()>)
    requires
        forall|i: int| 0 <= i < old(cmd)@.output_groups.len() ==> (#[trigger] old(cmd)@.output_groups[i]).format is Some,
    ensures
        r is Ok ==> outputs_complete(final(cmd)@) && final(report)@ == old(report)@,
        r is Ok ==> names_filled(old(cmd)@, final(cmd)@),
        naming_known(old(cmd)@) ==> match named_command(old(cmd)@) {
            Some(c2) => r is Ok && final(cmd)@ == c2,
            None => r is Err,
        },
        r is Err ==> final(report)@ == (ReportView {
            messages: old(report)@.messages + reported(old(report)@.parents, seq![unsafe_name_message()]),
            ..old(report)@
        }),
{
    let ghost r0 = report@;
    let ghost c = old(cmd)@;
    let n = cmd.output_groups.len();
    let mut rest: Vec<CommandOutput> = Vec::new();
    std::mem::swap(&mut rest, &mut cmd.output_groups);
    let ghost orig = outputs_view(rest@);
    assert(rest@ == old(cmd).output_groups@);
    assert(orig == old(cmd)@.output_groups);
    assert(outputs_view(rest@) =~= orig.skip(0));
    let mut k: usize = 0;
    while k < n
        invariant
            n == orig.len(),
            k <= n,
            rest@.len() == n - k,
            outputs_view(rest@) == orig.skip(k as int),
            cmd.output_groups@.len() == k,
            forall|i: int| 0 <= i < orig.len() ==> (#[trigger] orig[i]).format is Some,
            forall|i: int| 0 <= i < k ==> (#[trigger] outputs_view(cmd.output_groups@)[i]).format is Some
                && (!outputs_view(cmd.output_groups@)[i].printout && cmd.input_filenames@.len() >= 1
                    ==> outputs_view(cmd.output_groups@)[i].output_filename is Some),
            report@ == r0,
            r0 == old(report)@,
            cmd.input_filenames@ == old(cmd).input_filenames@,
            cmd.opts == old(cmd).opts,
            cmd.quiet == old(cmd).quiet,
            cmd.use_colors == old(cmd).use_colors,
            cmd.show_version == old(cmd).show_version,
            cmd.show_help == old(cmd).show_help,
            forall|i: int| 0 <= i < k ==> (#[trigger] outputs_view(cmd.output_groups@)[i]).format == orig[i].format
                && outputs_view(cmd.output_groups@)[i].printout == orig[i].printout
                && (orig[i].output_filename is Some ==> outputs_view(cmd.output_groups@)[i].output_filename == orig[i].output_filename),
            c == old(cmd)@,
            orig == c.output_groups,
            naming_known(c) ==> outputs_named(c, k as int) == Some(outputs_view(cmd.output_groups@)),
        decreases n - k,
    {
        let ghost rest0 = rest@;
        assert(outputs_view(rest0)[0] == orig[k as int]);
        let o = rest.remove(0);
        assert(rest@ == rest0.remove(0));
        assert forall|j: int| 0 <= j < rest@.len() implies #[trigger] outputs_view(rest@)[j] == orig.skip(k + 1)[j] by {
            assert(rest@[j] == rest0[j + 1]);
            assert(outputs_view(rest0)[j + 1] == rest0[j + 1]@);
        }
        assert(outputs_view(rest@) =~= orig.skip(k + 1));
        let mut o = o;
        let ghost o0 = o@;
        assert(o0 == c.output_groups[k as int]);
        if !o.printout && o.output_filename.is_none() && cmd.input_filenames.len() >= 1 {
            assert(needs_name(c, c.output_groups[k as int]));
            assert(cmd.input_filenames@[0]@ == c.input_filenames[0]);
            let name = match &o.format {
                Some(f) => derive_output_filename(report, f, cmd.input_filenames[0].as_str()),
                None => derive_output_filename(report, &OutputFormat::Binary, cmd.input_filenames[0].as_str()),
            };
            match name {
                Ok(x) => {
                    o = CommandOutput { format: o.format, printout: o.printout, output_filename: Some(x) };
                },
                Err(()) => {
                    proof {
                        if naming_known(c) {
                            lemma_named_none(c, k as int + 1, n as int);
                        }
                    }
                    return Err(());
                },
            }
        }
        let ghost before = outputs_view(cmd.output_groups@);
        let ghost ov = o@;
        cmd.output_groups.push(o);
        assert(outputs_view(cmd.output_groups@) =~= before.push(ov));
        k = k + 1;
    }
    assert(cmd@ == (CommandView { output_groups: cmd@.output_groups, ..old(cmd)@ }));
    assert(c.output_groups.len() == n);
    Ok(())
}

/// Reads the command line `args`, whose first element is the program's
/// name: each group of arguments between `--` is parsed for the options of
/// `make_opts`, and the command is what `command_from_parses` makes of
/// those parses.
pub fn parse_command(report: &mut Report, args: &Vec<String>) -> (r: Result<Command, ()>)
    requires
        args@.len() >= 1,
    ensures
        command_outcome(command_parses(strings_view(args@)), r, old(report)@, final(report)@),
{
    let groups = split_arg_groups(args);
    let ghost gsv = groups_of_strings_view(groups@);
    let opts = make_opts();
    let mut parses: Vec<Result<GroupArgs, String>> = Vec::new();
    let n = groups.len();
    let mut i: usize = 0;
    while i < n
        invariant
            n == groups@.len(),
            gsv == groups_of_strings_view(groups@),
            i <= n,
            declared_options(opts) == command_options(),
            default_style(opts),
            declared_names(opts) == command_option_names(),
            forall|j: int| 0 <= j < declared_options(opts).len()
                ==> valid_option_names(#[trigger] declared_options(opts)[j].0, declared_options(opts)[j].1),
            parses_view(parses@) =~= gsv.take(i as int).map_values(|a: Seq<Seq<char>>| group_parse(a)),
        decreases n - i,
    {
        let ghost before = parses_view(parses@);
        assert(gsv[i as int] == strings_view(groups@[i as int]@));
        let p = match parse_options(&opts, &groups[i]) {
            Err(f) => Err(fail_message(&f)),
            Ok(m) => Ok(group_args(&m)),
        };
        parses.push(p);
        assert(parses_view(parses@) =~= before.push(group_parse(gsv[i as int])));
        assert(gsv.take(i + 1) =~= gsv.take(i as int).push(gsv[i as int]));
        i = i + 1;
    }
    assert(gsv.take(n as int) =~= gsv);
    command_from_parses(report, &parses)
}

/// Reading groups of arguments gives one output per group, in order, each
/// printed or written to a file as its group asks.
pub proof fn law_one_output_per_group(ps: Seq<Result<GroupView, Seq<char>>>, n: int)
    requires
        0 <= n <= ps.len(),
    ensures
        parses_step(ps, n) matches Ok(c) ==> c.output_groups.len() == n && forall|i: int| 0 <= i < n
            ==> (ps[i] matches Ok(g) && (#[trigger] c.output_groups[i]).printout == g.print
                && c.output_groups[i].output_filename == g.output),
    decreases n,
{
    if n > 0 {
        law_one_output_per_group(ps, n - 1);
        if let Ok(c) = parses_step(ps, n) {
            let prev = parses_step(ps, n - 1)->Ok_0;
            assert forall|i: int| 0 <= i < n implies (ps[i] matches Ok(g) && (#[trigger] c.output_groups[i]).printout == g.print
                && c.output_groups[i].output_filename == g.output) by {
                if i < n - 1 {
                    assert(c.output_groups[i] == prev.output_groups[i]);
                }
            }
        }
    }
}

/// `--color=on` turns colors on and `--color=off` turns them off,
/// whatever was chosen before; a group without `--color` keeps the choice
/// before it; `--color` with any other value, or without one, is an error.
/// A group that is read leaves the command with that choice.
pub proof fn law_color_choice(c: CommandView, g: GroupView)
    ensures
        g.color == Some(Some("on"@)) ==> group_colors(c, g) == Some(true),
        g.color == Some(Some("off"@)) ==> group_colors(c, g) == Some(false),
        g.color is None ==> group_colors(c, g) == Some(c.use_colors),
        (g.color matches Some(v) && v != Some("on"@) && v != Some("off"@)) ==> group_colors(c, g) is None,
        group_step(c, g) matches Ok(c2) ==> Some(c2.use_colors) == group_colors(c, g),
{
    reveal_strlit("on");
    reveal_strlit("off");
    assert("on"@[1] != "off"@[1]);
}

} // verus!
