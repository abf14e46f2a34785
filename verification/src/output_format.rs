//! The output formats the assembler can write, and the parser of their
//! command-line names.
use vstd::prelude::*;
use crate::diagn::{MessageKind, MessageView, Report, ReportView, wrap_parents};
use crate::string_literal::{read_string_contents, string_contents};
use crate::text::{chars_to_string, parse_unsigned, parse_unsigned_chars, pieces_view, push_str, split_chars, split_on, str_chars};

verus! {

/// Options of the `list` output format.
pub struct FormatListOptions {
    pub base: usize,
    pub digits_per_group: usize,
    pub groups_per_group2: usize,
    pub str_before: String,
    pub str_after: String,
    pub str_between_groups: String,
    pub str_between_groups2: String,
}

/// An output format.
pub enum OutputFormat {
    Binary,
    Annotated { base: usize, group: usize },
    BinStr,
    HexStr,
    BinDump,
    HexDump,
    Mif,
    IntelHex { address_unit: usize },
    List(FormatListOptions),
    DecComma,
    HexComma,
    DecSpace,
    HexSpace,
    DecC,
    HexC,
    LogiSim8,
    LogiSim16,
    AddressSpan,
    TCGame { base: usize, group: usize },
    Symbols,
    SymbolsMesenMlb,
}

/// The abstract value of the `list` format's options.
pub struct ListView {
    pub base: usize,
    pub digits_per_group: usize,
    pub groups_per_group2: usize,
    pub str_before: Seq<char>,
    pub str_after: Seq<char>,
    pub str_between_groups: Seq<char>,
    pub str_between_groups2: Seq<char>,
}

/// The abstract value of an output format.
pub enum FormatView {
    Binary,
    Annotated { base: usize, group: usize },
    BinStr,
    HexStr,
    BinDump,
    HexDump,
    Mif,
    IntelHex { address_unit: usize },
    List(ListView),
    DecComma,
    HexComma,
    DecSpace,
    HexSpace,
    DecC,
    HexC,
    LogiSim8,
    LogiSim16,
    AddressSpan,
    TCGame { base: usize, group: usize },
    Symbols,
    SymbolsMesenMlb,
}

impl View for OutputFormat {
    type V = FormatView;

    open spec fn view(&self) -> FormatView {
        match self {
            OutputFormat::Binary => FormatView::Binary,
            OutputFormat::Annotated { base, group } => FormatView::Annotated { base: *base, group: *group },
            OutputFormat::BinStr => FormatView::BinStr,
            OutputFormat::HexStr => FormatView::HexStr,
            OutputFormat::BinDump => FormatView::BinDump,
            OutputFormat::HexDump => FormatView::HexDump,
            OutputFormat::Mif => FormatView::Mif,
            OutputFormat::IntelHex { address_unit } => FormatView::IntelHex { address_unit: *address_unit },
            OutputFormat::List(o) => FormatView::List(ListView {
                base: o.base,
                digits_per_group: o.digits_per_group,
                groups_per_group2: o.groups_per_group2,
                str_before: o.str_before@,
                str_after: o.str_after@,
                str_between_groups: o.str_between_groups@,
                str_between_groups2: o.str_between_groups2@,
            }),
            OutputFormat::DecComma => FormatView::DecComma,
            OutputFormat::HexComma => FormatView::HexComma,
            OutputFormat::DecSpace => FormatView::DecSpace,
            OutputFormat::HexSpace => FormatView::HexSpace,
            OutputFormat::DecC => FormatView::DecC,
            OutputFormat::HexC => FormatView::HexC,
            OutputFormat::LogiSim8 => FormatView::LogiSim8,
            OutputFormat::LogiSim16 => FormatView::LogiSim16,
            OutputFormat::AddressSpan => FormatView::AddressSpan,
            OutputFormat::TCGame { base, group } => FormatView::TCGame { base: *base, group: *group },
            OutputFormat::Symbols => FormatView::Symbols,
            OutputFormat::SymbolsMesenMlb => FormatView::SymbolsMesenMlb,
        }
    }
}

/// Format arguments: names and values, each name once.
pub type Params = Seq<(Seq<char>, Seq<char>)>;

/// The position of argument `k`, if present.
pub open spec fn param_index(m: Params, k: Seq<char>) -> Option<int> {
    if exists|i: int| 0 <= i < m.len() && #[trigger] m[i].0 == k {
        Some(choose|i: int| 0 <= i < m.len() && #[trigger] m[i].0 == k)
    } else {
        None
    }
}

/// The arguments with `k` set to `v`: replaced in place when present,
/// added at the end otherwise.
pub open spec fn param_insert(m: Params, k: Seq<char>, v: Seq<char>) -> Params {
    match param_index(m, k) {
        Some(i) => m.update(i, (k, v)),
        None => m.push((k, v)),
    }
}

/// The value of argument `k`, if present.
pub open spec fn param_get(m: Params, k: Seq<char>) -> Option<Seq<char>> {
    match param_index(m, k) {
        Some(i) => Some(m[i].1),
        None => None,
    }
}

/// The arguments without `k`.
pub open spec fn param_remove(m: Params, k: Seq<char>) -> Params {
    match param_index(m, k) {
        Some(i) => m.remove(i),
        None => m,
    }
}

/// Whether no argument name occurs twice.
pub open spec fn params_distinct(m: Params) -> bool {
    forall|i: int, j: int| 0 <= i < j < m.len() ==> #[trigger] m[i].0 != #[trigger] m[j].0
}

/// The arguments given by the pieces `parts[1..n]`: `name` or
/// `name:value` each, later ones replacing earlier ones; the first piece
/// of another shape is the error.
pub open spec fn params_of(parts: Seq<Seq<char>>, n: int) -> Result<Params, Seq<char>>
    decreases n,
{
    if n <= 1 {
        Ok(Seq::empty())
    } else {
        match params_of(parts, n - 1) {
            Err(bad) => Err(bad),
            Ok(m) => {
                let ps = split_on(parts[n - 1], ':');
                if ps.len() == 1 {
                    Ok(param_insert(m, ps[0], Seq::empty()))
                } else if ps.len() == 2 {
                    Ok(param_insert(m, ps[0], ps[1]))
                } else {
                    Err(parts[n - 1])
                }
            },
        }
    }
}

/// The message for an argument of the wrong shape.
pub open spec fn bad_argument_message(fid: Seq<char>, part: Seq<char>) -> Seq<char> {
    "invalid format argument `"@ + fid + ","@ + part + "`"@
}

/// The message for an argument with an invalid value.
pub open spec fn invalid_value_message(fid: Seq<char>, id: Seq<char>, v: Seq<char>) -> Seq<char> {
    "invalid format argument `"@ + fid + ","@ + id + ":"@ + v + "`"@
}

/// The message for an unknown format.
pub open spec fn unknown_format_message(fid: Seq<char>) -> Seq<char> {
    "unknown format `"@ + fid + "`"@
}

/// The message for an argument the format does not take.
pub open spec fn unknown_argument_message(fid: Seq<char>, id: Seq<char>) -> Seq<char> {
    "unknown format argument `"@ + fid + ","@ + id + "`"@
}

/// The ways a numeric argument is checked.
pub enum Check {
    NonZero,
    ValidBase,
    TwoOrSixteen,
    EightSixteenOrThirtyTwo,
}

/// Whether `v` passes check `c`.
pub open spec fn check_ok(c: Check, v: nat) -> bool {
    match c {
        Check::NonZero => v > 0,
        Check::ValidBase => v == 2 || v == 4 || v == 8 || v == 16 || v == 32 || v == 64 || v == 128,
        Check::TwoOrSixteen => v == 2 || v == 16,
        Check::EightSixteenOrThirtyTwo => v == 8 || v == 16 || v == 32,
    }
}

/// A numeric argument: `def` when absent; when present, its decimal value
/// if that passes the check (taking the argument), else the error message.
pub open spec fn arg_usize(fid: Seq<char>, m: Params, id: Seq<char>, def: usize, c: Check) -> Result<(usize, Params), Seq<char>> {
    match param_get(m, id) {
        None => Ok((def, m)),
        Some(v) => match parse_unsigned(v, usize::MAX as nat) {
            Some(n) => if check_ok(c, n) { Ok((n as usize, param_remove(m, id))) } else { Err(invalid_value_message(fid, id, v)) },
            None => Err(invalid_value_message(fid, id, v)),
        },
    }
}

/// Whether `v` is quoted: at least two characters, a `"` first and last.
pub open spec fn is_quoted(v: Seq<char>) -> bool {
    v.len() >= 2 && v[0] == '"' && v.last() == '"'
}

/// A string argument: `def` when absent; when present, the characters a
/// quoted string stands for, its escape sequences read as
/// `string_contents` says (taking the argument), else the error message.
pub open spec fn arg_str(fid: Seq<char>, m: Params, id: Seq<char>, def: Seq<char>) -> Result<(Seq<char>, Params), Seq<char>> {
    match param_get(m, id) {
        None => Ok((def, m)),
        Some(v) => if is_quoted(v) {
            match string_contents(v.subrange(1, v.len() - 1)) {
                Some(c) => Ok((c, param_remove(m, id))),
                None => Err(invalid_value_message(fid, id, v)),
            }
        } else {
            Err(invalid_value_message(fid, id, v))
        },
    }
}

/// The `list` format with the arguments `m`, and the arguments it leaves
/// untaken; or the message of the first error.
pub open spec fn list_named(fid: Seq<char>, m: Params) -> Result<(FormatView, Params), Seq<char>> {
    match arg_usize(fid, m, "base"@, 16, Check::ValidBase) {
        Err(e) => Err(e),
        Ok((base, m1)) => match arg_usize(fid, m1, "group"@, 2, Check::NonZero) {
            Err(e) => Err(e),
            Ok((group, m2)) => match arg_usize(fid, m2, "group2"@, 16, Check::NonZero) {
                Err(e) => Err(e),
                Ok((group2, m3)) => match arg_str(fid, m3, "before"@, ""@) {
                    Err(e) => Err(e),
                    Ok((before, m4)) => match arg_str(fid, m4, "after"@, ""@) {
                        Err(e) => Err(e),
                        Ok((after, m5)) => match arg_str(fid, m5, "between"@, ""@) {
                            Err(e) => Err(e),
                            Ok((between, m6)) => match arg_str(fid, m6, "between2"@, ""@) {
                                Err(e) => Err(e),
                                Ok((between2, m7)) => Ok((FormatView::List(ListView {
                                    base: base,
                                    digits_per_group: group,
                                    groups_per_group2: group2,
                                    str_before: before,
                                    str_after: after,
                                    str_between_groups: between,
                                    str_between_groups2: between2,
                                }), m7)),
                            },
                        },
                    },
                },
            },
        },
    }
}

/// The format named `fid` with the arguments `m`, and the arguments it
/// leaves untaken; or the message of the first error.
pub open spec fn format_named(fid: Seq<char>, m: Params) -> Result<(FormatView, Params), Seq<char>> {
    if fid == "binary"@ {
        Ok((FormatView::Binary, m))
    } else if fid == "annotated"@ {
        match arg_usize(fid, m, "base"@, 16, Check::ValidBase) {
            Err(e) => Err(e),
            Ok((base, m1)) => match arg_usize(fid, m1, "group"@, 2, Check::NonZero) {
                Err(e) => Err(e),
                Ok((group, m2)) => Ok((FormatView::Annotated { base, group }, m2)),
            },
        }
    } else if fid == "annotatedhex"@ {
        Ok((FormatView::Annotated { base: 16, group: 2 }, m))
    } else if fid == "annotatedbin"@ {
        Ok((FormatView::Annotated { base: 2, group: 8 }, m))
    } else if fid == "binstr"@ {
        Ok((FormatView::BinStr, m))
    } else if fid == "hexstr"@ {
        Ok((FormatView::HexStr, m))
    } else if fid == "bindump"@ {
        Ok((FormatView::BinDump, m))
    } else if fid == "hexdump"@ {
        Ok((FormatView::HexDump, m))
    } else if fid == "mif"@ {
        Ok((FormatView::Mif, m))
    } else if fid == "intelhex"@ {
        match arg_usize(fid, m, "addr_unit"@, 8, Check::EightSixteenOrThirtyTwo) {
            Err(e) => Err(e),
            Ok((u, m1)) => Ok((FormatView::IntelHex { address_unit: u }, m1)),
        }
    } else if fid == "list"@ {
        list_named(fid, m)
    } else if fid == "deccomma"@ {
        Ok((FormatView::DecComma, m))
    } else if fid == "hexcomma"@ {
        Ok((FormatView::HexComma, m))
    } else if fid == "decspace"@ {
        Ok((FormatView::DecSpace, m))
    } else if fid == "hexspace"@ {
        Ok((FormatView::HexSpace, m))
    } else if fid == "decc"@ {
        Ok((FormatView::DecC, m))
    } else if fid == "hexc"@ || fid == "c"@ {
        Ok((FormatView::HexC, m))
    } else if fid == "logisim8"@ {
        Ok((FormatView::LogiSim8, m))
    } else if fid == "logisim16"@ {
        Ok((FormatView::LogiSim16, m))
    } else if fid == "addrspan"@ {
        Ok((FormatView::AddressSpan, m))
    } else if fid == "tcgame"@ {
        match arg_usize(fid, m, "base"@, 16, Check::TwoOrSixteen) {
            Err(e) => Err(e),
            Ok((base, m1)) => match arg_usize(fid, m1, "group"@, 2, Check::NonZero) {
                Err(e) => Err(e),
                Ok((group, m2)) => Ok((FormatView::TCGame { base, group }, m2)),
            },
        }
    } else if fid == "tcgamebin"@ {
        Ok((FormatView::TCGame { base: 2, group: 8 }, m))
    } else if fid == "symbols"@ {
        Ok((FormatView::Symbols, m))
    } else if fid == "mesen-mlb"@ {
        Ok((FormatView::SymbolsMesenMlb, m))
    } else {
        Err(unknown_format_message(fid))
    }
}

/// What parsing a format string gives: the format, or failure; and the
/// error messages reported on the way.
pub open spec fn parse_format(s: Seq<char>) -> (Option<FormatView>, Seq<Seq<char>>) {
    let parts = split_on(s, ',');
    let fid = parts[0];
    match params_of(parts, parts.len() as int) {
        Err(bad) => (None, seq![bad_argument_message(fid, bad)]),
        Ok(m) => match format_named(fid, m) {
            Err(e) => (None, seq![e]),
            Ok((f, rest)) => if rest.len() > 0 {
                (None, unknown_arguments(fid, rest))
            } else {
                (Some(f), Seq::empty())
            },
        },
    }
}

/// An error message with no span, as the report records it.
pub open spec fn plain_error(d: Seq<char>) -> MessageView {
    MessageView { descr: d, kind: MessageKind::Error, span: None, short_excerpt: false, inner: Seq::empty() }
}

/// Whether `v` holds the characters of `s`.
fn chars_eq_str(v: &Vec<char>, s: &str) -> (r: bool)
    ensures
        r == (v@ == s@),
{
    let w = str_chars(s);
    chars_eq(v, &w)
}

/// Whether two character vectors are equal.
fn chars_eq(v: &Vec<char>, w: &Vec<char>) -> (r: bool)
    ensures
        r == (v@ == w@),
{
    if v.len() != w.len() {
        return false;
    }
    let mut i: usize = 0;
    while i < v.len()
        invariant
            v@.len() == w@.len(),
            i <= v@.len(),
            forall|k: int| 0 <= k < i ==> v@[k] == w@[k],
        decreases v.len() - i,
    {
        if v[i] != w[i] {
            return false;
        }
        i = i + 1;
    }
    assert(v@ =~= w@);
    true
}

/// A copy of a character vector.
fn copy_chars(v: &Vec<char>) -> (r: Vec<char>)
    ensures
        r@ == v@,
{
    let mut r: Vec<char> = Vec::new();
    let mut i: usize = 0;
    while i < v.len()
        invariant
            i <= v@.len(),
            r@ == v@.take(i as int),
        decreases v.len() - i,
    {
        r.push(v[i]);
        i = i + 1;
        assert(r@ =~= v@.take(i as int));
    }
    assert(v@.take(v@.len() as int) =~= v@);
    r
}

/// The abstract value of a list of arguments.
pub open spec fn params_view(m: Seq<(Vec<char>, Vec<char>)>) -> Params {
    m.map_values(|kv: (Vec<char>, Vec<char>)| (kv.0@, kv.1@))
}

/// In a list without repeated names, the one position holding a name is
/// the position `param_index` gives.
proof fn lemma_param_index(m: Params, k: Seq<char>, i: int)
    requires
        params_distinct(m),
        0 <= i < m.len(),
        m[i].0 == k,
    ensures
        param_index(m, k) == Some(i),
{
    let j = choose|j: int| 0 <= j < m.len() && #[trigger] m[j].0 == k;
    if j != i {
        if j < i {
            assert(m[j].0 != m[i].0);
        } else {
            assert(m[i].0 != m[j].0);
        }
    }
}

/// The position of argument `k`.
fn find_param(m: &Vec<(Vec<char>, Vec<char>)>, k: &Vec<char>) -> (r: Option<usize>)
    requires
        params_distinct(params_view(m@)),
    ensures
        match r {
            Some(i) => i < m@.len() && param_index(params_view(m@), k@) == Some(i as int),
            None => param_index(params_view(m@), k@) is None,
        },
{
    let ghost v = params_view(m@);
    let mut i: usize = 0;
    while i < m.len()
        invariant
            v == params_view(m@),
            params_distinct(v),
            i <= m@.len(),
            forall|j: int| 0 <= j < i ==> #[trigger] v[j].0 != k@,
        decreases m.len() - i,
    {
        assert(v[i as int] == (m@[i as int].0@, m@[i as int].1@));
        if chars_eq(&m[i].0, k) {
            proof { lemma_param_index(v, k@, i as int); }
            return Some(i);
        }
        i = i + 1;
    }
    None
}

/// Sets argument `k` to `v`.
fn insert_param(m: &mut Vec<(Vec<char>, Vec<char>)>, k: Vec<char>, v: Vec<char>)
    requires
        params_distinct(params_view(old(m)@)),
    ensures
        params_view(final(m)@) == param_insert(params_view(old(m)@), k@, v@),
        params_distinct(params_view(final(m)@)),
{
    let ghost mv = params_view(m@);
    let ghost kv = (k@, v@);
    match find_param(m, &k) {
        Some(i) => {
            m.set(i, (k, v));
            assert(params_view(m@) =~= mv.update(i as int, kv));
            assert forall|a: int, b: int| 0 <= a < b < params_view(m@).len() implies
                #[trigger] params_view(m@)[a].0 != #[trigger] params_view(m@)[b].0 by {
                assert(mv[a].0 != mv[b].0);
            }
        },
        None => {
            m.push((k, v));
            assert(params_view(m@) =~= mv.push(kv));
            assert forall|a: int, b: int| 0 <= a < b < params_view(m@).len() implies
                #[trigger] params_view(m@)[a].0 != #[trigger] params_view(m@)[b].0 by {
                if b == mv.len() {
                    if mv[a].0 == kv.0 {
                        assert(exists|j: int| 0 <= j < mv.len() && #[trigger] mv[j].0 == kv.0);
                    }
                } else {
                    assert(mv[a].0 != mv[b].0);
                }
            }
        },
    }
}

/// Removes argument `k`, giving its value if it was present.
fn take_param(m: &mut Vec<(Vec<char>, Vec<char>)>, k: &str) -> (r: Option<Vec<char>>)
    requires
        params_distinct(params_view(old(m)@)),
    ensures
        match param_get(params_view(old(m)@), k@) {
            Some(v) => r matches Some(x) && x@ == v,
            None => r is None,
        },
        params_view(final(m)@) == param_remove(params_view(old(m)@), k@),
        params_distinct(params_view(final(m)@)),
{
    let key = str_chars(k);
    let ghost mv = params_view(m@);
    match find_param(m, &key) {
        Some(i) => {
            let kv = m.remove(i);
            assert(params_view(m@) =~= mv.remove(i as int));
            assert forall|a: int, b: int| 0 <= a < b < params_view(m@).len() implies
                #[trigger] params_view(m@)[a].0 != #[trigger] params_view(m@)[b].0 by {
                if a < i {
                    if b < i {
                        assert(mv[a].0 != mv[b].0);
                    } else {
                        assert(mv[a].0 != mv[b + 1].0);
                    }
                } else {
                    assert(mv[a + 1].0 != mv[b + 1].0);
                }
            }
            Some(kv.1)
        },
        None => None,
    }
}

/// The value of argument `k`, without taking it.
fn peek_param(m: &Vec<(Vec<char>, Vec<char>)>, k: &str) -> (r: Option<Vec<char>>)
    requires
        params_distinct(params_view(m@)),
    ensures
        match param_get(params_view(m@), k@) {
            Some(v) => r matches Some(x) && x@ == v,
            None => r is None,
        },
{
    let key = str_chars(k);
    match find_param(m, &key) {
        Some(i) => Some(copy_chars(&m[i].1)),
        None => None,
    }
}

/// `invalid format argument` for an argument with an invalid value.
fn invalid_value_error(fid: &Vec<char>, id: &str, v: &Vec<char>) -> (r: String)
    ensures
        r@ == invalid_value_message(fid@, id@, v@),
{
    let mut out: Vec<char> = Vec::new();
    push_str(&mut out, "invalid format argument `");
    push_chars(&mut out, fid);
    push_str(&mut out, ",");
    push_str(&mut out, id);
    push_str(&mut out, ":");
    push_chars(&mut out, v);
    push_str(&mut out, "`");
    chars_to_string(&out)
}

/// Appends the characters of `v`.
fn push_chars(out: &mut Vec<char>, v: &Vec<char>)
    ensures
        final(out)@ == old(out)@ + v@,
{
    let ghost start = out@;
    let mut i: usize = 0;
    while i < v.len()
        invariant
            i <= v@.len(),
            out@ == start + v@.take(i as int),
        decreases v.len() - i,
    {
        out.push(v[i]);
        i = i + 1;
        assert(out@ =~= start + v@.take(i as int));
    }
    assert(v@.take(v@.len() as int) =~= v@);
}

/// Whether `v` passes check `c`.
fn check_exec(c: &Check, v: usize) -> (r: bool)
    ensures
        r == check_ok(*c, v as nat),
{
    match c {
        Check::NonZero => v > 0,
        Check::ValidBase => v == 2 || v == 4 || v == 8 || v == 16 || v == 32 || v == 64 || v == 128,
        Check::TwoOrSixteen => v == 2 || v == 16,
        Check::EightSixteenOrThirtyTwo => v == 8 || v == 16 || v == 32,
    }
}

/// A numeric argument, as `arg_usize` describes it.
fn get_arg_usize(fid: &Vec<char>, m: &mut Vec<(Vec<char>, Vec<char>)>, id: &str, def: usize, c: Check) -> (r: Result<usize, String>)
    requires
        params_distinct(params_view(old(m)@)),
    ensures
        params_distinct(params_view(final(m)@)),
        match arg_usize(fid@, params_view(old(m)@), id@, def, c) {
            Ok((v, m2)) => r matches Ok(x) && x == v && params_view(final(m)@) == m2,
            Err(e) => r matches Err(x) && x@ == e,
        },
{
    match peek_param(m, id) {
        None => Ok(def),
        Some(v) => {
            match parse_unsigned_chars(&v, usize::MAX as u64) {
                Some(n) => {
                    if check_exec(&c, n as usize) {
                        let _ = take_param(m, id);
                        Ok(n as usize)
                    } else {
                        Err(invalid_value_error(fid, id, &v))
                    }
                },
                None => Err(invalid_value_error(fid, id, &v)),
            }
        },
    }
}

/// A string argument, as `arg_str` describes it.
fn get_arg_str(fid: &Vec<char>, m: &mut Vec<(Vec<char>, Vec<char>)>, id: &str, def: &str) -> (r: Result<String, String>)
    requires
        params_distinct(params_view(old(m)@)),
    ensures
        params_distinct(params_view(final(m)@)),
        match arg_str(fid@, params_view(old(m)@), id@, def@) {
            Ok((v, m2)) => r matches Ok(x) && x@ == v && params_view(final(m)@) == m2,
            Err(e) => r matches Err(x) && x@ == e,
        },
{
    match peek_param(m, id) {
        None => Ok(String::from_str(def)),
        Some(v) => {
            let n = v.len();
            if n >= 2 && v[0] == '"' && v[n - 1] == '"' {
                let mut inner: Vec<char> = Vec::new();
                let mut k: usize = 1;
                while k + 1 < n
                    invariant
                        n == v@.len(),
                        n >= 2,
                        1 <= k <= n - 1,
                        inner@ == v@.subrange(1, k as int),
                    decreases n - k,
                {
                    inner.push(v[k]);
                    k = k + 1;
                    assert(inner@ =~= v@.subrange(1, k as int));
                }
                match read_string_contents(&inner) {
                    Some(c) => {
                        let _ = take_param(m, id);
                        Ok(chars_to_string(&c))
                    },
                    None => Err(invalid_value_error(fid, id, &v)),
                }
            } else {
                Err(invalid_value_error(fid, id, &v))
            }
        },
    }
}

/// Once reading the arguments fails, reading more pieces fails the same way.
proof fn lemma_params_err(parts: Seq<Seq<char>>, k: int, n: int)
    requires
        1 <= k <= n,
        params_of(parts, k) is Err,
    ensures
        params_of(parts, n) == params_of(parts, k),
    decreases n - k,
{
    if k < n {
        lemma_params_err(parts, k, n - 1);
    }
}

/// The arguments given by the pieces after the first, or the position of
/// the first piece of another shape.
fn collect_params(parts: &Vec<Vec<char>>) -> (r: Result<Vec<(Vec<char>, Vec<char>)>, usize>)
    requires
        parts@.len() >= 1,
    ensures
        match params_of(pieces_view(parts@), parts@.len() as int) {
            Ok(m) => r matches Ok(x) && params_view(x@) == m && params_distinct(m),
            Err(bad) => r matches Err(i) && 1 <= i < parts@.len() && pieces_view(parts@)[i as int] == bad,
        },
{
    let ghost pv = pieces_view(parts@);
    let mut m: Vec<(Vec<char>, Vec<char>)> = Vec::new();
    let mut k: usize = 1;
    assert(params_view(m@) =~= Seq::<(Seq<char>, Seq<char>)>::empty());
    while k < parts.len()
        invariant
            pv == pieces_view(parts@),
            1 <= k <= parts@.len(),
            params_of(pv, k as int) == Ok::<Params, Seq<char>>(params_view(m@)),
            params_distinct(params_view(m@)),
        decreases parts.len() - k,
    {
        let ps = split_chars(&parts[k], ':');
        assert(pv[k as int] == parts@[k as int]@);
        assert(pieces_view(ps@)[0] == ps@[0]@);
        if ps.len() == 1 {
            let key = copy_chars(&ps[0]);
            let empty: Vec<char> = Vec::new();
            assert(empty@ =~= Seq::<char>::empty());
            insert_param(&mut m, key, empty);
        } else if ps.len() == 2 {
            assert(pieces_view(ps@)[1] == ps@[1]@);
            let key = copy_chars(&ps[0]);
            let val = copy_chars(&ps[1]);
            insert_param(&mut m, key, val);
        } else {
            assert(params_of(pv, k + 1) == Err::<Params, Seq<char>>(pv[k as int]));
            proof { lemma_params_err(pv, k + 1, parts@.len() as int); }
            return Err(k);
        }
        k = k + 1;
    }
    Ok(m)
}

/// The format named `fid`, taking the arguments it reads from `m`.
fn format_from(fid: &Vec<char>, m: &mut Vec<(Vec<char>, Vec<char>)>) -> (r: Result<OutputFormat, String>)
    requires
        params_distinct(params_view(old(m)@)),
    ensures
        params_distinct(params_view(final(m)@)),
        match format_named(fid@, params_view(old(m)@)) {
            Ok((f, rest)) => r matches Ok(x) && x@ == f && params_view(final(m)@) == rest,
            Err(e) => r matches Err(x) && x@ == e,
        },
{
    if chars_eq_str(fid, "binary") {
        Ok(OutputFormat::Binary)
    } else if chars_eq_str(fid, "annotated") {
        let base = match get_arg_usize(fid, m, "base", 16, Check::ValidBase) {
            Ok(v) => v,
            Err(e) => { return Err(e); },
        };
        let group = match get_arg_usize(fid, m, "group", 2, Check::NonZero) {
            Ok(v) => v,
            Err(e) => { return Err(e); },
        };
        Ok(OutputFormat::Annotated { base, group })
    } else if chars_eq_str(fid, "annotatedhex") {
        Ok(OutputFormat::Annotated { base: 16, group: 2 })
    } else if chars_eq_str(fid, "annotatedbin") {
        Ok(OutputFormat::Annotated { base: 2, group: 8 })
    } else if chars_eq_str(fid, "binstr") {
        Ok(OutputFormat::BinStr)
    } else if chars_eq_str(fid, "hexstr") {
        Ok(OutputFormat::HexStr)
    } else if chars_eq_str(fid, "bindump") {
        Ok(OutputFormat::BinDump)
    } else if chars_eq_str(fid, "hexdump") {
        Ok(OutputFormat::HexDump)
    } else if chars_eq_str(fid, "mif") {
        Ok(OutputFormat::Mif)
    } else if chars_eq_str(fid, "intelhex") {
        let u = match get_arg_usize(fid, m, "addr_unit", 8, Check::EightSixteenOrThirtyTwo) {
            Ok(v) => v,
            Err(e) => { return Err(e); },
        };
        Ok(OutputFormat::IntelHex { address_unit: u })
    } else if chars_eq_str(fid, "list") {
        list_format(fid, m)
    } else if chars_eq_str(fid, "deccomma") {
        Ok(OutputFormat::DecComma)
    } else if chars_eq_str(fid, "hexcomma") {
        Ok(OutputFormat::HexComma)
    } else if chars_eq_str(fid, "decspace") {
        Ok(OutputFormat::DecSpace)
    } else if chars_eq_str(fid, "hexspace") {
        Ok(OutputFormat::HexSpace)
    } else if chars_eq_str(fid, "decc") {
        Ok(OutputFormat::DecC)
    } else if chars_eq_str(fid, "hexc") || chars_eq_str(fid, "c") {
        Ok(OutputFormat::HexC)
    } else if chars_eq_str(fid, "logisim8") {
        Ok(OutputFormat::LogiSim8)
    } else if chars_eq_str(fid, "logisim16") {
        Ok(OutputFormat::LogiSim16)
    } else if chars_eq_str(fid, "addrspan") {
        Ok(OutputFormat::AddressSpan)
    } else if chars_eq_str(fid, "tcgame") {
        let base = match get_arg_usize(fid, m, "base", 16, Check::TwoOrSixteen) {
            Ok(v) => v,
            Err(e) => { return Err(e); },
        };
        let group = match get_arg_usize(fid, m, "group", 2, Check::NonZero) {
            Ok(v) => v,
            Err(e) => { return Err(e); },
        };
        Ok(OutputFormat::TCGame { base, group })
    } else if chars_eq_str(fid, "tcgamebin") {
        Ok(OutputFormat::TCGame { base: 2, group: 8 })
    } else if chars_eq_str(fid, "symbols") {
        Ok(OutputFormat::Symbols)
    } else if chars_eq_str(fid, "mesen-mlb") {
        Ok(OutputFormat::SymbolsMesenMlb)
    } else {
        let mut out: Vec<char> = Vec::new();
        push_str(&mut out, "unknown format `");
        push_chars(&mut out, fid);
        push_str(&mut out, "`");
        Err(chars_to_string(&out))
    }
}

/// The `list` format, taking the arguments it reads from `m`.
#[verifier::rlimit(60)]
fn list_format(fid: &Vec<char>, m: &mut Vec<(Vec<char>, Vec<char>)>) -> (r: Result<OutputFormat, String>)
    requires
        params_distinct(params_view(old(m)@)),
    ensures
        params_distinct(params_view(final(m)@)),
        match list_named(fid@, params_view(old(m)@)) {
            Ok((f, rest)) => r matches Ok(x) && x@ == f && params_view(final(m)@) == rest,
            Err(e) => r matches Err(x) && x@ == e,
        },
{
    let base = match get_arg_usize(fid, m, "base", 16, Check::ValidBase) {
        Ok(v) => v,
        Err(e) => { return Err(e); },
    };
    let group = match get_arg_usize(fid, m, "group", 2, Check::NonZero) {
        Ok(v) => v,
        Err(e) => { return Err(e); },
    };
    let group2 = match get_arg_usize(fid, m, "group2", 16, Check::NonZero) {
        Ok(v) => v,
        Err(e) => { return Err(e); },
    };
    let before = match get_arg_str(fid, m, "before", "") {
        Ok(v) => v,
        Err(e) => { return Err(e); },
    };
    let after = match get_arg_str(fid, m, "after", "") {
        Ok(v) => v,
        Err(e) => { return Err(e); },
    };
    let between = match get_arg_str(fid, m, "between", "") {
        Ok(v) => v,
        Err(e) => { return Err(e); },
    };
    let between2 = match get_arg_str(fid, m, "between2", "") {
        Ok(v) => v,
        Err(e) => { return Err(e); },
    };
    Ok(OutputFormat::List(FormatListOptions {
        base,
        digits_per_group: group,
        groups_per_group2: group2,
        str_before: before,
        str_after: after,
        str_between_groups: between,
        str_between_groups2: between2,
    }))
}

/// The error messages for the arguments `rest` that the format `fid` did
/// not take.
pub open spec fn unknown_arguments(fid: Seq<char>, rest: Params) -> Seq<Seq<char>> {
    rest.map_values(|kv: (Seq<char>, Seq<char>)| unknown_argument_message(fid, kv.0))
}

/// The report's messages after `errs` are reported as plain errors in the
/// context `parents`.
pub open spec fn reported(parents: Seq<MessageView>, errs: Seq<Seq<char>>) -> Seq<MessageView> {
    errs.map_values(|d: Seq<char>| wrap_parents(parents, plain_error(d)))
}

/// `invalid format argument` for an argument of the wrong shape.
fn bad_argument_error(fid: &Vec<char>, part: &Vec<char>) -> (r: String)
    ensures
        r@ == bad_argument_message(fid@, part@),
{
    let mut out: Vec<char> = Vec::new();
    push_str(&mut out, "invalid format argument `");
    push_chars(&mut out, fid);
    push_str(&mut out, ",");
    push_chars(&mut out, part);
    push_str(&mut out, "`");
    chars_to_string(&out)
}

/// `unknown format argument` for an argument the format does not take.
fn unknown_argument_error(fid: &Vec<char>, id: &Vec<char>) -> (r: String)
    ensures
        r@ == unknown_argument_message(fid@, id@),
{
    let mut out: Vec<char> = Vec::new();
    push_str(&mut out, "unknown format argument `");
    push_chars(&mut out, fid);
    push_str(&mut out, ",");
    push_chars(&mut out, id);
    push_str(&mut out, "`");
    chars_to_string(&out)
}

/// Reads a format string such as `annotated,base:2,group:4`: the name of
/// a format, then its arguments after commas, each `name` or
/// `name:value`. Every problem found is reported as an error, and then
/// the result is `Err`.
pub fn parse_output_format(report: &mut Report, format_str: &str) -> (r: Result<OutputFormat, ()>)
    ensures
        (r is Ok) == (parse_format(format_str@).0 is Some),
        r matches Ok(f) ==> parse_format(format_str@).0 == Some(f@),
        final(report)@ == (ReportView {
            messages: old(report)@.messages + reported(old(report)@.parents, parse_format(format_str@).1),
            ..old(report)@
        }),
{
    let ghost old_report = report@;
    let s = str_chars(format_str);
    let parts = split_chars(&s, ',');
    let fid = &parts[0];
    let ghost pv = pieces_view(parts@);
    assert(pv[0] == fid@);
    match collect_params(&parts) {
        Err(i) => {
            let msg = bad_argument_error(fid, &parts[i]);
            assert(pv[i as int] == parts@[i as int]@);
            report.error(msg.as_str());
            assert(report@.messages =~= old_report.messages + reported(old_report.parents, seq![msg@]));
            Err(())
        },
        Ok(m) => {
            let mut m = m;
            match format_from(fid, &mut m) {
                Err(e) => {
                    report.error(e.as_str());
                    assert(report@.messages =~= old_report.messages + reported(old_report.parents, seq![e@]));
                    Err(())
                },
                Ok(f) => {
                    if m.len() > 0 {
                        let ghost errs = unknown_arguments(fid@, params_view(m@));
                        let mut i: usize = 0;
                        assert(reported(old_report.parents, errs.take(0)) =~= Seq::<MessageView>::empty());
                        assert(report@.messages =~= old_report.messages + reported(old_report.parents, errs.take(0)));
                        while i < m.len()
                            invariant
                                errs == unknown_arguments(fid@, params_view(m@)),
                                i <= m@.len(),
                                report@.parents == old_report.parents,
                                report@.caps == old_report.caps,
                                report@.messages == old_report.messages + reported(old_report.parents, errs.take(i as int)),
                            decreases m.len() - i,
                        {
                            let msg = unknown_argument_error(fid, &m[i].0);
                            assert(errs[i as int] == msg@);
                            report.error(msg.as_str());
                            assert(errs.take(i + 1) =~= errs.take(i as int).push(msg@));
                            assert(reported(old_report.parents, errs.take(i + 1)) =~=
                                reported(old_report.parents, errs.take(i as int)).push(wrap_parents(old_report.parents, plain_error(msg@))));
                            i = i + 1;
                        }
                        assert(errs.take(m@.len() as int) =~= errs);
                        Err(())
                    } else {
                        assert(reported(old_report.parents, Seq::empty()) =~= Seq::<MessageView>::empty());
                        assert(report@.messages =~= old_report.messages + reported(old_report.parents, Seq::empty()));
                        Ok(f)
                    }
                },
            }
        },
    }
}

/// A format string that does not parse always reports at least one
/// error, and one that parses reports none.
pub proof fn law_parse_fails_iff_reported(s: Seq<char>)
    ensures
        (parse_format(s).0 is None) <==> parse_format(s).1.len() > 0,
{
}

/// A string without `,` splits into itself alone.
proof fn lemma_split_without_separator(s: Seq<char>, c: char)
    requires
        !s.contains(c),
    ensures
        split_on(s, c) == seq![s],
    decreases s.len(),
{
    if s.len() > 0 {
        assert(!s.drop_last().contains(c)) by {
            if s.drop_last().contains(c) {
                let i = choose|i: int| 0 <= i < s.drop_last().len() && s.drop_last()[i] == c;
                assert(s[i] == c);
            }
        }
        lemma_split_without_separator(s.drop_last(), c);
        assert(s.last() != c) by {
            assert(s[s.len() - 1] == s.last());
        }
        assert(s.drop_last().push(s.last()) =~= s);
        assert(seq![s.drop_last()].update(0, s.drop_last().push(s.last())) =~= seq![s]);
    } else {
        assert(s =~= Seq::<char>::empty());
    }
}

/// No argument is found among none.
proof fn lemma_no_params(k: Seq<char>)
    ensures
        param_get(Seq::empty(), k) is None,
{
}

/// A format name given alone is read with no arguments.
proof fn lemma_plain_name(s: Seq<char>)
    requires
        !s.contains(','),
    ensures
        parse_format(s) == (match format_named(s, Seq::empty()) {
            Err(e) => (None, seq![e]),
            Ok((f, rest)) => if rest.len() > 0 {
                (None, unknown_arguments(s, rest))
            } else {
                (Some(f), Seq::<Seq<char>>::empty())
            },
        }),
{
    lemma_split_without_separator(s, ',');
}



/// `binary`, given alone, is read as its format.
proof fn lemma_format_name_binary()
    ensures
        parse_format("binary"@) == (Some(FormatView::Binary), Seq::<Seq<char>>::empty()),
{
    reveal_strlit("binary");
    lemma_plain_name("binary"@);
    assert(format_named("binary"@, Seq::empty()) == Ok::<(FormatView, Params), Seq<char>>((FormatView::Binary, Seq::empty())));
}

/// `annotated`, given alone, is read as its format.
proof fn lemma_format_name_annotated()
    ensures
        parse_format("annotated"@) == (Some(FormatView::Annotated { base: 16, group: 2 }), Seq::<Seq<char>>::empty()),
{
    reveal_strlit("binary");
    reveal_strlit("annotated");
    reveal_strlit("base");
    reveal_strlit("group");
    reveal_strlit("group2");
    reveal_strlit("addr_unit");
    reveal_strlit("before");
    reveal_strlit("after");
    reveal_strlit("between");
    reveal_strlit("between2");
    reveal_strlit("");
    lemma_plain_name("annotated"@);
    assert(format_named("annotated"@, Seq::empty()) == Ok::<(FormatView, Params), Seq<char>>((FormatView::Annotated { base: 16, group: 2 }, Seq::empty())));
}

/// `annotatedhex`, given alone, is read as its format.
proof fn lemma_format_name_annotatedhex()
    ensures
        parse_format("annotatedhex"@) == (Some(FormatView::Annotated { base: 16, group: 2 }), Seq::<Seq<char>>::empty()),
{
    reveal_strlit("binary");
    reveal_strlit("annotated");
    reveal_strlit("annotatedhex");
    lemma_plain_name("annotatedhex"@);
    assert(format_named("annotatedhex"@, Seq::empty()) == Ok::<(FormatView, Params), Seq<char>>((FormatView::Annotated { base: 16, group: 2 }, Seq::empty())));
}

/// `annotatedbin`, given alone, is read as its format.
proof fn lemma_format_name_annotatedbin()
    ensures
        parse_format("annotatedbin"@) == (Some(FormatView::Annotated { base: 2, group: 8 }), Seq::<Seq<char>>::empty()),
{
    reveal_strlit("binary");
    reveal_strlit("annotated");
    reveal_strlit("annotatedhex");
    reveal_strlit("annotatedbin");
    assert("annotatedbin"@[9] != "annotatedhex"@[9]);
    lemma_plain_name("annotatedbin"@);
    assert(format_named("annotatedbin"@, Seq::empty()) == Ok::<(FormatView, Params), Seq<char>>((FormatView::Annotated { base: 2, group: 8 }, Seq::empty())));
}

/// `binstr`, given alone, is read as its format.
proof fn lemma_format_name_binstr()
    ensures
        parse_format("binstr"@) == (Some(FormatView::BinStr), Seq::<Seq<char>>::empty()),
{
    reveal_strlit("binary");
    reveal_strlit("annotated");
    reveal_strlit("annotatedhex");
    reveal_strlit("annotatedbin");
    reveal_strlit("binstr");
    assert("binstr"@[3] != "binary"@[3]);
    lemma_plain_name("binstr"@);
    assert(format_named("binstr"@, Seq::empty()) == Ok::<(FormatView, Params), Seq<char>>((FormatView::BinStr, Seq::empty())));
}

/// `hexstr`, given alone, is read as its format.
proof fn lemma_format_name_hexstr()
    ensures
        parse_format("hexstr"@) == (Some(FormatView::HexStr), Seq::<Seq<char>>::empty()),
{
    reveal_strlit("binary");
    reveal_strlit("annotated");
    reveal_strlit("annotatedhex");
    reveal_strlit("annotatedbin");
    reveal_strlit("binstr");
    reveal_strlit("hexstr");
    assert("hexstr"@[0] != "binary"@[0]);
    assert("hexstr"@[0] != "binstr"@[0]);
    lemma_plain_name("hexstr"@);
    assert(format_named("hexstr"@, Seq::empty()) == Ok::<(FormatView, Params), Seq<char>>((FormatView::HexStr, Seq::empty())));
}

/// `bindump`, given alone, is read as its format.
proof fn lemma_format_name_bindump()
    ensures
        parse_format("bindump"@) == (Some(FormatView::BinDump), Seq::<Seq<char>>::empty()),
{
    reveal_strlit("binary");
    reveal_strlit("annotated");
    reveal_strlit("annotatedhex");
    reveal_strlit("annotatedbin");
    reveal_strlit("binstr");
    reveal_strlit("hexstr");
    reveal_strlit("bindump");
    lemma_plain_name("bindump"@);
    assert(format_named("bindump"@, Seq::empty()) == Ok::<(FormatView, Params), Seq<char>>((FormatView::BinDump, Seq::empty())));
}

/// `hexdump`, given alone, is read as its format.
proof fn lemma_format_name_hexdump()
    ensures
        parse_format("hexdump"@) == (Some(FormatView::HexDump), Seq::<Seq<char>>::empty()),
{
    reveal_strlit("binary");
    reveal_strlit("annotated");
    reveal_strlit("annotatedhex");
    reveal_strlit("annotatedbin");
    reveal_strlit("binstr");
    reveal_strlit("hexstr");
    reveal_strlit("bindump");
    reveal_strlit("hexdump");
    assert("hexdump"@[0] != "bindump"@[0]);
    lemma_plain_name("hexdump"@);
    assert(format_named("hexdump"@, Seq::empty()) == Ok::<(FormatView, Params), Seq<char>>((FormatView::HexDump, Seq::empty())));
}

/// `mif`, given alone, is read as its format.
proof fn lemma_format_name_mif()
    ensures
        parse_format("mif"@) == (Some(FormatView::Mif), Seq::<Seq<char>>::empty()),
{
    reveal_strlit("binary");
    reveal_strlit("annotated");
    reveal_strlit("annotatedhex");
    reveal_strlit("annotatedbin");
    reveal_strlit("binstr");
    reveal_strlit("hexstr");
    reveal_strlit("bindump");
    reveal_strlit("hexdump");
    reveal_strlit("mif");
    lemma_plain_name("mif"@);
    assert(format_named("mif"@, Seq::empty()) == Ok::<(FormatView, Params), Seq<char>>((FormatView::Mif, Seq::empty())));
}

/// `intelhex`, given alone, is read as its format.
proof fn lemma_format_name_intelhex()
    ensures
        parse_format("intelhex"@) == (Some(FormatView::IntelHex { address_unit: 8 }), Seq::<Seq<char>>::empty()),
{
    reveal_strlit("binary");
    reveal_strlit("annotated");
    reveal_strlit("annotatedhex");
    reveal_strlit("annotatedbin");
    reveal_strlit("binstr");
    reveal_strlit("hexstr");
    reveal_strlit("bindump");
    reveal_strlit("hexdump");
    reveal_strlit("mif");
    reveal_strlit("intelhex");
    reveal_strlit("base");
    reveal_strlit("group");
    reveal_strlit("group2");
    reveal_strlit("addr_unit");
    reveal_strlit("before");
    reveal_strlit("after");
    reveal_strlit("between");
    reveal_strlit("between2");
    reveal_strlit("");
    lemma_plain_name("intelhex"@);
    assert(format_named("intelhex"@, Seq::empty()) == Ok::<(FormatView, Params), Seq<char>>((FormatView::IntelHex { address_unit: 8 }, Seq::empty())));
}

/// `list`, given alone, is read as its format.
proof fn lemma_format_name_list()
    ensures
        parse_format("list"@) == (Some(FormatView::List(ListView { base: 16, digits_per_group: 2, groups_per_group2: 16, str_before: Seq::empty(), str_after: Seq::empty(), str_between_groups: Seq::empty(), str_between_groups2: Seq::empty() })), Seq::<Seq<char>>::empty()),
{
    reveal_strlit("binary");
    reveal_strlit("annotated");
    reveal_strlit("annotatedhex");
    reveal_strlit("annotatedbin");
    reveal_strlit("binstr");
    reveal_strlit("hexstr");
    reveal_strlit("bindump");
    reveal_strlit("hexdump");
    reveal_strlit("mif");
    reveal_strlit("intelhex");
    reveal_strlit("list");
    lemma_no_params("base"@);
    lemma_no_params("group"@);
    lemma_no_params("group2"@);
    lemma_no_params("before"@);
    lemma_no_params("after"@);
    lemma_no_params("between"@);
    lemma_no_params("between2"@);
    reveal_strlit("");
    assert(""@ =~= Seq::<char>::empty());
    let e: Params = Seq::empty();
    assert(arg_usize("list"@, e, "base"@, 16, Check::ValidBase) == Ok::<(usize, Params), Seq<char>>((16, e)));
    assert(arg_str("list"@, e, "before"@, ""@) == Ok::<(Seq<char>, Params), Seq<char>>((Seq::empty(), e)));
    assert(list_named("list"@, Seq::empty()) == Ok::<(FormatView, Params), Seq<char>>((FormatView::List(ListView { base: 16, digits_per_group: 2, groups_per_group2: 16, str_before: Seq::empty(), str_after: Seq::empty(), str_between_groups: Seq::empty(), str_between_groups2: Seq::empty() }), Seq::empty())));
    reveal_strlit("");
    lemma_plain_name("list"@);
    assert(format_named("list"@, Seq::empty()) == Ok::<(FormatView, Params), Seq<char>>((FormatView::List(ListView { base: 16, digits_per_group: 2, groups_per_group2: 16, str_before: Seq::empty(), str_after: Seq::empty(), str_between_groups: Seq::empty(), str_between_groups2: Seq::empty() }), Seq::empty())));
}

/// `deccomma`, given alone, is read as its format.
proof fn lemma_format_name_deccomma()
    ensures
        parse_format("deccomma"@) == (Some(FormatView::DecComma), Seq::<Seq<char>>::empty()),
{
    reveal_strlit("binary");
    reveal_strlit("annotated");
    reveal_strlit("annotatedhex");
    reveal_strlit("annotatedbin");
    reveal_strlit("binstr");
    reveal_strlit("hexstr");
    reveal_strlit("bindump");
    reveal_strlit("hexdump");
    reveal_strlit("mif");
    reveal_strlit("intelhex");
    reveal_strlit("list");
    reveal_strlit("deccomma");
    assert("deccomma"@[0] != "intelhex"@[0]);
    lemma_plain_name("deccomma"@);
    assert(format_named("deccomma"@, Seq::empty()) == Ok::<(FormatView, Params), Seq<char>>((FormatView::DecComma, Seq::empty())));
}

/// `hexcomma`, given alone, is read as its format.
proof fn lemma_format_name_hexcomma()
    ensures
        parse_format("hexcomma"@) == (Some(FormatView::HexComma), Seq::<Seq<char>>::empty()),
{
    reveal_strlit("binary");
    reveal_strlit("annotated");
    reveal_strlit("annotatedhex");
    reveal_strlit("annotatedbin");
    reveal_strlit("binstr");
    reveal_strlit("hexstr");
    reveal_strlit("bindump");
    reveal_strlit("hexdump");
    reveal_strlit("mif");
    reveal_strlit("intelhex");
    reveal_strlit("list");
    reveal_strlit("deccomma");
    reveal_strlit("hexcomma");
    assert("hexcomma"@[0] != "intelhex"@[0]);
    assert("hexcomma"@[0] != "deccomma"@[0]);
    lemma_plain_name("hexcomma"@);
    assert(format_named("hexcomma"@, Seq::empty()) == Ok::<(FormatView, Params), Seq<char>>((FormatView::HexComma, Seq::empty())));
}

/// `decspace`, given alone, is read as its format.
proof fn lemma_format_name_decspace()
    ensures
        parse_format("decspace"@) == (Some(FormatView::DecSpace), Seq::<Seq<char>>::empty()),
{
    reveal_strlit("binary");
    reveal_strlit("annotated");
    reveal_strlit("annotatedhex");
    reveal_strlit("annotatedbin");
    reveal_strlit("binstr");
    reveal_strlit("hexstr");
    reveal_strlit("bindump");
    reveal_strlit("hexdump");
    reveal_strlit("mif");
    reveal_strlit("intelhex");
    reveal_strlit("list");
    reveal_strlit("deccomma");
    reveal_strlit("hexcomma");
    reveal_strlit("decspace");
    assert("decspace"@[0] != "intelhex"@[0]);
    assert("decspace"@[3] != "deccomma"@[3]);
    assert("decspace"@[0] != "hexcomma"@[0]);
    lemma_plain_name("decspace"@);
    assert(format_named("decspace"@, Seq::empty()) == Ok::<(FormatView, Params), Seq<char>>((FormatView::DecSpace, Seq::empty())));
}

/// `hexspace`, given alone, is read as its format.
proof fn lemma_format_name_hexspace()
    ensures
        parse_format("hexspace"@) == (Some(FormatView::HexSpace), Seq::<Seq<char>>::empty()),
{
    reveal_strlit("binary");
    reveal_strlit("annotated");
    reveal_strlit("annotatedhex");
    reveal_strlit("annotatedbin");
    reveal_strlit("binstr");
    reveal_strlit("hexstr");
    reveal_strlit("bindump");
    reveal_strlit("hexdump");
    reveal_strlit("mif");
    reveal_strlit("intelhex");
    reveal_strlit("list");
    reveal_strlit("deccomma");
    reveal_strlit("hexcomma");
    reveal_strlit("decspace");
    reveal_strlit("hexspace");
    assert("hexspace"@[0] != "intelhex"@[0]);
    assert("hexspace"@[0] != "deccomma"@[0]);
    assert("hexspace"@[3] != "hexcomma"@[3]);
    assert("hexspace"@[0] != "decspace"@[0]);
    lemma_plain_name("hexspace"@);
    assert(format_named("hexspace"@, Seq::empty()) == Ok::<(FormatView, Params), Seq<char>>((FormatView::HexSpace, Seq::empty())));
}

/// `decc`, given alone, is read as its format.
proof fn lemma_format_name_decc()
    ensures
        parse_format("decc"@) == (Some(FormatView::DecC), Seq::<Seq<char>>::empty()),
{
    reveal_strlit("binary");
    reveal_strlit("annotated");
    reveal_strlit("annotatedhex");
    reveal_strlit("annotatedbin");
    reveal_strlit("binstr");
    reveal_strlit("hexstr");
    reveal_strlit("bindump");
    reveal_strlit("hexdump");
    reveal_strlit("mif");
    reveal_strlit("intelhex");
    reveal_strlit("list");
    reveal_strlit("deccomma");
    reveal_strlit("hexcomma");
    reveal_strlit("decspace");
    reveal_strlit("hexspace");
    reveal_strlit("decc");
    assert("decc"@[0] != "list"@[0]);
    lemma_plain_name("decc"@);
    assert(format_named("decc"@, Seq::empty()) == Ok::<(FormatView, Params), Seq<char>>((FormatView::DecC, Seq::empty())));
}

/// `hexc`, given alone, is read as its format.
proof fn lemma_format_name_hexc()
    ensures
        parse_format("hexc"@) == (Some(FormatView::HexC), Seq::<Seq<char>>::empty()),
{
    reveal_strlit("binary");
    reveal_strlit("annotated");
    reveal_strlit("annotatedhex");
    reveal_strlit("annotatedbin");
    reveal_strlit("binstr");
    reveal_strlit("hexstr");
    reveal_strlit("bindump");
    reveal_strlit("hexdump");
    reveal_strlit("mif");
    reveal_strlit("intelhex");
    reveal_strlit("list");
    reveal_strlit("deccomma");
    reveal_strlit("hexcomma");
    reveal_strlit("decspace");
    reveal_strlit("hexspace");
    reveal_strlit("decc");
    reveal_strlit("hexc");
    assert("hexc"@[0] != "list"@[0]);
    assert("hexc"@[0] != "decc"@[0]);
    lemma_plain_name("hexc"@);
    assert(format_named("hexc"@, Seq::empty()) == Ok::<(FormatView, Params), Seq<char>>((FormatView::HexC, Seq::empty())));
}

/// `c`, given alone, is read as its format.
proof fn lemma_format_name_c()
    ensures
        parse_format("c"@) == (Some(FormatView::HexC), Seq::<Seq<char>>::empty()),
{
    reveal_strlit("binary");
    reveal_strlit("annotated");
    reveal_strlit("annotatedhex");
    reveal_strlit("annotatedbin");
    reveal_strlit("binstr");
    reveal_strlit("hexstr");
    reveal_strlit("bindump");
    reveal_strlit("hexdump");
    reveal_strlit("mif");
    reveal_strlit("intelhex");
    reveal_strlit("list");
    reveal_strlit("deccomma");
    reveal_strlit("hexcomma");
    reveal_strlit("decspace");
    reveal_strlit("hexspace");
    reveal_strlit("decc");
    reveal_strlit("hexc");
    reveal_strlit("c");
    lemma_plain_name("c"@);
    assert(format_named("c"@, Seq::empty()) == Ok::<(FormatView, Params), Seq<char>>((FormatView::HexC, Seq::empty())));
}

/// `logisim8`, given alone, is read as its format.
proof fn lemma_format_name_logisim8()
    ensures
        parse_format("logisim8"@) == (Some(FormatView::LogiSim8), Seq::<Seq<char>>::empty()),
{
    reveal_strlit("binary");
    reveal_strlit("annotated");
    reveal_strlit("annotatedhex");
    reveal_strlit("annotatedbin");
    reveal_strlit("binstr");
    reveal_strlit("hexstr");
    reveal_strlit("bindump");
    reveal_strlit("hexdump");
    reveal_strlit("mif");
    reveal_strlit("intelhex");
    reveal_strlit("list");
    reveal_strlit("deccomma");
    reveal_strlit("hexcomma");
    reveal_strlit("decspace");
    reveal_strlit("hexspace");
    reveal_strlit("decc");
    reveal_strlit("hexc");
    reveal_strlit("c");
    reveal_strlit("logisim8");
    assert("logisim8"@[0] != "intelhex"@[0]);
    assert("logisim8"@[0] != "deccomma"@[0]);
    assert("logisim8"@[0] != "hexcomma"@[0]);
    assert("logisim8"@[0] != "decspace"@[0]);
    assert("logisim8"@[0] != "hexspace"@[0]);
    lemma_plain_name("logisim8"@);
    assert(format_named("logisim8"@, Seq::empty()) == Ok::<(FormatView, Params), Seq<char>>((FormatView::LogiSim8, Seq::empty())));
}

/// `logisim16`, given alone, is read as its format.
proof fn lemma_format_name_logisim16()
    ensures
        parse_format("logisim16"@) == (Some(FormatView::LogiSim16), Seq::<Seq<char>>::empty()),
{
    reveal_strlit("binary");
    reveal_strlit("annotated");
    reveal_strlit("annotatedhex");
    reveal_strlit("annotatedbin");
    reveal_strlit("binstr");
    reveal_strlit("hexstr");
    reveal_strlit("bindump");
    reveal_strlit("hexdump");
    reveal_strlit("mif");
    reveal_strlit("intelhex");
    reveal_strlit("list");
    reveal_strlit("deccomma");
    reveal_strlit("hexcomma");
    reveal_strlit("decspace");
    reveal_strlit("hexspace");
    reveal_strlit("decc");
    reveal_strlit("hexc");
    reveal_strlit("c");
    reveal_strlit("logisim8");
    reveal_strlit("logisim16");
    assert("logisim16"@[0] != "annotated"@[0]);
    lemma_plain_name("logisim16"@);
    assert(format_named("logisim16"@, Seq::empty()) == Ok::<(FormatView, Params), Seq<char>>((FormatView::LogiSim16, Seq::empty())));
}

/// `addrspan`, given alone, is read as its format.
proof fn lemma_format_name_addrspan()
    ensures
        parse_format("addrspan"@) == (Some(FormatView::AddressSpan), Seq::<Seq<char>>::empty()),
{
    reveal_strlit("binary");
    reveal_strlit("annotated");
    reveal_strlit("annotatedhex");
    reveal_strlit("annotatedbin");
    reveal_strlit("binstr");
    reveal_strlit("hexstr");
    reveal_strlit("bindump");
    reveal_strlit("hexdump");
    reveal_strlit("mif");
    reveal_strlit("intelhex");
    reveal_strlit("list");
    reveal_strlit("deccomma");
    reveal_strlit("hexcomma");
    reveal_strlit("decspace");
    reveal_strlit("hexspace");
    reveal_strlit("decc");
    reveal_strlit("hexc");
    reveal_strlit("c");
    reveal_strlit("logisim8");
    reveal_strlit("logisim16");
    reveal_strlit("addrspan");
    assert("addrspan"@[0] != "intelhex"@[0]);
    assert("addrspan"@[0] != "deccomma"@[0]);
    assert("addrspan"@[0] != "hexcomma"@[0]);
    assert("addrspan"@[0] != "decspace"@[0]);
    assert("addrspan"@[0] != "hexspace"@[0]);
    assert("addrspan"@[0] != "logisim8"@[0]);
    lemma_plain_name("addrspan"@);
    assert(format_named("addrspan"@, Seq::empty()) == Ok::<(FormatView, Params), Seq<char>>((FormatView::AddressSpan, Seq::empty())));
}

/// `tcgame`, given alone, is read as its format.
proof fn lemma_format_name_tcgame()
    ensures
        parse_format("tcgame"@) == (Some(FormatView::TCGame { base: 16, group: 2 }), Seq::<Seq<char>>::empty()),
{
    reveal_strlit("binary");
    reveal_strlit("annotated");
    reveal_strlit("annotatedhex");
    reveal_strlit("annotatedbin");
    reveal_strlit("binstr");
    reveal_strlit("hexstr");
    reveal_strlit("bindump");
    reveal_strlit("hexdump");
    reveal_strlit("mif");
    reveal_strlit("intelhex");
    reveal_strlit("list");
    reveal_strlit("deccomma");
    reveal_strlit("hexcomma");
    reveal_strlit("decspace");
    reveal_strlit("hexspace");
    reveal_strlit("decc");
    reveal_strlit("hexc");
    reveal_strlit("c");
    reveal_strlit("logisim8");
    reveal_strlit("logisim16");
    reveal_strlit("addrspan");
    reveal_strlit("tcgame");
    reveal_strlit("base");
    reveal_strlit("group");
    reveal_strlit("group2");
    reveal_strlit("addr_unit");
    reveal_strlit("before");
    reveal_strlit("after");
    reveal_strlit("between");
    reveal_strlit("between2");
    reveal_strlit("");
    assert("tcgame"@[0] != "binary"@[0]);
    assert("tcgame"@[0] != "binstr"@[0]);
    assert("tcgame"@[0] != "hexstr"@[0]);
    lemma_plain_name("tcgame"@);
    assert(format_named("tcgame"@, Seq::empty()) == Ok::<(FormatView, Params), Seq<char>>((FormatView::TCGame { base: 16, group: 2 }, Seq::empty())));
}

/// `tcgamebin`, given alone, is read as its format.
proof fn lemma_format_name_tcgamebin()
    ensures
        parse_format("tcgamebin"@) == (Some(FormatView::TCGame { base: 2, group: 8 }), Seq::<Seq<char>>::empty()),
{
    reveal_strlit("binary");
    reveal_strlit("annotated");
    reveal_strlit("annotatedhex");
    reveal_strlit("annotatedbin");
    reveal_strlit("binstr");
    reveal_strlit("hexstr");
    reveal_strlit("bindump");
    reveal_strlit("hexdump");
    reveal_strlit("mif");
    reveal_strlit("intelhex");
    reveal_strlit("list");
    reveal_strlit("deccomma");
    reveal_strlit("hexcomma");
    reveal_strlit("decspace");
    reveal_strlit("hexspace");
    reveal_strlit("decc");
    reveal_strlit("hexc");
    reveal_strlit("c");
    reveal_strlit("logisim8");
    reveal_strlit("logisim16");
    reveal_strlit("addrspan");
    reveal_strlit("tcgame");
    reveal_strlit("tcgamebin");
    assert("tcgamebin"@[0] != "annotated"@[0]);
    assert("tcgamebin"@[0] != "logisim16"@[0]);
    lemma_plain_name("tcgamebin"@);
    assert(format_named("tcgamebin"@, Seq::empty()) == Ok::<(FormatView, Params), Seq<char>>((FormatView::TCGame { base: 2, group: 8 }, Seq::empty())));
}

/// `symbols`, given alone, is read as its format.
proof fn lemma_format_name_symbols()
    ensures
        parse_format("symbols"@) == (Some(FormatView::Symbols), Seq::<Seq<char>>::empty()),
{
    reveal_strlit("binary");
    reveal_strlit("annotated");
    reveal_strlit("annotatedhex");
    reveal_strlit("annotatedbin");
    reveal_strlit("binstr");
    reveal_strlit("hexstr");
    reveal_strlit("bindump");
    reveal_strlit("hexdump");
    reveal_strlit("mif");
    reveal_strlit("intelhex");
    reveal_strlit("list");
    reveal_strlit("deccomma");
    reveal_strlit("hexcomma");
    reveal_strlit("decspace");
    reveal_strlit("hexspace");
    reveal_strlit("decc");
    reveal_strlit("hexc");
    reveal_strlit("c");
    reveal_strlit("logisim8");
    reveal_strlit("logisim16");
    reveal_strlit("addrspan");
    reveal_strlit("tcgame");
    reveal_strlit("tcgamebin");
    reveal_strlit("symbols");
    assert("symbols"@[0] != "bindump"@[0]);
    assert("symbols"@[0] != "hexdump"@[0]);
    lemma_plain_name("symbols"@);
    assert(format_named("symbols"@, Seq::empty()) == Ok::<(FormatView, Params), Seq<char>>((FormatView::Symbols, Seq::empty())));
}

/// `mesen-mlb`, given alone, is read as its format.
proof fn lemma_format_name_mesen_mlb()
    ensures
        parse_format("mesen-mlb"@) == (Some(FormatView::SymbolsMesenMlb), Seq::<Seq<char>>::empty()),
{
    reveal_strlit("binary");
    reveal_strlit("annotated");
    reveal_strlit("annotatedhex");
    reveal_strlit("annotatedbin");
    reveal_strlit("binstr");
    reveal_strlit("hexstr");
    reveal_strlit("bindump");
    reveal_strlit("hexdump");
    reveal_strlit("mif");
    reveal_strlit("intelhex");
    reveal_strlit("list");
    reveal_strlit("deccomma");
    reveal_strlit("hexcomma");
    reveal_strlit("decspace");
    reveal_strlit("hexspace");
    reveal_strlit("decc");
    reveal_strlit("hexc");
    reveal_strlit("c");
    reveal_strlit("logisim8");
    reveal_strlit("logisim16");
    reveal_strlit("addrspan");
    reveal_strlit("tcgame");
    reveal_strlit("tcgamebin");
    reveal_strlit("symbols");
    reveal_strlit("mesen-mlb");
    assert("mesen-mlb"@[0] != "annotated"@[0]);
    assert("mesen-mlb"@[0] != "logisim16"@[0]);
    assert("mesen-mlb"@[0] != "tcgamebin"@[0]);
    lemma_plain_name("mesen-mlb"@);
    assert(format_named("mesen-mlb"@, Seq::empty()) == Ok::<(FormatView, Params), Seq<char>>((FormatView::SymbolsMesenMlb, Seq::empty())));
}

/// Each format name that takes no arguments, given alone, asks for its
/// own format, and nothing is reported.
pub proof fn law_format_names()
    ensures
        parse_format("binary"@) == (Some(FormatView::Binary), Seq::<Seq<char>>::empty()),
        parse_format("annotatedhex"@) == (Some(FormatView::Annotated { base: 16, group: 2 }), Seq::<Seq<char>>::empty()),
        parse_format("annotatedbin"@) == (Some(FormatView::Annotated { base: 2, group: 8 }), Seq::<Seq<char>>::empty()),
        parse_format("binstr"@) == (Some(FormatView::BinStr), Seq::<Seq<char>>::empty()),
        parse_format("hexstr"@) == (Some(FormatView::HexStr), Seq::<Seq<char>>::empty()),
        parse_format("bindump"@) == (Some(FormatView::BinDump), Seq::<Seq<char>>::empty()),
        parse_format("hexdump"@) == (Some(FormatView::HexDump), Seq::<Seq<char>>::empty()),
        parse_format("mif"@) == (Some(FormatView::Mif), Seq::<Seq<char>>::empty()),
        parse_format("deccomma"@) == (Some(FormatView::DecComma), Seq::<Seq<char>>::empty()),
        parse_format("hexcomma"@) == (Some(FormatView::HexComma), Seq::<Seq<char>>::empty()),
        parse_format("decspace"@) == (Some(FormatView::DecSpace), Seq::<Seq<char>>::empty()),
        parse_format("hexspace"@) == (Some(FormatView::HexSpace), Seq::<Seq<char>>::empty()),
        parse_format("decc"@) == (Some(FormatView::DecC), Seq::<Seq<char>>::empty()),
        parse_format("hexc"@) == (Some(FormatView::HexC), Seq::<Seq<char>>::empty()),
        parse_format("c"@) == (Some(FormatView::HexC), Seq::<Seq<char>>::empty()),
        parse_format("logisim8"@) == (Some(FormatView::LogiSim8), Seq::<Seq<char>>::empty()),
        parse_format("logisim16"@) == (Some(FormatView::LogiSim16), Seq::<Seq<char>>::empty()),
        parse_format("addrspan"@) == (Some(FormatView::AddressSpan), Seq::<Seq<char>>::empty()),
        parse_format("tcgamebin"@) == (Some(FormatView::TCGame { base: 2, group: 8 }), Seq::<Seq<char>>::empty()),
        parse_format("symbols"@) == (Some(FormatView::Symbols), Seq::<Seq<char>>::empty()),
        parse_format("mesen-mlb"@) == (Some(FormatView::SymbolsMesenMlb), Seq::<Seq<char>>::empty()),
{
    lemma_format_name_binary();
    lemma_format_name_annotatedhex();
    lemma_format_name_annotatedbin();
    lemma_format_name_binstr();
    lemma_format_name_hexstr();
    lemma_format_name_bindump();
    lemma_format_name_hexdump();
    lemma_format_name_mif();
    lemma_format_name_deccomma();
    lemma_format_name_hexcomma();
    lemma_format_name_decspace();
    lemma_format_name_hexspace();
    lemma_format_name_decc();
    lemma_format_name_hexc();
    lemma_format_name_c();
    lemma_format_name_logisim8();
    lemma_format_name_logisim16();
    lemma_format_name_addrspan();
    lemma_format_name_tcgamebin();
    lemma_format_name_symbols();
    lemma_format_name_mesen_mlb();
}

/// Each format name that takes arguments, given alone, asks for its own
/// format with the default values of its arguments (`annotated`: base 16,
/// two digits a group; `intelhex`: 8-bit address units; `list`: base 16,
/// two digits a group, sixteen groups a line, no separators; `tcgame`:
/// base 16, two digits a group), and nothing is reported.
pub proof fn law_format_names_with_defaults()
    ensures
        parse_format("annotated"@) == (Some(FormatView::Annotated { base: 16, group: 2 }), Seq::<Seq<char>>::empty()),
        parse_format("intelhex"@) == (Some(FormatView::IntelHex { address_unit: 8 }), Seq::<Seq<char>>::empty()),
        parse_format("list"@) == (Some(FormatView::List(ListView { base: 16, digits_per_group: 2, groups_per_group2: 16, str_before: Seq::empty(), str_after: Seq::empty(), str_between_groups: Seq::empty(), str_between_groups2: Seq::empty() })), Seq::<Seq<char>>::empty()),
        parse_format("tcgame"@) == (Some(FormatView::TCGame { base: 16, group: 2 }), Seq::<Seq<char>>::empty()),
{
    lemma_format_name_annotated();
    lemma_format_name_intelhex();
    lemma_format_name_list();
    lemma_format_name_tcgame();
}

} // verus!
