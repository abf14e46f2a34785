//! A report as text: each message under its label, followed by the source
//! lines its span covers, numbered, with the covered characters marked
//! below them. Source files come as a list, a span's file handle being the
//! position of its file in the list; lines are separated by `\n`.
use vstd::prelude::*;
use crate::annotated::{SourceFile, files_view};
use crate::diagn::{Message, MessageKind, MessageView, Report, lemma_views_len, message_count, messages_count, messages_view};
use crate::text::{chars_to_string, dec, pad_left, pieces_view, push_radix, push_radix_padded, push_str, radix_len, split_chars, split_on};

verus! {

/// The lines of `c`.
pub open spec fn lines_of(c: Seq<char>) -> Seq<Seq<char>> {
    split_on(c, '\n')
}

/// The line and the column of character position `i` of `c`, both counted
/// from zero.
pub open spec fn line_col(c: Seq<char>, i: nat) -> (nat, nat) {
    let p = lines_of(c.take(i as int));
    ((p.len() - 1) as nat, p.last().len())
}

/// Where a span lies and which lines show it: the line and column of its
/// start and of its end, the shown lines `excerpt_line1..excerpt_line2`,
/// and the width of the widest line number.
#[derive(Clone, Copy)]
pub struct LineInfo {
    pub line1: usize,
    pub col1: usize,
    pub line2: usize,
    pub col2: usize,
    pub excerpt_line1: usize,
    pub excerpt_line2: usize,
    pub label_width: usize,
}

/// The lines shown for the span `start..end` of `c`: two lines before the
/// start and three after the end, or none before and one after for a short
/// excerpt, within the file.
pub open spec fn line_info_of(c: Seq<char>, start: nat, end: nat, short: bool) -> LineInfo {
    let (line1, col1) = line_col(c, start);
    let (line2, col2) = line_col(c, end);
    let before: nat = if short { 0 } else { 2 };
    let after: nat = if short { 1 } else { 3 };
    let count = lines_of(c).len();
    let ex1: nat = if line1 < before { 0 } else { (line1 - before) as nat };
    let ex2: nat = if line2 + after >= count { count } else { line2 + after };
    let top: nat = if ex1 >= ex2 { ex1 } else { ex2 };
    LineInfo {
        line1: line1 as usize,
        col1: col1 as usize,
        line2: line2 as usize,
        col2: col2 as usize,
        excerpt_line1: ex1 as usize,
        excerpt_line2: ex2 as usize,
        label_width: dec(top).len() as usize,
    }
}

/// Splitting gives at least one piece, and never more pieces than
/// characters plus one.
pub proof fn lemma_split_len(s: Seq<char>, c: char)
    ensures
        1 <= split_on(s, c).len() <= s.len() + 1,
        forall|k: int| 0 <= k < split_on(s, c).len() ==> #[trigger] split_on(s, c)[k].len() <= s.len(),
    decreases s.len(),
{
    if s.len() > 0 {
        lemma_split_len(s.drop_last(), c);
    }
}

/// The line and column of position `i` of `c`.
fn line_col_at(c: &Vec<char>, i: usize) -> (r: (usize, usize))
    requires
        i <= c@.len(),
    ensures
        r.0 as nat == line_col(c@, i as nat).0,
        r.1 as nat == line_col(c@, i as nat).1,
        r.0 <= i && r.1 <= i,
{
    let mut line: usize = 0;
    let mut col: usize = 0;
    let mut k: usize = 0;
    assert(c@.take(0) =~= Seq::<char>::empty());
    while k < i
        invariant
            i <= c@.len(),
            k <= i,
            lines_of(c@.take(k as int)).len() == line + 1,
            lines_of(c@.take(k as int)).last().len() == col,
            line <= k && col <= k,
        decreases i - k,
    {
        let ghost before = lines_of(c@.take(k as int));
        assert(c@.take(k + 1).drop_last() =~= c@.take(k as int));
        if c[k] == '\n' {
            line = line + 1;
            col = 0;
        } else {
            col = col + 1;
        }
        k = k + 1;
        proof { lemma_split_len(c@.take(k as int - 1), '\n'); }
    }
    (line, col)
}

/// Where the span `start..end` of `c`, a file of `line_count` lines, lies
/// and which lines show it.
fn get_line_info(c: &Vec<char>, line_count: usize, start: usize, end: usize, short_excerpt: bool) -> (r: LineInfo)
    requires
        start <= end <= c@.len(),
        line_count == lines_of(c@).len(),
    ensures
        r == line_info_of(c@, start as nat, end as nat, short_excerpt),
        r.excerpt_line2 <= line_count,
        1 <= r.label_width <= 64,
        r.line1 <= start && r.col1 <= start && r.line2 <= end && r.col2 <= end,
{
    let (line1, col1) = line_col_at(c, start);
    let (line2, col2) = line_col_at(c, end);
    let before: usize = if short_excerpt { 0 } else { 2 };
    let after: usize = if short_excerpt { 1 } else { 3 };
    let ex1 = if line1 < before { 0 } else { line1 - before };
    proof { lemma_split_len(c@, '\n'); }
    let ex2 = if line2 >= line_count || after >= line_count - line2 { line_count } else { line2 + after };
    let top = if ex1 >= ex2 { ex1 } else { ex2 };
    let label_width = radix_len(top as u64, 10);
    LineInfo {
        line1: line1,
        col1: col1,
        line2: line2,
        col2: col2,
        excerpt_line1: ex1,
        excerpt_line2: ex2,
        label_width: label_width,
    }
}

/// `n` spaces.
pub open spec fn spaces(n: nat) -> Seq<char> {
    Seq::new(n, |_i: int| ' ')
}

/// How a source character is shown: a tab as two spaces, and any other
/// character up to the space as one space.
pub open spec fn shown_char(ch: char) -> Seq<char> {
    if ch == '\t' {
        seq![' ', ' ']
    } else if (ch as u32) <= (' ' as u32) {
        seq![' ']
    } else {
        seq![ch]
    }
}

/// Whether the span is empty and sits at column `p` of line `l`.
pub open spec fn empty_span_at(info: LineInfo, l: nat, p: nat) -> bool {
    l == info.line1 && l == info.line2 && p == info.col1 && p == info.col2
}

/// The first `n` characters of line `l`, whose text is `t`, as shown; an
/// empty span shows as an extra space before its column.
pub open spec fn shown_prefix(t: Seq<char>, l: nat, info: LineInfo, n: nat) -> Seq<char>
    decreases n,
{
    if n == 0 || n > t.len() {
        Seq::empty()
    } else {
        shown_prefix(t, l, info, (n - 1) as nat)
            + (if empty_span_at(info, l, (n - 1) as nat) { seq![' '] } else { Seq::empty() })
            + shown_char(t[n - 1])
    }
}

/// Whether column `p` of line `l` lies inside the span.
pub open spec fn marked(info: LineInfo, l: nat, p: nat) -> bool {
    (l > info.line1 || p >= info.col1) && (l < info.line2 || p < info.col2)
}

/// The marking under column `p` of line `l`, whose text is `t`: `^` inside
/// the span, a space outside, doubled under a tab; an empty span is marked
/// by an extra `^` before its column.
pub open spec fn mark_piece(t: Seq<char>, l: nat, info: LineInfo, p: nat) -> Seq<char> {
    let m = if marked(info, l, p) { '^' } else { ' ' };
    (if p == info.col1 && p == info.col2 && info.line1 == info.line2 { seq!['^'] } else { Seq::empty() })
        + (if p < t.len() && t[p as int] == '\t' { seq![m, m] } else { seq![m] })
}

/// The markings under the first `n` columns of line `l`.
pub open spec fn marks_prefix(t: Seq<char>, l: nat, info: LineInfo, n: nat) -> Seq<char>
    decreases n,
{
    if n == 0 {
        Seq::empty()
    } else {
        marks_prefix(t, l, info, (n - 1) as nat) + mark_piece(t, l, info, (n - 1) as nat)
    }
}

/// Line `l`, whose text is `t`, with its number, and below it the
/// markings when the span reaches it.
pub open spec fn line_block(t: Seq<char>, l: nat, info: LineInfo, indent: nat) -> Seq<char> {
    spaces(indent) + pad_left(dec(l + 1), info.label_width as nat, ' ') + " | "@ + shown_prefix(t, l, info, t.len())
        + "\n"@ + (if info.line1 <= l <= info.line2 {
            spaces(indent) + spaces(info.label_width as nat) + " | "@ + marks_prefix(t, l, info, t.len() + 1) + "\n"@
        } else {
            Seq::empty()
        })
}

/// The shown lines from `info.excerpt_line1` up to `n`.
pub open spec fn excerpt_text(lines: Seq<Seq<char>>, info: LineInfo, indent: nat, n: nat) -> Seq<char>
    decreases n,
{
    if n <= info.excerpt_line1 {
        Seq::empty()
    } else {
        excerpt_text(lines, info, indent, (n - 1) as nat) + line_block(lines[n - 1], (n - 1) as nat, info, indent)
    }
}

/// Appends `n` spaces.
fn push_spaces(out: &mut Vec<char>, n: usize)
    ensures
        final(out)@ == old(out)@ + spaces(n as nat),
{
    let ghost start = out@;
    let mut i: usize = 0;
    while i < n
        invariant
            i <= n,
            out@ == start + spaces(i as nat),
        decreases n - i,
    {
        out.push(' ');
        i = i + 1;
        assert(out@ =~= start + spaces(i as nat));
    }
}

/// Appends line `l`, whose text is `t`, and its markings.
fn push_line_block(out: &mut Vec<char>, t: &Vec<char>, l: usize, info: &LineInfo, indent: usize)
    requires
        l < usize::MAX,
        t@.len() < usize::MAX,
    ensures
        final(out)@ == old(out)@ + line_block(t@, l as nat, *info, indent as nat),
{
    let ghost start = out@;
    push_spaces(out, indent);
    push_radix_padded(out, (l + 1) as u64, 10, false, info.label_width, ' ');
    push_str(out, " | ");
    let ghost head = out@;
    let n = t.len();
    let mut p: usize = 0;
    while p < n
        invariant
            n == t@.len(),
            p <= n,
            out@ == head + shown_prefix(t@, l as nat, *info, p as nat),
        decreases n - p,
    {
        if l == info.line1 && l == info.line2 && p == info.col1 && p == info.col2 {
            out.push(' ');
        }
        let ch = t[p];
        if ch == '\t' {
            out.push(' ');
            out.push(' ');
        } else if (ch as u32) <= (' ' as u32) {
            out.push(' ');
        } else {
            out.push(ch);
        }
        p = p + 1;
        assert(out@ =~= head + shown_prefix(t@, l as nat, *info, p as nat));
    }
    push_str(out, "\n");
    if info.line1 <= l && l <= info.line2 {
        let ghost mid = out@;
        push_spaces(out, indent);
        push_spaces(out, info.label_width);
        push_str(out, " | ");
        let ghost head2 = out@;
        let mut p: usize = 0;
        while p <= n
            invariant
                n == t@.len(),
                p <= n + 1,
                n < usize::MAX,
                out@ == head2 + marks_prefix(t@, l as nat, *info, p as nat),
            decreases n + 1 - p,
        {
            if p == info.col1 && p == info.col2 && info.line1 == info.line2 {
                out.push('^');
            }
            let inside = (l > info.line1 || p >= info.col1) && (l < info.line2 || p < info.col2);
            let m = if inside { '^' } else { ' ' };
            if p < n && t[p] == '\t' {
                out.push(m);
                out.push(m);
            } else {
                out.push(m);
            }
            p = p + 1;
            assert(out@ =~= head2 + marks_prefix(t@, l as nat, *info, p as nat));
        }
        push_str(out, "\n");
        assert(out@ =~= mid + spaces(indent as nat) + spaces(info.label_width as nat) + " | "@
            + marks_prefix(t@, l as nat, *info, t@.len() + 1) + "\n"@);
    }
    assert(out@ =~= start + line_block(t@, l as nat, *info, indent as nat));
}

/// The word a message of kind `k` is printed under.
pub open spec fn kind_label(k: MessageKind) -> Seq<char> {
    match k {
        MessageKind::Error => "error"@,
        MessageKind::Warning => "warning"@,
        MessageKind::Note => "note"@,
    }
}

/// Whether every file is shorter than the largest index.
pub open spec fn files_fit(files: Seq<(Seq<char>, Seq<char>)>) -> bool {
    forall|i: int| 0 <= i < files.len() ==> #[trigger] files[i].1.len() < usize::MAX
}

/// Whether the span of `m`, and of every message inside it, names one of
/// the files and, where its range is known, lies within that file.
pub open spec fn message_spans_fit(files: Seq<(Seq<char>, Seq<char>)>, m: MessageView) -> bool
    decreases m,
{
    (match m.span {
        None => true,
        Some(s) => s.file_handle < files.len() && (s.known() ==> s.start <= s.end <= files[s.file_handle as int].1.len()),
    }) && messages_spans_fit(files, m.inner)
}

/// Whether every message of `ms` fits the files, as `message_spans_fit` says.
pub open spec fn messages_spans_fit(files: Seq<(Seq<char>, Seq<char>)>, ms: Seq<MessageView>) -> bool
    decreases ms,
{
    if ms.len() == 0 {
        true
    } else {
        messages_spans_fit(files, ms.drop_last()) && message_spans_fit(files, ms.last())
    }
}

/// The range `start..end` of the file named `name` holding `c`, printed at
/// `indent`: a `--> name:line:column:` header, then the shown lines.
pub open spec fn located_text(name: Seq<char>, c: Seq<char>, start: nat, end: nat, short: bool, indent: nat) -> Seq<char> {
    let info = line_info_of(c, start, end, short);
    spaces((indent + info.label_width - 1) as nat) + " --> "@ + name + ":"@ + dec((info.line1 + 1) as nat) + ":"@
        + dec((info.col1 + 1) as nat) + ":\n"@ + excerpt_text(lines_of(c), info, indent, info.excerpt_line2 as nat)
}

/// The source part of message `m` printed at `indent`: nothing without a
/// span; the file name alone when the range is unknown; else a
/// `--> file:line:column:` header and the shown lines.
pub open spec fn source_text(files: Seq<(Seq<char>, Seq<char>)>, m: MessageView, indent: nat) -> Seq<char> {
    match m.span {
        None => Seq::empty(),
        Some(s) => {
            let f = files[s.file_handle as int];
            if !s.known() {
                spaces(indent) + " --> "@ + f.0 + "\n"@
            } else {
                located_text(f.0, f.1, s.start as nat, s.end as nat, m.short_excerpt, indent)
            }
        },
    }
}

/// How much further the messages inside `m` are indented: the width of
/// the line numbers shown for `m`, or nothing.
pub open spec fn source_indent(files: Seq<(Seq<char>, Seq<char>)>, m: MessageView) -> nat {
    match m.span {
        Some(s) => if s.known() {
            line_info_of(files[s.file_handle as int].1, s.start as nat, s.end as nat, m.short_excerpt).label_width as nat
        } else {
            0
        },
        None => 0,
    }
}

/// The first line of message `m` printed at `indent`: a ` + ` mark when
/// indented, then its label and description.
pub open spec fn message_head(m: MessageView, indent: nat) -> Seq<char> {
    spaces(indent) + (if indent > 0 { " + "@ } else { Seq::empty() }) + kind_label(m.kind) + ": "@ + m.descr + "\n"@
}

/// Message `m` printed at `indent`: its first line, its source, then the
/// messages inside it, each followed by a blank line at the top level.
pub open spec fn message_text(files: Seq<(Seq<char>, Seq<char>)>, m: MessageView, indent: nat) -> Seq<char>
    decreases m,
{
    message_head(m, indent) + source_text(files, m, indent)
        + inner_text(files, m.inner, indent + source_indent(files, m), indent == 0)
}

/// The messages `ms` printed at `indent`, each followed by a blank line
/// when `blank`.
pub open spec fn inner_text(files: Seq<(Seq<char>, Seq<char>)>, ms: Seq<MessageView>, indent: nat, blank: bool) -> Seq<char>
    decreases ms,
{
    if ms.len() == 0 {
        Seq::empty()
    } else {
        inner_text(files, ms.drop_last(), indent, blank) + message_text(files, ms.last(), indent)
            + (if blank { "\n"@ } else { Seq::empty() })
    }
}

/// The messages `ms` printed one after the other at the top level.
pub open spec fn report_text(files: Seq<(Seq<char>, Seq<char>)>, ms: Seq<MessageView>) -> Seq<char>
    decreases ms.len(),
{
    if ms.len() == 0 {
        Seq::empty()
    } else {
        report_text(files, ms.drop_last()) + message_text(files, ms.last(), 0)
    }
}

/// A message of a list counts no more messages than the list.
proof fn lemma_count_member(ms: Seq<MessageView>, i: int)
    requires
        0 <= i < ms.len(),
    ensures
        message_count(ms[i]) <= messages_count(ms),
    decreases ms.len(),
{
    if i < ms.len() - 1 {
        lemma_count_member(ms.drop_last(), i);
        assert(ms.drop_last()[i] == ms[i]);
    }
}

/// A message of a list that has room for its nesting has room for its own.
proof fn lemma_member_room(ms: Seq<MessageView>, i: int, indent: nat)
    requires
        0 <= i < ms.len(),
        indent + 64 * messages_count(ms) <= usize::MAX,
    ensures
        indent + 64 * message_count(ms[i]) <= usize::MAX,
{
    lemma_count_member(ms, i);
    let a = message_count(ms[i]);
    let b = messages_count(ms);
    assert(64 * a <= 64 * b) by (nonlinear_arith)
        requires
            a <= b;
}

/// A message of a fitting list fits.
proof fn lemma_fit_member(files: Seq<(Seq<char>, Seq<char>)>, ms: Seq<MessageView>, i: int)
    requires
        0 <= i < ms.len(),
        messages_spans_fit(files, ms),
    ensures
        message_spans_fit(files, ms[i]),
    decreases ms.len(),
{
    if i < ms.len() - 1 {
        lemma_fit_member(files, ms.drop_last(), i);
        assert(ms.drop_last()[i] == ms[i]);
    }
}

/// Appends the range `start..end` of file `f` printed at `indent`, giving
/// the width of the line numbers.
#[verifier::spinoff_prover]
fn push_located(out: &mut Vec<char>, f: &SourceFile, start: u32, end: u32, short: bool, indent: usize) -> (r: usize)
    requires
        start <= end <= f.chars@.len(),
        f.chars@.len() < usize::MAX,
        indent + 64 <= usize::MAX,
    ensures
        final(out)@ == old(out)@ + located_text(f.name@, f.chars@, start as nat, end as nat, short, indent as nat),
        r == line_info_of(f.chars@, start as nat, end as nat, short).label_width,
        r <= 64,
{
    let ghost begin = out@;
    let lines = split_chars(&f.chars, '\n');
    proof { lemma_split_len(f.chars@, '\n'); }
    let info = get_line_info(&f.chars, lines.len(), start as usize, end as usize, short);
    let ghost hdr_start = out@;
    push_spaces(out, indent + info.label_width - 1);
    push_str(out, " --> ");
    push_str(out, f.name.as_str());
    push_str(out, ":");
    push_radix(out, (info.line1 + 1) as u64, 10, false);
    push_str(out, ":");
    push_radix(out, (info.col1 + 1) as u64, 10, false);
    push_str(out, ":\n");
    let ghost head = out@;
    let ghost hdr = spaces((indent + info.label_width - 1) as nat) + " --> "@ + f.name@ + ":"@
        + dec((info.line1 + 1) as nat) + ":"@ + dec((info.col1 + 1) as nat) + ":\n"@;
    assert(head =~= begin + hdr);
    let ghost lv = pieces_view(lines@);
    let mut l: usize = info.excerpt_line1;
    while l < info.excerpt_line2
        invariant
            lv == pieces_view(lines@),
            lv == lines_of(f.chars@),
            info.excerpt_line2 <= lines@.len(),
            info.excerpt_line1 <= l,
            l <= info.excerpt_line2 || l == info.excerpt_line1,
            forall|k: int| 0 <= k < lv.len() ==> #[trigger] lv[k].len() <= f.chars@.len(),
            f.chars@.len() < usize::MAX,
            indent + 64 <= usize::MAX,
            out@ == head + excerpt_text(lv, info, indent as nat, l as nat),
        decreases info.excerpt_line2 - l,
    {
        assert(lv[l as int] == lines@[l as int]@);
        push_line_block(out, &lines[l], l, &info, indent);
        l = l + 1;
    }
    assert(located_text(f.name@, f.chars@, start as nat, end as nat, short, indent as nat)
        == hdr + excerpt_text(lv, info, indent as nat, info.excerpt_line2 as nat));
    assert(out@ =~= begin + located_text(f.name@, f.chars@, start as nat, end as nat, short, indent as nat));
    info.label_width
}

impl Report {
    /// Appends the source part of `msg` printed at `indent`, giving how
    /// much further the messages inside it are indented.
    fn print_msg_src(&self, out: &mut Vec<char>, files: &Vec<SourceFile>, msg: &Message, indent: usize) -> (r: usize)
        requires
            message_spans_fit(files_view(files@), msg@),
            files_fit(files_view(files@)),
            indent + 64 <= usize::MAX,
        ensures
            final(out)@ == old(out)@ + source_text(files_view(files@), msg@, indent as nat),
            r == source_indent(files_view(files@), msg@),
            r <= 64,
    {
        let ghost fv = files_view(files@);
        match msg.span {
            None => 0,
            Some(span) => {
                assert(msg@.span == msg.span);
                assert(fv.len() == files@.len());
                assert(message_spans_fit(fv, msg@));
                assert(msg@.span matches Some(s) && s.file_handle < fv.len());
                assert(span.file_handle < files@.len());
                let nfiles = files.len();
                assert(span.file_handle < nfiles);
                let h = span.file_handle as usize;
                assert(h as int == span.file_handle as int);
                let f = &files[h];
                assert(fv[h as int] == (f.name@, f.chars@));
                assert(fv[h as int].1.len() < usize::MAX);
                if span.start == u32::MAX {
                    push_spaces(out, indent);
                    push_str(out, " --> ");
                    push_str(out, f.name.as_str());
                    push_str(out, "\n");
                    0
                } else {
                    push_located(out, f, span.start, span.end, msg.short_excerpt, indent)
                }
            },
        }
    }

    /// Appends message `msg` printed at `indent`, with the messages
    /// inside it.
    #[verifier::spinoff_prover]
    fn print_msg(&self, out: &mut Vec<char>, files: &Vec<SourceFile>, msg: &Message, indent: usize)
        requires
            message_spans_fit(files_view(files@), msg@),
            files_fit(files_view(files@)),
            indent + 64 * message_count(msg@) <= usize::MAX,
        ensures
            final(out)@ == old(out)@ + message_text(files_view(files@), msg@, indent as nat),
        decreases msg,
    {
        let ghost fv = files_view(files@);
        let ghost start = out@;
        let ghost mv = msg@;
        proof {
            assert(mv.inner == messages_view(msg.inner@));
            assert(message_count(mv) == 1 + messages_count(mv.inner));
            assert(messages_spans_fit(fv, mv.inner));
        }
        self.print_head(out, msg, indent);
        let ghost head = out@;
        let inner_indent = self.print_msg_src(out, files, msg, indent);
        let ghost mid = out@;
        self.print_inner(out, files, &msg.inner, indent + inner_indent, indent == 0);
        proof {
            let h = message_head(mv, indent as nat);
            let src = source_text(fv, mv, indent as nat);
            let inn = inner_text(fv, mv.inner, (indent + source_indent(fv, mv)) as nat, indent == 0);
            assert(head == start + h);
            assert(mid == head + src);
            assert(out@ == mid + inn);
            assert(message_text(fv, mv, indent as nat) == h + src + inn);
            assert(out@ =~= start + (h + src + inn));
        }
    }

    /// Appends the first line of `msg` printed at `indent`.
    fn print_head(&self, out: &mut Vec<char>, msg: &Message, indent: usize)
        ensures
            final(out)@ == old(out)@ + message_head(msg@, indent as nat),
    {
        let ghost start = out@;
        push_spaces(out, indent);
        if indent > 0 {
            push_str(out, " + ");
        }
        push_str(out, msg.kind.get_label());
        push_str(out, ": ");
        push_str(out, msg.descr.as_str());
        push_str(out, "\n");
        assert(msg@.kind == msg.kind && msg@.descr == msg.descr@);
        assert(out@ =~= start + message_head(msg@, indent as nat));
    }

    /// Appends the messages `msgs` printed at `indent`, each followed by a
    /// blank line when `blank`.
    fn print_inner(&self, out: &mut Vec<char>, files: &Vec<SourceFile>, msgs: &Vec<Message>, indent: usize, blank: bool)
        requires
            messages_spans_fit(files_view(files@), messages_view(msgs@)),
            files_fit(files_view(files@)),
            indent + 64 * messages_count(messages_view(msgs@)) <= usize::MAX,
        ensures
            final(out)@ == old(out)@ + inner_text(files_view(files@), messages_view(msgs@), indent as nat, blank),
        decreases msgs,
    {
        let ghost fv = files_view(files@);
        let ghost ms = messages_view(msgs@);
        let ghost start = out@;
        proof { lemma_views_len(msgs@); }
        let n = msgs.len();
        let mut i: usize = 0;
        assert(ms.take(0) =~= Seq::<MessageView>::empty());
        while i < n
            invariant
                n == msgs@.len(),
                ms == messages_view(msgs@),
                ms.len() == n,
                forall|k: int| 0 <= k < n ==> #[trigger] ms[k] == msgs@[k]@,
                i <= n,
                indent + 64 * messages_count(ms) <= usize::MAX,
                messages_spans_fit(fv, ms),
                files_fit(fv),
                fv == files_view(files@),
                out@ == start + inner_text(fv, ms.take(i as int), indent as nat, blank),
            decreases n - i,
        {
            proof {
                lemma_fit_member(fv, ms, i as int);
                lemma_member_room(ms, i as int, indent as nat);
            }
            self.print_msg(out, files, &msgs[i], indent);
            if blank {
                push_str(out, "\n");
            }
            assert(ms.take(i + 1).drop_last() =~= ms.take(i as int));
            i = i + 1;
        }
        assert(ms.take(n as int) =~= ms);
    }

    /// The report as text: every message at the top level, one after the
    /// other, each with the source lines it refers to.
    pub fn print_all(&self, files: &Vec<SourceFile>) -> (r: String)
        requires
            messages_spans_fit(files_view(files@), self@.messages),
            files_fit(files_view(files@)),
            64 * messages_count(self@.messages) <= usize::MAX,
        ensures
            r@ == report_text(files_view(files@), self@.messages),
    {
        let ghost fv = files_view(files@);
        let msgs = self.messages();
        let ghost ms = self@.messages;
        proof { lemma_views_len(msgs@); }
        let mut out: Vec<char> = Vec::new();
        let n = msgs.len();
        let mut i: usize = 0;
        assert(ms.take(0) =~= Seq::<MessageView>::empty());
        while i < n
            invariant
                n == msgs@.len(),
                ms == messages_view(msgs@),
                ms.len() == n,
                forall|k: int| 0 <= k < n ==> #[trigger] ms[k] == msgs@[k]@,
                i <= n,
                64 * messages_count(ms) <= usize::MAX,
                messages_spans_fit(fv, ms),
                files_fit(fv),
                fv == files_view(files@),
                out@ == report_text(fv, ms.take(i as int)),
            decreases n - i,
        {
            proof {
                lemma_count_member(ms, i as int);
                lemma_fit_member(fv, ms, i as int);
                assert(64 * message_count(ms[i as int]) <= 64 * messages_count(ms)) by (nonlinear_arith)
                    requires
                        message_count(ms[i as int]) <= messages_count(ms);
            }
            self.print_msg(&mut out, files, &msgs[i], 0);
            assert(ms.take(i + 1).drop_last() =~= ms.take(i as int));
            i = i + 1;
        }
        assert(ms.take(n as int) =~= ms);
        chars_to_string(&out)
    }
}

/// Whether `sub` occurs in `s`.
pub open spec fn contains_text(s: Seq<char>, sub: Seq<char>) -> bool {
    exists|i: int| 0 <= i && i + sub.len() <= s.len() && #[trigger] s.subrange(i, i + sub.len()) == sub
}

/// The handle of the first file named `name`.
pub open spec fn handle_named(files: Seq<(Seq<char>, Seq<char>)>, name: Seq<char>) -> Option<nat>
    decreases files.len(),
{
    if files.len() == 0 {
        None
    } else {
        match handle_named(files.drop_last(), name) {
            Some(h) => Some(h),
            None => if files.last().0 == name { Some((files.len() - 1) as nat) } else { None },
        }
    }
}

/// Whether `m`, or a message inside it, is of kind `kind`, has `excerpt` in
/// its description, and either has no span or starts on line `line` of the
/// file with handle `handle`.
pub open spec fn message_is_at(files: Seq<(Seq<char>, Seq<char>)>, m: MessageView, handle: nat, kind: MessageKind, line: nat, excerpt: Seq<char>) -> bool
    decreases m,
{
    messages_are_at(files, m.inner, handle, kind, line, excerpt) || (m.kind == kind && contains_text(m.descr, excerpt)
        && match m.span {
            None => true,
            Some(s) => s.file_handle == handle && s.known() && line_col(files[handle as int].1, s.start as nat).0 == line,
        })
}

/// Whether one of the messages `ms` is at the place, as `message_is_at`
/// says.
pub open spec fn messages_are_at(files: Seq<(Seq<char>, Seq<char>)>, ms: Seq<MessageView>, handle: nat, kind: MessageKind, line: nat, excerpt: Seq<char>) -> bool
    decreases ms,
{
    ms.len() > 0 && (messages_are_at(files, ms.drop_last(), handle, kind, line, excerpt)
        || message_is_at(files, ms.last(), handle, kind, line, excerpt))
}

/// Whether `sub` occurs in `s`.
fn text_contains(s: &Vec<char>, sub: &Vec<char>) -> (r: bool)
    ensures
        r == contains_text(s@, sub@),
{
    let n = s.len();
    let m = sub.len();
    if m > n {
        return false;
    }
    let mut i: usize = 0;
    while i <= n - m
        invariant
            n == s@.len(),
            m == sub@.len(),
            m <= n,
            i <= n - m + 1,
            forall|k: int| 0 <= k < i ==> #[trigger] s@.subrange(k, k + m) != sub@,
        decreases n - m + 1 - i,
    {
        let mut j: usize = 0;
        let mut same = true;
        while j < m
            invariant
                n == s@.len(),
                m == sub@.len(),
                i + m <= n,
                j <= m,
                same == (forall|k: int| 0 <= k < j ==> s@[i + k] == sub@[k]),
            decreases m - j,
        {
            if s[i + j] != sub[j] {
                same = false;
            }
            j = j + 1;
        }
        if same {
            assert(s@.subrange(i as int, i + m) =~= sub@);
            return true;
        }
        assert(s@.subrange(i as int, i + m)[0] == s@[i as int]);
        assert(s@.subrange(i as int, i + m) != sub@) by {
            if s@.subrange(i as int, i + m) == sub@ {
                assert forall|k: int| 0 <= k < m implies s@[i + k] == sub@[k] by {
                    assert(s@.subrange(i as int, i + m)[k] == s@[i + k]);
                }
            }
        }
        i = i + 1;
    }
    false
}

/// The handle of the first file named `name`.
fn find_handle(files: &Vec<SourceFile>, name: &str) -> (r: Option<usize>)
    ensures
        match handle_named(files_view(files@), name@) {
            Some(h) => r matches Some(x) && x == h && h < files@.len(),
            None => r is None,
        },
{
    let ghost fv = files_view(files@);
    let n = files.len();
    let mut i: usize = 0;
    while i < n
        invariant
            n == files@.len(),
            fv == files_view(files@),
            i <= n,
            handle_named(fv.take(i as int), name@) is None,
        decreases n - i,
    {
        assert(fv.take(i + 1).drop_last() =~= fv.take(i as int));
        assert(fv[i as int] == (files@[i as int].name@, files@[i as int].chars@));
        if crate::text::str_eq(files[i].name.as_str(), name) {
            proof { lemma_handle_prefix(fv, name@, i as int + 1); }
            return Some(i);
        }
        i = i + 1;
    }
    assert(fv.take(n as int) =~= fv);
    None
}

/// A file found among the first `k` files is the one found among all.
proof fn lemma_handle_prefix(files: Seq<(Seq<char>, Seq<char>)>, name: Seq<char>, k: int)
    requires
        0 <= k <= files.len(),
        handle_named(files.take(k), name) is Some,
    ensures
        handle_named(files, name) == handle_named(files.take(k), name),
        handle_named(files, name).unwrap() < k,
    decreases files.len() - k,
{
    if k < files.len() {
        assert(files.take(k + 1).drop_last() =~= files.take(k));
        lemma_handle_prefix(files, name, k + 1);
    } else {
        assert(files.take(k) =~= files);
    }
    lemma_handle_bound(files.take(k), name);
}

/// A handle found is the position of a file.
proof fn lemma_handle_bound(files: Seq<(Seq<char>, Seq<char>)>, name: Seq<char>)
    ensures
        handle_named(files, name) matches Some(h) ==> h < files.len(),
    decreases files.len(),
{
    if files.len() > 0 {
        lemma_handle_bound(files.drop_last(), name);
    }
}

impl Report {
    /// Whether `msg`, or a message inside it, is at the place, as
    /// `message_is_at` says.
    fn msg_has_error_at(&self, msg: &Message, files: &Vec<SourceFile>, handle: usize, kind: MessageKind, line: usize, excerpt: &Vec<char>) -> (r: bool)
        requires
            message_spans_fit(files_view(files@), msg@),
            handle < files@.len(),
        ensures
            r == message_is_at(files_view(files@), msg@, handle as nat, kind, line as nat, excerpt@),
        decreases msg,
    {
        let ghost fv = files_view(files@);
        let ghost mv = msg@;
        assert(mv.inner == messages_view(msg.inner@));
        proof { lemma_views_len(msg.inner@); }
        let n = msg.inner.len();
        let mut i: usize = 0;
        assert(mv.inner.take(0) =~= Seq::<MessageView>::empty());
        while i < n
            invariant
                n == msg.inner@.len(),
                mv == msg@,
                mv.inner == messages_view(msg.inner@),
                mv.inner.len() == n,
                forall|k: int| 0 <= k < n ==> #[trigger] mv.inner[k] == msg.inner@[k]@,
                i <= n,
                messages_spans_fit(fv, mv.inner),
                fv == files_view(files@),
                handle < files@.len(),
                !messages_are_at(fv, mv.inner.take(i as int), handle as nat, kind, line as nat, excerpt@),
            decreases n - i,
        {
            proof { lemma_fit_member(fv, mv.inner, i as int); }
            assert(mv.inner.take(i + 1).drop_last() =~= mv.inner.take(i as int));
            assert(mv.inner.take(i + 1).last() == mv.inner[i as int]);
            if self.msg_has_error_at(&msg.inner[i], files, handle, kind, line, excerpt) {
                proof { lemma_at_prefix(fv, mv.inner, i as int + 1, handle as nat, kind, line as nat, excerpt@); }
                return true;
            }
            i = i + 1;
        }
        assert(mv.inner.take(n as int) =~= mv.inner);
        if msg.kind != kind {
            return false;
        }
        let descr = crate::text::str_chars(msg.descr.as_str());
        if !text_contains(&descr, excerpt) {
            return false;
        }
        match msg.span {
            None => true,
            Some(span) => {
                assert(fv.len() == files@.len());
                if span.file_handle != handle as u64 {
                    return false;
                }
                if span.start == u32::MAX {
                    return false;
                }
                let f = &files[handle];
                assert(fv[handle as int] == (f.name@, f.chars@));
                let (l, _c) = line_col_at(&f.chars, span.start as usize);
                l == line
            },
        }
    }

    /// Whether some message is at the place, as `message_is_at` says, in
    /// the file named `filename`.
    pub fn has_message_at(&self, files: &Vec<SourceFile>, filename: &str, kind: MessageKind, line: usize, error_excerpt: &str) -> (r: bool)
        requires
            messages_spans_fit(files_view(files@), self@.messages),
            handle_named(files_view(files@), filename@) is Some,
        ensures
            r == messages_are_at(files_view(files@), self@.messages,
                handle_named(files_view(files@), filename@).unwrap(), kind, line as nat, error_excerpt@),
    {
        let handle = match find_handle(files, filename) {
            Some(h) => h,
            None => { return false; },
        };
        let excerpt = crate::text::str_chars(error_excerpt);
        self.any_message_at(files, handle, kind, line, &excerpt)
    }

    /// Whether some error is at the place, as `message_is_at` says, in the
    /// file named `filename`.
    pub fn has_error_at(&self, files: &Vec<SourceFile>, filename: &str, line: usize, error_excerpt: &str) -> (r: bool)
        requires
            messages_spans_fit(files_view(files@), self@.messages),
            handle_named(files_view(files@), filename@) is Some,
        ensures
            r == messages_are_at(files_view(files@), self@.messages,
                handle_named(files_view(files@), filename@).unwrap(), MessageKind::Error, line as nat, error_excerpt@),
    {
        self.has_message_at(files, filename, MessageKind::Error, line, error_excerpt)
    }

    /// Whether the first message is an error at the place, as
    /// `message_is_at` says, in the file named `filename`.
    pub fn has_first_error_at(&self, files: &Vec<SourceFile>, filename: &str, line: usize, error_excerpt: &str) -> (r: bool)
        requires
            messages_spans_fit(files_view(files@), self@.messages),
            handle_named(files_view(files@), filename@) is Some,
        ensures
            r == (self@.messages.len() > 0 && message_is_at(files_view(files@), self@.messages[0],
                handle_named(files_view(files@), filename@).unwrap(), MessageKind::Error, line as nat, error_excerpt@)),
    {
        let msgs = self.messages();
        proof { lemma_views_len(msgs@); }
        if msgs.len() == 0 {
            return false;
        }
        let handle = match find_handle(files, filename) {
            Some(h) => h,
            None => { return false; },
        };
        let excerpt = crate::text::str_chars(error_excerpt);
        proof { lemma_fit_member(files_view(files@), self@.messages, 0); }
        self.msg_has_error_at(&msgs[0], files, handle, MessageKind::Error, line, &excerpt)
    }

    /// Whether some message is at the place, as `message_is_at` says.
    fn any_message_at(&self, files: &Vec<SourceFile>, handle: usize, kind: MessageKind, line: usize, excerpt: &Vec<char>) -> (r: bool)
        requires
            messages_spans_fit(files_view(files@), self@.messages),
            handle < files@.len(),
        ensures
            r == messages_are_at(files_view(files@), self@.messages, handle as nat, kind, line as nat, excerpt@),
    {
        let ghost fv = files_view(files@);
        let msgs = self.messages();
        let ghost ms = self@.messages;
        proof { lemma_views_len(msgs@); }
        let n = msgs.len();
        let mut i: usize = 0;
        assert(ms.take(0) =~= Seq::<MessageView>::empty());
        while i < n
            invariant
                n == msgs@.len(),
                ms == messages_view(msgs@),
                ms.len() == n,
                forall|k: int| 0 <= k < n ==> #[trigger] ms[k] == msgs@[k]@,
                i <= n,
                messages_spans_fit(fv, ms),
                fv == files_view(files@),
                handle < files@.len(),
                !messages_are_at(fv, ms.take(i as int), handle as nat, kind, line as nat, excerpt@),
                ms == self@.messages,
            decreases n - i,
        {
            proof { lemma_fit_member(fv, ms, i as int); }
            assert(ms.take(i + 1).drop_last() =~= ms.take(i as int));
            assert(ms.take(i + 1).last() == ms[i as int]);
            if self.msg_has_error_at(&msgs[i], files, handle, kind, line, excerpt) {
                proof { lemma_at_prefix(fv, ms, i as int + 1, handle as nat, kind, line as nat, excerpt@); }
                return true;
            }
            i = i + 1;
        }
        assert(ms.take(n as int) =~= ms);
        false
    }
}

/// A message found among the first `k` is found among all.
proof fn lemma_at_prefix(files: Seq<(Seq<char>, Seq<char>)>, ms: Seq<MessageView>, k: int, handle: nat, kind: MessageKind, line: nat, excerpt: Seq<char>)
    requires
        0 <= k <= ms.len(),
        messages_are_at(files, ms.take(k), handle, kind, line, excerpt),
    ensures
        messages_are_at(files, ms, handle, kind, line, excerpt),
    decreases ms.len() - k,
{
    if k < ms.len() {
        assert(ms.take(k + 1).drop_last() =~= ms.take(k));
        lemma_at_prefix(files, ms, k + 1, handle, kind, line, excerpt);
    } else {
        assert(ms.take(k) =~= ms);
    }
}

/// `n` copies of `c`.
pub open spec fn repeated(c: char, n: nat) -> Seq<char> {
    Seq::new(n, |_i: int| c)
}

/// On the line of a span that starts and ends on it and covers at least
/// one character, a line without tabs, the markings are spaces up to the
/// span, a `^` under each covered character, and spaces after it.
pub proof fn law_marks_cover_span(t: Seq<char>, l: nat, info: LineInfo)
    requires
        info.line1 == l && info.line2 == l,
        info.col1 < info.col2 <= t.len(),
        forall|i: int| 0 <= i < t.len() ==> t[i] != '\t',
    ensures
        marks_prefix(t, l, info, t.len() + 1) == repeated(' ', info.col1 as nat)
            + repeated('^', (info.col2 - info.col1) as nat) + repeated(' ', (t.len() + 1 - info.col2) as nat),
{
    lemma_marks_prefix(t, l, info, t.len() + 1);
    assert(marks_prefix(t, l, info, t.len() + 1) =~= repeated(' ', info.col1 as nat)
        + repeated('^', (info.col2 - info.col1) as nat) + repeated(' ', (t.len() + 1 - info.col2) as nat));
}

/// The markings under the first `n` columns, one character per column.
proof fn lemma_marks_prefix(t: Seq<char>, l: nat, info: LineInfo, n: nat)
    requires
        info.line1 == l && info.line2 == l,
        info.col1 < info.col2 <= t.len(),
        forall|i: int| 0 <= i < t.len() ==> t[i] != '\t',
        n <= t.len() + 1,
    ensures
        marks_prefix(t, l, info, n).len() == n,
        forall|p: int| 0 <= p < n ==> #[trigger] marks_prefix(t, l, info, n)[p]
            == (if info.col1 <= p < info.col2 { '^' } else { ' ' }),
    decreases n,
{
    if n > 0 {
        lemma_marks_prefix(t, l, info, (n - 1) as nat);
        let p = (n - 1) as nat;
        if p < t.len() {
            assert(t[p as int] != '\t');
        }
        assert(mark_piece(t, l, info, p) =~= seq![if info.col1 <= p < info.col2 { '^' } else { ' ' }]);
    }
}

} // verus!
