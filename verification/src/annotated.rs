//! The annotated listing of a binary block: each output range beside the
//! source text that produced it.
use vstd::prelude::*;
use crate::bitvec::{bit_at, bits_window_value};
use crate::binary_block::{BinaryBlock, BitRangeSpan, BitRangeView, SpanView, ranges_view, record_bit_range, vec_window};
use crate::text::{chars_to_string, digit_char, digit_to_char, hex, pad_left, pad_right, push_radix_padded, push_str, radix_len};

verus! {

/// A source file's name and contents, standing in for the file server the
/// listing reads its excerpts from.
pub struct SourceFile {
    pub name: String,
    pub chars: Vec<char>,
}

/// The abstract value of a list of source files: names and contents.
pub open spec fn files_view(files: Seq<SourceFile>) -> Seq<(Seq<char>, Seq<char>)> {
    files.map_values(|f: SourceFile| (f.name@, f.chars@))
}

/// The contents of the first file named `name`.
pub open spec fn file_chars(files: Seq<(Seq<char>, Seq<char>)>, name: Seq<char>) -> Option<Seq<char>>
    decreases files.len(),
{
    if files.len() == 0 {
        None
    } else if files[0].0 == name {
        Some(files[0].1)
    } else {
        file_chars(files.drop_first(), name)
    }
}

/// The source text a span covers; `None` where the span has no location,
/// its file is missing or the range does not lie within the file.
pub open spec fn excerpt(files: Seq<(Seq<char>, Seq<char>)>, span: SpanView) -> Option<Seq<char>> {
    match span.location {
        None => None,
        Some((a, b)) => match file_chars(files, span.file) {
            Some(c) => if a <= b <= c.len() { Some(c.subrange(a as int, b as int)) } else { None },
            None => None,
        },
    }
}

/// Whether range `a` sorts before range `b`: by start, and among ranges
/// with the same start, longer first.
pub open spec fn range_before(a: BitRangeView, b: BitRangeView) -> bool {
    a.start < b.start || (a.start == b.start && a.end - a.start > b.end - b.start)
}

/// `s` with `x` inserted after every element it does not sort before.
pub open spec fn insert_sorted(s: Seq<BitRangeView>, x: BitRangeView) -> Seq<BitRangeView>
    decreases s.len(),
{
    if s.len() == 0 {
        seq![x]
    } else if range_before(x, s.last()) {
        insert_sorted(s.drop_last(), x).push(s.last())
    } else {
        s.push(x)
    }
}

/// The stable sort of `s` by `range_before`.
pub open spec fn sort_ranges(s: Seq<BitRangeView>) -> Seq<BitRangeView>
    decreases s.len(),
{
    if s.len() == 0 {
        Seq::empty()
    } else {
        insert_sorted(sort_ranges(s.drop_last()), s.last())
    }
}

/// The first range from position `from` on that holds bit `index`.
pub open spec fn first_containing(s: Seq<BitRangeView>, from: int, index: int) -> Option<int>
    decreases s.len() - from,
{
    if from < 0 || from >= s.len() {
        None
    } else if s[from].start <= index < s[from].end {
        Some(from)
    } else {
        first_containing(s, from + 1, index)
    }
}

/// The widths of the output-position and address columns: at least 2 and
/// 4, and wide enough for every range the bits `index..end` fall in, as
/// found scanning forward from range `from`.
pub open spec fn column_widths(s: Seq<BitRangeView>, index: int, end: int, from: int, bb: nat, ow: nat, aw: nat) -> (nat, nat)
    decreases end - index,
{
    if index >= end {
        (ow, aw)
    } else {
        match first_containing(s, from, index) {
            Some(j) => {
                let w1 = hex(s[j].start as nat / bb).len();
                let w2 = hex(s[j].addr as nat).len();
                column_widths(s, index + 1, end, j, bb,
                    if w1 > ow { w1 } else { ow }, if w2 > aw { w2 } else { aw })
            },
            None => column_widths(s, index + 1, end, from, bb, ow, aw),
        }
    }
}

/// The layout of the listing: digit and byte sizes and column widths.
pub struct Layout {
    pub db: nat,
    pub bd: nat,
    pub ow: nat,
    pub obw: nat,
    pub aw: nat,
}

impl Layout {
    /// Bits per byte.
    pub open spec fn bb(self) -> nat {
        self.bd * self.db
    }

    /// Width of the contents column.
    pub open spec fn cw(self) -> nat {
        ((self.bd + 1) * 5 - 1) as nat
    }
}

/// The columns before the contents: output position `byte:bit` and address.
pub open spec fn row_head(r: BitRangeView, lay: Layout) -> Seq<char> {
    " "@ + pad_left(hex(r.start as nat / lay.bb()), lay.ow, ' ') + ":"@
        + pad_left(hex(r.start as nat % lay.bb()), lay.obw, ' ') + " | "@
        + pad_left(hex(r.addr as nat), lay.aw, ' ') + " | "@
}

/// The first `n` digits of the contents column for the bits `acc`, a
/// space between bytes.
pub open spec fn contents_digits(acc: Seq<bool>, db: nat, bd: nat, n: nat) -> Seq<char>
    decreases n,
{
    if n == 0 {
        Seq::empty()
    } else {
        let k = (n - 1) as nat;
        contents_digits(acc, db, bd, k)
            + (if k > 0 && k % bd == 0 { " "@ } else { Seq::empty() })
            + seq![digit_char(bits_window_value(acc, (k * db) as int, db), false)]
    }
}

/// The contents column for the bits `acc`: enough digits to cover them.
pub open spec fn contents(acc: Seq<bool>, db: nat, bd: nat) -> Seq<char> {
    contents_digits(acc, db, bd, acc.len() / db + if acc.len() % db == 0 { 0nat } else { 1nat })
}

/// The line for a label: an empty contents column and its source text.
pub open spec fn label_line(r: BitRangeView, ex: Seq<char>, lay: Layout) -> Seq<char> {
    row_head(r, lay) + Seq::new(lay.cw(), |_i: int| ' ') + " ; "@ + ex + "\n"@
}

/// The line for a range: its contents and its source text.
pub open spec fn range_line(r: BitRangeView, acc: Seq<bool>, ex: Seq<char>, lay: Layout) -> Seq<char> {
    row_head(r, lay) + pad_right(contents(acc, lay.db, lay.bd), lay.cw(), ' ') + " ; "@ + ex + "\n"@
}

/// The label lines for the labels among ranges `from..to`; `None` where a
/// label's source text cannot be had.
pub open spec fn label_lines(files: Seq<(Seq<char>, Seq<char>)>, s: Seq<BitRangeView>, from: int, to: int, lay: Layout) -> Option<Seq<char>>
    decreases to - from,
{
    if from >= to {
        Some(Seq::empty())
    } else if s[from].start != s[from].end {
        label_lines(files, s, from + 1, to, lay)
    } else {
        match (excerpt(files, s[from].span), label_lines(files, s, from + 1, to, lay)) {
            (Some(ex), Some(rest)) => Some(label_line(s[from], ex, lay) + rest),
            _ => None,
        }
    }
}

/// The range at position `p`, if any.
pub open spec fn range_opt(s: Seq<BitRangeView>, p: Option<int>) -> Option<BitRangeView> {
    match p {
        Some(i) => Some(s[i]),
        None => None,
    }
}

/// Whether the range being listed (`prev`) differs from the one holding
/// the current bit (`cur`), compared by value.
pub open spec fn range_changed(s: Seq<BitRangeView>, prev: Option<int>, cur: Option<int>) -> bool {
    range_opt(s, prev) != range_opt(s, cur)
}

/// The line finishing the range being listed, when the range changes.
pub open spec fn finished_line(
    files: Seq<(Seq<char>, Seq<char>)>,
    s: Seq<BitRangeView>,
    lay: Layout,
    prev: Option<int>,
    cur: Option<int>,
    acc: Seq<bool>,
) -> Option<Seq<char>> {
    if range_changed(s, prev, cur) {
        match prev {
            Some(p) => match excerpt(files, s[p].span) {
                Some(ex) => Some(range_line(s[p], acc, ex, lay)),
                None => None,
            },
            None => Some(Seq::empty()),
        }
    } else {
        Some(Seq::empty())
    }
}

/// The labels skipped over on the way to the range holding the current bit.
pub open spec fn skipped_labels(
    files: Seq<(Seq<char>, Seq<char>)>,
    s: Seq<BitRangeView>,
    lay: Layout,
    from: int,
    cur: Option<int>,
) -> Option<Seq<char>> {
    match cur {
        Some(j) => label_lines(files, s, from, j, lay),
        None => Some(Seq::empty()),
    }
}

/// The bits gathered for the range being listed after the current bit.
pub open spec fn next_acc(b: Seq<bool>, s: Seq<BitRangeView>, index: int, prev: Option<int>, cur: Option<int>, acc: Seq<bool>) -> Seq<bool> {
    let acc1 = if range_changed(s, prev, cur) { Seq::empty() } else { acc };
    if cur is Some { acc1.push(bit_at(b, index)) } else { acc1 }
}

/// The listing body from bit `index` through bit `end`, with the scan at
/// range `from`, the range being listed `prev` and its bits so far `acc`:
/// at each bit, the labels skipped over to reach the range holding it; and
/// when that range differs from the one being listed, the finished line of
/// the one being listed. `None` where some source text cannot be had.
#[verifier::opaque]
pub open spec fn listing_from(
    b: Seq<bool>,
    files: Seq<(Seq<char>, Seq<char>)>,
    s: Seq<BitRangeView>,
    lay: Layout,
    index: int,
    end: int,
    from: int,
    prev: Option<int>,
    acc: Seq<bool>,
) -> Option<Seq<char>>
    decreases end + 1 - index,
{
    if index > end {
        Some(Seq::empty())
    } else {
        let cur = first_containing(s, from, index);
        let from2 = match cur {
            Some(j) => j,
            None => from,
        };
        let prev2 = if range_changed(s, prev, cur) { cur } else { prev };
        match (
            skipped_labels(files, s, lay, from, cur),
            finished_line(files, s, lay, prev, cur, acc),
            listing_from(b, files, s, lay, index + 1, end, from2, prev2, next_acc(b, s, index, prev, cur, acc)),
        ) {
            (Some(l), Some(f), Some(rest)) => Some(l + f + rest),
            _ => None,
        }
    }
}

/// One step of the listing: a present listing from bit `index` is the
/// labels skipped, the finished line and the listing from the next bit.
proof fn lemma_listing_step(
    b: Seq<bool>,
    files: Seq<(Seq<char>, Seq<char>)>,
    s: Seq<BitRangeView>,
    lay: Layout,
    index: int,
    end: int,
    from: int,
    prev: Option<int>,
    acc: Seq<bool>,
)
    requires
        index <= end,
        listing_from(b, files, s, lay, index, end, from, prev, acc) is Some,
    ensures
        ({
            let cur = first_containing(s, from, index);
            let from2 = match cur {
                Some(j) => j,
                None => from,
            };
            let prev2 = if range_changed(s, prev, cur) { cur } else { prev };
            let rest = listing_from(b, files, s, lay, index + 1, end, from2, prev2, next_acc(b, s, index, prev, cur, acc));
            &&& skipped_labels(files, s, lay, from, cur) is Some
            &&& finished_line(files, s, lay, prev, cur, acc) is Some
            &&& rest is Some
            &&& listing_from(b, files, s, lay, index, end, from, prev, acc).unwrap()
                == skipped_labels(files, s, lay, from, cur).unwrap()
                    + finished_line(files, s, lay, prev, cur, acc).unwrap() + rest.unwrap()
        }),
{
    reveal(listing_from);
}

/// The whole annotated listing of bits `start..end` with digits of `db`
/// bits and bytes of `bd` digits; `None` where some source text it needs
/// cannot be had.
pub open spec fn annotated_text(
    b: Seq<bool>,
    ranges: Seq<BitRangeView>,
    files: Seq<(Seq<char>, Seq<char>)>,
    db: nat,
    start: nat,
    end: nat,
    bd: nat,
) -> Option<Seq<char>> {
    let s = sort_ranges(ranges);
    let bb = bd * db;
    let (ow, aw) = column_widths(s, start as int, end as int, 0, bb, 2, 4);
    let lay = Layout { db: db, bd: bd, ow: ow, obw: hex((db - 1) as nat).len(), aw: aw };
    let header = " "@ + pad_left("outp"@, ow + lay.obw + 1, ' ') + " |"@
        + " "@ + pad_left("addr"@, aw, ' ') + " | data"@ + "\n"@ + "\n"@;
    match listing_from(b, files, s, lay, start as int, end as int, 0, None, Seq::empty()) {
        Some(body) => Some(header + body),
        None => None,
    }
}

/// Whether every range ends no earlier than it starts.
pub open spec fn ranges_well_formed(s: Seq<BitRangeView>) -> bool {
    forall|i: int| 0 <= i < s.len() ==> #[trigger] s[i].start <= s[i].end
}

/// Inserting `x` at position `p` is `insert_sorted` when `x` sorts before
/// exactly the elements from `p` on.
proof fn lemma_insert_at(s: Seq<BitRangeView>, x: BitRangeView, p: int)
    requires
        0 <= p <= s.len(),
        forall|k: int| p <= k < s.len() ==> range_before(x, #[trigger] s[k]),
        p > 0 ==> !range_before(x, s[p - 1]),
    ensures
        insert_sorted(s, x) == s.take(p).push(x) + s.skip(p),
    decreases s.len(),
{
    if s.len() == 0 {
        assert(s.take(p).push(x) + s.skip(p) =~= seq![x]);
    } else if p == s.len() {
        assert(s.take(p).push(x) + s.skip(p) =~= s.push(x));
    } else {
        let t = s.drop_last();
        assert forall|k: int| p <= k < t.len() implies range_before(x, #[trigger] t[k]) by {
            assert(t[k] == s[k]);
        }
        lemma_insert_at(t, x, p);
        assert(s.take(p).push(x) + s.skip(p) =~= (t.take(p).push(x) + t.skip(p)).push(s.last()));
    }
}

/// Sorting keeps every range, so well-formedness carries over.
proof fn lemma_insert_well_formed(s: Seq<BitRangeView>, x: BitRangeView)
    requires
        ranges_well_formed(s),
        x.start <= x.end,
    ensures
        ranges_well_formed(insert_sorted(s, x)),
        insert_sorted(s, x).len() == s.len() + 1,
    decreases s.len(),
{
    if s.len() > 0 && range_before(x, s.last()) {
        lemma_insert_well_formed(s.drop_last(), x);
        let r = insert_sorted(s.drop_last(), x).push(s.last());
        assert forall|i: int| 0 <= i < r.len() implies #[trigger] r[i].start <= r[i].end by {
            if i == r.len() - 1 {
                assert(s[s.len() - 1].start <= s[s.len() - 1].end);
            }
        }
    } else {
        let r = s.push(x);
        assert forall|i: int| 0 <= i < r.len() implies #[trigger] r[i].start <= r[i].end by {
            if i < s.len() {
                assert(s[i].start <= s[i].end);
            }
        }
    }
}

/// Whether `a` sorts before `b`.
fn range_before_exec(a: &BitRangeSpan, b: &BitRangeSpan) -> (r: bool)
    requires
        a.start <= a.end,
        b.start <= b.end,
    ensures
        r == range_before(a@, b@),
{
    a.start < b.start || (a.start == b.start && a.end - a.start > b.end - b.start)
}

/// A copy of a range.
fn copy_range(r: &BitRangeSpan) -> (c: BitRangeSpan)
    ensures
        c@ == r@,
{
    BitRangeSpan { start: r.start, end: r.end, addr: r.addr, span: r.span.duplicate() }
}

/// The ranges sorted by start, longer ranges first among equal starts,
/// keeping the given order among ranges that compare equal.
pub fn sorted_ranges(spans: &Vec<BitRangeSpan>) -> (r: Vec<BitRangeSpan>)
    requires
        ranges_well_formed(ranges_view(spans@)),
    ensures
        ranges_view(r@) == sort_ranges(ranges_view(spans@)),
        ranges_well_formed(ranges_view(r@)),
{
    let ghost v = ranges_view(spans@);
    let mut result: Vec<BitRangeSpan> = Vec::new();
    let n = spans.len();
    let mut i: usize = 0;
    assert(v.take(0) =~= Seq::<BitRangeView>::empty());
    while i < n
        invariant
            n == spans@.len(),
            v == ranges_view(spans@),
            ranges_well_formed(v),
            i <= n,
            ranges_view(result@) == sort_ranges(v.take(i as int)),
            ranges_well_formed(ranges_view(result@)),
        decreases n - i,
    {
        let x = &spans[i];
        assert(v[i as int] == x@);
        assert(v[i as int].start <= v[i as int].end);
        let ghost rs = ranges_view(result@);
        assert forall|k: int| 0 <= k < result@.len() implies #[trigger] result@[k].start <= result@[k].end by {
            assert(rs[k] == result@[k]@);
            assert(rs[k].start <= rs[k].end);
        }
        let mut p = result.len();
        while p > 0 && range_before_exec(x, &result[p - 1])
            invariant
                x.start <= x.end,
                rs == ranges_view(result@),
                ranges_well_formed(rs),
                p <= result@.len(),
                forall|k: int| 0 <= k < result@.len() ==> #[trigger] result@[k].start <= result@[k].end,
                forall|k: int| p <= k < rs.len() ==> range_before(x@, #[trigger] rs[k]),
            decreases p,
        {
            assert(rs[p - 1] == result@[p - 1]@);
            assert(rs[p - 1].start <= rs[p - 1].end);
            p = p - 1;
        }
        proof {
            if p > 0 {
                assert(rs[p - 1] == result@[p - 1]@);
            }
            lemma_insert_at(rs, x@, p as int);
            lemma_insert_well_formed(rs, x@);
        }
        let c = copy_range(x);
        result.insert(p, c);
        assert(ranges_view(result@) =~= rs.take(p as int).push(x@) + rs.skip(p as int));
        assert(v.take(i + 1).drop_last() =~= v.take(i as int));
        i = i + 1;
    }
    assert(v.take(n as int) =~= v);
    result
}

/// The first range from position `from` on that holds bit `index`.
fn find_containing(s: &Vec<BitRangeSpan>, from: usize, index: usize) -> (r: Option<usize>)
    ensures
        match r {
            Some(j) => first_containing(ranges_view(s@), from as int, index as int) == Some(j as int),
            None => first_containing(ranges_view(s@), from as int, index as int) is None,
        },
{
    let ghost v = ranges_view(s@);
    let mut j = from;
    while j < s.len()
        invariant
            v == ranges_view(s@),
            from <= j,
            first_containing(v, from as int, index as int) == first_containing(v, j as int, index as int),
        decreases s.len() - j,
    {
        assert(v[j as int] == s@[j as int]@);
        if s[j].start <= index && index < s[j].end {
            return Some(j);
        }
        j = j + 1;
    }
    None
}

/// The position of the first file named `name`.
fn find_file(files: &Vec<SourceFile>, name: &String) -> (r: Option<usize>)
    ensures
        match r {
            Some(i) => i < files@.len() && file_chars(files_view(files@), name@) == Some(files@[i as int].chars@),
            None => file_chars(files_view(files@), name@) is None,
        },
{
    let ghost v = files_view(files@);
    let mut i: usize = 0;
    assert(v.skip(0) =~= v);
    while i < files.len()
        invariant
            v == files_view(files@),
            i <= files@.len(),
            file_chars(v, name@) == file_chars(v.skip(i as int), name@),
        decreases files.len() - i,
    {
        assert(v.skip(i as int)[0] == (files@[i as int].name@, files@[i as int].chars@));
        if files[i].name == *name {
            return Some(i);
        }
        assert(v.skip(i as int).drop_first() =~= v.skip(i + 1));
        i = i + 1;
    }
    None
}

/// Appends the source text of `span`.
fn push_excerpt(out: &mut Vec<char>, files: &Vec<SourceFile>, span: &crate::binary_block::SourceSpan)
    requires
        excerpt(files_view(files@), span@) is Some,
    ensures
        final(out)@ == old(out)@ + excerpt(files_view(files@), span@).unwrap(),
{
    let (a, b) = match span.location {
        Some(loc) => loc,
        None => (0, 0),
    };
    let fi = match find_file(files, &span.file) {
        Some(fi) => fi,
        None => 0,
    };
    let chars = &files[fi].chars;
    let ghost start = out@;
    let mut k = a;
    while k < b
        invariant
            a <= k <= b,
            b <= chars@.len(),
            out@ == start + chars@.subrange(a as int, k as int),
        decreases b - k,
    {
        out.push(chars[k]);
        k = k + 1;
        assert(out@ =~= start + chars@.subrange(a as int, k as int));
    }
}

/// Appends `s` padded with spaces to `width`: on the left when
/// `right_align`, else on the right.
fn push_padded(out: &mut Vec<char>, s: &Vec<char>, width: usize, right_align: bool)
    ensures
        final(out)@ == old(out)@ + (if right_align { pad_left(s@, width as nat, ' ') } else { pad_right(s@, width as nat, ' ') }),
{
    let ghost start = out@;
    let n = s.len();
    if right_align && n < width {
        push_fill(out, width - n);
    }
    let mut k: usize = 0;
    let ghost mid = out@;
    while k < n
        invariant
            n == s@.len(),
            k <= n,
            out@ == mid + s@.take(k as int),
        decreases n - k,
    {
        out.push(s[k]);
        k = k + 1;
        assert(out@ =~= mid + s@.take(k as int));
    }
    assert(s@.take(n as int) =~= s@);
    if !right_align && n < width {
        push_fill(out, width - n);
    }
    assert(out@ =~= start + (if right_align { pad_left(s@, width as nat, ' ') } else { pad_right(s@, width as nat, ' ') }));
}

/// Appends `n` spaces.
fn push_fill(out: &mut Vec<char>, n: usize)
    ensures
        final(out)@ == old(out)@ + Seq::new(n as nat, |_i: int| ' '),
{
    let ghost start = out@;
    let mut k: usize = 0;
    while k < n
        invariant
            k <= n,
            out@ == start + Seq::new(k as nat, |_i: int| ' '),
        decreases n - k,
    {
        out.push(' ');
        k = k + 1;
        assert(out@ =~= start + Seq::new(k as nat, |_i: int| ' '));
    }
}

/// The concrete column layout of a listing.
struct ExecLayout {
    db: usize,
    bd: usize,
    ow: usize,
    obw: usize,
    aw: usize,
}

impl ExecLayout {
    /// The layout these values stand for.
    spec fn view_layout(&self) -> Layout {
        Layout { db: self.db as nat, bd: self.bd as nat, ow: self.ow as nat, obw: self.obw as nat, aw: self.aw as nat }
    }

    /// Sizes the listing can be written with.
    spec fn valid(&self) -> bool {
        &&& 1 <= self.db <= 7
        &&& 1 <= self.bd <= usize::MAX / 16
    }
}

/// Appends the position and address columns of a line for `r`.
fn push_row_head(out: &mut Vec<char>, r: &BitRangeSpan, lay: &ExecLayout)
    requires
        lay.valid(),
    ensures
        final(out)@ == old(out)@ + row_head(r@, lay.view_layout()),
{
    assert(lay.bd * lay.db <= usize::MAX && lay.bd * lay.db >= 1) by (nonlinear_arith)
        requires 1 <= lay.db <= 7, 1 <= lay.bd <= usize::MAX / 16;
    let bb = lay.bd * lay.db;
    push_str(out, " ");
    push_radix_padded(out, (r.start / bb) as u64, 16, false, lay.ow, ' ');
    push_str(out, ":");
    push_radix_padded(out, (r.start % bb) as u64, 16, false, lay.obw, ' ');
    push_str(out, " | ");
    push_radix_padded(out, r.addr as u64, 16, false, lay.aw, ' ');
    push_str(out, " | ");
    assert(out@ =~= old(out)@ + row_head(r@, lay.view_layout()));
}

/// The contents column for the bits `acc`.
fn contents_exec(acc: &Vec<bool>, db: usize, bd: usize) -> (r: Vec<char>)
    requires
        1 <= db <= 7,
        bd >= 1,
        acc@.len() + 16 <= usize::MAX,
    ensures
        r@ == contents(acc@, db as nat, bd as nat),
{
    let mut out: Vec<char> = Vec::new();
    let n = acc.len() / db + if acc.len() % db == 0 { 0 } else { 1 };
    assert(n * db <= acc@.len() + db) by (nonlinear_arith)
        requires n == (acc@.len() as int) / (db as int) + (if (acc@.len() as int) % (db as int) == 0 { 0int } else { 1int }), db >= 1;
    let mut k: usize = 0;
    while k < n
        invariant
            1 <= db <= 7,
            bd >= 1,
            n * db <= acc@.len() + db,
            acc@.len() + 16 <= usize::MAX,
            k <= n,
            out@ == contents_digits(acc@, db as nat, bd as nat, k as nat),
        decreases n - k,
    {
        assert(k * db + db <= n * db) by (nonlinear_arith)
            requires k < n;
        if k > 0 && k % bd == 0 {
            push_str(&mut out, " ");
        }
        let d = vec_window(acc, k * db, db);
        assert(vstd::arithmetic::power2::pow2(db as nat) <= 128) by {
            vstd::arithmetic::power2::lemma2_to64();
        }
        let c = digit_to_char(d, false);
        out.push(c);
        k = k + 1;
    }
    out
}

/// Appends the line for range `r` with the bits `acc`.
fn push_range_line(out: &mut Vec<char>, files: &Vec<SourceFile>, r: &BitRangeSpan, acc: &Vec<bool>, lay: &ExecLayout)
    requires
        lay.valid(),
        acc@.len() + 16 <= usize::MAX,
        excerpt(files_view(files@), r@.span) is Some,
    ensures
        final(out)@ == old(out)@ + range_line(r@, acc@, excerpt(files_view(files@), r@.span).unwrap(), lay.view_layout()),
{
    push_row_head(out, r, lay);
    let c = contents_exec(acc, lay.db, lay.bd);
    push_padded(out, &c, (lay.bd + 1) * 5 - 1, false);
    push_str(out, " ; ");
    push_excerpt(out, files, &r.span);
    push_str(out, "\n");
    assert(out@ =~= old(out)@ + range_line(r@, acc@, excerpt(files_view(files@), r@.span).unwrap(), lay.view_layout()));
}

/// Appends the label lines for the labels among ranges `from..to`.
fn push_label_lines(out: &mut Vec<char>, files: &Vec<SourceFile>, s: &Vec<BitRangeSpan>, from: usize, to: usize, lay: &ExecLayout)
    requires
        lay.valid(),
        to <= s@.len(),
        label_lines(files_view(files@), ranges_view(s@), from as int, to as int, lay.view_layout()) is Some,
    ensures
        final(out)@ == old(out)@ + label_lines(files_view(files@), ranges_view(s@), from as int, to as int, lay.view_layout()).unwrap(),
{
    let ghost v = ranges_view(s@);
    let ghost fv = files_view(files@);
    let ghost lv = lay.view_layout();
    let ghost start = out@;
    let mut k = from;
    while k < to
        invariant
            lay.valid(),
            to <= s@.len(),
            v == ranges_view(s@),
            fv == files_view(files@),
            lv == lay.view_layout(),
            from <= k || to <= from,
            label_lines(fv, v, k as int, to as int, lv) is Some,
            start + label_lines(fv, v, from as int, to as int, lv).unwrap()
                == out@ + label_lines(fv, v, k as int, to as int, lv).unwrap(),
        decreases to - k,
    {
        let ghost before = out@;
        let r = &s[k];
        assert(v[k as int] == r@);
        if r.start == r.end {
            push_row_head(out, r, lay);
            push_fill(out, (lay.bd + 1) * 5 - 1);
            push_str(out, " ; ");
            push_excerpt(out, files, &r.span);
            push_str(out, "\n");
            assert(out@ =~= before + label_line(r@, excerpt(fv, r@.span).unwrap(), lv));
        }
        k = k + 1;
    }
}

/// Whether two ranges have the same value.
fn range_equal(a: &BitRangeSpan, b: &BitRangeSpan) -> (r: bool)
    ensures
        r == (a@ == b@),
{
    a.start == b.start && a.end == b.end && a.addr == b.addr && a.span.same_as(&b.span)
}

/// What `first_containing` finds lies at or after `from`, within the
/// ranges, and holds the bit.
proof fn lemma_first_containing(s: Seq<BitRangeView>, from: int, index: int)
    ensures
        first_containing(s, from, index) matches Some(j) ==> from <= j < s.len() && s[j].start <= index < s[j].end,
    decreases s.len() - from,
{
    if 0 <= from < s.len() && !(s[from].start <= index < s[from].end) {
        lemma_first_containing(s, from + 1, index);
    }
}

/// Column widths stay within the 64 digits of any address.
proof fn lemma_column_widths_bound(s: Seq<BitRangeView>, index: int, end: int, from: int, bb: nat, ow: nat, aw: nat)
    requires
        bb >= 1,
        ow <= 64,
        aw <= 64,
    ensures
        column_widths(s, index, end, from, bb, ow, aw).0 <= 64,
        column_widths(s, index, end, from, bb, ow, aw).1 <= 64,
    decreases end - index,
{
    if index < end {
        match first_containing(s, from, index) {
            Some(j) => {
                lemma_first_containing(s, from, index);
                assert(s[j].start as nat / bb <= u64::MAX) by (nonlinear_arith)
                    requires bb >= 1, s[j].start <= usize::MAX;
                crate::text::lemma_radix_len_bound(s[j].start as nat / bb, 16, false);
                crate::text::lemma_radix_len_bound(s[j].addr as nat, 16, false);
                let w1 = hex(s[j].start as nat / bb).len();
                let w2 = hex(s[j].addr as nat).len();
                lemma_column_widths_bound(s, index + 1, end, j, bb,
                    if w1 > ow { w1 } else { ow }, if w2 > aw { w2 } else { aw });
            },
            None => {
                lemma_column_widths_bound(s, index + 1, end, from, bb, ow, aw);
            },
        }
    }
}

impl BinaryBlock {
    /// The annotated listing with one binary digit per bit, eight per byte.
    pub fn generate_annotated_bin(&self, files: &Vec<SourceFile>, start_bit: usize, end_bit: usize) -> (r: String)
        requires
            end_bit + 16 < usize::MAX,
            ranges_well_formed(ranges_view(self.spans@)),
            annotated_text(self.bits@, ranges_view(self.spans@), files_view(files@), 1,
                start_bit as nat, end_bit as nat, 8) is Some,
        ensures
            r@ == annotated_text(self.bits@, ranges_view(self.spans@), files_view(files@), 1,
                start_bit as nat, end_bit as nat, 8).unwrap(),
    {
        self.generate_annotated(files, 1, start_bit, end_bit, 8)
    }

    /// The annotated listing with hexadecimal digits, two per byte: the same
    /// text as `generate_annotated` with 4-bit digits, two to a byte.
    pub fn generate_annotated_hex(&self, files: &Vec<SourceFile>, start_bit: usize, end_bit: usize) -> (r: String)
        requires
            end_bit + 16 < usize::MAX,
            ranges_well_formed(ranges_view(self.spans@)),
            annotated_text(self.bits@, ranges_view(self.spans@), files_view(files@), 4,
                start_bit as nat, end_bit as nat, 2) is Some,
        ensures
            r@ == annotated_text(self.bits@, ranges_view(self.spans@), files_view(files@), 4,
                start_bit as nat, end_bit as nat, 2).unwrap(),
    {
        self.generate_annotated(files, 4, start_bit, end_bit, 2)
    }

    /// The annotated listing of bits `start_bit..end_bit`: a header, then
    /// for each output range, in order of position, a line with its
    /// position, address, contents (`digit_bits`-bit digits, `byte_digits`
    /// to a byte) and source text, with a line for each label met on the
    /// way. The source text of every line it writes must be at hand in
    /// `files`.
    pub fn generate_annotated(
        &self,
        files: &Vec<SourceFile>,
        digit_bits: usize,
        start_bit: usize,
        end_bit: usize,
        byte_digits: usize,
    ) -> (r: String)
        requires
            1 <= digit_bits <= 7,
            1 <= byte_digits <= usize::MAX / 16,
            end_bit + 16 < usize::MAX,
            ranges_well_formed(ranges_view(self.spans@)),
            annotated_text(self.bits@, ranges_view(self.spans@), files_view(files@), digit_bits as nat,
                start_bit as nat, end_bit as nat, byte_digits as nat) is Some,
        ensures
            r@ == annotated_text(self.bits@, ranges_view(self.spans@), files_view(files@), digit_bits as nat,
                start_bit as nat, end_bit as nat, byte_digits as nat).unwrap(),
    {
        let sorted = sorted_ranges(&self.spans);
        let ghost v = ranges_view(sorted@);
        let ghost fv = files_view(files@);
        assert(byte_digits * digit_bits <= usize::MAX && byte_digits * digit_bits >= 1) by (nonlinear_arith)
            requires 1 <= digit_bits <= 7, 1 <= byte_digits <= usize::MAX / 16;
        let bb = byte_digits * digit_bits;
        let obw = radix_len((digit_bits - 1) as u64, 16);

        let mut ow: usize = 2;
        let mut aw: usize = 4;
        let mut ssi: usize = 0;
        let mut index = start_bit;
        while index < end_bit
            invariant
                v == ranges_view(sorted@),
                bb >= 1,
                ow <= 64,
                aw <= 64,
                ssi <= sorted@.len(),
                column_widths(v, index as int, end_bit as int, ssi as int, bb as nat, ow as nat, aw as nat)
                    == column_widths(v, start_bit as int, end_bit as int, 0, bb as nat, 2, 4),
            decreases end_bit - index,
        {
            match find_containing(&sorted, ssi, index) {
                Some(j) => {
                    proof { lemma_first_containing(v, ssi as int, index as int); }
                    assert(v[j as int] == sorted@[j as int]@);
                    ssi = j;
                    let w1 = radix_len((sorted[j].start / bb) as u64, 16);
                    let w2 = radix_len(sorted[j].addr as u64, 16);
                    if w1 > ow {
                        ow = w1;
                    }
                    if w2 > aw {
                        aw = w2;
                    }
                },
                None => {},
            }
            index = index + 1;
        }

        let lay = ExecLayout { db: digit_bits, bd: byte_digits, ow: ow, obw: obw, aw: aw };
        let ghost lv = lay.view_layout();
        let mut out: Vec<char> = Vec::new();
        push_str(&mut out, " ");
        let outp = crate::text::str_chars("outp");
        push_padded(&mut out, &outp, ow + obw + 1, true);
        push_str(&mut out, " |");
        push_str(&mut out, " ");
        let addr = crate::text::str_chars("addr");
        push_padded(&mut out, &addr, aw, true);
        push_str(&mut out, " | data");
        push_str(&mut out, "\n");
        push_str(&mut out, "\n");
        let ghost head = out@;

        let mut prev: Option<usize> = None;
        let mut acc: Vec<bool> = Vec::new();
        ssi = 0;
        index = start_bit;
        while index <= end_bit
            invariant
                v == ranges_view(sorted@),
                fv == files_view(files@),
                lv == lay.view_layout(),
                lay.valid(),
                end_bit + 16 < usize::MAX,
                index >= start_bit,
                ssi <= sorted@.len(),
                prev matches Some(p) ==> p < sorted@.len(),
                acc@.len() <= if index >= start_bit { index - start_bit } else { 0 },
                listing_from(self.bits@, fv, v, lv, index as int, end_bit as int, ssi as int,
                    match prev { Some(p) => Some(p as int), None => None }, acc@) is Some,
                out@ + listing_from(self.bits@, fv, v, lv, index as int, end_bit as int, ssi as int,
                    match prev { Some(p) => Some(p as int), None => None }, acc@).unwrap()
                    == head + listing_from(self.bits@, fv, v, lv, start_bit as int, end_bit as int, 0,
                        None, Seq::empty()).unwrap(),
            decreases end_bit + 1 - index,
        {
            let ghost before = out@;
            let ghost prev_i: Option<int> = match prev { Some(p) => Some(p as int), None => None };
            let ghost old_acc = acc@;
            let ghost old_from = ssi as int;
            proof {
                lemma_listing_step(self.bits@, fv, v, lv, index as int, end_bit as int, ssi as int, prev_i, acc@);
            }
            let cur = find_containing(&sorted, ssi, index);
            let ghost cur_i: Option<int> = match cur { Some(c) => Some(c as int), None => None };
            proof { lemma_first_containing(v, ssi as int, index as int); }
            if let Some(j) = cur {
                push_label_lines(&mut out, files, &sorted, ssi, j, &lay);
                ssi = j;
            }
            let ghost mid = out@;
            assert(mid == before + skipped_labels(fv, v, lv, old_from, cur_i).unwrap());
            let changed = match (prev, cur) {
                (None, None) => false,
                (Some(p), Some(c)) => {
                    assert(v[p as int] == sorted@[p as int]@ && v[c as int] == sorted@[c as int]@);
                    !range_equal(&sorted[p], &sorted[c])
                },
                _ => true,
            };
            assert(changed == range_changed(v, prev_i, cur_i));
            if changed {
                if let Some(p) = prev {
                    assert(v[p as int] == sorted@[p as int]@);
                    push_range_line(&mut out, files, &sorted[p], &acc, &lay);
                }
                prev = cur;
                acc = Vec::new();
            }
            assert(out@ == mid + finished_line(fv, v, lv, prev_i, cur_i, old_acc).unwrap());
            if cur.is_some() {
                let bit = self.read(index);
                acc.push(bit);
            }
            assert(acc@ =~= next_acc(self.bits@, v, index as int, prev_i, cur_i, old_acc));
            index = index + 1;
        }
        proof {
            reveal(listing_from);
        }
        assert(column_widths(v, start_bit as int, end_bit as int, 0, bb as nat, 2, 4) == (ow as nat, aw as nat));
        assert(out@ =~= annotated_text(self.bits@, ranges_view(self.spans@), fv, digit_bits as nat,
            start_bit as nat, end_bit as nat, byte_digits as nat).unwrap());
        chars_to_string(&out)
    }
}

/// Whether no range of `s` sorts before an earlier one.
pub open spec fn ranges_sorted(s: Seq<BitRangeView>) -> bool {
    forall|i: int, j: int| 0 <= i < j < s.len() ==> !range_before(#[trigger] s[j], #[trigger] s[i])
}

/// Inserting keeps every range and adds `x`, and keeps a sorted list
/// sorted.
proof fn lemma_insert_sorted_props(s: Seq<BitRangeView>, x: BitRangeView)
    ensures
        insert_sorted(s, x).to_multiset() == s.to_multiset().insert(x),
        ranges_sorted(s) ==> ranges_sorted(insert_sorted(s, x)),
    decreases s.len(),
{
    broadcast use vstd::seq_lib::group_to_multiset_ensures;
    if s.len() == 0 {
        assert(seq![x] =~= Seq::<BitRangeView>::empty().push(x));
        assert(s =~= Seq::<BitRangeView>::empty());
    } else if range_before(x, s.last()) {
        let s1 = s.drop_last();
        let last = s.last();
        lemma_insert_sorted_props(s1, x);
        let r1 = insert_sorted(s1, x);
        let r = r1.push(last);
        assert(s =~= s1.push(last));
        assert(r.to_multiset() =~= s.to_multiset().insert(x));
        if ranges_sorted(s) {
            assert(ranges_sorted(s1)) by {
                assert forall|i: int, j: int| 0 <= i < j < s1.len() implies !range_before(#[trigger] s1[j], #[trigger] s1[i]) by {
                    assert(s1[i] == s[i] && s1[j] == s[j]);
                }
            }
            assert forall|i: int, j: int| 0 <= i < j < r.len() implies !range_before(#[trigger] r[j], #[trigger] r[i]) by {
                if j == r.len() - 1 {
                    let e = r1[i];
                    assert(r[i] == e);
                    assert(r1.contains(e));
                    assert(r1.to_multiset().count(e) > 0);
                    if e != x {
                        assert(s1.to_multiset().count(e) > 0);
                        assert(s1.contains(e));
                        let k = choose|k: int| 0 <= k < s1.len() && s1[k] == e;
                        assert(s[k] == e);
                        assert(!range_before(s[s.len() - 1], s[k]));
                    }
                } else {
                    assert(r[i] == r1[i] && r[j] == r1[j]);
                }
            }
        }
    } else {
        let r = s.push(x);
        if ranges_sorted(s) {
            assert forall|i: int, j: int| 0 <= i < j < r.len() implies !range_before(#[trigger] r[j], #[trigger] r[i]) by {
                if j == r.len() - 1 {
                    if i < s.len() - 1 {
                        assert(!range_before(s[s.len() - 1], s[i]));
                    }
                } else {
                    assert(r[i] == s[i] && r[j] == s[j]);
                }
            }
        }
    }
}

/// Sorting ranges puts them in order and keeps exactly the ranges given,
/// each as often as it was given.
pub proof fn law_sort_ranges(s: Seq<BitRangeView>)
    ensures
        ranges_sorted(sort_ranges(s)),
        sort_ranges(s).to_multiset() == s.to_multiset(),
    decreases s.len(),
{
    broadcast use vstd::seq_lib::group_to_multiset_ensures;
    if s.len() == 0 {
        assert(sort_ranges(s) =~= s);
    } else {
        let s1 = s.drop_last();
        law_sort_ranges(s1);
        lemma_insert_sorted_props(sort_ranges(s1), s.last());
        assert(s =~= s1.push(s.last()));
    }
}

/// Recording a bit, or a label, keeps every range of a block well formed,
/// so the ranges of any block built by writing bits and marking labels
/// can be annotated.
pub proof fn law_recording_keeps_ranges_well_formed(s: Seq<BitRangeView>, index: usize, addr: usize, span: SpanView)
    requires
        ranges_well_formed(s),
        index < usize::MAX,
    ensures
        ranges_well_formed(record_bit_range(s, index, addr, span)),
        ranges_well_formed(s.push(BitRangeView { start: index, end: index, addr: addr, span: span })),
{
    let r = record_bit_range(s, index, addr, span);
    assert forall|i: int| 0 <= i < r.len() implies #[trigger] r[i].start <= r[i].end by {
        if i < s.len() {
            assert(s[i].start <= s[i].end);
        }
    }
    let t = s.push(BitRangeView { start: index, end: index, addr: addr, span: span });
    assert forall|i: int| 0 <= i < t.len() implies #[trigger] t[i].start <= t[i].end by {
        if i < s.len() {
            assert(s[i].start <= s[i].end);
        }
    }
}

/// The digits of the first `n` windows of `acc`, in order.
proof fn lemma_contents_digits_read_back(acc: Seq<bool>, db: nat, bd: nat, n: nat)
    requires
        1 <= db <= 7,
        bd >= 1,
    ensures
        contents_digits(acc, db, bd, n).filter(|x: char| x != ' ')
            =~= Seq::new(n, |k: int| digit_char(bits_window_value(acc, k * db, db), false)),
    decreases n,
{
    let p = |x: char| x != ' ';
    if n == 0 {
        reveal(Seq::filter);
    } else {
        let k = (n - 1) as nat;
        lemma_contents_digits_read_back(acc, db, bd, k);
        let v = bits_window_value(acc, (k * db) as int, db);
        crate::bitvec::lemma_window_bound(acc, (k * db) as int, db);
        assert(vstd::arithmetic::power2::pow2(db) <= 128) by {
            vstd::arithmetic::power2::lemma2_to64();
        }
        let dc = digit_char(v, false);
        assert(dc != ' ');
        let sp: Seq<char> = if k > 0 && k % bd == 0 { " "@ } else { Seq::empty() };
        let x = contents_digits(acc, db, bd, k) + sp;
        assert(contents_digits(acc, db, bd, n) == x + seq![dc]);
        assert(x + seq![dc] =~= x.push(dc));
        assert(x.push(dc).drop_last() =~= x);
        reveal(Seq::filter);
        assert(x.push(dc).filter(p) == x.filter(p).push(dc));
        Seq::filter_distributes_over_add(contents_digits(acc, db, bd, k), sp, p);
        reveal_strlit(" ");
        assert(sp.filter(p) =~= Seq::<char>::empty()) by {
            let e = Seq::<char>::empty();
            assert(e.filter(p) =~= e);
            if sp.len() > 0 {
                assert(sp =~= seq![' ']);
                assert(sp.drop_last() =~= e);
                assert(sp.last() == ' ');
                assert(!p(' '));
            } else {
                assert(sp =~= e);
            }
        }
    }
}

/// Read back without its spaces, the contents column of a range line
/// shows the range's bits in order: one digit for each window of `db`
/// bits that holds a bit of the range, digit `k` being the value of the
/// window that starts at bit `k * db`.
pub proof fn law_contents_show_bits_in_order(acc: Seq<bool>, db: nat, bd: nat)
    requires
        1 <= db <= 7,
        bd >= 1,
    ensures
        ({
            let d = contents(acc, db, bd).filter(|x: char| x != ' ');
            &&& d.len() * db >= acc.len()
            &&& d.len() * db < acc.len() + db
            &&& forall|k: int| 0 <= k < d.len() ==> #[trigger] d[k] == digit_char(bits_window_value(acc, k * db, db), false)
        }),
{
    let n = acc.len() / db + if acc.len() % db == 0 { 0nat } else { 1nat };
    lemma_contents_digits_read_back(acc, db, bd, n);
    assert(n * db >= acc.len() && n * db < acc.len() + db) by (nonlinear_arith)
        requires
            n == acc.len() / db + if acc.len() % db == 0 { 0nat } else { 1nat },
            db >= 1;
}

} // verus!
