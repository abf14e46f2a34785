//! A block of output bits with the source ranges that produced them, and
//! its renderings in the supported output formats.
use vstd::prelude::*;
use crate::bitvec::{bit_at, bits_window_value, set_bit_bits};
use crate::string_literal::hex_digits_value;
use crate::text::{
    chars_to_string, dec, digit_char, digit_to_char, hex, hex_digit_value, hex_upper, pad_left,
    push_radix, push_radix_padded, push_str, radix_len,
};

verus! {

/// Where a piece of source text lies: a file name and, when known, a
/// character range in it.
#[derive(Clone)]
pub struct SourceSpan {
    pub file: String,
    pub location: Option<(usize, usize)>,
}

/// The abstract value of a `SourceSpan`.
pub struct SpanView {
    pub file: Seq<char>,
    pub location: Option<(usize, usize)>,
}

impl View for SourceSpan {
    type V = SpanView;

    open spec fn view(&self) -> SpanView {
        SpanView { file: self.file@, location: self.location }
    }
}

impl SourceSpan {
    /// A copy of this span.
    pub fn duplicate(&self) -> (r: SourceSpan)
        ensures
            r@ == self@,
    {
        SourceSpan { file: self.file.clone(), location: self.location }
    }

    /// Whether two spans name the same file and the same range.
    pub fn same_as(&self, other: &SourceSpan) -> (r: bool)
        ensures
            r == (self@ == other@),
    {
        let same_file = self.file == other.file;
        let same_loc = match (self.location, other.location) {
            (None, None) => true,
            (Some(a), Some(b)) => a.0 == b.0 && a.1 == b.1,
            _ => false,
        };
        same_file && same_loc
    }
}

/// A range of output bits `start..end`, the address it was assembled at,
/// and the source that produced it; an empty range marks a label.
#[derive(Clone)]
pub struct BitRangeSpan {
    pub start: usize,
    pub end: usize,
    pub addr: usize,
    pub span: SourceSpan,
}

/// The abstract value of a `BitRangeSpan`.
pub struct BitRangeView {
    pub start: usize,
    pub end: usize,
    pub addr: usize,
    pub span: SpanView,
}

impl View for BitRangeSpan {
    type V = BitRangeView;

    open spec fn view(&self) -> BitRangeView {
        BitRangeView { start: self.start, end: self.end, addr: self.addr, span: self.span@ }
    }
}

/// The abstract values of a list of bit ranges.
pub open spec fn ranges_view(s: Seq<BitRangeSpan>) -> Seq<BitRangeView> {
    s.map_values(|r: BitRangeSpan| r@)
}

/// The ranges after recording that bit `index` came from `span` at
/// address `addr`: the last range grows by one bit when it has the same
/// source and ends right at `index`; otherwise a one-bit range is added.
pub open spec fn record_bit_range(s: Seq<BitRangeView>, index: usize, addr: usize, span: SpanView) -> Seq<BitRangeView> {
    if s.len() > 0 && span == s.last().span && index == s.last().end {
        s.update(s.len() - 1, BitRangeView { end: (index + 1) as usize, ..s.last() })
    } else {
        s.push(BitRangeView { start: index, end: (index + 1) as usize, addr: addr, span: span })
    }
}

/// The digits that `generate_str` writes for the windows of `db` bits
/// starting at `index`, `index + db`, ... while below `end`.
pub open spec fn str_digits_from(b: Seq<bool>, db: nat, index: nat, end: nat) -> Seq<char>
    decreases if index < end { end - index } else { 0 },
{
    if index >= end || db == 0 {
        Seq::empty()
    } else {
        seq![digit_char(bits_window_value(b, index as int, db), false)]
            + str_digits_from(b, db, index + db, end)
    }
}

/// The bytes that `generate_binary` writes for the 8-bit windows starting
/// at `index`, `index + 8`, ... while below `end`.
pub open spec fn bytes_from(b: Seq<bool>, index: nat, end: nat) -> Seq<u8>
    decreases if index < end { end - index } else { 0 },
{
    if index >= end {
        Seq::empty()
    } else {
        seq![bits_window_value(b, index as int, 8) as u8] + bytes_from(b, index + 8, end)
    }
}

/// The number of bytes the bits `start..end` fill, counting a partial
/// last byte.
pub open spec fn byte_count(start: nat, end: nat) -> nat {
    ((end - start) / 8 + if (end - start) % 8 != 0 { 1int } else { 0int }) as nat
}

/// The MIF content lines for the bytes starting at `index`, `index + 8`,
/// ... while below `end`, addresses padded to `w` characters.
pub open spec fn mif_lines_from(b: Seq<bool>, index: nat, end: nat, w: nat) -> Seq<char>
    decreases if index < end { end - index } else { 0 },
{
    if index >= end {
        Seq::empty()
    } else {
        " "@ + pad_left(hex_upper(index / 8), w, ' ') + ": "@
            + pad_left(hex_upper(bits_window_value(b, index as int, 8)), 2, '0') + ";\n"@
            + mif_lines_from(b, index + 8, end, w)
    }
}

/// The whole MIF file for the bits `start..end`.
pub open spec fn mif_text(b: Seq<bool>, start: nat, end: nat) -> Seq<char> {
    let byte_num = byte_count(start, end);
    "DEPTH = "@ + dec(byte_num) + ";\n"@ + "WIDTH = 8;\n"@ + "ADDRESS_RADIX = HEX;\n"@
        + "DATA_RADIX = HEX;\n"@ + "\n"@ + "CONTENT\n"@ + "BEGIN\n"@
        + mif_lines_from(b, start, end, hex((byte_num - 1) as nat).len()) + "END;"@
}

/// Two upper-case hexadecimal digits of a byte value.
pub open spec fn hex2(v: nat) -> Seq<char> {
    pad_left(hex_upper(v), 2, '0')
}

/// The hexadecimal digits of the `n` bytes starting at bit `index`.
pub open spec fn data_hex(b: Seq<bool>, index: nat, n: nat) -> Seq<char>
    decreases n,
{
    if n == 0 {
        Seq::empty()
    } else {
        hex2(bits_window_value(b, index as int, 8)) + data_hex(b, index + 8, (n - 1) as nat)
    }
}

/// The sum of the `n` bytes starting at bit `index`.
pub open spec fn data_sum(b: Seq<bool>, index: nat, n: nat) -> nat
    decreases n,
{
    if n == 0 {
        0
    } else {
        bits_window_value(b, index as int, 8) + data_sum(b, index + 8, (n - 1) as nat)
    }
}

/// The Intel HEX checksum of a data record of `n` bytes at byte address
/// `addr`: the two's complement of the low byte of the sum of the record's
/// length, address and data bytes.
pub open spec fn ihex_checksum(b: Seq<bool>, index: nat, addr: nat, n: nat) -> nat {
    let sum = n + (addr / 256) % 256 + addr % 256 + data_sum(b, index, n);
    ((256 - sum % 256) % 256) as nat
}

/// One Intel HEX data record holding the `n` bytes from bit `index` on.
#[verifier::opaque]
pub open spec fn ihex_record(b: Seq<bool>, index: nat, n: nat) -> Seq<char> {
    ":"@ + hex2(n) + pad_left(hex_upper(index / 8), 4, '0') + "00"@
        + data_hex(b, index, n) + hex2(ihex_checksum(b, index, index / 8, n)) + "\n"@
}

/// The Intel HEX data records for the bits from `index` on while below
/// `end`, with `bytes_left` bytes still to write, at most 32 per record.
pub open spec fn ihex_records_from(b: Seq<bool>, index: nat, end: nat, bytes_left: nat) -> Seq<char>
    decreases if index < end { end - index } else { 0 },
{
    if index >= end || bytes_left == 0 {
        Seq::empty()
    } else {
        let n: nat = if bytes_left > 32 { 32 } else { bytes_left };
        ihex_record(b, index, n) + ihex_records_from(b, index + 8 * n, end, (bytes_left - n) as nat)
    }
}

/// One byte as text: decimal, or `0x` and two lower-case hexadecimal digits.
pub open spec fn byte_text(radix: nat, v: nat) -> Seq<char> {
    if radix == 10 {
        dec(v)
    } else {
        "0x"@ + pad_left(hex(v), 2, '0')
    }
}

/// The comma-separated bytes from bit `index` on while below `end`, with a
/// line break after every separator that closes a line of sixteen bytes.
pub open spec fn comma_from(b: Seq<bool>, index: nat, end: nat, radix: nat) -> Seq<char>
    decreases if index < end { end - index } else { 0 },
{
    if index >= end {
        Seq::empty()
    } else {
        byte_text(radix, bits_window_value(b, index as int, 8))
            + (if index + 8 < end {
                ", "@ + (if ((index + 8) / 8) % 16 == 0 { "\n"@ } else { Seq::empty() })
            } else {
                Seq::empty()
            })
            + comma_from(b, index + 8, end, radix)
    }
}

/// One C array entry: the byte at bit `index`, then, unless it is the
/// last, a comma, and an address comment opening each new line.
pub open spec fn c_array_entry(b: Seq<bool>, index: nat, end: nat, radix: nat, w: nat) -> Seq<char> {
    byte_text(radix, bits_window_value(b, index as int, 8))
        + (if index + 8 < end {
            ", "@ + (if ((index + 8) / 8) % 16 == 0 {
                "\n\t/* 0x"@ + pad_left(hex((index + 8) / 8), w, '0') + " */ "@
            } else {
                Seq::empty()
            })
        } else {
            Seq::empty()
        })
}

/// The C array body from bit `index` on while below `end`: bytes separated
/// by commas, every line of sixteen bytes opened by an address comment.
pub open spec fn c_array_from(b: Seq<bool>, index: nat, end: nat, radix: nat, w: nat) -> Seq<char>
    decreases if index < end { end - index } else { 0 },
{
    if index >= end {
        Seq::empty()
    } else {
        c_array_entry(b, index, end, radix, w) + c_array_from(b, index + 8, end, radix, w)
    }
}

/// The whole C array for the bits `start..end`.
pub open spec fn c_array_text(b: Seq<bool>, start: nat, end: nat, radix: nat) -> Seq<char> {
    let w = hex((byte_count(start, end) - 1) as nat).len();
    "const unsigned char data[] = {\n"@ + "\t/* 0x"@ + pad_left(hex(0), w, '0') + " */ "@
        + c_array_from(b, start, end, radix, w) + "\n};"@
}

/// The Logisim chunks from bit `index` on while below `end`: the low
/// sixteen bits of each `bpc`-bit chunk in hexadecimal, padded to `bpc / 4`
/// digits, with a line break after every chunk that ends a sixteen-byte
/// line.
pub open spec fn logisim_from(b: Seq<bool>, index: nat, end: nat, bpc: nat) -> Seq<char>
    decreases if index < end { end - index } else { 0 },
{
    if index >= end || bpc == 0 {
        Seq::empty()
    } else {
        pad_left(hex(bits_window_value(b, index as int, bpc) % 0x10000), bpc / 4, '0') + " "@
            + (if ((index + bpc) / 8) % 16 == 0 { "\n"@ } else { Seq::empty() })
            + logisim_from(b, index + bpc, end, bpc)
    }
}

/// Appends one byte as text: decimal, or `0x` and two lower-case
/// hexadecimal digits.
fn push_byte_text(out: &mut Vec<char>, radix: usize, v: u64)
    requires
        radix == 10 || radix == 16,
    ensures
        final(out)@ == old(out)@ + byte_text(radix as nat, v as nat),
{
    if radix == 10 {
        push_radix(out, v, 10, false);
    } else {
        push_str(out, "0x");
        push_radix_padded(out, v, 16, false, 2, '0');
    }
}

/// One digit of a dump: `.` when the window starts past the end of `b`.
pub open spec fn dump_digit(b: Seq<bool>, first: nat, db: nat) -> char {
    if first >= b.len() {
        '.'
    } else {
        digit_char(bits_window_value(b, first as int, db), false)
    }
}

/// The `count` digits of one dumped byte starting at bit `first`.
pub open spec fn dump_byte_digits(b: Seq<bool>, first: nat, db: nat, count: nat) -> Seq<char> {
    Seq::new(count, |k: int| dump_digit(b, (first + k * db) as nat, db))
}

/// The digit columns for the first `n` bytes of dump line `line`: each
/// byte's digits and a space, with an extra space after every fourth byte
/// but the last.
pub open spec fn dump_hex_part(b: Seq<bool>, line: nat, db: nat, bb: nat, bpl: nat, n: nat) -> Seq<char>
    decreases n,
{
    if n == 0 {
        Seq::empty()
    } else {
        let k = (n - 1) as nat;
        dump_hex_part(b, line, db, bb, bpl, k)
            + dump_byte_digits(b, (line * bpl + k) * bb, db, bb / db) + " "@
            + (if k % 4 == 3 && k + 1 < bpl { " "@ } else { Seq::empty() })
    }
}

/// The character column for the byte at bit `first`: printable ASCII as
/// itself, white space as a space, anything else (and bytes past the end)
/// as `.`.
pub open spec fn dump_ascii_char(b: Seq<bool>, first: nat) -> char {
    if first >= b.len() {
        '.'
    } else {
        let v = bits_window_value(b, first as int, 8);
        if v == 32 || v == 9 || v == 13 || v == 10 {
            ' '
        } else if v >= 0x80 || v < 32 || v == 124 {
            '.'
        } else {
            (v as u8) as char
        }
    }
}

/// One line of a dump: the address of its first byte, the digit columns
/// and, for 8-bit bytes, the character columns.
pub open spec fn dump_line(b: Seq<bool>, line: nat, db: nat, bb: nat, bpl: nat, w: nat) -> Seq<char> {
    " "@ + pad_left(hex(line * bpl), w, '0') + " | "@ + dump_hex_part(b, line, db, bb, bpl, bpl) + "| "@
        + (if bb == 8 {
            Seq::new(bpl, |k: int| dump_ascii_char(b, ((line * bpl + k) * 8) as nat)) + " |"@
        } else {
            Seq::empty()
        })
        + "\n"@
}

/// The dump lines `from..to`.
pub open spec fn dump_lines(b: Seq<bool>, from: nat, to: nat, db: nat, bb: nat, bpl: nat, w: nat) -> Seq<char>
    decreases if from < to { to - from } else { 0 },
{
    if from >= to {
        Seq::empty()
    } else {
        dump_line(b, from, db, bb, bpl, w) + dump_lines(b, from + 1, to, db, bb, bpl, w)
    }
}

/// The first dump line: the one holding bit `start`.
pub open spec fn dump_first_line(start: nat, bb: nat, bpl: nat) -> nat {
    start / (bb * bpl)
}

/// One past the last dump line: the line holding the last byte that
/// `end` reaches into, or just the first line for less than a byte.
pub open spec fn dump_end_line(start: nat, end: nat, bb: nat, bpl: nat) -> nat {
    if end - start < bb {
        dump_first_line(start, bb, bpl) + 1
    } else {
        ((end + (bpl - 1) * bb) / ((bb * bpl) as int)) as nat
    }
}

/// A dump of the lines covering bits `start..end`, addresses padded to the
/// width of the last line's address.
pub open spec fn dump_text(b: Seq<bool>, db: nat, start: nat, end: nat, bb: nat, bpl: nat) -> Seq<char> {
    let ls = dump_first_line(start, bb, bpl);
    let le = dump_end_line(start, end, bb, bpl);
    dump_lines(b, ls, le, db, bb, bpl, hex(((le - 1) * bpl) as nat).len())
}

/// The dump's line range is not empty and its last line stays within
/// two lines past `end`.
proof fn lemma_dump_line_bounds(start: nat, end: nat, bb: nat, bpl: nat)
    requires
        bb >= 1,
        bpl >= 1,
        start <= end,
    ensures
        dump_first_line(start, bb, bpl) < dump_end_line(start, end, bb, bpl),
        dump_end_line(start, end, bb, bpl) * (bb * bpl) <= end + 2 * (bb * bpl),
{
    let p = bb * bpl;
    assert(p >= bb && p >= 1) by (nonlinear_arith)
        requires p == bb * bpl, bb >= 1, bpl >= 1;
    assert((bpl - 1) * bb == p - bb) by (nonlinear_arith)
        requires p == bb * bpl;
    let ls = start / p;
    assert(ls * p <= start) by (nonlinear_arith)
        requires ls == start / p, p >= 1;
    if end - start < bb {
        assert((ls + 1) * p <= start + p) by (nonlinear_arith)
            requires ls * p <= start;
    } else {
        let le = ((end + p - bb) / (p as int)) as nat;
        assert(le * p <= end + p - bb) by (nonlinear_arith)
            requires le == (end + p - bb) / (p as int), p >= 1;
        assert(le > ls) by (nonlinear_arith)
            requires le == (end + p - bb) / (p as int), ls == start / p, p >= 1, end >= start + bb, p >= bb;
    }
}

/// The value of the `k` bits of `bits` from `index` on, reading zeros
/// past the end.
pub fn vec_window(bits: &Vec<bool>, index: usize, k: usize) -> (r: u64)
    requires
        k <= 16,
    ensures
        r == bits_window_value(bits@, index as int, k as nat),
        r < vstd::arithmetic::power2::pow2(k as nat),
{
    let mut v: u64 = 0;
    let mut j: usize = 0;
    proof { vstd::arithmetic::power2::lemma2_to64(); }
    while j < k
        invariant
            k <= 16,
            j <= k,
            v == bits_window_value(bits@, index as int, j as nat),
            v < vstd::arithmetic::power2::pow2(j as nat),
            vstd::arithmetic::power2::pow2(16) == 0x10000,
        decreases k - j,
    {
        let b = if index < bits.len() && j < bits.len() - index { bits[index + j] } else { false };
        proof { vstd::arithmetic::power2::lemma_pow2_unfold((j + 1) as nat); }
        assert(vstd::arithmetic::power2::pow2(j as nat) <= 0x8000) by {
            vstd::arithmetic::power2::lemma2_to64();
        }
        v = v * 2 + if b { 1 } else { 0 };
        j = j + 1;
    }
    v
}

/// A block of output bits and the source ranges that produced them.
pub struct BinaryBlock {
    pub bits: Vec<bool>,
    pub spans: Vec<BitRangeSpan>,
}

impl BinaryBlock {
    /// An empty block.
    pub fn new() -> (r: BinaryBlock)
        ensures
            r.bits@ == Seq::<bool>::empty(),
            r.spans@ == Seq::<BitRangeSpan>::empty(),
    {
        BinaryBlock { bits: Vec::new(), spans: Vec::new() }
    }

    /// Writes `bit` just past the end, recording its source as `write` does.
    pub fn append(&mut self, bit: bool, maybe_range: Option<(usize, &SourceSpan)>)
        requires
            old(self).bits@.len() + 1 < usize::MAX,
        ensures
            final(self).bits@ == old(self).bits@.push(bit),
            ranges_view(final(self).spans@) == match maybe_range {
                None => ranges_view(old(self).spans@),
                Some((addr, span)) => record_bit_range(
                    ranges_view(old(self).spans@), old(self).bits@.len() as usize, addr, span@),
            },
    {
        let index = self.len();
        self.write(index, bit, maybe_range);
        assert(set_bit_bits(old(self).bits@, index as nat, bit) =~= old(self).bits@.push(bit));
    }

    /// Sets bit `index` to `bit`, growing the block with zeros first where it
    /// is too short; with a source given, extends the last range by this
    /// bit when it has the same source and ends right here, or else records
    /// a new one-bit range.
    pub fn write(&mut self, index: usize, bit: bool, maybe_range: Option<(usize, &SourceSpan)>)
        requires
            index + 1 < usize::MAX,
        ensures
            final(self).bits@ == set_bit_bits(old(self).bits@, index as nat, bit),
            ranges_view(final(self).spans@) == match maybe_range {
                None => ranges_view(old(self).spans@),
                Some((addr, span)) => record_bit_range(ranges_view(old(self).spans@), index, addr, span@),
            },
    {
        let ghost start = self.bits@;
        while self.bits.len() <= index
            invariant
                index + 1 < usize::MAX,
                start.len() <= self.bits@.len() <= (if start.len() > index { start.len() } else { (index + 1) as nat }),
                forall|j: int| 0 <= j < self.bits@.len() ==> self.bits@[j] == bit_at(start, j),
                self.spans@ == old(self).spans@,
            decreases index + 1 - self.bits.len(),
        {
            self.bits.push(false);
        }
        self.bits.set(index, bit);
        assert(self.bits@ =~= set_bit_bits(start, index as nat, bit));
        if let Some(range) = maybe_range {
            let addr = range.0;
            let span = range.1;
            let spans_len = self.spans.len();
            let ghost sv = ranges_view(self.spans@);
            if spans_len > 0 && span.same_as(&self.spans[spans_len - 1].span)
                && index == self.spans[spans_len - 1].end {
                let last = &self.spans[spans_len - 1];
                let updated = BitRangeSpan {
                    start: last.start,
                    end: index + 1,
                    addr: last.addr,
                    span: last.span.duplicate(),
                };
                self.spans.set(spans_len - 1, updated);
                assert(ranges_view(self.spans@) =~= record_bit_range(sv, index, addr, span@));
            } else {
                let fresh = BitRangeSpan { start: index, end: index + 1, addr: addr, span: span.duplicate() };
                self.spans.push(fresh);
                assert(ranges_view(self.spans@) =~= record_bit_range(sv, index, addr, span@));
            }
        }
    }

    /// The bit at `bit_index`, or `false` past the end.
    pub fn read(&self, bit_index: usize) -> (r: bool)
        ensures
            r == bit_at(self.bits@, bit_index as int),
    {
        if bit_index >= self.bits.len() {
            false
        } else {
            self.bits[bit_index]
        }
    }

    /// Drops the bits from `new_len` on.
    pub fn truncate(&mut self, new_len: usize)
        ensures
            final(self).bits@ == (if old(self).bits@.len() > new_len {
                old(self).bits@.take(new_len as int)
            } else {
                old(self).bits@
            }),
            final(self).spans@ == old(self).spans@,
    {
        while self.bits.len() > new_len
            invariant
                self.bits@.len() >= new_len ==> self.bits@ == old(self).bits@.take(self.bits@.len() as int),
                old(self).bits@.len() <= new_len ==> self.bits@ == old(self).bits@,
                old(self).bits@.len() > new_len ==> self.bits@.len() >= new_len,
                self.bits@.len() <= old(self).bits@.len(),
                self.spans@ == old(self).spans@,
            decreases self.bits@.len(),
        {
            self.bits.pop();
            assert(self.bits@ =~= old(self).bits@.take(self.bits@.len() as int));
        }
        assert(old(self).bits@.len() > new_len ==> self.bits@ =~= old(self).bits@.take(new_len as int));
    }

    /// Number of bits.
    pub fn len(&self) -> (r: usize)
        ensures
            r == self.bits@.len(),
    {
        self.bits.len()
    }

    /// Records a label: an empty range at `index` for address `addr`.
    pub fn mark_label(&mut self, index: usize, addr: usize, span: &SourceSpan)
        ensures
            final(self).bits@ == old(self).bits@,
            ranges_view(final(self).spans@) == ranges_view(old(self).spans@).push(
                BitRangeView { start: index, end: index, addr: addr, span: span@ }),
    {
        let ghost sv = ranges_view(self.spans@);
        self.spans.push(BitRangeSpan { start: index, end: index, addr: addr, span: span.duplicate() });
        assert(ranges_view(self.spans@) =~= sv.push(
            BitRangeView { start: index, end: index, addr: addr, span: span@ }));
    }

    /// The value of the `k` bits from `index` on, reading zeros past the end.
    fn read_window(&self, index: usize, k: usize) -> (r: u64)
        requires
            k <= 16,
        ensures
            r == bits_window_value(self.bits@, index as int, k as nat),
            r < vstd::arithmetic::power2::pow2(k as nat),
    {
        vec_window(&self.bits, index, k)
    }

    /// The bits from `start_bit` to `end_bit` as binary digits.
    pub fn generate_binstr(&self, start_bit: usize, end_bit: usize) -> (r: String)
        requires
            start_bit < end_bit ==> end_bit + 1 <= usize::MAX + 1,
        ensures
            r@ == str_digits_from(self.bits@, 1, start_bit as nat, end_bit as nat),
    {
        self.generate_str(1, start_bit, end_bit)
    }

    /// The bits from `start_bit` to `end_bit` as hexadecimal digits.
    pub fn generate_hexstr(&self, start_bit: usize, end_bit: usize) -> (r: String)
        requires
            start_bit < end_bit ==> end_bit + 4 <= usize::MAX + 1,
        ensures
            r@ == str_digits_from(self.bits@, 4, start_bit as nat, end_bit as nat),
    {
        self.generate_str(4, start_bit, end_bit)
    }

    /// One digit per `digit_bits` bits from `start_bit` on while below
    /// `end_bit` (the last window reading zeros past the end), values from
    /// ten on written `a`, `b`, ...
    pub fn generate_str(&self, digit_bits: usize, start_bit: usize, end_bit: usize) -> (r: String)
        requires
            1 <= digit_bits <= 7,
            start_bit < end_bit ==> end_bit + digit_bits <= usize::MAX + 1,
        ensures
            r@ == str_digits_from(self.bits@, digit_bits as nat, start_bit as nat, end_bit as nat),
    {
        let mut out: Vec<char> = Vec::new();
        let mut index = start_bit;
        while index < end_bit
            invariant
                1 <= digit_bits <= 7,
                index < end_bit ==> end_bit + digit_bits <= usize::MAX + 1,
                out@ + str_digits_from(self.bits@, digit_bits as nat, index as nat, end_bit as nat)
                    == str_digits_from(self.bits@, digit_bits as nat, start_bit as nat, end_bit as nat),
            decreases if index < end_bit { end_bit - index } else { 0 },
        {
            let digit = self.read_window(index, digit_bits);
            assert(vstd::arithmetic::power2::pow2(digit_bits as nat) <= 128) by {
                vstd::arithmetic::power2::lemma2_to64();
            }
            let c = digit_to_char(digit, false);
            let ghost rest = str_digits_from(self.bits@, digit_bits as nat, (index + digit_bits) as nat, end_bit as nat);
            out.push(c);
            index = index + digit_bits;
            assert(out@ + rest =~= out@.drop_last() + (seq![c] + rest));
        }
        chars_to_string(&out)
    }

    /// One byte per eight bits from `start_bit` on while below `end_bit`,
    /// the last byte reading zeros past the end.
    pub fn generate_binary(&self, start_bit: usize, end_bit: usize) -> (r: Vec<u8>)
        requires
            start_bit < end_bit ==> end_bit + 8 <= usize::MAX + 1,
        ensures
            r@ == bytes_from(self.bits@, start_bit as nat, end_bit as nat),
    {
        let mut out: Vec<u8> = Vec::new();
        let mut index = start_bit;
        while index < end_bit
            invariant
                index < end_bit ==> end_bit + 8 <= usize::MAX + 1,
                out@ + bytes_from(self.bits@, index as nat, end_bit as nat)
                    == bytes_from(self.bits@, start_bit as nat, end_bit as nat),
            decreases if index < end_bit { end_bit - index } else { 0 },
        {
            let byte = self.read_window(index, 8);
            assert(vstd::arithmetic::power2::pow2(8) == 256) by {
                vstd::arithmetic::power2::lemma2_to64();
            }
            let ghost rest = bytes_from(self.bits@, (index + 8) as nat, end_bit as nat);
            out.push(byte as u8);
            index = index + 8;
            assert(out@ + rest =~= out@.drop_last() + (seq![byte as u8] + rest));
        }
        out
    }

    /// The low sixteen bits of the value of the `k` bits from `index` on.
    fn read_window_low16(&self, index: usize, k: usize) -> (r: u64)
        requires
            index + k <= usize::MAX,
        ensures
            r == bits_window_value(self.bits@, index as int, k as nat) % 0x10000,
    {
        let mut v: u64 = 0;
        let mut j: usize = 0;
        while j < k
            invariant
                index + k <= usize::MAX,
                j <= k,
                v == bits_window_value(self.bits@, index as int, j as nat) % 0x10000,
            decreases k - j,
        {
            let b = self.read(index + j);
            let bit: u64 = if b { 1 } else { 0 };
            let ghost w = bits_window_value(self.bits@, index as int, j as nat);
            assert((2 * (w % 0x10000) + bit) % 0x10000 == (2 * w + bit) % 0x10000) by (nonlinear_arith)
                requires bit <= 1;
            v = (v * 2 + bit) % 0x10000;
            j = j + 1;
        }
        v
    }

    /// A Memory Initialization File for the bits `start_bit..end_bit`: a
    /// header giving the byte count, then one `address: byte;` line per
    /// byte, then `END;`.
    pub fn generate_mif(&self, start_bit: usize, end_bit: usize) -> (r: String)
        requires
            start_bit < end_bit,
            end_bit + 8 <= usize::MAX,
        ensures
            r@ == mif_text(self.bits@, start_bit as nat, end_bit as nat),
    {
        let mut out: Vec<char> = Vec::new();
        let byte_num = (end_bit - start_bit) / 8 + if (end_bit - start_bit) % 8 != 0 { 1 } else { 0 };
        push_str(&mut out, "DEPTH = ");
        push_radix(&mut out, byte_num as u64, 10, false);
        push_str(&mut out, ";\n");
        push_str(&mut out, "WIDTH = 8;\n");
        push_str(&mut out, "ADDRESS_RADIX = HEX;\n");
        push_str(&mut out, "DATA_RADIX = HEX;\n");
        push_str(&mut out, "\n");
        push_str(&mut out, "CONTENT\n");
        push_str(&mut out, "BEGIN\n");
        let w = radix_len((byte_num - 1) as u64, 16);
        let ghost head = out@;
        let mut index = start_bit;
        while index < end_bit
            invariant
                end_bit + 8 <= usize::MAX,
                w == hex((byte_num - 1) as nat).len(),
                out@ + mif_lines_from(self.bits@, index as nat, end_bit as nat, w as nat)
                    == head + mif_lines_from(self.bits@, start_bit as nat, end_bit as nat, w as nat),
            decreases if index < end_bit { end_bit - index } else { 0 },
        {
            let ghost before = out@;
            push_str(&mut out, " ");
            push_radix_padded(&mut out, (index / 8) as u64, 16, true, w, ' ');
            push_str(&mut out, ": ");
            let byte = self.read_window(index, 8);
            push_radix_padded(&mut out, byte, 16, true, 2, '0');
            push_str(&mut out, ";\n");
            index = index + 8;
            assert(out@ + mif_lines_from(self.bits@, index as nat, end_bit as nat, w as nat)
                =~= before + mif_lines_from(self.bits@, (index - 8) as nat, end_bit as nat, w as nat));
        }
        push_str(&mut out, "END;");
        assert(out@ =~= mif_text(self.bits@, start_bit as nat, end_bit as nat));
        chars_to_string(&out)
    }

    /// An Intel HEX file for the bits `start_bit..end_bit`: data records of
    /// up to 32 bytes, each with its length, byte address, type `00`, data
    /// and checksum, then the end-of-file record.
    pub fn generate_intelhex(&self, start_bit: usize, end_bit: usize) -> (r: String)
        requires
            start_bit <= end_bit,
            end_bit + 8 <= usize::MAX,
        ensures
            r@ == ihex_records_from(self.bits@, start_bit as nat, end_bit as nat,
                byte_count(start_bit as nat, end_bit as nat)) + ":00000001FF"@,
    {
        let mut out: Vec<char> = Vec::new();
        let mut bytes_left = (end_bit - start_bit) / 8 + if (end_bit - start_bit) % 8 != 0 { 1 } else { 0 };
        let ghost k = start_bit + 8 * bytes_left;
        let mut index = start_bit;
        while index < end_bit
            invariant
                end_bit + 8 <= usize::MAX,
                end_bit <= k < end_bit + 8,
                index + 8 * bytes_left == k,
                out@ + ihex_records_from(self.bits@, index as nat, end_bit as nat, bytes_left as nat)
                    == ihex_records_from(self.bits@, start_bit as nat, end_bit as nat,
                        byte_count(start_bit as nat, end_bit as nat)),
            decreases if index < end_bit { end_bit - index } else { 0 },
        {
            let ghost before = out@;
            let ghost old_index = index;
            let ghost old_left = bytes_left;
            let bytes_in_row = if bytes_left > 32 { 32 } else { bytes_left };
            self.push_ihex_record(&mut out, index, bytes_in_row);
            let ghost rec = ihex_record(self.bits@, index as nat, bytes_in_row as nat);
            index = index + 8 * bytes_in_row;
            bytes_left = bytes_left - bytes_in_row;
            let ghost rest = ihex_records_from(self.bits@, index as nat, end_bit as nat, bytes_left as nat);
            assert(ihex_records_from(self.bits@, old_index as nat, end_bit as nat, old_left as nat) == rec + rest);
            assert(out@ + rest =~= before + (rec + rest));
        }
        push_str(&mut out, ":00000001FF");
        chars_to_string(&out)
    }

    /// The bytes of `start_bit..end_bit` separated by `, `, in decimal or
    /// as `0x` and two hexadecimal digits, with a line break after every
    /// sixteenth byte (counted from address zero).
    pub fn generate_comma(&self, start_bit: usize, end_bit: usize, radix: usize) -> (r: String)
        requires
            start_bit < end_bit ==> (radix == 10 || radix == 16),
            end_bit + 8 <= usize::MAX,
        ensures
            r@ == comma_from(self.bits@, start_bit as nat, end_bit as nat, radix as nat),
    {
        let mut out: Vec<char> = Vec::new();
        let mut index = start_bit;
        while index < end_bit
            invariant
                radix == 10 || radix == 16 || index >= end_bit,
                end_bit + 8 <= usize::MAX,
                out@ + comma_from(self.bits@, index as nat, end_bit as nat, radix as nat)
                    == comma_from(self.bits@, start_bit as nat, end_bit as nat, radix as nat),
            decreases if index < end_bit { end_bit - index } else { 0 },
        {
            let ghost before = out@;
            self.push_comma_entry(&mut out, index, end_bit, radix);
            index = index + 8;
            assert(out@ + comma_from(self.bits@, index as nat, end_bit as nat, radix as nat)
                =~= before + comma_from(self.bits@, (index - 8) as nat, end_bit as nat, radix as nat));
        }
        chars_to_string(&out)
    }

    /// Appends the byte at bit `index` in `radix`, then, unless it is the
    /// last before `end_bit`, its separator.
    fn push_comma_entry(&self, out: &mut Vec<char>, index: usize, end_bit: usize, radix: usize)
        requires
            radix == 10 || radix == 16,
            index < end_bit,
            end_bit + 8 <= usize::MAX,
        ensures
            final(out)@ + comma_from(self.bits@, (index + 8) as nat, end_bit as nat, radix as nat)
                == old(out)@ + comma_from(self.bits@, index as nat, end_bit as nat, radix as nat),
    {
        let ghost before = out@;
        let byte = self.read_window(index, 8);
        assert(vstd::arithmetic::power2::pow2(8) == 256) by {
            vstd::arithmetic::power2::lemma2_to64();
        }
        push_byte_text(out, radix, byte);
        let next = index + 8;
        if next < end_bit {
            push_str(out, ", ");
            if (next / 8) % 16 == 0 {
                push_str(out, "\n");
            }
        }
        assert(out@ + comma_from(self.bits@, next as nat, end_bit as nat, radix as nat)
            =~= before + comma_from(self.bits@, index as nat, end_bit as nat, radix as nat));
    }

    /// A C array declaration holding the bytes of `start_bit..end_bit`,
    /// sixteen per line, each line opened by its byte address.
    pub fn generate_c_array(&self, start_bit: usize, end_bit: usize, radix: usize) -> (r: String)
        requires
            start_bit < end_bit,
            radix == 10 || radix == 16,
            end_bit + 8 <= usize::MAX,
        ensures
            r@ == c_array_text(self.bits@, start_bit as nat, end_bit as nat, radix as nat),
    {
        let mut out: Vec<char> = Vec::new();
        push_str(&mut out, "const unsigned char data[] = {\n");
        let byte_num = (end_bit - start_bit) / 8 + if (end_bit - start_bit) % 8 != 0 { 1 } else { 0 };
        let w = radix_len((byte_num - 1) as u64, 16);
        push_str(&mut out, "\t/* 0x");
        push_radix_padded(&mut out, 0, 16, false, w, '0');
        push_str(&mut out, " */ ");
        let ghost head = out@;
        let mut index = start_bit;
        while index < end_bit
            invariant
                radix == 10 || radix == 16,
                end_bit + 8 <= usize::MAX,
                w == hex((byte_num - 1) as nat).len(),
                out@ + c_array_from(self.bits@, index as nat, end_bit as nat, radix as nat, w as nat)
                    == head + c_array_from(self.bits@, start_bit as nat, end_bit as nat, radix as nat, w as nat),
            decreases if index < end_bit { end_bit - index } else { 0 },
        {
            let ghost before = out@;
            let byte = self.read_window(index, 8);
            assert(vstd::arithmetic::power2::pow2(8) == 256) by {
                vstd::arithmetic::power2::lemma2_to64();
            }
            self.push_c_array_entry(&mut out, index, end_bit, radix, w, byte);
            let ghost rest = c_array_from(self.bits@, (index + 8) as nat, end_bit as nat, radix as nat, w as nat);
            let ghost entry = c_array_entry(self.bits@, index as nat, end_bit as nat, radix as nat, w as nat);
            assert(c_array_from(self.bits@, index as nat, end_bit as nat, radix as nat, w as nat) == entry + rest);
            index = index + 8;
            assert(out@ + rest =~= before + (entry + rest));
        }
        push_str(&mut out, "\n};");
        assert(out@ =~= c_array_text(self.bits@, start_bit as nat, end_bit as nat, radix as nat));
        chars_to_string(&out)
    }

    /// A Logisim memory image of the bits `start_bit..end_bit`, in chunks
    /// of `bits_per_chunk` bits.
    pub fn generate_logisim(&self, start_bit: usize, end_bit: usize, bits_per_chunk: usize) -> (r: String)
        requires
            bits_per_chunk >= 1,
            end_bit + bits_per_chunk <= usize::MAX,
        ensures
            r@ == "v2.0 raw\n"@ + logisim_from(self.bits@, start_bit as nat, end_bit as nat, bits_per_chunk as nat),
    {
        let mut out: Vec<char> = Vec::new();
        push_str(&mut out, "v2.0 raw\n");
        let ghost head = out@;
        let mut index = start_bit;
        while index < end_bit
            invariant
                bits_per_chunk >= 1,
                end_bit + bits_per_chunk <= usize::MAX,
                out@ + logisim_from(self.bits@, index as nat, end_bit as nat, bits_per_chunk as nat)
                    == head + logisim_from(self.bits@, start_bit as nat, end_bit as nat, bits_per_chunk as nat),
            decreases if index < end_bit { end_bit - index } else { 0 },
        {
            let ghost before = out@;
            let value = self.read_window_low16(index, bits_per_chunk);
            push_radix_padded(&mut out, value, 16, false, bits_per_chunk / 4, '0');
            push_str(&mut out, " ");
            index = index + bits_per_chunk;
            if (index / 8) % 16 == 0 {
                push_str(&mut out, "\n");
            }
            assert(out@ + logisim_from(self.bits@, index as nat, end_bit as nat, bits_per_chunk as nat)
                =~= before + logisim_from(self.bits@, (index - bits_per_chunk) as nat, end_bit as nat, bits_per_chunk as nat));
        }
        chars_to_string(&out)
    }

    /// Appends one C array entry for the byte at bit `index`.
    fn push_c_array_entry(&self, out: &mut Vec<char>, index: usize, end_bit: usize, radix: usize, w: usize, byte: u64)
        requires
            radix == 10 || radix == 16,
            index < end_bit,
            end_bit + 8 <= usize::MAX,
            byte == bits_window_value(self.bits@, index as int, 8),
        ensures
            final(out)@ == old(out)@ + c_array_entry(self.bits@, index as nat, end_bit as nat, radix as nat, w as nat),
    {
        push_byte_text(out, radix, byte);
        let next = index + 8;
        if next < end_bit {
            push_str(out, ", ");
            if (next / 8) % 16 == 0 {
                push_str(out, "\n\t/* 0x");
                push_radix_padded(out, (next / 8) as u64, 16, false, w, '0');
                push_str(out, " */ ");
            }
        }
        assert(out@ =~= old(out)@ + c_array_entry(self.bits@, index as nat, end_bit as nat, radix as nat, w as nat));
    }

    /// Appends the hexadecimal digits of the `n` bytes from bit `index` on,
    /// returning their sum.
    fn push_data_hex(&self, out: &mut Vec<char>, index: usize, n: usize) -> (sum: u64)
        requires
            n <= 32,
            index + 8 * n <= usize::MAX,
        ensures
            final(out)@ == old(out)@ + data_hex(self.bits@, index as nat, n as nat),
            sum == data_sum(self.bits@, index as nat, n as nat),
            sum <= 255 * n,
        decreases n,
    {
        if n == 0 {
            assert(out@ =~= old(out)@ + data_hex(self.bits@, index as nat, n as nat));
            return 0;
        }
        let byte = self.read_window(index, 8);
        assert(vstd::arithmetic::power2::pow2(8) == 256) by {
            vstd::arithmetic::power2::lemma2_to64();
        }
        push_radix_padded(out, byte, 16, true, 2, '0');
        let rest = self.push_data_hex(out, index + 8, n - 1);
        assert(out@ =~= old(out)@ + data_hex(self.bits@, index as nat, n as nat));
        byte + rest
    }

    /// Appends one Intel HEX data record for the `n` bytes from bit `index` on.
    fn push_ihex_record(&self, out: &mut Vec<char>, index: usize, n: usize)
        requires
            n <= 32,
            index + 8 * n <= usize::MAX,
        ensures
            final(out)@ == old(out)@ + ihex_record(self.bits@, index as nat, n as nat),
    {
        let addr = index / 8;
        push_str(out, ":");
        push_radix_padded(out, n as u64, 16, true, 2, '0');
        push_radix_padded(out, addr as u64, 16, true, 4, '0');
        push_str(out, "00");
        let data = self.push_data_hex(out, index, n);
        let sum: u64 = (n as u64) + ((addr as u64 / 256) % 256) + ((addr as u64) % 256) + data;
        let checksum = (256 - sum % 256) % 256;
        push_radix_padded(out, checksum, 16, true, 2, '0');
        push_str(out, "\n");
        reveal(ihex_record);
        assert(out@ =~= old(out)@ + ihex_record(self.bits@, index as nat, n as nat));
    }

    /// Binary dump of the bits `start_bit..end_bit`: eight bytes per line.
    pub fn generate_bindump(&self, start_bit: usize, end_bit: usize) -> (r: String)
        requires
            start_bit <= end_bit,
            end_bit + 7 * 8 <= usize::MAX,
            dump_end_line(start_bit as nat, end_bit as nat, 8, 8) * 64 <= usize::MAX + 1,
        ensures
            r@ == dump_text(self.bits@, 1, start_bit as nat, end_bit as nat, 8, 8),
    {
        proof { lemma_dump_line_bounds(start_bit as nat, end_bit as nat, 8, 8); }
        self.generate_dump(1, start_bit, end_bit, 8, 8)
    }

    /// Hexadecimal dump of the bits `start_bit..end_bit`: sixteen bytes per line.
    pub fn generate_hexdump(&self, start_bit: usize, end_bit: usize) -> (r: String)
        requires
            start_bit <= end_bit,
            end_bit + 15 * 8 <= usize::MAX,
            dump_end_line(start_bit as nat, end_bit as nat, 8, 16) * 128 <= usize::MAX + 4,
        ensures
            r@ == dump_text(self.bits@, 4, start_bit as nat, end_bit as nat, 8, 16),
    {
        proof { lemma_dump_line_bounds(start_bit as nat, end_bit as nat, 8, 16); }
        self.generate_dump(4, start_bit, end_bit, 8, 16)
    }

    /// A dump of the lines covering bits `start_bit..end_bit`, in bytes of
    /// `byte_bits` bits written as digits of `digit_bits` bits,
    /// `bytes_per_line` bytes per line, each line led by its address and,
    /// for 8-bit bytes, followed by the bytes as characters.
    pub fn generate_dump(
        &self,
        digit_bits: usize,
        start_bit: usize,
        end_bit: usize,
        byte_bits: usize,
        bytes_per_line: usize,
    ) -> (r: String)
        requires
            1 <= digit_bits <= 7,
            byte_bits >= 1,
            bytes_per_line >= 1,
            start_bit <= end_bit,
            byte_bits * bytes_per_line <= usize::MAX,
            end_bit + (bytes_per_line - 1) * byte_bits <= usize::MAX,
            dump_end_line(start_bit as nat, end_bit as nat, byte_bits as nat, bytes_per_line as nat) <= usize::MAX,
            (dump_end_line(start_bit as nat, end_bit as nat, byte_bits as nat, bytes_per_line as nat) - 1)
                * bytes_per_line <= usize::MAX,
            digit_bits <= byte_bits ==> dump_end_line(start_bit as nat, end_bit as nat, byte_bits as nat, bytes_per_line as nat)
                * (byte_bits * bytes_per_line) <= usize::MAX + digit_bits,
        ensures
            r@ == dump_text(self.bits@, digit_bits as nat, start_bit as nat, end_bit as nat,
                byte_bits as nat, bytes_per_line as nat),
    {
        let mut out: Vec<char> = Vec::new();
        let line_bits = byte_bits * bytes_per_line;
        assert(line_bits >= byte_bits && line_bits >= bytes_per_line) by (nonlinear_arith)
            requires line_bits == byte_bits * bytes_per_line, byte_bits >= 1, bytes_per_line >= 1;
        assert((bytes_per_line - 1) * byte_bits == line_bits - byte_bits) by (nonlinear_arith)
            requires line_bits == byte_bits * bytes_per_line;
        let line_start = start_bit / line_bits;
        proof {
            lemma_dump_line_bounds(start_bit as nat, end_bit as nat, byte_bits as nat, bytes_per_line as nat);
        }
        let line_end = if end_bit - start_bit < byte_bits {
            line_start + 1
        } else {
            (end_bit + (bytes_per_line - 1) * byte_bits) / line_bits
        };
        proof {
            lemma_dump_line_bounds(start_bit as nat, end_bit as nat, byte_bits as nat, bytes_per_line as nat);
        }
        let w = radix_len(((line_end - 1) * bytes_per_line) as u64, 16);
        let mut line = line_start;
        while line < line_end
            invariant
                1 <= digit_bits <= 7,
                byte_bits >= 1,
                bytes_per_line >= 1,
                line_bits == byte_bits * bytes_per_line,
                line_end <= usize::MAX,
                (line_end - 1) * bytes_per_line <= usize::MAX,
                digit_bits <= byte_bits ==> line_end * line_bits <= usize::MAX + digit_bits,
                line_start <= line <= line_end,
                line_start == dump_first_line(start_bit as nat, byte_bits as nat, bytes_per_line as nat),
                line_end == dump_end_line(start_bit as nat, end_bit as nat, byte_bits as nat, bytes_per_line as nat),
                w == hex(((line_end - 1) * bytes_per_line) as nat).len(),
                out@ + dump_lines(self.bits@, line as nat, line_end as nat, digit_bits as nat,
                    byte_bits as nat, bytes_per_line as nat, w as nat)
                    == dump_text(self.bits@, digit_bits as nat, start_bit as nat, end_bit as nat,
                        byte_bits as nat, bytes_per_line as nat),
            decreases line_end - line,
        {
            let ghost before = out@;
            assert((line + 1) * line_bits <= line_end * line_bits) by (nonlinear_arith)
                requires line < line_end;
            assert(line * bytes_per_line <= (line_end - 1) * bytes_per_line) by (nonlinear_arith)
                requires line < line_end;
            self.push_dump_line(&mut out, line, digit_bits, byte_bits, bytes_per_line, w);
            let ghost piece = dump_line(self.bits@, line as nat, digit_bits as nat, byte_bits as nat,
                bytes_per_line as nat, w as nat);
            let ghost rest = dump_lines(self.bits@, (line + 1) as nat, line_end as nat, digit_bits as nat,
                byte_bits as nat, bytes_per_line as nat, w as nat);
            line = line + 1;
            assert(out@ + rest =~= before + (piece + rest));
        }
        chars_to_string(&out)
    }

    /// Appends dump line `line`.
    fn push_dump_line(&self, out: &mut Vec<char>, line: usize, db: usize, bb: usize, bpl: usize, w: usize)
        requires
            1 <= db <= 7,
            bb >= 1,
            bpl >= 1,
            bb * bpl <= usize::MAX,
            line * bpl <= usize::MAX,
            db <= bb ==> (line + 1) * (bb * bpl) <= usize::MAX + db,
        ensures
            final(out)@ == old(out)@ + dump_line(self.bits@, line as nat, db as nat, bb as nat, bpl as nat, w as nat),
    {
        assert(line * bpl <= line * (bb * bpl)) by (nonlinear_arith)
            requires bb >= 1;
        assert((line + 1) * bpl <= (line + 1) * (bb * bpl)) by (nonlinear_arith)
            requires bb >= 1;
        assert(line * bpl + bpl == (line + 1) * bpl) by (nonlinear_arith);
        let first_byte = line * bpl;
        push_str(out, " ");
        push_radix_padded(out, first_byte as u64, 16, false, w, '0');
        push_str(out, " | ");
        let ghost head = out@;
        let mut k: usize = 0;
        assert(out@ =~= head + dump_hex_part(self.bits@, line as nat, db as nat, bb as nat, bpl as nat, 0));
        while k < bpl
            invariant
                1 <= db <= 7,
                bb >= 1,
                first_byte == line * bpl,
                first_byte + bpl == (line + 1) * bpl,
                db <= bb ==> (line + 1) * (bb * bpl) <= usize::MAX + db,
                k <= bpl,
                out@ == head + dump_hex_part(self.bits@, line as nat, db as nat, bb as nat, bpl as nat, k as nat),
            decreases bpl - k,
        {
            let ghost before = out@;
            assert((bb / db) * db <= bb) by (nonlinear_arith)
                requires db >= 1;
            let count = bb / db;
            if count > 0 {
                assert(count * db >= db) by (nonlinear_arith)
                    requires count >= 1, db >= 1;
                assert(db <= bb);
                assert((count - 1) * db == count * db - db) by (nonlinear_arith);
                assert((first_byte + k) * bb + bb <= (line + 1) * (bb * bpl)) by (nonlinear_arith)
                    requires first_byte == line * bpl, k < bpl;
                assert(first_byte + k <= (first_byte + k) * bb) by (nonlinear_arith)
                    requires bb >= 1;
                let byte_no = first_byte + k;
                let first = byte_no * bb;
                self.push_dump_byte_digits(out, first, db, count);
            } else {
                assert(dump_byte_digits(self.bits@, ((line * bpl + k) * bb) as nat, db as nat, 0) =~= Seq::<char>::empty());
            }
            push_str(out, " ");
            if k % 4 == 3 && k < bpl - 1 {
                push_str(out, " ");
            }
            k = k + 1;
            assert(out@ =~= head + dump_hex_part(self.bits@, line as nat, db as nat, bb as nat, bpl as nat, k as nat));
        }
        push_str(out, "| ");
        if bb == 8 {
            let ghost mid = out@;
            let mut k: usize = 0;
            while k < bpl
                invariant
                    bb == 8,
                    first_byte == line * bpl,
                    first_byte + bpl == (line + 1) * bpl,
                    (line + 1) * (bb * bpl) <= usize::MAX + db,
                    db <= 7,
                    k <= bpl,
                    out@ =~= mid + Seq::new(k as nat, |j: int| dump_ascii_char(self.bits@, ((line * bpl + j) * 8) as nat)),
                decreases bpl - k,
            {
                assert((first_byte + k) * 8 + 8 <= (line + 1) * (bb * bpl)) by (nonlinear_arith)
                    requires first_byte == line * bpl, k < bpl, bb == 8;
                let byte_no = first_byte + k;
                let c = self.dump_ascii(byte_no * 8);
                out.push(c);
                k = k + 1;
            }
            push_str(out, " |");
        }
        push_str(out, "\n");
        assert(out@ =~= old(out)@ + dump_line(self.bits@, line as nat, db as nat, bb as nat, bpl as nat, w as nat));
    }

    /// Appends the `count` digits of one dumped byte starting at bit `first`.
    fn push_dump_byte_digits(&self, out: &mut Vec<char>, first: usize, db: usize, count: usize)
        requires
            1 <= db <= 7,
            count >= 1 ==> first + (count - 1) * db <= usize::MAX,
        ensures
            final(out)@ == old(out)@ + dump_byte_digits(self.bits@, first as nat, db as nat, count as nat),
    {
        let ghost head = out@;
        let mut k: usize = 0;
        while k < count
            invariant
                1 <= db <= 7,
                count >= 1 ==> first + (count - 1) * db <= usize::MAX,
                k <= count,
                out@ =~= head + dump_byte_digits(self.bits@, first as nat, db as nat, k as nat),
            decreases count - k,
        {
            assert(k * db <= (count - 1) * db) by (nonlinear_arith)
                requires k < count;
            let d = first + k * db;
            if d >= self.bits.len() {
                out.push('.');
            } else {
                let digit = self.read_window(d, db);
                assert(vstd::arithmetic::power2::pow2(db as nat) <= 128) by {
                    vstd::arithmetic::power2::lemma2_to64();
                }
                let c = digit_to_char(digit, false);
                out.push(c);
            }
            k = k + 1;
        }
    }

    /// The character column entry for the byte at bit `first`.
    fn dump_ascii(&self, first: usize) -> (c: char)
        ensures
            c == dump_ascii_char(self.bits@, first as nat),
    {
        if first >= self.bits.len() {
            return '.';
        }
        let v = self.read_window(first, 8);
        assert(vstd::arithmetic::power2::pow2(8) == 256) by {
            vstd::arithmetic::power2::lemma2_to64();
        }
        if v == 32 || v == 9 || v == 13 || v == 10 {
            ' '
        } else if v >= 0x80 || v < 32 || v == 124 {
            '.'
        } else {
            (v as u8) as char
        }
    }
}

/// A named bank of output.
pub struct Bank {
    pub bank_name: String,
    pub bits: BinaryBlock,
}

impl Bank {
    /// An empty bank named `bank_name`.
    pub fn new(bank_name: &str) -> (r: Bank)
        ensures
            r.bank_name@ == bank_name@,
            r.bits.bits@ == Seq::<bool>::empty(),
            r.bits.spans@ == Seq::<BitRangeSpan>::empty(),
    {
        Bank { bank_name: String::from_str(bank_name), bits: BinaryBlock::new() }
    }
}

/// In every Intel HEX data record, the length, the two address bytes,
/// the data bytes and the checksum add up to a multiple of 256.
pub proof fn law_ihex_record_sums_to_zero(b: Seq<bool>, index: nat, addr: nat, n: nat)
    ensures
        (n + (addr / 256) % 256 + addr % 256 + data_sum(b, index, n) + ihex_checksum(b, index, addr, n)) % 256 == 0,
{
    let s: int = (n + (addr / 256) % 256 + addr % 256 + data_sum(b, index, n)) as int;
    let c = ihex_checksum(b, index, addr, n);
    let q = s / 256;
    let r = s % 256;
    vstd::arithmetic::div_mod::lemma_fundamental_div_mod(s, 256);
    assert(s == 256 * q + r);
    if r == 0 {
        assert(c == 0);
        vstd::arithmetic::div_mod::lemma_mod_multiples_basic(q, 256);
        assert(q * 256 == 256 * q) by (nonlinear_arith);
    } else {
        assert(c == 256 - r);
        assert(s + c == (q + 1) * 256) by (nonlinear_arith)
            requires
                s == 256 * q + r,
                c == 256 - r,
        ;
        vstd::arithmetic::div_mod::lemma_mod_multiples_basic(q + 1, 256);
    }
}

/// `16` to the power `k`.
pub open spec fn pow16(k: nat) -> nat
    decreases k,
{
    if k == 0 {
        1
    } else {
        16 * pow16((k - 1) as nat)
    }
}

/// The upper-case hexadecimal digits of `v` read back as `v`.
proof fn lemma_hex_upper_reads_back(v: nat)
    ensures
        hex_digits_value(hex_upper(v)) == Some(v),
    decreases v,
{
    if v < 16 {
        let s = hex_upper(v);
        assert(s == seq![digit_char(v, true)]);
        assert(s.drop_last() =~= Seq::<char>::empty());
        assert(hex_digits_value(Seq::<char>::empty()) == Some(0nat));
        assert(s.last() == digit_char(v, true));
        assert(hex_digit_value(digit_char(v, true)) == Some(v));
    } else {
        lemma_hex_upper_reads_back(v / 16);
        let s = hex_upper(v);
        assert(s == hex_upper(v / 16).push(digit_char(v % 16, true)));
        assert(s.drop_last() =~= hex_upper(v / 16));
        assert(hex_digit_value(digit_char(v % 16, true)) == Some(v % 16));
        assert(s.last() == digit_char(v % 16, true));
        assert(16 * (v / 16) + v % 16 == v);
    }
}

/// Below `16^k`, a number has at most `k` hexadecimal digits.
proof fn lemma_hex_upper_len(v: nat, k: nat)
    requires
        k >= 1,
        v < pow16(k),
    ensures
        1 <= hex_upper(v).len() <= k,
    decreases v,
{
    if v >= 16 {
        assert(k >= 2) by {
            if k == 1 {
                assert(pow16(1) == 16 * pow16(0));
            }
        }
        assert(v / 16 < pow16((k - 1) as nat)) by {
            assert(pow16(k) == 16 * pow16((k - 1) as nat));
        }
        lemma_hex_upper_len(v / 16, (k - 1) as nat);
    }
}

/// Leading zeros do not change what hexadecimal digits are read as.
proof fn lemma_hex_leading_zeros(z: Seq<char>, s: Seq<char>)
    requires
        forall|i: int| 0 <= i < z.len() ==> z[i] == '0',
    ensures
        hex_digits_value(z + s) == hex_digits_value(s),
    decreases s.len(),
{
    if s.len() == 0 {
        lemma_hex_zeros(z);
        assert(z + s =~= z);
    } else {
        lemma_hex_leading_zeros(z, s.drop_last());
        assert((z + s).drop_last() =~= z + s.drop_last());
        assert((z + s).last() == s.last());
    }
}

/// Zeros are read as zero.
proof fn lemma_hex_zeros(z: Seq<char>)
    requires
        forall|i: int| 0 <= i < z.len() ==> z[i] == '0',
    ensures
        hex_digits_value(z) == Some(0nat),
    decreases z.len(),
{
    if z.len() > 0 {
        lemma_hex_zeros(z.drop_last());
        assert(z.last() == '0');
    }
}

/// A number below `16^w`, zero-padded to `w` digits, has `w` digits and
/// reads back as itself.
proof fn lemma_padded_hex(v: nat, w: nat)
    requires
        w >= 1,
        v < pow16(w),
    ensures
        pad_left(hex_upper(v), w, '0').len() == w,
        hex_digits_value(pad_left(hex_upper(v), w, '0')) == Some(v),
{
    lemma_hex_upper_len(v, w);
    lemma_hex_upper_reads_back(v);
    let h = hex_upper(v);
    if h.len() < w {
        let z = Seq::new((w - h.len()) as nat, |_i: int| '0');
        lemma_hex_leading_zeros(z, h);
    }
}

/// The data field of `n` bytes from bit `index`: two digits per byte,
/// each pair read back as its byte.
proof fn lemma_data_hex_fields(b: Seq<bool>, index: nat, n: nat)
    ensures
        data_hex(b, index, n).len() == 2 * n,
        forall|k: int| 0 <= k < n ==> hex_digits_value(#[trigger] data_hex(b, index, n).subrange(2 * k, 2 * k + 2))
            == Some(bits_window_value(b, index + 8 * k, 8)),
    decreases n,
{
    if n > 0 {
        lemma_data_hex_fields(b, index + 8, (n - 1) as nat);
        let v = bits_window_value(b, index as int, 8);
        crate::bitvec::lemma_window_bound(b, index as int, 8);
        vstd::arithmetic::power2::lemma2_to64();
        reveal_with_fuel(pow16, 3);
        lemma_padded_hex(v, 2);
        let d = data_hex(b, index, n);
        let rest = data_hex(b, index + 8, (n - 1) as nat);
        assert(d == hex2(v) + rest);
        assert forall|k: int| 0 <= k < n implies hex_digits_value(#[trigger] d.subrange(2 * k, 2 * k + 2))
            == Some(bits_window_value(b, index + 8 * k, 8)) by {
            if k == 0 {
                assert(d.subrange(0, 2) =~= hex2(v));
            } else {
                assert(d.subrange(2 * k, 2 * k + 2) =~= rest.subrange(2 * (k - 1), 2 * (k - 1) + 2));
                assert(index + 8 + 8 * (k - 1) == index + 8 * k);
            }
        }
    }
}

/// The fields of an Intel HEX data record, read as hexadecimal numbers:
/// after the `:`, the number of data bytes; the byte address of the first
/// of them (the record's bit position over eight); the record type `00`;
/// each data byte in turn; and a checksum that makes the low byte of the
/// sum of the count, the two address bytes, the data bytes and itself
/// zero. It holds wherever the count fits in a byte and the address in
/// sixteen bits.
pub proof fn law_ihex_record_fields(b: Seq<bool>, index: nat, n: nat)
    requires
        n < 256,
        index / 8 < 0x10000,
    ensures
        ({
            let r = ihex_record(b, index, n);
            &&& r.len() == 12 + 2 * n
            &&& r[0] == ':'
            &&& hex_digits_value(r.subrange(1, 3)) == Some(n)
            &&& hex_digits_value(r.subrange(3, 7)) == Some(index / 8)
            &&& r.subrange(7, 9) == "00"@
            &&& forall|k: int| 0 <= k < n ==> hex_digits_value(#[trigger] r.subrange(9 + 2 * k, 11 + 2 * k))
                == Some(bits_window_value(b, index + 8 * k, 8))
            &&& hex_digits_value(r.subrange(9 + 2 * n as int, 11 + 2 * n as int)) matches Some(c)
                && (n + ((index / 8) / 256) % 256 + (index / 8) % 256 + data_sum(b, index, n) + c) % 256 == 0
            &&& r[11 + 2 * n as int] == '\n'
        }),
{
    reveal(ihex_record);
    reveal_with_fuel(pow16, 5);
    reveal_strlit(":");
    reveal_strlit("00");
    reveal_strlit("\n");
    let addr = index / 8;
    let c = ihex_checksum(b, index, addr, n);
    lemma_padded_hex(n, 2);
    lemma_padded_hex(addr, 4);
    lemma_padded_hex(c, 2);
    lemma_data_hex_fields(b, index, n);
    law_ihex_record_sums_to_zero(b, index, addr, n);
    let h1 = hex2(n);
    let h2 = pad_left(hex_upper(addr), 4, '0');
    let d = data_hex(b, index, n);
    let h3 = hex2(c);
    let r = ihex_record(b, index, n);
    assert(r == ":"@ + h1 + h2 + "00"@ + d + h3 + "\n"@);
    assert(r.subrange(1, 3) =~= h1);
    assert(r.subrange(3, 7) =~= h2);
    assert(r.subrange(7, 9) =~= "00"@);
    assert forall|k: int| 0 <= k < n implies hex_digits_value(#[trigger] r.subrange(9 + 2 * k, 11 + 2 * k))
        == Some(bits_window_value(b, index + 8 * k, 8)) by {
        assert(r.subrange(9 + 2 * k, 11 + 2 * k) =~= d.subrange(2 * k, 2 * k + 2));
    }
    assert(r.subrange(9 + 2 * n as int, 11 + 2 * n as int) =~= h3);
}

} // verus!
