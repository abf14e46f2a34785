//! A growable sequence of bits, most significant bit first, with parsing
//! from binary, decimal and hexadecimal literals.
use vstd::prelude::*;
use vstd::arithmetic::power2::{lemma2_to64, lemma_pow2_unfold, pow2};
use crate::text::{
    chars_to_string, dec, hex, hex_digit, hex_digit_value, pad_left, parse_unsigned,
    parse_unsigned_chars, push_radix, push_radix_padded, push_str, str_chars,
};

verus! {

/// The bit at `i`, or `false` past the end.
pub open spec fn bit_at(b: Seq<bool>, i: int) -> bool {
    if 0 <= i < b.len() {
        b[i]
    } else {
        false
    }
}

/// The unsigned number that `b` spells, most significant bit first.
pub open spec fn bits_value(b: Seq<bool>) -> nat
    decreases b.len(),
{
    if b.len() == 0 {
        0
    } else {
        2 * bits_value(b.drop_last()) + (if b.last() { 1nat } else { 0nat })
    }
}

/// The shortest bit sequence spelling `v`: empty for zero, otherwise
/// starting with a set bit.
pub open spec fn nat_bits(v: nat) -> Seq<bool>
    decreases v,
{
    if v == 0 {
        Seq::empty()
    } else {
        nat_bits(v / 2).push(v % 2 == 1)
    }
}

/// `b` without leading zeros, keeping at least one bit.
pub open spec fn trim_bits(b: Seq<bool>) -> Seq<bool>
    decreases b.len(),
{
    if b.len() > 1 && !b[0] {
        trim_bits(b.drop_first())
    } else {
        b
    }
}

/// `b` widened with leading zeros to at least `n` bits.
pub open spec fn zero_extend_bits(b: Seq<bool>, n: nat) -> Seq<bool> {
    if b.len() >= n {
        b
    } else {
        Seq::new((n - b.len()) as nat, |_i: int| false) + b
    }
}

/// `b` with bit `i` set to `v`, after growing it with zeros to reach `i`.
pub open spec fn set_bit_bits(b: Seq<bool>, i: nat, v: bool) -> Seq<bool> {
    Seq::new(
        if b.len() > i { b.len() } else { i + 1 },
        |j: int| if j == i { v } else { bit_at(b, j) },
    )
}

/// `b` with the bits of `o` written from position `index` on, after
/// growing it with zeros as far as they reach.
pub open spec fn set_range_bits(b: Seq<bool>, index: nat, o: Seq<bool>) -> Seq<bool> {
    Seq::new(
        if o.len() == 0 || b.len() >= index + o.len() { b.len() } else { index + o.len() },
        |j: int| if index <= j < index + o.len() { o[j - index] } else { bit_at(b, j) },
    )
}

/// The bits between `left` and `right` (in either order), reading zeros
/// past the end.
pub open spec fn extract_bits(b: Seq<bool>, left: nat, right: nat) -> Seq<bool> {
    let lo = if left < right { left } else { right };
    let hi = if left < right { right } else { left };
    Seq::new((hi - lo) as nat, |k: int| bit_at(b, lo + k))
}

/// The value of the `k` bits starting at `base`, reading zeros past the end.
pub open spec fn bits_window_value(b: Seq<bool>, base: int, k: nat) -> nat
    decreases k,
{
    if k == 0 {
        0
    } else {
        2 * bits_window_value(b, base, (k - 1) as nat) + (if bit_at(b, base + k - 1) { 1nat } else { 0nat })
    }
}

/// Byte `i` of `b`: bits `8i` to `8i + 7`, the first one most significant.
pub open spec fn byte_at(b: Seq<bool>, i: nat) -> nat {
    bits_window_value(b, (8 * i) as int, 8)
}

/// The four bits of the hexadecimal digit value `d`, most significant first.
pub open spec fn nibble_bits(d: nat) -> Seq<bool> {
    seq![d >= 8, d % 8 >= 4, d % 4 >= 2, d % 2 == 1]
}

/// Whether every character of `s` is a hexadecimal digit.
pub open spec fn all_hex_digits(s: Seq<char>) -> bool {
    forall|i: int| 0 <= i < s.len() ==> #[trigger] hex_digit_value(s[i]) is Some
}

/// The bits of the hexadecimal digits `s`, four per digit.
pub open spec fn hex_chars_bits(s: Seq<char>) -> Seq<bool>
    decreases s.len(),
{
    if s.len() == 0 {
        Seq::empty()
    } else {
        hex_chars_bits(s.drop_last()) + nibble_bits(hex_digit_value(s.last()).unwrap())
    }
}

/// The bits of the binary digits `s`: a bit is set exactly where the
/// character is `1`.
pub open spec fn bin_chars_bits(s: Seq<char>) -> Seq<bool> {
    Seq::new(s.len(), |i: int| s[i] == '1')
}

/// The bits a literal in base `radix` (2, 10 or 16) stands for, without
/// leading zeros; `None` where a decimal literal is not a 64-bit number.
pub open spec fn literal_bits(radix: nat, s: Seq<char>) -> Option<Seq<bool>> {
    if radix == 10 {
        match parse_unsigned(s, u64::MAX as nat) {
            Some(v) => Some(trim_bits(nat_bits(v))),
            None => None,
        }
    } else if radix == 16 {
        Some(trim_bits(hex_chars_bits(s)))
    } else {
        Some(trim_bits(bin_chars_bits(s)))
    }
}

/// The message for a decimal literal that is not a 64-bit number.
pub open spec fn too_large_message(s: Seq<char>) -> Seq<char> {
    "decimal value `"@ + s + "` is too large"@
}

/// The message for a literal wider than the size asked for.
pub open spec fn does_not_fit_message(s: Seq<char>, bit_num: nat) -> Seq<char> {
    "value `"@ + s + "` does not fit given size of `"@ + dec(bit_num) + "`"@
}

/// The number of bits a literal in base `radix` is taken to need.
pub open spec fn literal_min_bit_length(radix: nat, s: Seq<char>) -> Option<nat> {
    if radix == 10 {
        match parse_unsigned(s, u64::MAX as nat) {
            Some(v) => Some(nat_bits(v).len()),
            None => None,
        }
    } else if radix == 16 {
        Some(4 * s.len())
    } else {
        Some(s.len())
    }
}

/// The hex dump entry of byte `i`: an address label at the start of every
/// line of sixteen bytes, the byte itself, and a line break after the
/// sixteenth.
pub open spec fn hex_dump_entry(b: Seq<bool>, i: nat) -> Seq<char> {
    (if i % 16 == 0 { "0x"@ + pad_left(hex(i), 4, '0') + ": "@ } else { Seq::empty() })
        + "0x"@ + pad_left(hex(byte_at(b, i)), 2, '0') + " "@
        + (if (i + 1) % 16 == 0 { "\n"@ } else { Seq::empty() })
}

/// The hex dump entries of the first `n` bytes.
pub open spec fn hex_dump_prefix(b: Seq<bool>, n: nat) -> Seq<char>
    decreases n,
{
    if n == 0 {
        Seq::empty()
    } else {
        hex_dump_prefix(b, (n - 1) as nat) + hex_dump_entry(b, (n - 1) as nat)
    }
}

/// A sequence of bits.
#[derive(Clone)]
pub struct BitVec {
    bits: Vec<bool>,
}

impl View for BitVec {
    type V = Seq<bool>;

    closed spec fn view(&self) -> Seq<bool> {
        self.bits@
    }
}

impl BitVec {
    /// An empty bit sequence.
    pub fn new() -> (r: BitVec)
        ensures
            r@ == Seq::<bool>::empty(),
    {
        BitVec { bits: Vec::new() }
    }

    /// The bit sequence `bits`.
    pub fn new_from_vec(bits: Vec<bool>) -> (r: BitVec)
        ensures
            r@ == bits@,
    {
        BitVec { bits: bits }
    }

    /// The shortest bit sequence spelling `value` (empty for zero).
    pub fn new_from_usize(value: usize) -> (r: BitVec)
        ensures
            r@ == nat_bits(value as nat),
            bits_value(r@) == value,
    {
        let mut bitvec = BitVec::new();
        let mut value = value;
        let ghost orig = value as nat;
        while value != 0
            invariant
                nat_bits(orig) == nat_bits(value as nat) + bitvec@,
            decreases value,
        {
            let b = value & 1 != 0;
            assert((value & 1 != 0) == (value % 2 == 1)) by (bit_vector);
            assert(value >> 1 == value / 2) by (bit_vector);
            bitvec.insert_bit(0, b);
            value = value >> 1;
            assert(nat_bits(orig) =~= nat_bits(value as nat) + bitvec@);
        }
        assert(bitvec@ =~= nat_bits(orig));
        proof { lemma_nat_bits_value(orig); }
        bitvec
    }

    /// Number of bits.
    pub fn len(&self) -> (r: usize)
        ensures
            r == self@.len(),
    {
        self.bits.len()
    }

    /// The bits, in order.
    pub fn get_vec(&self) -> (r: &Vec<bool>)
        ensures
            r@ == self@,
    {
        &self.bits
    }

    /// The bit at `index`, or `false` past the end.
    pub fn get_bit(&self, index: usize) -> (r: bool)
        ensures
            r == bit_at(self@, index as int),
    {
        if index >= self.bits.len() {
            false
        } else {
            self.bits[index]
        }
    }

    /// The bits between `left` and `right`, whichever is smaller first,
    /// reading zeros past the end.
    pub fn extract(&self, left: usize, right: usize) -> (r: BitVec)
        ensures
            r@ == extract_bits(self@, left as nat, right as nat),
    {
        let mut result = BitVec::new();
        let lo = if left < right { left } else { right };
        let hi = if left < right { right } else { left };
        let mut i = lo;
        while i < hi
            invariant
                lo <= i <= hi,
                result@ =~= Seq::new((i - lo) as nat, |k: int| bit_at(self@, lo + k)),
            decreases hi - i,
        {
            let b = self.get_bit(i);
            result.push_bit(b);
            i = i + 1;
        }
        result
    }

    /// Sets bit `index` to `value`, growing the sequence with zeros first
    /// where it is too short.
    pub fn set_bit(&mut self, index: usize, value: bool)
        requires
            index < usize::MAX,
        ensures
            final(self)@ == set_bit_bits(old(self)@, index as nat, value),
    {
        let ghost start = self@;
        while self.bits.len() <= index
            invariant
                index < usize::MAX,
                start.len() <= self@.len() <= (if start.len() > index { start.len() } else { (index + 1) as nat }),
                forall|j: int| 0 <= j < self@.len() ==> self@[j] == bit_at(start, j),
            decreases index + 1 - self.bits.len(),
        {
            self.bits.push(false);
        }
        self.bits.set(index, value);
        assert(self@ =~= set_bit_bits(start, index as nat, value));
    }

    /// Appends one bit.
    pub fn push_bit(&mut self, value: bool)
        ensures
            final(self)@ == old(self)@.push(value),
    {
        self.bits.push(value);
    }

    /// Inserts one bit at `index`, shifting the later bits up.
    pub fn insert_bit(&mut self, index: usize, value: bool)
        requires
            index <= old(self)@.len(),
        ensures
            final(self)@ == old(self)@.insert(index as int, value),
    {
        self.bits.insert(index, value);
    }

    /// Removes the bit at `index`, shifting the later bits down.
    pub fn remove_bit(&mut self, index: usize)
        requires
            index < old(self)@.len(),
        ensures
            final(self)@ == old(self)@.remove(index as int),
    {
        self.bits.remove(index);
    }

    /// Drops leading zeros, keeping at least one bit.
    pub fn trim(&mut self)
        ensures
            final(self)@ == trim_bits(old(self)@),
    {
        let ghost start = self@;
        while self.len() > 1 && !self.get_bit(0)
            invariant
                trim_bits(start) == trim_bits(self@),
            decreases self@.len(),
        {
            assert(self@.remove(0) =~= self@.drop_first());
            self.remove_bit(0);
        }
    }

    /// Widens the sequence with leading zeros to at least `final_bit_num` bits.
    pub fn zero_extend(&mut self, final_bit_num: usize)
        ensures
            final(self)@ == zero_extend_bits(old(self)@, final_bit_num as nat),
    {
        let ghost start = self@;
        while self.bits.len() < final_bit_num
            invariant
                start.len() <= self@.len(),
                self@.len() <= (if start.len() >= final_bit_num { start.len() } else { final_bit_num as nat }),
                self@ =~= Seq::new((self@.len() - start.len()) as nat, |_i: int| false) + start,
            decreases final_bit_num - self.bits.len(),
        {
            self.bits.insert(0, false);
            assert(self@ =~= Seq::new((self@.len() - start.len()) as nat, |_i: int| false) + start);
        }
    }

    /// Writes the bits of `other` from position `index` on, growing the
    /// sequence with zeros as far as they reach.
    pub fn set(&mut self, index: usize, other: &BitVec)
        requires
            index + other@.len() <= usize::MAX,
        ensures
            final(self)@ == set_range_bits(old(self)@, index as nat, other@),
    {
        let ghost start = self@;
        let n = other.len();
        let mut i: usize = 0;
        assert(self@ =~= set_range_bits(start, index as nat, other@.take(0)));
        while i < n
            invariant
                n == other@.len(),
                i <= n,
                index + n <= usize::MAX,
                self@ =~= set_range_bits(start, index as nat, other@.take(i as int)),
            decreases n - i,
        {
            let b = other.get_bit(i);
            self.set_bit(index + i, b);
            i = i + 1;
            assert(self@ =~= set_range_bits(start, index as nat, other@.take(i as int)));
        }
        assert(other@.take(n as int) =~= other@);
    }

    /// Appends the bits of `other`.
    pub fn push(&mut self, other: &BitVec)
        ensures
            final(self)@ == old(self)@ + other@,
    {
        let ghost start = self@;
        let n = other.len();
        let mut i: usize = 0;
        while i < n
            invariant
                n == other@.len(),
                i <= n,
                self@ =~= start + other@.take(i as int),
            decreases n - i,
        {
            let b = other.get_bit(i);
            self.push_bit(b);
            i = i + 1;
            assert(self@ =~= start + other@.take(i as int));
        }
        assert(other@.take(n as int) =~= other@);
    }

    /// The shortest bit sequence spelling the 64-bit `value`.
    fn from_u64(value: u64) -> (r: BitVec)
        ensures
            r@ == nat_bits(value as nat),
    {
        let mut bitvec = BitVec::new();
        let mut value = value;
        let ghost orig = value as nat;
        while value != 0
            invariant
                nat_bits(orig) == nat_bits(value as nat) + bitvec@,
            decreases value,
        {
            let b = value & 1 != 0;
            assert((value & 1 != 0) == (value % 2 == 1)) by (bit_vector);
            assert(value >> 1 == value / 2) by (bit_vector);
            bitvec.insert_bit(0, b);
            value = value >> 1;
            assert(nat_bits(orig) =~= nat_bits(value as nat) + bitvec@);
        }
        assert(bitvec@ =~= nat_bits(orig));
        bitvec
    }

    /// Parses a literal in base `radix` (2, 10 or 16) into its bits,
    /// without leading zeros. A binary digit other than `1` reads as a
    /// zero; a decimal literal must be a 64-bit number, else the result
    /// is an error saying it is too large.
    pub fn new_from_str(radix: usize, value_str: &str) -> (r: Result<BitVec, String>)
        requires
            radix == 2 || radix == 10 || radix == 16,
            radix == 16 ==> all_hex_digits(value_str@),
        ensures
            match literal_bits(radix as nat, value_str@) {
                Some(b) => r matches Ok(v) && v@ == b,
                None => r matches Err(e) && e@ == too_large_message(value_str@),
            },
    {
        let chars = str_chars(value_str);
        let mut bitvec = BitVec::new();
        if radix == 10 {
            match parse_unsigned_chars(&chars, u64::MAX) {
                Some(v) => {
                    bitvec = BitVec::from_u64(v);
                },
                None => {
                    return Err(too_large_error(value_str));
                },
            }
        } else if radix == 16 {
            let n = chars.len();
            let mut i: usize = 0;
            while i < n
                invariant
                    n == chars@.len(),
                    chars@ == value_str@,
                    all_hex_digits(value_str@),
                    i <= n,
                    bitvec@ == hex_chars_bits(chars@.take(i as int)),
                decreases n - i,
            {
                let c = chars[i];
                assert(hex_digit_value(chars@[i as int]) is Some);
                let nibble = match hex_digit(c) {
                    Some(d) => d,
                    None => 0,
                };
                bitvec.push_bit(nibble >= 8);
                bitvec.push_bit(nibble % 8 >= 4);
                bitvec.push_bit(nibble % 4 >= 2);
                bitvec.push_bit(nibble % 2 == 1);
                assert(chars@.take(i + 1).drop_last() =~= chars@.take(i as int));
                i = i + 1;
                assert(bitvec@ =~= hex_chars_bits(chars@.take(i as int)));
            }
            assert(chars@.take(n as int) =~= chars@);
        } else {
            let n = chars.len();
            let mut i: usize = 0;
            while i < n
                invariant
                    n == chars@.len(),
                    i <= n,
                    bitvec@ =~= Seq::new(i as nat, |k: int| chars@[k] == '1'),
                decreases n - i,
            {
                bitvec.push_bit(chars[i] == '1');
                i = i + 1;
            }
        }
        bitvec.trim();
        Ok(bitvec)
    }

    /// Parses a literal as `new_from_str` does and widens it with leading
    /// zeros to exactly `bit_num` bits; a literal that needs more bits is
    /// an error saying so.
    pub fn new_from_str_sized(bit_num: usize, radix: usize, value_str: &str) -> (r: Result<BitVec, String>)
        requires
            radix == 2 || radix == 10 || radix == 16,
            radix == 16 ==> all_hex_digits(value_str@),
        ensures
            match literal_bits(radix as nat, value_str@) {
                Some(b) => if b.len() > bit_num {
                    r matches Err(e) && e@ == does_not_fit_message(value_str@, bit_num as nat)
                } else {
                    r matches Ok(v) && v@ == zero_extend_bits(b, bit_num as nat)
                },
                None => r matches Err(e) && e@ == too_large_message(value_str@),
            },
    {
        let mut bitvec = match BitVec::new_from_str(radix, value_str) {
            Ok(b) => b,
            Err(e) => {
                return Err(e);
            },
        };
        if bitvec.len() > bit_num {
            let mut msg: Vec<char> = Vec::new();
            push_str(&mut msg, "value `");
            push_str(&mut msg, value_str);
            push_str(&mut msg, "` does not fit given size of `");
            push_radix(&mut msg, bit_num as u64, 10, false);
            push_str(&mut msg, "`");
            return Err(chars_to_string(&msg));
        }
        bitvec.zero_extend(bit_num);
        Ok(bitvec)
    }

    /// Byte `byte_index`: bits `8 * byte_index` to `8 * byte_index + 7`,
    /// the first one most significant, reading zeros past the end.
    pub fn get_byte(&self, byte_index: usize) -> (r: u8)
        requires
            byte_index * 8 + 7 <= usize::MAX,
        ensures
            r == byte_at(self@, byte_index as nat),
    {
        let base = byte_index * 8;
        let mut value: u8 = 0;
        let mut k: usize = 0;
        while k < 8
            invariant
                base == byte_index * 8,
                base + 7 <= usize::MAX,
                k <= 8,
                value as nat == bits_window_value(self@, base as int, k as nat),
            decreases 8 - k,
        {
            proof { lemma_window_bound(self@, base as int, k as nat); }
            assert(k < 8 ==> vstd::arithmetic::power2::pow2(k as nat) <= 128) by {
                vstd::arithmetic::power2::lemma2_to64();
            }
            let b = self.get_bit(base + k);
            value = value * 2 + if b { 1 } else { 0 };
            k = k + 1;
        }
        value
    }

    /// Every byte from the first through byte `len / 8`, as `get_byte`
    /// reads them (so a length that is a multiple of eight yields one
    /// extra zero byte).
    pub fn get_bytes(&self) -> (r: Vec<u8>)
        requires
            self@.len() + 16 <= usize::MAX,
        ensures
            r@ == Seq::new(self@.len() / 8 + 1, |i: int| byte_at(self@, i as nat) as u8),
    {
        let mut result: Vec<u8> = Vec::new();
        let mut byte_index: usize = 0;
        let n = self.bits.len() / 8;
        while byte_index <= n
            invariant
                n == self@.len() / 8,
                self@.len() + 16 <= usize::MAX,
                byte_index <= n + 1,
                result@ =~= Seq::new(byte_index as nat, |i: int| byte_at(self@, i as nat) as u8),
            decreases n + 1 - byte_index,
        {
            let b = self.get_byte(byte_index);
            result.push(b);
            byte_index = byte_index + 1;
        }
        result
    }

    /// A hex dump of every byte `get_bytes` reads: `0xhh ` per byte, with
    /// a `0xaaaa: ` address label opening and a line break closing every
    /// line of sixteen bytes.
    pub fn get_hex_dump(&self) -> (r: String)
        requires
            self@.len() + 16 <= usize::MAX,
        ensures
            r@ == hex_dump_prefix(self@, self@.len() / 8 + 1),
    {
        let mut out: Vec<char> = Vec::new();
        let mut byte_index: usize = 0;
        let n = self.bits.len() / 8;
        while byte_index <= n
            invariant
                n == self@.len() / 8,
                self@.len() + 16 <= usize::MAX,
                byte_index <= n + 1,
                out@ == hex_dump_prefix(self@, byte_index as nat),
            decreases n + 1 - byte_index,
        {
            self.push_hex_dump_entry(&mut out, byte_index);
            byte_index = byte_index + 1;
        }
        chars_to_string(&out)
    }

    /// Appends the hex dump entry of byte `i`.
    fn push_hex_dump_entry(&self, out: &mut Vec<char>, i: usize)
        requires
            i <= self@.len() / 8,
            self@.len() + 16 <= usize::MAX,
        ensures
            final(out)@ == old(out)@ + hex_dump_entry(self@, i as nat),
    {
        let ghost before = out@;
        if i % 16 == 0 {
            push_str(out, "0x");
            push_radix_padded(out, i as u64, 16, false, 4, '0');
            push_str(out, ": ");
        }
        push_str(out, "0x");
        let b = self.get_byte(i);
        push_radix_padded(out, b as u64, 16, false, 2, '0');
        push_str(out, " ");
        if (i + 1) % 16 == 0 {
            push_str(out, "\n");
        }
        assert(out@ =~= before + hex_dump_entry(self@, i as nat));
    }

    /// The number of bits a literal in base `radix` is taken to need: the
    /// bit length of a decimal value (an error if it is not a 64-bit
    /// number), four per hexadecimal digit, one per binary digit.
    pub fn get_min_bit_length(radix: usize, value_str: &str) -> (r: Result<usize, String>)
        requires
            radix == 2 || radix == 10 || radix == 16,
            radix == 16 ==> 4 * value_str@.len() <= usize::MAX,
        ensures
            match literal_min_bit_length(radix as nat, value_str@) {
                Some(n) => r matches Ok(v) && v == n,
                None => r matches Err(e) && e@ == too_large_message(value_str@),
            },
    {
        let chars = str_chars(value_str);
        if radix == 10 {
            match parse_unsigned_chars(&chars, u64::MAX) {
                Some(v) => {
                    let mut value = v;
                    let mut bit_length: usize = 0;
                    let ghost orig = v as nat;
                    proof { vstd::arithmetic::power2::lemma2_to64_rest(); }
                    while value != 0
                        invariant
                            nat_bits(orig).len() == nat_bits(value as nat).len() + bit_length,
                            bit_length <= 64,
                            value < vstd::arithmetic::power2::pow2((64 - bit_length) as nat),
                        decreases value,
                    {
                        assert(value >> 1 == value / 2) by (bit_vector);
                        proof {
                            vstd::arithmetic::power2::lemma2_to64();
                            vstd::arithmetic::power2::lemma_pow2_unfold((64 - bit_length) as nat);
                        }
                        bit_length = bit_length + 1;
                        value = value >> 1;
                    }
                    Ok(bit_length)
                },
                None => Err(too_large_error(value_str)),
            }
        } else if radix == 16 {
            Ok(chars.len() * 4)
        } else {
            Ok(chars.len())
        }
    }
}

/// The error for a decimal literal that is not a 64-bit number.
fn too_large_error(value_str: &str) -> (r: String)
    ensures
        r@ == too_large_message(value_str@),
{
    let mut msg: Vec<char> = Vec::new();
    push_str(&mut msg, "decimal value `");
    push_str(&mut msg, value_str);
    push_str(&mut msg, "` is too large");
    chars_to_string(&msg)
}

/// A window of `k` bits holds a value below `2^k`.
pub proof fn lemma_window_bound(b: Seq<bool>, base: int, k: nat)
    ensures
        bits_window_value(b, base, k) < vstd::arithmetic::power2::pow2(k),
    decreases k,
{
    if k == 0 {
        vstd::arithmetic::power2::lemma2_to64();
    } else {
        lemma_window_bound(b, base, (k - 1) as nat);
        vstd::arithmetic::power2::lemma_pow2_unfold(k);
    }
}

/// `nat_bits` spells the number it was made from.
pub proof fn lemma_nat_bits_value(v: nat)
    ensures
        bits_value(nat_bits(v)) == v,
        nat_bits(v).len() == 0 || nat_bits(v)[0],
    decreases v,
{
    if v != 0 {
        lemma_nat_bits_value(v / 2);
        assert(nat_bits(v).drop_last() =~= nat_bits(v / 2));
        if nat_bits(v / 2).len() == 0 {
            assert(v / 2 == 0);
        }
    }
}

/// The number that the hexadecimal digits `s` spell.
pub open spec fn hex_value(s: Seq<char>) -> nat
    decreases s.len(),
{
    if s.len() == 0 {
        0
    } else {
        16 * hex_value(s.drop_last()) + hex_digit_value(s.last()).unwrap()
    }
}

/// The number that the binary digits `s` spell, any digit other than `1`
/// counting as zero.
pub open spec fn bin_value(s: Seq<char>) -> nat
    decreases s.len(),
{
    if s.len() == 0 {
        0
    } else {
        2 * bin_value(s.drop_last()) + (if s.last() == '1' { 1nat } else { 0nat })
    }
}

/// Appending `b` to `a` shifts `a`'s number left by `b`'s length and adds
/// `b`'s number.
pub proof fn lemma_concat_value(a: Seq<bool>, b: Seq<bool>)
    ensures
        bits_value(a + b) == bits_value(a) * pow2(b.len()) + bits_value(b),
    decreases b.len(),
{
    if b.len() == 0 {
        assert(a + b =~= a);
        lemma2_to64();
        assert(pow2(0) == 1);
        assert(bits_value(b) == 0);
        assert(bits_value(a) * pow2(b.len()) == bits_value(a));
    } else {
        let b1 = b.drop_last();
        lemma_concat_value(a, b1);
        assert((a + b).drop_last() =~= a + b1);
        lemma_pow2_unfold(b.len());
        let va = bits_value(a);
        let p1 = pow2(b1.len());
        assert((a + b).last() == b.last());
        assert(va * pow2(b.len()) == 2 * (va * p1)) by (nonlinear_arith)
            requires
                pow2(b.len()) == 2 * p1,
        ;
        assert(bits_value(a + b) == 2 * bits_value(a + b1) + (if b.last() { 1nat } else { 0nat }));
        assert(bits_value(b) == 2 * bits_value(b1) + (if b.last() { 1nat } else { 0nat }));
    }
}

/// A run of zeros spells zero.
pub proof fn lemma_zeros_value(z: Seq<bool>)
    requires
        forall|i: int| 0 <= i < z.len() ==> !#[trigger] z[i],
    ensures
        bits_value(z) == 0,
    decreases z.len(),
{
    if z.len() > 0 {
        lemma_zeros_value(z.drop_last());
        assert(!z[z.len() - 1]);
    }
}

/// A leading zero does not change the number a bit sequence spells.
pub proof fn lemma_leading_zero_value(b: Seq<bool>)
    requires
        b.len() > 0,
        !b[0],
    ensures
        bits_value(b) == bits_value(b.drop_first()),
{
    let z = seq![false];
    lemma_concat_value(z, b.drop_first());
    assert(z + b.drop_first() =~= b);
    assert(z.drop_last() =~= Seq::<bool>::empty());
    assert(bits_value(Seq::<bool>::empty()) == 0);
    assert(bits_value(z) == 0);
    assert(bits_value(z) * pow2(b.drop_first().len()) == 0);
}

/// Trimming leading zeros keeps the number, never lengthens the sequence,
/// keeps at least one bit of a nonempty sequence, and trimming again
/// changes nothing.
pub proof fn law_trim_keeps_value(b: Seq<bool>)
    ensures
        bits_value(trim_bits(b)) == bits_value(b),
        trim_bits(b).len() <= b.len(),
        b.len() > 0 ==> trim_bits(b).len() > 0,
        trim_bits(trim_bits(b)) == trim_bits(b),
    decreases b.len(),
{
    if b.len() > 1 && !b[0] {
        law_trim_keeps_value(b.drop_first());
        lemma_leading_zero_value(b);
    }
}

/// Widening with leading zeros keeps the number and reaches at least the
/// width asked for.
pub proof fn law_zero_extend_keeps_value(b: Seq<bool>, n: nat)
    ensures
        bits_value(zero_extend_bits(b, n)) == bits_value(b),
        zero_extend_bits(b, n).len() == (if b.len() >= n { b.len() } else { n }),
{
    if b.len() < n {
        let z = Seq::new((n - b.len()) as nat, |_i: int| false);
        lemma_concat_value(z, b);
        lemma_zeros_value(z);
        assert(bits_value(z) * pow2(b.len()) == 0);
    }
}

/// After setting bit `i` to `v`, reading bit `i` gives `v` and every other
/// bit reads as before.
pub proof fn law_get_after_set(b: Seq<bool>, i: nat, v: bool)
    ensures
        bit_at(set_bit_bits(b, i, v), i as int) == v,
        forall|j: int| 0 <= j && j != i ==> #[trigger] bit_at(set_bit_bits(b, i, v), j) == bit_at(b, j),
{
}

/// Extracting between two positions gives the same bits whichever comes
/// first.
pub proof fn law_extract_symmetric(b: Seq<bool>, left: nat, right: nat)
    ensures
        extract_bits(b, left, right) == extract_bits(b, right, left),
{
    assert(extract_bits(b, left, right) =~= extract_bits(b, right, left));
}

/// The bits pushed after `a` are the bits extracted from `a`'s end on.
pub proof fn law_extract_after_push(a: Seq<bool>, o: Seq<bool>)
    ensures
        extract_bits(a + o, a.len(), a.len() + o.len()) == o,
{
    assert(extract_bits(a + o, a.len(), a.len() + o.len()) =~= o);
}

/// The value of the four bits of a hexadecimal digit value.
proof fn lemma_nibble_value(d: nat)
    requires
        d < 16,
    ensures
        bits_value(nibble_bits(d)) == d,
{
    reveal_with_fuel(bits_value, 5);
    let n = nibble_bits(d);
    assert(n.drop_last() =~= seq![d >= 8, d % 8 >= 4, d % 4 >= 2]);
    assert(n.drop_last().drop_last() =~= seq![d >= 8, d % 8 >= 4]);
    assert(n.drop_last().drop_last().drop_last() =~= seq![d >= 8]);
    assert(n.drop_last().drop_last().drop_last().drop_last() =~= Seq::<bool>::empty());
}

/// Hexadecimal digits spell, in bits, the number they stand for.
proof fn lemma_hex_bits_value(s: Seq<char>)
    requires
        all_hex_digits(s),
    ensures
        bits_value(hex_chars_bits(s)) == hex_value(s),
    decreases s.len(),
{
    if s.len() > 0 {
        let s1 = s.drop_last();
        assert(all_hex_digits(s1)) by {
            assert forall|i: int| 0 <= i < s1.len() implies #[trigger] hex_digit_value(s1[i]) is Some by {
                assert(s1[i] == s[i]);
            }
        }
        lemma_hex_bits_value(s1);
        let d = hex_digit_value(s.last()).unwrap();
        assert(hex_digit_value(s[s.len() - 1]) is Some);
        assert(d < 16);
        lemma_nibble_value(d);
        lemma_concat_value(hex_chars_bits(s1), nibble_bits(d));
        lemma2_to64();
    }
}

/// Binary digits spell, in bits, the number they stand for.
proof fn lemma_bin_bits_value(s: Seq<char>)
    ensures
        bits_value(bin_chars_bits(s)) == bin_value(s),
    decreases s.len(),
{
    if s.len() > 0 {
        lemma_bin_bits_value(s.drop_last());
        assert(bin_chars_bits(s).drop_last() =~= bin_chars_bits(s.drop_last()));
    }
}

/// A literal's bits spell the number the literal stands for: its decimal
/// value, its hexadecimal value, or its binary value; and a decimal
/// literal takes exactly the bits its value needs.
pub proof fn law_literal_value(radix: nat, s: Seq<char>)
    requires
        radix == 2 || radix == 10 || radix == 16,
        radix == 16 ==> all_hex_digits(s),
    ensures
        radix == 10 ==> match parse_unsigned(s, u64::MAX as nat) {
            Some(v) => literal_bits(radix, s) == Some(nat_bits(v)) && bits_value(nat_bits(v)) == v
                && literal_min_bit_length(radix, s) == Some(nat_bits(v).len()),
            None => literal_bits(radix, s) is None,
        },
        radix == 16 ==> (literal_bits(radix, s) matches Some(b) && bits_value(b) == hex_value(s)),
        radix == 2 ==> (literal_bits(radix, s) matches Some(b) && bits_value(b) == bin_value(s)),
{
    if radix == 10 {
        if let Some(v) = parse_unsigned(s, u64::MAX as nat) {
            lemma_nat_bits_value(v);
            lemma_trim_leading_one(nat_bits(v));
        }
    } else if radix == 16 {
        lemma_hex_bits_value(s);
        law_trim_keeps_value(hex_chars_bits(s));
    } else {
        lemma_bin_bits_value(s);
        law_trim_keeps_value(bin_chars_bits(s));
    }
}

/// A sequence that is empty or starts with a set bit is already trimmed.
proof fn lemma_trim_leading_one(b: Seq<bool>)
    requires
        b.len() == 0 || b[0],
    ensures
        trim_bits(b) == b,
{
}

/// A literal sized to `bit_num` bits has exactly that many bits and still
/// spells the literal's number.
pub proof fn law_sized_literal(b: Seq<bool>, bit_num: nat)
    requires
        b.len() <= bit_num,
    ensures
        zero_extend_bits(b, bit_num).len() == bit_num,
        bits_value(zero_extend_bits(b, bit_num)) == bits_value(b),
{
    law_zero_extend_keeps_value(b, bit_num);
}

} // verus!
