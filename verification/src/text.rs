//! Character-sequence building blocks: copying strings into character
//! vectors, and the digit renderings used by every textual output format.
use vstd::prelude::*;

verus! {

/// The characters of `s`, in order.
pub fn str_chars(s: &str) -> (r: Vec<char>)
    ensures
        r@ == s@,
{
    let mut r: Vec<char> = Vec::new();
    for c in it: s.chars()
        invariant
            it.seq() == s@,
            r@ == it.seq().take(it.index() as int),
    {
        r.push(c);
    }
    r
}

/// Appends the characters of `s` to `out`.
pub fn push_str(out: &mut Vec<char>, s: &str)
    ensures
        final(out)@ == old(out)@ + s@,
{
    let ghost start = out@;
    for c in it: s.chars()
        invariant
            it.seq() == s@,
            out@ == start + it.seq().take(it.index() as int),
    {
        out.push(c);
    }
}


/// The character of digit `d` (below 16): `0`-`9`, then `a`-`f`, or
/// `A`-`F` when `upper` is set.
pub open spec fn digit_char(d: nat, upper: bool) -> char {
    if d < 10 {
        (('0' as u8) + d) as char
    } else if upper {
        (('A' as u8) + d - 10) as char
    } else {
        (('a' as u8) + d - 10) as char
    }
}

/// The digits of `v` in base `radix`, most significant first, without
/// leading zeros (`0` is written as a single digit).
pub open spec fn radix_digits(v: nat, radix: nat, upper: bool) -> Seq<char>
    recommends
        2 <= radix <= 16,
    decreases v,
{
    if radix < 2 || v < radix {
        seq![digit_char(v, upper)]
    } else {
        proof {
            assert(v / radix < v) by (nonlinear_arith)
                requires v >= radix, radix >= 2;
        }
        radix_digits(v / radix, radix, upper).push(digit_char(v % radix, upper))
    }
}

/// `s`, right-aligned in a field of `width` characters filled with `fill`.
pub open spec fn pad_left(s: Seq<char>, width: nat, fill: char) -> Seq<char> {
    if s.len() >= width {
        s
    } else {
        Seq::new((width - s.len()) as nat, |_i: int| fill) + s
    }
}

/// `s`, left-aligned in a field of `width` characters filled with `fill`.
pub open spec fn pad_right(s: Seq<char>, width: nat, fill: char) -> Seq<char> {
    if s.len() >= width {
        s
    } else {
        s + Seq::new((width - s.len()) as nat, |_i: int| fill)
    }
}

/// Lower-case hexadecimal digits of `v`.
pub open spec fn hex(v: nat) -> Seq<char> {
    radix_digits(v, 16, false)
}

/// Upper-case hexadecimal digits of `v`.
pub open spec fn hex_upper(v: nat) -> Seq<char> {
    radix_digits(v, 16, true)
}

/// Decimal digits of `v`.
pub open spec fn dec(v: nat) -> Seq<char> {
    radix_digits(v, 10, false)
}

/// The character of digit `d`.
pub fn digit_to_char(d: u64, upper: bool) -> (c: char)
    requires
        d < 16 || (!upper && d <= 168),
    ensures
        c == digit_char(d as nat, upper),
{
    if d < 10 {
        ((('0' as u8) + (d as u8)) as char)
    } else if upper {
        ((('A' as u8) + ((d - 10) as u8)) as char)
    } else {
        ((('a' as u8) + ((d - 10) as u8)) as char)
    }
}

/// Appends the base-`radix` digits of `v` to `out`.
pub fn push_radix(out: &mut Vec<char>, v: u64, radix: u64, upper: bool)
    requires
        2 <= radix <= 16,
    ensures
        final(out)@ == old(out)@ + radix_digits(v as nat, radix as nat, upper),
    decreases v,
{
    if v < radix {
        let c = digit_to_char(v, upper);
        out.push(c);
    } else {
        assert(v / radix < v) by (nonlinear_arith)
            requires v >= radix, radix >= 2;
        push_radix(out, v / radix, radix, upper);
        let c = digit_to_char(v % radix, upper);
        out.push(c);
    }
}

/// Appends the base-`radix` digits of `v`, right-aligned in a field of
/// `width` characters filled with `fill`.
pub fn push_radix_padded(out: &mut Vec<char>, v: u64, radix: u64, upper: bool, width: usize, fill: char)
    requires
        2 <= radix <= 16,
    ensures
        final(out)@ == old(out)@ + pad_left(radix_digits(v as nat, radix as nat, upper), width as nat, fill),
{
    let ghost start = out@;
    let ghost digits = radix_digits(v as nat, radix as nat, upper);
    let n = radix_len(v, radix);
    proof { lemma_radix_len_bound(v as nat, radix as nat, upper); }
    if n < width {
        let mut i: usize = 0;
        while i < width - n
            invariant
                n < width,
                i <= width - n,
                out@ == start + Seq::new(i as nat, |_j: int| fill),
            decreases width - n - i,
        {
            out.push(fill);
            i = i + 1;
            assert(out@ =~= start + Seq::new(i as nat, |_j: int| fill));
        }
    }
    let ghost mid = out@;
    push_radix(out, v, radix, upper);
    assert(out@ =~= start + pad_left(digits, width as nat, fill));
}

/// Number of base-`radix` digits of `v`.
pub fn radix_len(v: u64, radix: u64) -> (n: usize)
    requires
        2 <= radix <= 16,
    ensures
        n == radix_digits(v as nat, radix as nat, false).len(),
        1 <= n <= 64,
    decreases v,
{
    proof { lemma_radix_len_bound(v as nat, radix as nat, false); }
    if v < radix {
        1
    } else {
        assert(v / radix < v) by (nonlinear_arith)
            requires v >= radix, radix >= 2;
        proof { lemma_radix_len_bound((v / radix) as nat, radix as nat, false); }
        radix_len(v / radix, radix) + 1
    }
}

/// The digit count does not depend on letter case, and stays within 64
/// for any 64-bit value.
pub proof fn lemma_radix_len_bound(v: nat, radix: nat, upper: bool)
    requires
        2 <= radix <= 16,
        v <= u64::MAX,
    ensures
        radix_digits(v, radix, upper).len() == radix_digits(v, radix, false).len(),
        1 <= radix_digits(v, radix, upper).len() <= 64,
{
    lemma_radix_len_case(v, radix, upper);
    vstd::arithmetic::power2::lemma2_to64_rest();
    lemma_radix_len_pow(v, radix, 64);
}

proof fn lemma_radix_len_case(v: nat, radix: nat, upper: bool)
    requires
        2 <= radix <= 16,
    ensures
        radix_digits(v, radix, upper).len() == radix_digits(v, radix, false).len(),
        radix_digits(v, radix, upper).len() >= 1,
    decreases v,
{
    if v >= radix {
        assert(v / radix < v) by (nonlinear_arith)
            requires v >= radix, radix >= 2;
        lemma_radix_len_case(v / radix, radix, upper);
    }
}

proof fn lemma_radix_len_pow(v: nat, radix: nat, k: nat)
    requires
        2 <= radix <= 16,
        v < vstd::arithmetic::power2::pow2(k),
    ensures
        radix_digits(v, radix, false).len() <= (if k == 0 { 1 } else { k }),
    decreases v,
{
    if v >= radix {
        if k == 0 {
            vstd::arithmetic::power2::lemma2_to64();
        } else {
            vstd::arithmetic::power2::lemma_pow2_unfold(k);
            assert(v / radix <= v / 2) by (nonlinear_arith)
                requires radix >= 2;
            if k == 1 {
                vstd::arithmetic::power2::lemma2_to64();
            }
            lemma_radix_len_pow(v / radix, radix, (k - 1) as nat);
        }
    }
}

/// Whether `c` is an ASCII decimal digit.
pub open spec fn is_dec_digit(c: char) -> bool {
    ('0' as u32) <= (c as u32) <= ('9' as u32)
}

/// The number that the decimal digits `s` spell.
pub open spec fn dec_value(s: Seq<char>) -> nat
    decreases s.len(),
{
    if s.len() == 0 {
        0
    } else {
        10 * dec_value(s.drop_last()) + ((s.last() as u32) - ('0' as u32)) as nat
    }
}

/// `s` without one leading `+`, if it has one.
pub open spec fn unsigned_digits(s: Seq<char>) -> Seq<char> {
    if s.len() > 0 && s[0] == '+' {
        s.drop_first()
    } else {
        s
    }
}

/// The value of `s` read as an unsigned decimal number no larger than
/// `limit`: an optional `+`, then one or more ASCII digits; `None` for any
/// other text or a larger value.
pub open spec fn parse_unsigned(s: Seq<char>, limit: nat) -> Option<nat> {
    let d = unsigned_digits(s);
    if d.len() > 0 && (forall|i: int| 0 <= i < d.len() ==> #[trigger] is_dec_digit(d[i]))
        && dec_value(d) <= limit {
        Some(dec_value(d))
    } else {
        None
    }
}

/// A decimal number only grows as digits are appended to it.
pub proof fn lemma_dec_value_prefix(d: Seq<char>, k: int)
    requires
        0 <= k <= d.len(),
        forall|i: int| 0 <= i < d.len() ==> #[trigger] is_dec_digit(d[i]),
    ensures
        dec_value(d.take(k)) <= dec_value(d),
    decreases d.len(),
{
    if k < d.len() {
        assert(d.drop_last().take(k) =~= d.take(k));
        assert forall|i: int| 0 <= i < d.drop_last().len() implies #[trigger] is_dec_digit(d.drop_last()[i]) by {
            assert(is_dec_digit(d[i]));
        }
        lemma_dec_value_prefix(d.drop_last(), k);
    } else {
        assert(d.take(k) =~= d);
    }
}

/// Reads `s` as an unsigned decimal number no larger than `limit`, as the
/// standard library's unsigned integer parsing does.
pub fn parse_unsigned_chars(s: &Vec<char>, limit: u64) -> (r: Option<u64>)
    ensures
        r matches Some(v) ==> parse_unsigned(s@, limit as nat) == Some(v as nat),
        r is None ==> parse_unsigned(s@, limit as nat) is None,
{
    let n = s.len();
    let mut start: usize = 0;
    if n > 0 && s[0] == '+' {
        start = 1;
    }
    let ghost d = unsigned_digits(s@);
    assert(d =~= s@.skip(start as int));
    if start == n {
        return None;
    }
    let mut value: u64 = 0;
    let mut i = start;
    assert(d.take(0) =~= Seq::<char>::empty());
    while i < n
        invariant
            n == s@.len(),
            start < n,
            start <= i <= n,
            d == s@.skip(start as int),
            d == unsigned_digits(s@),
            value == dec_value(d.take(i - start)),
            value <= limit,
            forall|j: int| 0 <= j < i - start ==> #[trigger] is_dec_digit(d[j]),
        decreases n - i,
    {
        let c = s[i];
        assert(c == d[i - start]);
        let u = c as u32;
        if !(u >= ('0' as u32) && u <= ('9' as u32)) {
            assert(!is_dec_digit(d[i - start]));
            return None;
        }
        let digit = (u - ('0' as u32)) as u64;
        assert(d.take(i - start + 1).drop_last() =~= d.take(i - start));
        assert(d.take(i - start + 1).last() == c);
        assert(dec_value(d.take(i - start + 1)) == 10 * value + digit);
        let next = match value.checked_mul(10) {
            Some(m) => m.checked_add(digit),
            None => None,
        };
        match next {
            Some(nv) if nv <= limit => {
                value = nv;
                i = i + 1;
            },
            _ => {
                proof {
                    assert(dec_value(d.take(i - start + 1)) > limit);
                    if forall|j: int| 0 <= j < d.len() ==> #[trigger] is_dec_digit(d[j]) {
                        lemma_dec_value_prefix(d, i - start + 1);
                    }
                }
                return None;
            },
        }
    }
    assert(d.take(n - start) =~= d);
    Some(value)
}

/// The value of `c` as a hexadecimal digit (`0`-`9`, `a`-`f`, `A`-`F`).
pub open spec fn hex_digit_value(c: char) -> Option<nat> {
    let u = c as u32;
    if ('0' as u32) <= u <= ('9' as u32) {
        Some((u - ('0' as u32)) as nat)
    } else if ('a' as u32) <= u <= ('f' as u32) {
        Some((u - ('a' as u32) + 10) as nat)
    } else if ('A' as u32) <= u <= ('F' as u32) {
        Some((u - ('A' as u32) + 10) as nat)
    } else {
        None
    }
}

/// The value of `c` as a hexadecimal digit, as `char::to_digit(16)` gives it.
pub fn hex_digit(c: char) -> (r: Option<u32>)
    ensures
        r matches Some(v) ==> hex_digit_value(c) == Some(v as nat),
        r is None ==> hex_digit_value(c) is None,
{
    let u = c as u32;
    if u >= ('0' as u32) && u <= ('9' as u32) {
        Some(u - ('0' as u32))
    } else if u >= ('a' as u32) && u <= ('f' as u32) {
        Some(u - ('a' as u32) + 10)
    } else if u >= ('A' as u32) && u <= ('F' as u32) {
        Some(u - ('A' as u32) + 10)
    } else {
        None
    }
}

/// Collects `v` into a `String` through `String`'s `FromIterator<char>`
/// impl; the contract claims the string holds exactly those characters,
/// in order, as the standard library documents.
#[verifier::external_body]
pub(crate) fn chars_to_string(v: &Vec<char>) -> (r: String)
    ensures
        r@ == v@,
{
    v.iter().collect()
}

/// Whether two strings hold the same characters.
pub fn str_eq(a: &str, b: &str) -> (r: bool)
    ensures
        r == (a@ == b@),
{
    let x = str_chars(a);
    let y = str_chars(b);
    if x.len() != y.len() {
        return false;
    }
    let mut i: usize = 0;
    while i < x.len()
        invariant
            x@ == a@,
            y@ == b@,
            x@.len() == y@.len(),
            i <= x@.len(),
            forall|k: int| 0 <= k < i ==> x@[k] == y@[k],
        decreases x.len() - i,
    {
        if x[i] != y[i] {
            return false;
        }
        i = i + 1;
    }
    assert(x@ =~= y@);
    true
}

/// The pieces of `s` between the occurrences of `c`, as `str::split`
/// gives them (an empty text is one empty piece).
pub open spec fn split_on(s: Seq<char>, c: char) -> Seq<Seq<char>>
    decreases s.len(),
{
    if s.len() == 0 {
        seq![Seq::empty()]
    } else if s.last() == c {
        split_on(s.drop_last(), c).push(Seq::empty())
    } else {
        let p = split_on(s.drop_last(), c);
        p.update(p.len() - 1, p.last().push(s.last()))
    }
}

/// The abstract value of a list of character vectors.
pub open spec fn pieces_view(p: Seq<Vec<char>>) -> Seq<Seq<char>> {
    p.map_values(|x: Vec<char>| x@)
}

/// The pieces of `s` between the occurrences of `c`.
pub fn split_chars(s: &Vec<char>, c: char) -> (r: Vec<Vec<char>>)
    ensures
        pieces_view(r@) == split_on(s@, c),
        r@.len() >= 1,
{
    let mut pieces: Vec<Vec<char>> = Vec::new();
    let mut cur: Vec<char> = Vec::new();
    let mut i: usize = 0;
    assert(s@.take(0) =~= Seq::<char>::empty());
    assert(pieces_view(pieces@).push(cur@) =~= split_on(s@.take(0), c));
    while i < s.len()
        invariant
            i <= s@.len(),
            pieces_view(pieces@).push(cur@) == split_on(s@.take(i as int), c),
        decreases s.len() - i,
    {
        let ch = s[i];
        let ghost before = pieces_view(pieces@).push(cur@);
        assert(s@.take(i + 1).drop_last() =~= s@.take(i as int));
        assert(s@.take(i + 1).last() == ch);
        if ch == c {
            let done = cur;
            pieces.push(done);
            cur = Vec::new();
            assert(pieces_view(pieces@).push(cur@) =~= before.push(Seq::empty()));
        } else {
            cur.push(ch);
            assert(pieces_view(pieces@).push(cur@) =~= before.update(before.len() - 1, before.last().push(ch)));
        }
        i = i + 1;
    }
    assert(s@.take(s@.len() as int) =~= s@);
    let ghost pv = pieces_view(pieces@);
    pieces.push(cur);
    assert(pieces_view(pieces@) =~= pv.push(pieces@.last()@));
    pieces
}

/// The digit character of a decimal digit value is that digit.
proof fn lemma_digit_char_dec(d: nat)
    requires
        d < 10,
    ensures
        is_dec_digit(digit_char(d, false)),
        (digit_char(d, false) as u32) == ('0' as u32) + d,
{
}

/// Decimal digits are digits, at least one of them.
pub proof fn lemma_dec_digits(v: nat)
    ensures
        dec(v).len() >= 1,
        forall|i: int| 0 <= i < dec(v).len() ==> #[trigger] is_dec_digit(dec(v)[i]),
    decreases v,
{
    if v < 10 {
        lemma_digit_char_dec(v);
    } else {
        lemma_dec_digits(v / 10);
        lemma_digit_char_dec(v % 10);
        let p = dec(v / 10);
        assert(dec(v) == p.push(digit_char(v % 10, false)));
        assert forall|i: int| 0 <= i < dec(v).len() implies #[trigger] is_dec_digit(dec(v)[i]) by {
            if i < p.len() {
                assert(dec(v)[i] == p[i]);
            }
        }
    }
}

/// Different numbers have different decimal digits.
pub proof fn lemma_dec_injective(v: nat, w: nat)
    requires
        dec(v) == dec(w),
    ensures
        v == w,
    decreases v,
{
    lemma_dec_digits(v / 10);
    lemma_dec_digits(w / 10);
    if v < 10 && w < 10 {
        lemma_digit_char_dec(v);
        lemma_digit_char_dec(w);
        assert(dec(v)[0] == digit_char(v, false));
        assert(dec(w)[0] == digit_char(w, false));
    } else if v >= 10 && w >= 10 {
        let a = dec(v);
        assert(a == dec(v / 10).push(digit_char(v % 10, false)));
        assert(dec(w) == dec(w / 10).push(digit_char(w % 10, false)));
        assert(a.last() == digit_char(v % 10, false));
        lemma_digit_char_dec(v % 10);
        lemma_digit_char_dec(w % 10);
        assert(a.drop_last() =~= dec(v / 10));
        assert(dec(w).drop_last() =~= dec(w / 10));
        lemma_dec_injective(v / 10, w / 10);
        assert(v % 10 == w % 10);
        assert(v == 10 * (v / 10) + v % 10);
        assert(w == 10 * (w / 10) + w % 10);
    } else if v < 10 {
        assert(dec(w) == dec(w / 10).push(digit_char(w % 10, false)));
    } else {
        assert(dec(v) == dec(v / 10).push(digit_char(v % 10, false)));
    }
}

/// A run of digits followed by text that does not start with a digit
/// splits in one way only.
pub proof fn lemma_digits_split(a: Seq<char>, c: Seq<char>, b: Seq<char>, d: Seq<char>)
    requires
        forall|i: int| 0 <= i < a.len() ==> #[trigger] is_dec_digit(a[i]),
        forall|i: int| 0 <= i < b.len() ==> #[trigger] is_dec_digit(b[i]),
        c.len() > 0 && !is_dec_digit(c[0]),
        d.len() > 0 && !is_dec_digit(d[0]),
        a + c == b + d,
    ensures
        a == b,
        c == d,
{
    if a.len() < b.len() {
        assert((a + c)[a.len() as int] == c[0]);
        assert((b + d)[a.len() as int] == b[a.len() as int]);
    } else if b.len() < a.len() {
        assert((b + d)[b.len() as int] == d[0]);
        assert((a + c)[b.len() as int] == a[b.len() as int]);
    } else {
        assert(a =~= (a + c).subrange(0, a.len() as int));
        assert(b =~= (b + d).subrange(0, b.len() as int));
        assert(c =~= (a + c).subrange(a.len() as int, (a + c).len() as int));
        assert(d =~= (b + d).subrange(b.len() as int, (b + d).len() as int));
    }
}

} // verus!
