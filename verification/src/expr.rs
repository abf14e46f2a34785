//! Operators and built-in functions of the expression language.
use vstd::prelude::*;
use crate::text::{str_chars, str_eq};

verus! {

/// A unary operator.
#[derive(Copy, Clone, PartialEq, Eq, Structural)]
pub enum UnaryOp {
    Neg,
    Not,
}

/// A binary operator.
#[derive(Copy, Clone, PartialEq, Eq, Structural)]
pub enum BinaryOp {
    Assign,
    Add,
    Sub,
    Mul,
    Div,
    Mod,
    Shl,
    Shr,
    And,
    Or,
    Xor,
    Eq,
    Ne,
    Lt,
    Le,
    Gt,
    Ge,
    LazyAnd,
    LazyOr,
    Concat,
}

/// A built-in function of the expression language.
#[derive(Copy, Clone, PartialEq, Eq, Structural)]
pub enum ExprBuiltinFn {
    Assert,
    Sizeof,
    Le,
    Ascii,
    Utf8,
    Utf16be,
    Utf16le,
    Utf32be,
    Utf32le,
    Strlen,
}

/// The built-in function a name stands for: the names carry a `$` prefix,
/// except under the legacy behavior.
pub open spec fn builtin_fn_named(name: Seq<char>, use_legacy_behavior: bool) -> Option<ExprBuiltinFn> {
    let p: Seq<char> = if use_legacy_behavior { ""@ } else { "$"@ };
    if name == p + "assert"@ {
        Some(ExprBuiltinFn::Assert)
    } else if name == p + "sizeof"@ {
        Some(ExprBuiltinFn::Sizeof)
    } else if name == p + "le"@ {
        Some(ExprBuiltinFn::Le)
    } else if name == p + "ascii"@ {
        Some(ExprBuiltinFn::Ascii)
    } else if name == p + "utf8"@ {
        Some(ExprBuiltinFn::Utf8)
    } else if name == p + "utf16be"@ {
        Some(ExprBuiltinFn::Utf16be)
    } else if name == p + "utf16le"@ {
        Some(ExprBuiltinFn::Utf16le)
    } else if name == p + "utf32be"@ {
        Some(ExprBuiltinFn::Utf32be)
    } else if name == p + "utf32le"@ {
        Some(ExprBuiltinFn::Utf32le)
    } else if name == p + "strlen"@ {
        Some(ExprBuiltinFn::Strlen)
    } else {
        None
    }
}

/// The built-in function `name` stands for, if any.
pub fn resolve_builtin_fn(name: &str, use_legacy_behavior: bool) -> (r: Option<ExprBuiltinFn>)
    ensures
        r == builtin_fn_named(name@, use_legacy_behavior),
{
    proof {
        reveal_strlit("");
        reveal_strlit("$");
        reveal_strlit("assert");
        reveal_strlit("$assert");
        reveal_strlit("sizeof");
        reveal_strlit("$sizeof");
        reveal_strlit("le");
        reveal_strlit("$le");
        reveal_strlit("ascii");
        reveal_strlit("$ascii");
        reveal_strlit("utf8");
        reveal_strlit("$utf8");
        reveal_strlit("utf16be");
        reveal_strlit("$utf16be");
        reveal_strlit("utf16le");
        reveal_strlit("$utf16le");
        reveal_strlit("utf32be");
        reveal_strlit("$utf32be");
        reveal_strlit("utf32le");
        reveal_strlit("$utf32le");
        reveal_strlit("strlen");
        reveal_strlit("$strlen");
        assert(""@ + "assert"@ =~= "assert"@);
        assert("$"@ + "assert"@ =~= "$assert"@);
        assert(""@ + "sizeof"@ =~= "sizeof"@);
        assert("$"@ + "sizeof"@ =~= "$sizeof"@);
        assert(""@ + "le"@ =~= "le"@);
        assert("$"@ + "le"@ =~= "$le"@);
        assert(""@ + "ascii"@ =~= "ascii"@);
        assert("$"@ + "ascii"@ =~= "$ascii"@);
        assert(""@ + "utf8"@ =~= "utf8"@);
        assert("$"@ + "utf8"@ =~= "$utf8"@);
        assert(""@ + "utf16be"@ =~= "utf16be"@);
        assert("$"@ + "utf16be"@ =~= "$utf16be"@);
        assert(""@ + "utf16le"@ =~= "utf16le"@);
        assert("$"@ + "utf16le"@ =~= "$utf16le"@);
        assert(""@ + "utf32be"@ =~= "utf32be"@);
        assert("$"@ + "utf32be"@ =~= "$utf32be"@);
        assert(""@ + "utf32le"@ =~= "utf32le"@);
        assert("$"@ + "utf32le"@ =~= "$utf32le"@);
        assert(""@ + "strlen"@ =~= "strlen"@);
        assert("$"@ + "strlen"@ =~= "$strlen"@);
    }
    if !use_legacy_behavior {
        if str_eq(name, "$assert") {
            Some(ExprBuiltinFn::Assert)
        } else if str_eq(name, "$sizeof") {
            Some(ExprBuiltinFn::Sizeof)
        } else if str_eq(name, "$le") {
            Some(ExprBuiltinFn::Le)
        } else if str_eq(name, "$ascii") {
            Some(ExprBuiltinFn::Ascii)
        } else if str_eq(name, "$utf8") {
            Some(ExprBuiltinFn::Utf8)
        } else if str_eq(name, "$utf16be") {
            Some(ExprBuiltinFn::Utf16be)
        } else if str_eq(name, "$utf16le") {
            Some(ExprBuiltinFn::Utf16le)
        } else if str_eq(name, "$utf32be") {
            Some(ExprBuiltinFn::Utf32be)
        } else if str_eq(name, "$utf32le") {
            Some(ExprBuiltinFn::Utf32le)
        } else if str_eq(name, "$strlen") {
            Some(ExprBuiltinFn::Strlen)
        } else {
            None
        }
    } else {
        if str_eq(name, "assert") {
            Some(ExprBuiltinFn::Assert)
        } else if str_eq(name, "sizeof") {
            Some(ExprBuiltinFn::Sizeof)
        } else if str_eq(name, "le") {
            Some(ExprBuiltinFn::Le)
        } else if str_eq(name, "ascii") {
            Some(ExprBuiltinFn::Ascii)
        } else if str_eq(name, "utf8") {
            Some(ExprBuiltinFn::Utf8)
        } else if str_eq(name, "utf16be") {
            Some(ExprBuiltinFn::Utf16be)
        } else if str_eq(name, "utf16le") {
            Some(ExprBuiltinFn::Utf16le)
        } else if str_eq(name, "utf32be") {
            Some(ExprBuiltinFn::Utf32be)
        } else if str_eq(name, "utf32le") {
            Some(ExprBuiltinFn::Utf32le)
        } else if str_eq(name, "strlen") {
            Some(ExprBuiltinFn::Strlen)
        } else {
            None
        }
    }
}

/// What is known ahead of evaluation about a local variable.
pub struct StaticallyKnownLocal {
    pub size: Option<usize>,
    pub value_known: bool,
}

impl StaticallyKnownLocal {
    /// Nothing known yet.
    pub fn new() -> (r: StaticallyKnownLocal)
        ensures
            r.size is None,
            !r.value_known,
    {
        StaticallyKnownLocal { size: None, value_known: false }
    }
}

/// The code point of `c`.
pub open spec fn code_point(c: char) -> nat {
    (c as u32) as nat
}

/// The UTF-8 encoding of `c`.
pub open spec fn utf8_bytes(c: char) -> Seq<u8> {
    let v = code_point(c);
    if v < 0x80 {
        seq![v as u8]
    } else if v < 0x800 {
        seq![(0xC0 + v / 64) as u8, (0x80 + v % 64) as u8]
    } else if v < 0x10000 {
        seq![(0xE0 + v / 4096) as u8, (0x80 + (v / 64) % 64) as u8, (0x80 + v % 64) as u8]
    } else {
        seq![(0xF0 + v / 262144) as u8, (0x80 + (v / 4096) % 64) as u8, (0x80 + (v / 64) % 64) as u8, (0x80 + v % 64) as u8]
    }
}

/// The UTF-16 code units of `c`: one below `0x10000`, else a surrogate
/// pair.
pub open spec fn utf16_units(c: char) -> Seq<nat> {
    let v = code_point(c);
    if v < 0x10000 {
        seq![v]
    } else {
        seq![(0xD800 + (v - 0x10000) / 1024) as nat, (0xDC00 + (v - 0x10000) % 1024) as nat]
    }
}

/// The bytes of the 16-bit units `u`, high byte first when `big_endian`.
pub open spec fn unit_bytes(u: Seq<nat>, big_endian: bool) -> Seq<u8>
    decreases u.len(),
{
    if u.len() == 0 {
        Seq::empty()
    } else {
        let x = u.last();
        unit_bytes(u.drop_last(), big_endian) + (if big_endian {
            seq![(x / 256) as u8, (x % 256) as u8]
        } else {
            seq![(x % 256) as u8, (x / 256) as u8]
        })
    }
}

/// The four bytes of the code point of `c`, high byte first when
/// `big_endian`.
pub open spec fn utf32_bytes(c: char, big_endian: bool) -> Seq<u8> {
    let v = code_point(c);
    let b = seq![(v / 0x1000000) as u8, ((v / 0x10000) % 256) as u8, ((v / 256) % 256) as u8, (v % 256) as u8];
    if big_endian { b } else { b.reverse() }
}

/// The bytes of `c` in the encoding named `enc`: `utf8`, `utf16be`,
/// `utf16le`, `utf32be`, `utf32le`, or `ascii` (one byte per character,
/// zero for a character from `0x100` on).
pub open spec fn char_bytes(c: char, enc: Seq<char>) -> Seq<u8> {
    if enc == "utf8"@ {
        utf8_bytes(c)
    } else if enc == "utf16be"@ {
        unit_bytes(utf16_units(c), true)
    } else if enc == "utf16le"@ {
        unit_bytes(utf16_units(c), false)
    } else if enc == "utf32be"@ {
        utf32_bytes(c, true)
    } else if enc == "utf32le"@ {
        utf32_bytes(c, false)
    } else {
        seq![if code_point(c) >= 0x100 { 0u8 } else { code_point(c) as u8 }]
    }
}

/// The bytes of the text `s` in the encoding named `enc`.
pub open spec fn encoded_bytes(s: Seq<char>, enc: Seq<char>) -> Seq<u8>
    decreases s.len(),
{
    if s.len() == 0 {
        Seq::empty()
    } else {
        encoded_bytes(s.drop_last(), enc) + char_bytes(s.last(), enc)
    }
}

/// Whether `enc` names a string encoding.
pub open spec fn is_string_encoding(enc: Seq<char>) -> bool {
    enc == "utf8"@ || enc == "utf16be"@ || enc == "utf16le"@ || enc == "utf32be"@
        || enc == "utf32le"@ || enc == "ascii"@
}

/// The encodings a string can be converted to.
enum Encoding {
    Utf8,
    Utf16 { big_endian: bool },
    Utf32 { big_endian: bool },
    Ascii,
}

/// Appends the bytes of one character in encoding `e`.
fn push_char_bytes(out: &mut Vec<u8>, c: char, e: &Encoding, Ghost(enc): Ghost<Seq<char>>)
    requires
        match *e {
            Encoding::Utf8 => enc == "utf8"@,
            Encoding::Utf16 { big_endian } => enc == (if big_endian { "utf16be"@ } else { "utf16le"@ })
                && enc != "utf8"@ && (!big_endian ==> enc != "utf16be"@),
            Encoding::Utf32 { big_endian } => enc == (if big_endian { "utf32be"@ } else { "utf32le"@ })
                && enc != "utf8"@ && enc != "utf16be"@ && enc != "utf16le"@ && (!big_endian ==> enc != "utf32be"@),
            Encoding::Ascii => enc != "utf8"@ && enc != "utf16be"@ && enc != "utf16le"@ && enc != "utf32be"@
                && enc != "utf32le"@,
        },
    ensures
        final(out)@ == old(out)@ + char_bytes(c, enc),
{
    let v: u32 = c as u32;
    assert(v as nat == code_point(c));
    match e {
        Encoding::Utf8 => {
            if v < 0x80 {
                out.push(v as u8);
            } else if v < 0x800 {
                out.push((0xC0 + v / 64) as u8);
                out.push((0x80 + v % 64) as u8);
            } else if v < 0x10000 {
                out.push((0xE0 + v / 4096) as u8);
                out.push((0x80 + (v / 64) % 64) as u8);
                out.push((0x80 + v % 64) as u8);
            } else {
                assert(v <= 0x10FFFF);
                out.push((0xF0 + v / 262144) as u8);
                out.push((0x80 + (v / 4096) % 64) as u8);
                out.push((0x80 + (v / 64) % 64) as u8);
                out.push((0x80 + v % 64) as u8);
            }
        },
        Encoding::Utf16 { big_endian } => {
            let ghost start = out@;
            if v < 0x10000 {
                push_unit(out, v, *big_endian);
                assert(utf16_units(c) =~= seq![v as nat]);
                assert(utf16_units(c).drop_last() =~= Seq::<nat>::empty());
            } else {
                assert(v <= 0x10FFFF);
                let w = v - 0x10000;
                push_unit(out, 0xD800 + w / 1024, *big_endian);
                push_unit(out, 0xDC00 + w % 1024, *big_endian);
                let ghost u = utf16_units(c);
                assert(u.drop_last() =~= seq![(0xD800 + w / 1024) as nat]);
                assert(u.drop_last().drop_last() =~= Seq::<nat>::empty());
            }
            proof { reveal_with_fuel(unit_bytes, 3); }
            assert(out@ =~= start + char_bytes(c, enc));
        },
        Encoding::Utf32 { big_endian } => {
            let b0 = (v / 0x1000000) as u8;
            let b1 = ((v / 0x10000) % 256) as u8;
            let b2 = ((v / 256) % 256) as u8;
            let b3 = (v % 256) as u8;
            let ghost start = out@;
            if *big_endian {
                out.push(b0);
                out.push(b1);
                out.push(b2);
                out.push(b3);
            } else {
                out.push(b3);
                out.push(b2);
                out.push(b1);
                out.push(b0);
            }
            assert(out@ =~= start + char_bytes(c, enc));
        },
        Encoding::Ascii => {
            if v >= 0x100 {
                out.push(0u8);
            } else {
                out.push(v as u8);
            }
        },
    }
}

/// Appends the two bytes of the 16-bit unit `u`.
fn push_unit(out: &mut Vec<u8>, u: u32, big_endian: bool)
    requires
        u < 0x10000,
    ensures
        final(out)@ == old(out)@ + (if big_endian {
            seq![(u / 256) as u8, (u % 256) as u8]
        } else {
            seq![(u % 256) as u8, (u / 256) as u8]
        }),
{
    let hi = (u / 256) as u8;
    let lo = (u % 256) as u8;
    if big_endian {
        out.push(hi);
        out.push(lo);
    } else {
        out.push(lo);
        out.push(hi);
    }
}

/// The bytes of the text `contents` in the encoding named `to_encoding`
/// (`utf8`, `utf16be`, `utf16le`, `utf32be`, `utf32le` or `ascii`), the
/// first byte most significant in the integer they make.
pub fn convert_string_encoding(contents: &str, to_encoding: &str) -> (r: Vec<u8>)
    requires
        is_string_encoding(to_encoding@),
    ensures
        r@ == encoded_bytes(contents@, to_encoding@),
{
    let e = if str_eq(to_encoding, "utf8") {
        Encoding::Utf8
    } else if str_eq(to_encoding, "utf16be") {
        Encoding::Utf16 { big_endian: true }
    } else if str_eq(to_encoding, "utf16le") {
        Encoding::Utf16 { big_endian: false }
    } else if str_eq(to_encoding, "utf32be") {
        Encoding::Utf32 { big_endian: true }
    } else if str_eq(to_encoding, "utf32le") {
        Encoding::Utf32 { big_endian: false }
    } else {
        Encoding::Ascii
    };
    let chars = str_chars(contents);
    let mut out: Vec<u8> = Vec::new();
    let mut i: usize = 0;
    assert(chars@.take(0) =~= Seq::<char>::empty());
    while i < chars.len()
        invariant
            i <= chars@.len(),
            chars@ == contents@,
            out@ == encoded_bytes(chars@.take(i as int), to_encoding@),
            match e {
                Encoding::Utf8 => to_encoding@ == "utf8"@,
                Encoding::Utf16 { big_endian } => to_encoding@ == (if big_endian { "utf16be"@ } else { "utf16le"@ })
                    && to_encoding@ != "utf8"@ && (!big_endian ==> to_encoding@ != "utf16be"@),
                Encoding::Utf32 { big_endian } => to_encoding@ == (if big_endian { "utf32be"@ } else { "utf32le"@ })
                    && to_encoding@ != "utf8"@ && to_encoding@ != "utf16be"@ && to_encoding@ != "utf16le"@
                    && (!big_endian ==> to_encoding@ != "utf32be"@),
                Encoding::Ascii => to_encoding@ != "utf8"@ && to_encoding@ != "utf16be"@ && to_encoding@ != "utf16le"@
                    && to_encoding@ != "utf32be"@ && to_encoding@ != "utf32le"@,
            },
        decreases chars.len() - i,
    {
        push_char_bytes(&mut out, chars[i], &e, Ghost(to_encoding@));
        assert(chars@.take(i + 1).drop_last() =~= chars@.take(i as int));
        i = i + 1;
    }
    assert(chars@.take(chars@.len() as int) =~= chars@);
    out
}

/// UTF-32 takes four bytes and `ascii` one byte per character, and text
/// below `0x80` encodes the same in UTF-8 as in `ascii`.
pub proof fn law_encoding_lengths(s: Seq<char>)
    ensures
        encoded_bytes(s, "utf32be"@).len() == 4 * s.len(),
        encoded_bytes(s, "utf32le"@).len() == 4 * s.len(),
        encoded_bytes(s, "ascii"@).len() == s.len(),
        (forall|i: int| 0 <= i < s.len() ==> code_point(#[trigger] s[i]) < 0x80)
            ==> encoded_bytes(s, "utf8"@) == encoded_bytes(s, "ascii"@),
    decreases s.len(),
{
    reveal_strlit("utf8");
    reveal_strlit("utf16be");
    reveal_strlit("utf16le");
    reveal_strlit("utf32be");
    reveal_strlit("utf32le");
    reveal_strlit("ascii");
    if s.len() > 0 {
        let s1 = s.drop_last();
        law_encoding_lengths(s1);
        let c = s.last();
        assert("utf32be"@.len() == 7 && "utf32le"@.len() == 7 && "utf8"@.len() == 4);
        assert("utf16be"@[3] == '1' && "utf16le"@[3] == '1' && "utf32be"@[3] == '3' && "utf32le"@[3] == '3' && "utf32be"@[5] == 'b' && "utf32le"@[5] == 'l');
        assert("utf32be"@ != "utf8"@ && "utf32be"@ != "utf16be"@ && "utf32be"@ != "utf16le"@);
        assert("utf32le"@ != "utf8"@ && "utf32le"@ != "utf16be"@ && "utf32le"@ != "utf16le"@);
        assert("utf32le"@ != "utf32be"@);
        assert(char_bytes(c, "utf32be"@) == utf32_bytes(c, true));
        assert(char_bytes(c, "utf32le"@) == utf32_bytes(c, false));
        assert(utf32_bytes(c, true).len() == 4);
        assert(utf32_bytes(c, false).len() == 4);
        if forall|i: int| 0 <= i < s.len() ==> code_point(#[trigger] s[i]) < 0x80 {
            assert forall|i: int| 0 <= i < s1.len() implies code_point(#[trigger] s1[i]) < 0x80 by {
                assert(s1[i] == s[i]);
            }
            assert(code_point(s[s.len() - 1]) < 0x80);
        }
    }
}

/// Which spelling each encoding name picks.
proof fn lemma_encoding_names(c: char)
    ensures
        char_bytes(c, "utf8"@) == utf8_bytes(c),
        char_bytes(c, "utf16be"@) == unit_bytes(utf16_units(c), true),
        char_bytes(c, "utf16le"@) == unit_bytes(utf16_units(c), false),
        char_bytes(c, "utf32be"@) == utf32_bytes(c, true),
        char_bytes(c, "utf32le"@) == utf32_bytes(c, false),
{
    reveal_strlit("utf8");
    reveal_strlit("utf16be");
    reveal_strlit("utf16le");
    reveal_strlit("utf32be");
    reveal_strlit("utf32le");
    assert("utf32be"@.len() == 7 && "utf32le"@.len() == 7 && "utf8"@.len() == 4);
    assert("utf16be"@[3] == '1' && "utf16le"@[3] == '1' && "utf32be"@[3] == '3' && "utf32le"@[3] == '3');
    assert("utf16be"@[5] == 'b' && "utf16le"@[5] == 'l' && "utf32be"@[5] == 'b' && "utf32le"@[5] == 'l');
}

/// The encoding of one character is its spelling.
proof fn lemma_encoded_one(c: char, enc: Seq<char>)
    ensures
        encoded_bytes(seq![c], enc) == char_bytes(c, enc),
{
    assert(seq![c].drop_last() =~= Seq::<char>::empty());
    assert(seq![c].last() == c);
    assert(encoded_bytes(Seq::<char>::empty(), enc) == Seq::<u8>::empty());
    assert(encoded_bytes(seq![c], enc) == encoded_bytes(Seq::<char>::empty(), enc) + char_bytes(c, enc));
    assert(Seq::<u8>::empty() + char_bytes(c, enc) =~= char_bytes(c, enc));
}

/// The bytes of a 16-bit unit recombine to it.
proof fn lemma_unit_split(x: u32)
    requires
        x < 0x10000,
    ensures
        ((x / 256) as u8) as nat * 256 + ((x % 256) as u8) as nat == x,
{
    assert(((x / 256) as u8) as u32 * 256 + ((x % 256) as u8) as u32 == x) by (bit_vector)
        requires x < 0x10000;
}

/// In UTF-32 a character is its code point in four bytes, most
/// significant first (`utf32be`) or last (`utf32le`).
pub proof fn law_utf32_spells_code_point(c: char)
    ensures
        ({
            let b = encoded_bytes(seq![c], "utf32be"@);
            b.len() == 4 && b[0] * 0x1000000 + b[1] * 0x10000 + b[2] * 0x100 + b[3] == code_point(c)
        }),
        ({
            let b = encoded_bytes(seq![c], "utf32le"@);
            b.len() == 4 && b[3] * 0x1000000 + b[2] * 0x10000 + b[1] * 0x100 + b[0] == code_point(c)
        }),
{
    lemma_encoding_names(c);
    lemma_encoded_one(c, "utf32be"@);
    lemma_encoded_one(c, "utf32le"@);
    let w = c as u32;
    assert(((w / 0x1000000) as u8) as u32 * 0x1000000 + (((w / 0x10000) % 256) as u8) as u32 * 0x10000
        + (((w / 256) % 256) as u8) as u32 * 256 + ((w % 256) as u8) as u32 == w) by (bit_vector)
        requires w <= 0x10FFFF;
    let b = utf32_bytes(c, true);
    assert(b.reverse() =~= seq![b[3], b[2], b[1], b[0]]);
}

/// The bytes of units, unit by unit.
proof fn lemma_unit_bytes_push(u: Seq<nat>, x: nat, big_endian: bool)
    ensures
        unit_bytes(u.push(x), big_endian) == unit_bytes(u, big_endian) + (if big_endian {
            seq![(x / 256) as u8, (x % 256) as u8]
        } else {
            seq![(x % 256) as u8, (x / 256) as u8]
        }),
{
    assert(u.push(x).drop_last() =~= u);
    assert(u.push(x).last() == x);
}

/// A character below `0x10000` in UTF-16: one unit, its code point.
proof fn lemma_utf16_single(c: char)
    requires
        code_point(c) < 0x10000,
    ensures
        ({
            let v = code_point(c);
            let b = unit_bytes(utf16_units(c), true);
            let l = unit_bytes(utf16_units(c), false);
            b.len() == 2 && b[0] * 256 + b[1] == v && l.len() == 2 && l[1] * 256 + l[0] == v
        }),
{
    let w = c as u32;
    lemma_unit_split(w);
    assert(utf16_units(c) =~= Seq::<nat>::empty().push(w as nat));
    lemma_unit_bytes_push(Seq::empty(), w as nat, true);
    lemma_unit_bytes_push(Seq::empty(), w as nat, false);
    assert(unit_bytes(Seq::<nat>::empty(), true) == Seq::<u8>::empty());
    assert(unit_bytes(Seq::<nat>::empty(), false) == Seq::<u8>::empty());
}

/// A character from `0x10000` on in UTF-16: a surrogate pair.
proof fn lemma_utf16_pair(c: char)
    requires
        code_point(c) >= 0x10000,
    ensures
        ({
            let v = code_point(c);
            let b = unit_bytes(utf16_units(c), true);
            let l = unit_bytes(utf16_units(c), false);
            let hi = b[0] * 256 + b[1];
            let lo = b[2] * 256 + b[3];
            &&& b.len() == 4 && l.len() == 4
            &&& 0xD800 <= hi < 0xDC00 && 0xDC00 <= lo < 0xE000
            &&& 0x10000 + (hi - 0xD800) * 1024 + (lo - 0xDC00) == v
            &&& l[0] == b[1] && l[1] == b[0] && l[2] == b[3] && l[3] == b[2]
        }),
{
    let w = c as u32;
    let v = code_point(c);
    let hi: u32 = (0xD800 + (w - 0x10000) / 1024) as u32;
    let lo: u32 = (0xDC00 + (w - 0x10000) % 1024) as u32;
    assert(utf16_units(c) =~= Seq::<nat>::empty().push(hi as nat).push(lo as nat));
    lemma_unit_split(hi);
    lemma_unit_split(lo);
    lemma_unit_bytes_push(Seq::empty(), hi as nat, true);
    lemma_unit_bytes_push(Seq::empty(), hi as nat, false);
    lemma_unit_bytes_push(Seq::empty().push(hi as nat), lo as nat, true);
    lemma_unit_bytes_push(Seq::empty().push(hi as nat), lo as nat, false);
    assert(unit_bytes(Seq::<nat>::empty(), true) == Seq::<u8>::empty());
    assert(unit_bytes(Seq::<nat>::empty(), false) == Seq::<u8>::empty());
    assert(0x10000 + (hi - 0xD800) * 1024 + (lo - 0xDC00) == v);
}

/// In UTF-16 a character below `0x10000` is one 16-bit unit, its code
/// point; any other is a surrogate pair, a high unit from `0xD800` and a
/// low unit from `0xDC00`, that recombines to its code point. Each unit
/// is written high byte first (`utf16be`) or last (`utf16le`).
pub proof fn law_utf16_spells_code_point(c: char)
    ensures
        ({
            let v = code_point(c);
            let b = encoded_bytes(seq![c], "utf16be"@);
            let l = encoded_bytes(seq![c], "utf16le"@);
            &&& v < 0x10000 ==> b.len() == 2 && b[0] * 256 + b[1] == v && l.len() == 2 && l[1] * 256 + l[0] == v
            &&& v >= 0x10000 ==> {
                let hi = b[0] * 256 + b[1];
                let lo = b[2] * 256 + b[3];
                &&& b.len() == 4 && l.len() == 4
                &&& 0xD800 <= hi < 0xDC00 && 0xDC00 <= lo < 0xE000
                &&& 0x10000 + (hi - 0xD800) * 1024 + (lo - 0xDC00) == v
                &&& l[0] == b[1] && l[1] == b[0] && l[2] == b[3] && l[3] == b[2]
            }
        }),
{
    lemma_encoding_names(c);
    lemma_encoded_one(c, "utf16be"@);
    lemma_encoded_one(c, "utf16le"@);
    if code_point(c) < 0x10000 {
        lemma_utf16_single(c);
    } else {
        lemma_utf16_pair(c);
    }
}

/// In UTF-8 a character below `0x80` is one byte, its code point; any
/// other is a lead byte that tells how many bytes follow (`0xC0`, `0xE0`
/// or `0xF0` on) and continuation bytes from `0x80` to `0xBF`, whose
/// payload bits, most significant first, are its code point.
pub proof fn law_utf8_spells_code_point(c: char)
    ensures
        ({
            let v = code_point(c);
            let b = encoded_bytes(seq![c], "utf8"@);
            &&& v < 0x80 ==> b.len() == 1 && b[0] == v
            &&& 0x80 <= v < 0x800 ==> b.len() == 2 && 0xC0 <= b[0] < 0xE0 && 0x80 <= b[1] < 0xC0
                && (b[0] - 0xC0) * 64 + (b[1] - 0x80) == v
            &&& 0x800 <= v < 0x10000 ==> b.len() == 3 && 0xE0 <= b[0] < 0xF0 && 0x80 <= b[1] < 0xC0 && 0x80 <= b[2] < 0xC0
                && (b[0] - 0xE0) * 4096 + (b[1] - 0x80) * 64 + (b[2] - 0x80) == v
            &&& 0x10000 <= v ==> b.len() == 4 && 0xF0 <= b[0] < 0xF8 && 0x80 <= b[1] < 0xC0 && 0x80 <= b[2] < 0xC0
                && 0x80 <= b[3] < 0xC0
                && (b[0] - 0xF0) * 262144 + (b[1] - 0x80) * 4096 + (b[2] - 0x80) * 64 + (b[3] - 0x80) == v
        }),
{
    lemma_encoding_names(c);
    lemma_encoded_one(c, "utf8"@);
    let w = c as u32;
    if w < 0x80 {
        assert((w as u8) as u32 == w) by (bit_vector)
            requires w < 0x80;
    } else if w < 0x800 {
        assert(((0xC0 + w / 64) as u8) as u32 == 0xC0 + w / 64 && ((0x80 + w % 64) as u8) as u32 == 0x80 + w % 64
            && 0xC0 <= 0xC0 + w / 64 < 0xE0 && (w / 64) * 64 + w % 64 == w) by (bit_vector)
            requires 0x80 <= w < 0x800;
    } else if w < 0x10000 {
        assert(((0xE0 + w / 4096) as u8) as u32 == 0xE0 + w / 4096
            && ((0x80 + (w / 64) % 64) as u8) as u32 == 0x80 + (w / 64) % 64
            && ((0x80 + w % 64) as u8) as u32 == 0x80 + w % 64
            && 0xE0 + w / 4096 < 0xF0
            && (w / 4096) * 4096 + ((w / 64) % 64) * 64 + w % 64 == w) by (bit_vector)
            requires 0x800 <= w < 0x10000;
    } else {
        assert(((0xF0 + w / 262144) as u8) as u32 == 0xF0 + w / 262144
            && ((0x80 + (w / 4096) % 64) as u8) as u32 == 0x80 + (w / 4096) % 64
            && ((0x80 + (w / 64) % 64) as u8) as u32 == 0x80 + (w / 64) % 64
            && ((0x80 + w % 64) as u8) as u32 == 0x80 + w % 64
            && 0xF0 + w / 262144 < 0xF8
            && (w / 262144) * 262144 + ((w / 4096) % 64) * 4096 + ((w / 64) % 64) * 64 + w % 64 == w) by (bit_vector)
            requires 0x10000 <= w <= 0x10FFFF;
    }
}

/// Text is encoded character by character: the encoding of two texts one
/// after the other is their encodings one after the other.
pub proof fn law_encoding_concat(s: Seq<char>, t: Seq<char>, enc: Seq<char>)
    ensures
        encoded_bytes(s + t, enc) == encoded_bytes(s, enc) + encoded_bytes(t, enc),
    decreases t.len(),
{
    if t.len() == 0 {
        assert(s + t =~= s);
        assert(encoded_bytes(s, enc) + encoded_bytes(t, enc) =~= encoded_bytes(s, enc));
    } else {
        law_encoding_concat(s, t.drop_last(), enc);
        assert((s + t).drop_last() =~= s + t.drop_last());
        assert((s + t).last() == t.last());
        assert(encoded_bytes(s + t, enc) =~= encoded_bytes(s, enc) + encoded_bytes(t, enc));
    }
}

} // verus!
