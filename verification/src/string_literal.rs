//! The body of a quoted string: its characters, with escape sequences read.
use vstd::prelude::*;
use crate::text::{hex_digit, hex_digit_value};

verus! {

/// The character a one-letter escape sequence `\c` stands for: `\\`,
/// `\"`, `\'`, `\0`, `\t`, `\n` and `\r`.
pub open spec fn simple_escape(c: char) -> Option<char> {
    if c == '\\' {
        Some('\\')
    } else if c == '"' {
        Some('"')
    } else if c == '\'' {
        Some('\'')
    } else if c == '0' {
        Some('\0')
    } else if c == 't' {
        Some('\t')
    } else if c == 'n' {
        Some('\n')
    } else if c == 'r' {
        Some('\r')
    } else {
        None
    }
}

/// The value of `s` read as hexadecimal digits; none when one is not a
/// digit.
pub open spec fn hex_digits_value(s: Seq<char>) -> Option<nat>
    decreases s.len(),
{
    if s.len() == 0 {
        Some(0)
    } else {
        match hex_digits_value(s.drop_last()) {
            None => None,
            Some(v) => match hex_digit_value(s.last()) {
                None => None,
                Some(d) => Some(16 * v + d),
            },
        }
    }
}

/// Whether `v` is the code of a character: at most `0x10FFFF`, and not a
/// surrogate.
pub open spec fn is_char_code(v: nat) -> bool {
    v <= 0x10FFFF && !(0xD800 <= v && v <= 0xDFFF)
}

/// The index of the first `}` in `s`, or -1 when there is none.
pub open spec fn first_close(s: Seq<char>) -> int
    decreases s.len(),
{
    if s.len() == 0 {
        -1
    } else if s[0] == '}' {
        0
    } else if first_close(s.drop_first()) < 0 {
        -1
    } else {
        first_close(s.drop_first()) + 1
    }
}

/// `c` in front of what `rest` holds, if it holds anything.
pub open spec fn prepend(c: char, rest: Option<Seq<char>>) -> Option<Seq<char>> {
    match rest {
        Some(r) => Some(seq![c] + r),
        None => None,
    }
}

/// The escape sequence that opens `s`, which starts with `\\`: the
/// character it stands for and its length; none when it is not one. It
/// is one of the letters of `simple_escape`; `x` and two hexadecimal
/// digits; or `u{`, one to six hexadecimal digits naming a character's
/// code, and `}`.
pub open spec fn escape_at(s: Seq<char>) -> Option<(char, int)> {
    if s.len() < 2 {
        None
    } else if simple_escape(s[1]) is Some {
        Some((simple_escape(s[1]).unwrap(), 2))
    } else if s[1] == 'x' {
        if s.len() >= 4 {
            match hex_digits_value(s.subrange(2, 4)) {
                Some(v) => Some((v as char, 4)),
                None => None,
            }
        } else {
            None
        }
    } else if s[1] == 'u' {
        let j = first_close(s);
        if s.len() >= 3 && s[2] == '{' && 4 <= j <= 9 && j < s.len() {
            match hex_digits_value(s.subrange(3, j)) {
                Some(v) => if is_char_code(v) {
                    Some((v as char, j + 1))
                } else {
                    None
                },
                None => None,
            }
        } else {
            None
        }
    } else {
        None
    }
}

/// The characters that the body `s` of a quoted string (what stands
/// between its quotes) stands for, or none when it is not well formed: a
/// `\\` opens an escape sequence, as `escape_at` reads it; every other
/// character stands for itself, but for `"`, which only an escape
/// sequence may hold.
pub open spec fn string_contents(s: Seq<char>) -> Option<Seq<char>>
    decreases s.len(),
{
    if s.len() == 0 {
        Some(Seq::empty())
    } else if s[0] == '"' {
        None
    } else if s[0] != '\\' {
        prepend(s[0], string_contents(s.drop_first()))
    } else {
        match escape_at(s) {
            Some((c, l)) => if 0 < l <= s.len() {
                prepend(c, string_contents(s.skip(l)))
            } else {
                None
            },
            None => None,
        }
    }
}

/// The character a one-letter escape sequence stands for, as
/// `simple_escape` says.
fn simple_escape_exec(c: char) -> (r: Option<char>)
    ensures
        r == simple_escape(c),
{
    if c == '\\' {
        Some('\\')
    } else if c == '"' {
        Some('"')
    } else if c == '\'' {
        Some('\'')
    } else if c == '0' {
        Some('\0')
    } else if c == 't' {
        Some('\t')
    } else if c == 'n' {
        Some('\n')
    } else if c == 'r' {
        Some('\r')
    } else {
        None
    }
}

/// `char::from_u32`: the character whose code is `v`, none when `v` is no
/// character's code, as the standard library documents it.
#[verifier::external_body]
fn char_from_code(v: u32) -> (r: Option<char>)
    ensures
        r is Some <==> is_char_code(v as nat),
        r matches Some(c) ==> c == (v as nat) as char,
{
    char::from_u32(v)
}

/// Where the first `}` of `s` lies, given that the first `j` characters
/// hold none.
proof fn lemma_first_close(s: Seq<char>, j: int)
    requires
        0 <= j <= s.len(),
        forall|k: int| 0 <= k < j ==> s[k] != '}',
    ensures
        first_close(s) == -1 || first_close(s) >= j,
        j < s.len() && s[j] == '}' ==> first_close(s) == j,
        -1 <= first_close(s) < s.len(),
    decreases s.len(),
{
    if s.len() > 0 {
        if j == 0 {
            lemma_first_close(s.drop_first(), 0);
        } else {
            assert forall|k: int| 0 <= k < j - 1 implies s.drop_first()[k] != '}' by {
                assert(s.drop_first()[k] == s[k + 1]);
            }
            lemma_first_close(s.drop_first(), j - 1);
            if j < s.len() {
                assert(s.drop_first()[j - 1] == s[j]);
            }
        }
    }
}

/// Reading one more hexadecimal digit.
proof fn lemma_hex_digits_push(s: Seq<char>, k: int)
    requires
        0 <= k < s.len(),
    ensures
        hex_digits_value(s.take(k + 1)) == (match hex_digits_value(s.take(k)) {
            None => None,
            Some(v) => match hex_digit_value(s[k]) {
                None => None,
                Some(d) => Some(16 * v + d),
            },
        }),
{
    assert(s.take(k + 1).drop_last() =~= s.take(k));
    assert(s.take(k + 1).last() == s[k]);
}

/// A hexadecimal digit is below 16.
proof fn lemma_hex_digit_bound(c: char)
    ensures
        hex_digit_value(c) matches Some(d) ==> d < 16,
{
}

/// The `\\x` escape sequence at `i`, as `escape_at` reads it.
fn read_hex_escape(body: &Vec<char>, i: usize) -> (r: Option<(char, usize)>)
    requires
        i + 1 < body@.len(),
        body@[i as int] == '\\',
        body@[i + 1] == 'x',
    ensures
        match escape_at(body@.skip(i as int)) {
            Some((c, l)) => r matches Some((x, m)) && x == c && m == l,
            None => r is None,
        },
{
    let ghost s = body@.skip(i as int);
    assert(s[1] == 'x');
    assert(simple_escape(s[1]) is None);
    let n = body.len();
    if n - i < 4 {
        return None;
    }
    let a = hex_digit(body[i + 2]);
    let b = hex_digit(body[i + 3]);
    let ghost h = s.subrange(2, 4);
    proof {
        reveal_with_fuel(hex_digits_value, 3);
        assert(h.drop_last().drop_last() =~= Seq::<char>::empty());
        assert(h.drop_last().last() == body@[i + 2]);
        assert(h.last() == body@[i + 3]);
    }
    match (a, b) {
        (Some(a), Some(b)) => {
            proof {
                lemma_hex_digit_bound(body@[i + 2]);
                lemma_hex_digit_bound(body@[i + 3]);
            }
            let v = a * 16 + b;
            assert(hex_digits_value(h) == Some(v as nat));
            match char_from_code(v) {
                Some(x) => {
                    assert(x == (v as nat) as char);
                    Some((x, 4))
                },
                None => None,
            }
        },
        _ => None,
    }
}

/// The `\\u{..}` escape sequence at `i`, as `escape_at` reads it.
fn read_unicode_escape(body: &Vec<char>, i: usize) -> (r: Option<(char, usize)>)
    requires
        i + 1 < body@.len(),
        body@[i as int] == '\\',
        body@[i + 1] == 'u',
    ensures
        match escape_at(body@.skip(i as int)) {
            Some((c, l)) => r matches Some((x, m)) && x == c && m == l,
            None => r is None,
        },
{
    let ghost s = body@.skip(i as int);
    assert(s[1] == 'u');
    assert(simple_escape(s[1]) is None);
    let n = body.len();
    if n - i < 3 || body[i + 2] != '{' {
        return None;
    }
    assert(s[2] == body@[i + 2]);
    assert(s[0] == '\\');
    let mut k: usize = i + 3;
    let mut v: u32 = 0;
    proof {
        assert(s.subrange(3, 3) =~= Seq::<char>::empty());
        vstd::arithmetic::power2::lemma2_to64();
    }
    while k < n && k - i < 9 && body[k] != '}'
        invariant
            n == body@.len(),
            i + 3 <= k <= n,
            k <= i + 9,
            s == body@.skip(i as int),
            s.len() == n - i,
            s[0] == '\\' && s[1] == 'u' && s[2] == '{',
            forall|m: int| 0 <= m < k - i ==> s[m] != '}',
            hex_digits_value(s.subrange(3, k - i)) == Some(v as nat),
            v < vstd::arithmetic::power2::pow2((4 * (k - i - 3)) as nat),
            vstd::arithmetic::power2::pow2(24) == 0x1000000,
            vstd::arithmetic::power2::pow2(4) == 16,
        decreases n - k,
    {
        assert(s[k - i] == body@[k as int]);
        let d = hex_digit(body[k]);
        proof { lemma_hex_digits_push(s.skip(3), k - i - 3); }
        assert(s.skip(3).take(k - i - 3) =~= s.subrange(3, k - i));
        assert(s.skip(3).take(k - i - 2) =~= s.subrange(3, k - i + 1));
        assert(s.skip(3)[k - i - 3] == body@[k as int]);
        match d {
            Some(d) => {
                let ghost e: nat = (4 * (k - i - 3)) as nat;
                proof {
                    lemma_hex_digit_bound(body@[k as int]);
                    vstd::arithmetic::power2::lemma_pow2_adds(e, 4);
                    if e + 4 < 24 {
                        vstd::arithmetic::power2::lemma_pow2_strictly_increases(e + 4, 24);
                    }
                }
                assert(v * 16 + d < vstd::arithmetic::power2::pow2(e) * 16) by (nonlinear_arith)
                    requires
                        v < vstd::arithmetic::power2::pow2(e),
                        d < 16;
                v = v * 16 + d;
                k = k + 1;
            },
            None => {
                proof {
                    lemma_first_close(s, k - i + 1);
                    let j = first_close(s);
                    if 4 <= j <= 9 && j < s.len() {
                        assert(s.subrange(3, j).take(k - i + 1 - 3) =~= s.subrange(3, k - i + 1));
                        lemma_hex_none_prefix(s.subrange(3, j), k - i + 1 - 3);
                    }
                }
                return None;
            },
        }
    }
    if k >= n || body[k] != '}' {
        proof {
            if k < n {
                assert(s[k - i] == body@[k as int]);
                lemma_first_close(s, k - i + 1);
            } else {
                lemma_first_close(s, k - i);
            }
        }
        return None;
    }
    assert(s[k - i] == body@[k as int]);
    proof { lemma_first_close(s, k - i); }
    if k - i == 3 {
        return None;
    }
    match char_from_code(v) {
        Some(x) => {
            assert(x == (v as nat) as char);
            Some((x, k - i + 1))
        },
        None => None,
    }
}

/// The escape sequence at `i`, as `escape_at` reads it.
fn read_escape(body: &Vec<char>, i: usize) -> (r: Option<(char, usize)>)
    requires
        i < body@.len(),
        body@[i as int] == '\\',
    ensures
        match escape_at(body@.skip(i as int)) {
            Some((c, l)) => r matches Some((x, m)) && x == c && m == l,
            None => r is None,
        },
{
    let ghost s = body@.skip(i as int);
    if body.len() - i < 2 {
        return None;
    }
    let e = body[i + 1];
    assert(s[1] == e);
    match simple_escape_exec(e) {
        Some(x) => Some((x, 2)),
        None => {
            if e == 'x' {
                read_hex_escape(body, i)
            } else if e == 'u' {
                read_unicode_escape(body, i)
            } else {
                None
            }
        },
    }
}

/// The characters the body of a quoted string stands for, as
/// `string_contents` says; none when it is not well formed.
pub fn read_string_contents(body: &Vec<char>) -> (r: Option<Vec<char>>)
    ensures
        match string_contents(body@) {
            Some(c) => r matches Some(x) && x@ == c,
            None => r is None,
        },
{
    let mut out: Vec<char> = Vec::new();
    let n = body.len();
    let mut i: usize = 0;
    assert(body@.skip(0) =~= body@);
    while i < n
        invariant
            n == body@.len(),
            i <= n,
            string_contents(body@) == (match string_contents(body@.skip(i as int)) {
                Some(c) => Some(out@ + c),
                None => None::<Seq<char>>,
            }),
        decreases n - i,
    {
        let ghost s = body@.skip(i as int);
        let ghost before = out@;
        assert(s[0] == body@[i as int]);
        let c = body[i];
        if c == '"' {
            return None;
        }
        let (x, step) = if c != '\\' {
            assert(body@.skip(i + 1) =~= s.drop_first());
            (c, 1)
        } else {
            match read_escape(body, i) {
                Some((x, l)) => {
                    assert(body@.skip(i + l) =~= s.skip(l as int));
                    (x, l)
                },
                None => {
                    return None;
                },
            }
        };
        out.push(x);
        i = i + step;
        assert(out@ =~= before + seq![x]);
        proof {
            if let Some(rest) = string_contents(body@.skip(i as int)) {
                assert(before + (seq![x] + rest) =~= out@ + rest);
            }
        }
    }
    assert(body@.skip(n as int) =~= Seq::<char>::empty());
    Some(out)
}

/// A sequence whose first `k` characters are not all hexadecimal digits is
/// not read as hexadecimal digits.
proof fn lemma_hex_none_prefix(s: Seq<char>, k: int)
    requires
        0 <= k <= s.len(),
        hex_digits_value(s.take(k)) is None,
    ensures
        hex_digits_value(s) is None,
    decreases s.len() - k,
{
    if k < s.len() {
        lemma_hex_digits_push(s, k);
        lemma_hex_none_prefix(s, k + 1);
    } else {
        assert(s.take(k) =~= s);
    }
}

} // verus!
