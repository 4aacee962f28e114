//! Building trace text: decimal and hexadecimal numerals, `Option` and
//! `bool` renderings, joined lists, and the ASCII-case-insensitive suffix
//! test used on file names.

use vstd::prelude::*;
use vstd::string::StringExecFns;
use vstd::string::StrSliceExecFns;

verus! {

/// The lowercase hexadecimal digit of `d` (`0 <= d < 16`).
pub open spec fn digit_char(d: int) -> char {
    if d < 10 { ((48 + d) as u32) as char } else { ((87 + d) as u32) as char }
}

/// Decimal numeral of `n`, no leading zeros.
pub open spec fn dec_digits(n: nat) -> Seq<char>
    decreases n,
{
    if n < 10 { seq![digit_char(n as int)] } else { dec_digits(n / 10).push(digit_char((n % 10) as int)) }
}

/// Lowercase hexadecimal numeral of `n`, no leading zeros.
pub open spec fn hex_digits(n: nat) -> Seq<char>
    decreases n,
{
    if n < 16 { seq![digit_char(n as int)] } else { hex_digits(n / 16).push(digit_char((n % 16) as int)) }
}

/// The `width` lowest hexadecimal digits of `n`, zero-padded.
pub open spec fn hex_padded(n: nat, width: nat) -> Seq<char>
    decreases width,
{
    if width == 0 { Seq::empty() } else { hex_padded(n / 16, (width - 1) as nat).push(digit_char((n % 16) as int)) }
}

/// `{:#x}`: `0x` and the hexadecimal numeral.
pub open spec fn hex_alt(n: nat) -> Seq<char> {
    seq!['0', 'x'] + hex_digits(n)
}

/// `{}` of a signed integer.
pub open spec fn dec_signed(v: int) -> Seq<char> {
    if v < 0 { seq!['-'] + dec_digits((-v) as nat) } else { dec_digits(v as nat) }
}

/// `{}` of a `bool`.
pub open spec fn bool_text(b: bool) -> Seq<char> {
    if b { seq!['t', 'r', 'u', 'e'] } else { seq!['f', 'a', 'l', 's', 'e'] }
}

/// `{:?}` of an `Option` of an integer.
pub open spec fn option_debug(v: Option<int>) -> Seq<char> {
    match v {
        Some(x) => seq!['S', 'o', 'm', 'e', '('] + dec_signed(x) + seq![')'],
        None => seq!['N', 'o', 'n', 'e'],
    }
}

fn digit_str(d: u64) -> (s: &'static str)
    requires
        d < 16,
    ensures
        s@ == seq![digit_char(d as int)],
{
    if d == 0 { proof { reveal_strlit("0"); } "0" }
    else if d == 1 { proof { reveal_strlit("1"); } "1" }
    else if d == 2 { proof { reveal_strlit("2"); } "2" }
    else if d == 3 { proof { reveal_strlit("3"); } "3" }
    else if d == 4 { proof { reveal_strlit("4"); } "4" }
    else if d == 5 { proof { reveal_strlit("5"); } "5" }
    else if d == 6 { proof { reveal_strlit("6"); } "6" }
    else if d == 7 { proof { reveal_strlit("7"); } "7" }
    else if d == 8 { proof { reveal_strlit("8"); } "8" }
    else if d == 9 { proof { reveal_strlit("9"); } "9" }
    else if d == 10 { proof { reveal_strlit("a"); } "a" }
    else if d == 11 { proof { reveal_strlit("b"); } "b" }
    else if d == 12 { proof { reveal_strlit("c"); } "c" }
    else if d == 13 { proof { reveal_strlit("d"); } "d" }
    else if d == 14 { proof { reveal_strlit("e"); } "e" }
    else { proof { reveal_strlit("f"); } "f" }
}

/// Appends the decimal numeral of `n`.
pub fn push_dec(s: &mut String, n: u64)
    ensures
        final(s)@ == old(s)@ + dec_digits(n as nat),
    decreases n,
{
    let ghost s0 = s@;
    if n >= 10 {
        push_dec(s, n / 10);
    }
    s.append(digit_str(n % 10));
    proof {
        if n >= 10 {
            assert(s0 + dec_digits((n / 10) as nat) + seq![digit_char((n % 10) as int)] =~= s0 + dec_digits(n as nat));
        } else {
            assert(s0 + seq![digit_char((n % 10) as int)] =~= s0 + dec_digits(n as nat));
        }
    }
}

/// Appends the lowercase hexadecimal numeral of `n`.
pub fn push_hex(s: &mut String, n: u64)
    ensures
        final(s)@ == old(s)@ + hex_digits(n as nat),
    decreases n,
{
    let ghost s0 = s@;
    if n >= 16 {
        push_hex(s, n / 16);
    }
    s.append(digit_str(n % 16));
    proof {
        if n >= 16 {
            assert(s0 + hex_digits((n / 16) as nat) + seq![digit_char((n % 16) as int)] =~= s0 + hex_digits(n as nat));
        } else {
            assert(s0 + seq![digit_char((n % 16) as int)] =~= s0 + hex_digits(n as nat));
        }
    }
}

/// Appends exactly `width` hexadecimal digits of `n`, zero-padded.
pub fn push_hex_padded(s: &mut String, n: u64, width: u32)
    ensures
        final(s)@ == old(s)@ + hex_padded(n as nat, width as nat),
    decreases width,
{
    let ghost s0 = s@;
    if width == 0 {
        proof {
            assert(s0 + hex_padded(n as nat, 0) =~= s0);
        }
        return;
    }
    push_hex_padded(s, n / 16, width - 1);
    s.append(digit_str(n % 16));
    proof {
        assert(s0 + hex_padded((n / 16) as nat, (width - 1) as nat) + seq![digit_char((n % 16) as int)]
            =~= s0 + hex_padded(n as nat, width as nat));
    }
}

/// Appends `{:#x}` of `n`.
pub fn push_hex_alt(s: &mut String, n: u64)
    ensures
        final(s)@ == old(s)@ + hex_alt(n as nat),
{
    let ghost s0 = s@;
    s.append("0x");
    proof {
        reveal_strlit("0x");
    }
    push_hex(s, n);
    proof {
        assert(s0 + seq!['0', 'x'] + hex_digits(n as nat) =~= s0 + hex_alt(n as nat));
    }
}

/// Appends `{}` of a signed integer.
pub fn push_dec_signed(s: &mut String, v: i64)
    ensures
        final(s)@ == old(s)@ + dec_signed(v as int),
{
    let ghost s0 = s@;
    if v < 0 {
        s.append("-");
        proof {
            reveal_strlit("-");
        }
        let m: u64 = if v == i64::MIN { 0x8000_0000_0000_0000u64 } else { (-v) as u64 };
        push_dec(s, m);
        proof {
            assert(s0 + seq!['-'] + dec_digits(m as nat) =~= s0 + dec_signed(v as int));
        }
    } else {
        push_dec(s, v as u64);
    }
}

/// Appends `{}` of a `bool`.
pub fn push_bool(s: &mut String, b: bool)
    ensures
        final(s)@ == old(s)@ + bool_text(b),
{
    if b {
        s.append("true");
        proof {
            reveal_strlit("true");
        }
    } else {
        s.append("false");
        proof {
            reveal_strlit("false");
        }
    }
}

/// Appends `{:?}` of an optional signed integer.
pub fn push_option_debug(s: &mut String, v: Option<i64>)
    ensures
        final(s)@ == old(s)@ + option_debug(match v {
            Some(x) => Some(x as int),
            None => None,
        }),
{
    let ghost s0 = s@;
    match v {
        Some(x) => {
            s.append("Some(");
            proof {
                reveal_strlit("Some(");
            }
            push_dec_signed(s, x);
            s.append(")");
            proof {
                reveal_strlit(")");
                assert(s0 + seq!['S', 'o', 'm', 'e', '('] + dec_signed(x as int) + seq![')']
                    =~= s0 + option_debug(Some(x as int)));
            }
        },
        None => {
            s.append("None");
            proof {
                reveal_strlit("None");
            }
        },
    }
}

/// `parts` joined with `sep` between neighbours.
pub open spec fn join(parts: Seq<Seq<char>>, sep: Seq<char>) -> Seq<char>
    decreases parts.len(),
{
    if parts.len() == 0 {
        Seq::empty()
    } else if parts.len() == 1 {
        parts[0]
    } else {
        join(parts.drop_last(), sep) + sep + parts.last()
    }
}

/// ASCII lowercase of one character; other characters stay as they are.
pub open spec fn ascii_lower(c: char) -> char {
    if 'A' <= c <= 'Z' { ((c as u32) + 32) as char } else { c }
}

/// The text ends with `suffix` when ASCII letters are compared without case
/// (`suffix` itself is lowercase).
pub open spec fn ends_with_ascii_ci(text: Seq<char>, suffix: Seq<char>) -> bool {
    &&& text.len() >= suffix.len()
    &&& forall|i: int| 0 <= i < suffix.len() ==> #[trigger] ascii_lower(text[text.len() - suffix.len() + i]) == suffix[i]
}

fn ascii_lower_char(c: char) -> (r: char)
    ensures
        r == ascii_lower(c),
{
    if 'A' <= c && c <= 'Z' {
        let u = ((c as u32) + 32) as u8;
        u as char
    } else {
        c
    }
}

/// `text` ends with `suffix`, ASCII letters compared without case; `suffix`
/// is given in lowercase.
pub fn ends_with_ascii_ci_exec(text: &str, suffix: &str) -> (r: bool)
    ensures
        r == ends_with_ascii_ci(text@, suffix@),
{
    let n = text.unicode_len();
    let m = suffix.unicode_len();
    if n < m {
        return false;
    }
    let mut i: usize = 0;
    while i < m
        invariant
            n == text@.len(),
            m == suffix@.len(),
            n >= m,
            0 <= i <= m,
            forall|j: int| 0 <= j < i ==> #[trigger] ascii_lower(text@[n - m + j]) == suffix@[j],
        decreases m - i,
    {
        let a = ascii_lower_char(text.get_char(n - m + i));
        let b = suffix.get_char(i);
        if a != b {
            return false;
        }
        i = i + 1;
    }
    true
}

/// Calls `String::from_iter` on the characters, which collects them into a
/// string in order.
#[verifier::external_body]
pub(crate) fn string_from_chars(v: &[char]) -> (s: String)
    ensures
        s@ == v@,
{
    v.iter().collect::<String>()
}

} // verus!
