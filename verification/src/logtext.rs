//! Reading fields out of capture-log lines: whitespace-separated tokens,
//! `key=value` tokens, substring search, and the decimal, hexadecimal and
//! boolean values that Rust's `parse` and `from_str_radix` accept.

use vstd::prelude::*;
use vstd::string::StrSliceExecFns;

verus! {

/// Unicode `White_Space`, as `char::is_whitespace` tests it.
pub open spec fn is_ws(c: char) -> bool {
    let u = c as u32;
    (9 <= u <= 13) || u == 32 || u == 0x85 || u == 0xA0 || u == 0x1680 || (0x2000 <= u <= 0x200A)
        || u == 0x2028 || u == 0x2029 || u == 0x202F || u == 0x205F || u == 0x3000
}

pub fn is_ws_exec(c: char) -> (r: bool)
    ensures
        r == is_ws(c),
{
    let u = c as u32;
    (9 <= u && u <= 13) || u == 32 || u == 0x85 || u == 0xA0 || u == 0x1680 || (0x2000 <= u && u <= 0x200A)
        || u == 0x2028 || u == 0x2029 || u == 0x202F || u == 0x205F || u == 0x3000
}

/// Length of the run of non-whitespace characters at the start of `s`.
pub open spec fn word_len(s: Seq<char>) -> nat
    decreases s.len(),
{
    if s.len() == 0 || is_ws(s[0]) { 0 } else { 1 + word_len(s.drop_first()) }
}

pub proof fn lemma_word_len(s: Seq<char>)
    ensures
        word_len(s) <= s.len(),
        s.len() > 0 && !is_ws(s[0]) ==> word_len(s) >= 1,
        forall|i: int| 0 <= i < word_len(s) ==> !is_ws(#[trigger] s[i]),
        word_len(s) < s.len() ==> is_ws(s[word_len(s) as int]),
    decreases s.len(),
{
    if s.len() > 0 && !is_ws(s[0]) {
        lemma_word_len(s.drop_first());
        assert forall|i: int| 0 <= i < word_len(s) implies !is_ws(#[trigger] s[i]) by {
            if i > 0 {
                assert(s[i] == s.drop_first()[i - 1]);
            }
        }
        if word_len(s) < s.len() {
            assert(s[word_len(s) as int] == s.drop_first()[word_len(s.drop_first()) as int]);
        }
    }
}

/// `split_whitespace`: the maximal runs of non-whitespace characters.
pub open spec fn tokens(s: Seq<char>) -> Seq<Seq<char>>
    decreases s.len(),
{
    if s.len() == 0 {
        Seq::empty()
    } else if is_ws(s[0]) {
        tokens(s.drop_first())
    } else {
        proof {
            lemma_word_len(s);
        }
        seq![s.take(word_len(s) as int)] + tokens(s.skip(word_len(s) as int))
    }
}

/// The characters of a string.
pub fn chars_of(s: &str) -> (v: Vec<char>)
    ensures
        v@ == s@,
{
    let n = s.unicode_len();
    let mut v: Vec<char> = Vec::new();
    let mut i: usize = 0;
    while i < n
        invariant
            n == s@.len(),
            0 <= i <= n,
            v@ == s@.take(i as int),
        decreases n - i,
    {
        v.push(s.get_char(i));
        proof {
            assert(s@.take(i + 1) =~= s@.take(i as int).push(s@[i as int]));
        }
        i = i + 1;
    }
    proof {
        assert(s@.take(n as int) =~= s@);
    }
    v
}

pub(crate) fn copy_range(s: &[char], from: usize, to: usize) -> (v: Vec<char>)
    requires
        from <= to <= s@.len(),
    ensures
        v@ == s@.subrange(from as int, to as int),
{
    let mut v: Vec<char> = Vec::new();
    let mut i = from;
    while i < to
        invariant
            from <= i <= to <= s@.len(),
            v@ == s@.subrange(from as int, i as int),
        decreases to - i,
    {
        v.push(s[i]);
        proof {
            assert(s@.subrange(from as int, i + 1) =~= s@.subrange(from as int, i as int).push(s@[i as int]));
        }
        i = i + 1;
    }
    v
}

pub open spec fn char_views(v: Seq<Vec<char>>) -> Seq<Seq<char>> {
    v.map_values(|t: Vec<char>| t@)
}

/// Splits `s` at whitespace, as `split_whitespace` does.
pub fn split_whitespace(s: &[char]) -> (out: Vec<Vec<char>>)
    ensures
        char_views(out@) == tokens(s@),
{
    let mut out: Vec<Vec<char>> = Vec::new();
    let mut i: usize = 0;
    proof {
        assert(s@.skip(0) =~= s@);
        assert(char_views(out@) + tokens(s@) =~= tokens(s@));
    }
    while i < s.len()
        invariant
            0 <= i <= s@.len(),
            char_views(out@) + tokens(s@.skip(i as int)) == tokens(s@),
        decreases s@.len() - i,
    {
        let ghost rest = s@.skip(i as int);
        if is_ws_exec(s[i]) {
            proof {
                assert(rest.drop_first() =~= s@.skip(i + 1));
            }
            i = i + 1;
        } else {
            let start = i;
            while i < s.len() && !is_ws_exec(s[i])
                invariant
                    start <= i <= s@.len(),
                    rest == s@.skip(start as int),
                    forall|k: int| start <= k < i ==> !is_ws(#[trigger] s@[k]),
                decreases s@.len() - i,
            {
                i = i + 1;
            }
            let word = copy_range(s, start, i);
            let ghost before = char_views(out@);
            out.push(word);
            proof {
                // the run just copied is the first token of `rest`
                lemma_word_len(rest);
                let k = word_len(rest) as int;
                if k < i - start {
                    assert(is_ws(rest[k]));
                    assert(rest[k] == s@[start + k]);
                }
                if k > i - start {
                    assert(!is_ws(rest[i - start]));
                    assert(rest[i - start] == s@[i as int]);
                }
                assert(k == i - start);
                assert(rest.take(k) =~= s@.subrange(start as int, i as int));
                assert(rest.skip(k) =~= s@.skip(i as int));
                assert(char_views(out@) =~= before.push(word@));
                assert(tokens(rest) == seq![rest.take(k)] + tokens(rest.skip(k)));
                assert(before.push(word@) + tokens(s@.skip(i as int)) =~= before + tokens(rest));
            }
        }
    }
    proof {
        assert(s@.skip(s@.len() as int) =~= Seq::<char>::empty());
        assert(char_views(out@) + Seq::<Seq<char>>::empty() =~= char_views(out@));
    }
    out
}

pub open spec fn has_prefix(t: Seq<char>, p: Seq<char>) -> bool {
    p.len() <= t.len() && t.take(p.len() as int) == p
}

pub fn starts_with(t: &[char], p: &[char]) -> (r: bool)
    ensures
        r == has_prefix(t@, p@),
{
    if p.len() > t.len() {
        return false;
    }
    let mut i: usize = 0;
    while i < p.len()
        invariant
            p@.len() <= t@.len(),
            0 <= i <= p@.len(),
            forall|k: int| 0 <= k < i ==> t@[k] == p@[k],
        decreases p@.len() - i,
    {
        if t[i] != p[i] {
            proof {
                assert(t@.take(p@.len() as int)[i as int] != p@[i as int]);
            }
            return false;
        }
        i = i + 1;
    }
    proof {
        assert(t@.take(p@.len() as int) =~= p@);
    }
    true
}

/// The rest of the first token that starts with `key`.
pub open spec fn first_prefixed(toks: Seq<Seq<char>>, key: Seq<char>) -> Option<Seq<char>>
    decreases toks.len(),
{
    if toks.len() == 0 {
        None
    } else if has_prefix(toks[0], key) {
        Some(toks[0].skip(key.len() as int))
    } else {
        first_prefixed(toks.drop_first(), key)
    }
}

/// The value of the first token `key...` among the tokens.
pub fn prefixed_value(toks: &Vec<Vec<char>>, key: &[char]) -> (r: Option<Vec<char>>)
    ensures
        match r {
            Some(v) => first_prefixed(char_views(toks@), key@) == Some(v@),
            None => first_prefixed(char_views(toks@), key@) is None,
        },
{
    let ghost tv = char_views(toks@);
    let mut i: usize = 0;
    proof {
        assert(tv.skip(0) =~= tv);
    }
    while i < toks.len()
        invariant
            0 <= i <= toks@.len(),
            tv == char_views(toks@),
            first_prefixed(tv, key@) == first_prefixed(tv.skip(i as int), key@),
        decreases toks@.len() - i,
    {
        proof {
            assert(tv.skip(i as int)[0] == toks@[i as int]@);
            assert(tv.skip(i as int).drop_first() =~= tv.skip(i + 1));
        }
        if starts_with(toks[i].as_slice(), key) {
            return Some(copy_range(toks[i].as_slice(), key.len(), toks[i].len()));
        }
        i = i + 1;
    }
    proof {
        assert(tv.skip(i as int).len() == 0);
    }
    None
}

/// `pat` occurs in `s` at index `i`.
pub open spec fn occurs_at(s: Seq<char>, pat: Seq<char>, i: int) -> bool {
    0 <= i && i + pat.len() <= s.len() && s.subrange(i, i + pat.len()) == pat
}

/// The first index at or after `i` where `pat` occurs in `s`.
pub open spec fn find_from(s: Seq<char>, pat: Seq<char>, i: int) -> Option<int>
    decreases s.len() + 1 - i,
{
    if i < 0 || i + pat.len() > s.len() {
        None
    } else if occurs_at(s, pat, i) {
        Some(i)
    } else {
        find_from(s, pat, i + 1)
    }
}

fn matches_at(s: &[char], pat: &[char], i: usize) -> (r: bool)
    requires
        i + pat@.len() <= s@.len(),
    ensures
        r == occurs_at(s@, pat@, i as int),
{
    let n = s.len();
    let mut k: usize = 0;
    while k < pat.len()
        invariant
            n == s@.len(),
            i + pat@.len() <= s@.len(),
            0 <= k <= pat@.len(),
            forall|j: int| 0 <= j < k ==> s@[i + j] == pat@[j],
        decreases pat@.len() - k,
    {
        if s[i + k] != pat[k] {
            proof {
                assert(s@.subrange(i as int, i + pat@.len())[k as int] != pat@[k as int]);
            }
            return false;
        }
        k = k + 1;
    }
    proof {
        assert(s@.subrange(i as int, i + pat@.len()) =~= pat@);
    }
    true
}

/// The first index where `pat` occurs in `s`.
pub fn find(s: &[char], pat: &[char]) -> (r: Option<usize>)
    ensures
        match r {
            Some(i) => find_from(s@, pat@, 0) == Some(i as int),
            None => find_from(s@, pat@, 0) is None,
        },
{
    if pat.len() > s.len() {
        return None;
    }
    let last = s.len() - pat.len();
    let mut i: usize = 0;
    loop
        invariant
            last == s@.len() - pat@.len(),
            0 <= i <= last,
            find_from(s@, pat@, 0) == find_from(s@, pat@, i as int),
        decreases last - i,
    {
        if matches_at(s, pat, i) {
            return Some(i);
        }
        if i == last {
            return None;
        }
        i = i + 1;
    }
}

/// `s` before and after the first occurrence of `pat`.
pub open spec fn split_once(s: Seq<char>, pat: Seq<char>) -> Option<(Seq<char>, Seq<char>)> {
    match find_from(s, pat, 0) {
        Some(i) => Some((s.take(i), s.skip(i + pat.len()))),
        None => None,
    }
}

/// The value of a decimal digit string (no sign).
pub open spec fn dec_value(d: Seq<char>) -> nat
    decreases d.len(),
{
    if d.len() == 0 { 0 } else { dec_value(d.drop_last()) * 10 + ((d.last() as u32) - 48) as nat }
}

pub open spec fn hex_digit_value(c: char) -> int {
    let u = c as u32;
    if 48 <= u <= 57 { u - 48 } else if 97 <= u <= 102 { u - 87 } else if 65 <= u <= 70 { u - 55 } else { -1 }
}

/// The value of a hexadecimal digit string (no sign).
pub open spec fn hex_value(d: Seq<char>) -> nat
    decreases d.len(),
{
    if d.len() == 0 { 0 } else { hex_value(d.drop_last()) * 16 + hex_digit_value(d.last()) as nat }
}

/// The digits after an optional leading `+`.
pub open spec fn unsigned_digits(t: Seq<char>) -> Seq<char> {
    if t.len() > 0 && t[0] == '+' { t.drop_first() } else { t }
}

/// What `str::parse` gives for an unsigned integer type whose largest value
/// is `max`: an optional `+`, then at least one decimal digit, and a value
/// that fits.
pub open spec fn parse_unsigned(t: Seq<char>, max: nat) -> Option<nat> {
    let d = unsigned_digits(t);
    if d.len() > 0 && (forall|i: int| 0 <= i < d.len() ==> '0' <= #[trigger] d[i] <= '9') && dec_value(d) <= max {
        Some(dec_value(d))
    } else {
        None
    }
}

/// What `u8::from_str_radix(t, 16)` gives.
pub open spec fn parse_hex_u8(t: Seq<char>) -> Option<u8> {
    let d = unsigned_digits(t);
    if d.len() > 0 && (forall|i: int| 0 <= i < d.len() ==> #[trigger] hex_digit_value(d[i]) >= 0) && hex_value(d) <= 255 {
        Some(hex_value(d) as u8)
    } else {
        None
    }
}

/// What `str::parse::<bool>` gives.
pub open spec fn parse_bool(t: Seq<char>) -> Option<bool> {
    if t == seq!['t', 'r', 'u', 'e'] {
        Some(true)
    } else if t == seq!['f', 'a', 'l', 's', 'e'] {
        Some(false)
    } else {
        None
    }
}

/// Parses an unsigned decimal value no larger than `max`.
pub fn parse_unsigned_exec(t: &[char], max: u64) -> (r: Option<u64>)
    ensures
        match r {
            Some(v) => parse_unsigned(t@, max as nat) == Some(v as nat),
            None => parse_unsigned(t@, max as nat) is None,
        },
{
    let ghost d = unsigned_digits(t@);
    let start: usize = if t.len() > 0 && t[0] == '+' { 1 } else { 0 };
    proof {
        assert(d =~= t@.skip(start as int));
    }
    if start >= t.len() {
        return None;
    }
    let mut acc: u64 = 0;
    let mut i = start;
    while i < t.len()
        invariant
            start <= i <= t@.len(),
            d == t@.skip(start as int),
            d == unsigned_digits(t@),
            forall|k: int| start <= k < i ==> '0' <= #[trigger] t@[k] <= '9',
            acc == dec_value(t@.subrange(start as int, i as int)),
            acc <= max,
        decreases t@.len() - i,
    {
        let c = t[i];
        if c < '0' || c > '9' {
            proof {
                assert(d[i - start] == c);
            }
            return None;
        }
        let digit = (c as u32 - 48) as u64;
        proof {
            assert(t@.subrange(start as int, i + 1).drop_last() =~= t@.subrange(start as int, i as int));
        }
        let next: u128 = acc as u128 * 10 + digit as u128;
        if next > max as u128 {
            proof {
                // the value exceeds `max` already, and later digits only make it larger
                assert(d.take(i - start + 1) =~= t@.subrange(start as int, i + 1));
                assert(dec_value(d.take(i - start + 1)) == next);
                if forall|k: int| 0 <= k < d.len() ==> '0' <= #[trigger] d[k] <= '9' {
                    lemma_dec_value_grows(d, (i - start + 1) as int);
                }
            }
            return None;
        }
        acc = next as u64;
        i = i + 1;
    }
    proof {
        assert(t@.subrange(start as int, t@.len() as int) =~= d);
    }
    Some(acc)
}

proof fn lemma_dec_value_grows(d: Seq<char>, k: int)
    requires
        0 <= k <= d.len(),
        forall|i: int| 0 <= i < d.len() ==> '0' <= #[trigger] d[i] <= '9',
    ensures
        dec_value(d) >= dec_value(d.take(k)),
    decreases d.len() - k,
{
    if k < d.len() {
        lemma_dec_value_grows(d, k + 1);
        assert(d.take(k + 1).drop_last() =~= d.take(k));
    } else {
        assert(d.take(k) =~= d);
    }
}

fn hex_digit_exec(c: char) -> (r: i32)
    ensures
        r == hex_digit_value(c),
{
    let u = c as u32;
    if 48 <= u && u <= 57 {
        (u - 48) as i32
    } else if 97 <= u && u <= 102 {
        (u - 87) as i32
    } else if 65 <= u && u <= 70 {
        (u - 55) as i32
    } else {
        -1
    }
}

proof fn lemma_hex_value_grows(d: Seq<char>, k: int)
    requires
        0 <= k <= d.len(),
        forall|i: int| 0 <= i < d.len() ==> #[trigger] hex_digit_value(d[i]) >= 0,
    ensures
        hex_value(d) >= hex_value(d.take(k)),
    decreases d.len() - k,
{
    if k < d.len() {
        lemma_hex_value_grows(d, k + 1);
        assert(d.take(k + 1).drop_last() =~= d.take(k));
    } else {
        assert(d.take(k) =~= d);
    }
}

/// Parses a byte written in hexadecimal, as `u8::from_str_radix(t, 16)`.
pub fn parse_hex_u8_exec(t: &[char]) -> (r: Option<u8>)
    ensures
        r == parse_hex_u8(t@),
{
    let ghost d = unsigned_digits(t@);
    let start: usize = if t.len() > 0 && t[0] == '+' { 1 } else { 0 };
    proof {
        assert(d =~= t@.skip(start as int));
    }
    if start >= t.len() {
        return None;
    }
    let mut acc: u32 = 0;
    let mut i = start;
    while i < t.len()
        invariant
            start <= i <= t@.len(),
            d == t@.skip(start as int),
            d == unsigned_digits(t@),
            forall|k: int| start <= k < i ==> #[trigger] hex_digit_value(t@[k]) >= 0,
            acc == hex_value(t@.subrange(start as int, i as int)),
            acc <= 255,
        decreases t@.len() - i,
    {
        let v = hex_digit_exec(t[i]);
        if v < 0 {
            proof {
                assert(d[i - start] == t@[i as int]);
            }
            return None;
        }
        proof {
            assert(t@.subrange(start as int, i + 1).drop_last() =~= t@.subrange(start as int, i as int));
        }
        let next = acc * 16 + v as u32;
        if next > 255 {
            proof {
                assert(d.take(i - start + 1) =~= t@.subrange(start as int, i + 1));
                assert(hex_value(d.take(i - start + 1)) == next);
                if forall|k: int| 0 <= k < d.len() ==> #[trigger] hex_digit_value(d[k]) >= 0 {
                    lemma_hex_value_grows(d, (i - start + 1) as int);
                }
            }
            return None;
        }
        acc = next;
        i = i + 1;
    }
    proof {
        assert(t@.subrange(start as int, t@.len() as int) =~= d);
        assert forall|k: int| 0 <= k < d.len() implies #[trigger] hex_digit_value(d[k]) >= 0 by {
            assert(d[k] == t@[start + k]);
        }
    }
    Some(acc as u8)
}

/// Parses `true` or `false`, as `str::parse::<bool>`.
pub fn parse_bool_exec(t: &[char]) -> (r: Option<bool>)
    ensures
        r == parse_bool(t@),
{
    if t.len() == 4 && t[0] == 't' && t[1] == 'r' && t[2] == 'u' && t[3] == 'e' {
        proof {
            assert(t@ =~= seq!['t', 'r', 'u', 'e']);
        }
        Some(true)
    } else if t.len() == 5 && t[0] == 'f' && t[1] == 'a' && t[2] == 'l' && t[3] == 's' && t[4] == 'e' {
        proof {
            assert(t@ =~= seq!['f', 'a', 'l', 's', 'e']);
        }
        Some(false)
    } else {
        proof {
            if t@ == seq!['t', 'r', 'u', 'e'] {
                assert(t@[0] == 't' && t@[1] == 'r' && t@[2] == 'u' && t@[3] == 'e');
            }
            if t@ == seq!['f', 'a', 'l', 's', 'e'] {
                assert(t@[0] == 'f' && t@[1] == 'a' && t@[2] == 'l' && t@[3] == 's' && t@[4] == 'e');
            }
        }
        None
    }
}

/// The tokens after the first `n` (none when there are fewer).
pub open spec fn skip_tokens(toks: Seq<Seq<char>>, n: int) -> Seq<Seq<char>> {
    if n < toks.len() { toks.skip(n) } else { Seq::empty() }
}

/// The tokens from index `from` on, joined by single spaces.
pub fn join_tokens(toks: &Vec<Vec<char>>, from: usize) -> (r: Vec<char>)
    ensures
        r@ == crate::text::join(skip_tokens(char_views(toks@), from as int), seq![' ']),
{
    let ghost tv = char_views(toks@);
    let mut out: Vec<char> = Vec::new();
    let mut i = from;
    if i >= toks.len() {
        proof {
            assert(skip_tokens(tv, from as int) =~= Seq::<Seq<char>>::empty());
        }
        return out;
    }
    proof {
        assert(tv.skip(from as int).take(0) =~= Seq::<Seq<char>>::empty());
    }
    while i < toks.len()
        invariant
            from <= i <= toks@.len(),
            from < toks@.len(),
            tv == char_views(toks@),
            out@ == crate::text::join(tv.subrange(from as int, i as int), seq![' ']),
        decreases toks@.len() - i,
    {
        let ghost before = out@;
        if i > from {
            out.push(' ');
        }
        let t = &toks[i];
        let mut k: usize = 0;
        let ghost mid = out@;
        while k < t.len()
            invariant
                0 <= k <= t@.len(),
                out@ == mid + t@.take(k as int),
            decreases t@.len() - k,
        {
            out.push(t[k]);
            proof {
                assert(t@.take(k + 1) =~= t@.take(k as int).push(t@[k as int]));
                assert(mid + t@.take(k + 1) =~= (mid + t@.take(k as int)).push(t@[k as int]));
            }
            k = k + 1;
        }
        proof {
            assert(t@.take(t@.len() as int) =~= t@);
            let parts = tv.subrange(from as int, i + 1);
            assert(parts.drop_last() =~= tv.subrange(from as int, i as int));
            assert(parts.last() == t@);
            if i == from {
                assert(parts.len() == 1);
                assert(out@ =~= t@);
            } else {
                assert(out@ =~= before + seq![' '] + t@);
            }
        }
        i = i + 1;
    }
    proof {
        assert(tv.subrange(from as int, toks@.len() as int) =~= tv.skip(from as int));
    }
    out
}

} // verus!
