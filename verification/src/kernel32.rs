//! KERNEL32 computations: flag masks, `MulDiv`, `FormatMessageA`, and the
//! bytes that `lstrcpynA` and `lstrcatA` write in the guest's EUC-KR code page.

use vstd::prelude::*;
use vstd::string::StringExecFns;
use crate::text::{hex_alt, push_hex_alt};
use crate::logtext::chars_of;

verus! {

/// The `KERNEL32.dll` proxy module.
pub struct KERNEL32 {}

/// The bits of `flags` outside `supported_mask`.
pub fn unsupported_flag_bits(flags: u32, supported_mask: u32) -> (r: u32)
    ensures
        r == flags & !supported_mask,
        r & supported_mask == 0,
        r | (flags & supported_mask) == flags,
{
    proof {
        assert((flags & !supported_mask) & supported_mask == 0) by (bit_vector);
        assert((flags & !supported_mask) | (flags & supported_mask) == flags) by (bit_vector);
    }
    flags & !supported_mask
}

impl KERNEL32 {
    /// The bits of `flags` outside `supported_mask`.
    pub fn unsupported_flag_bits(flags: u32, supported_mask: u32) -> (r: u32)
        ensures
            r == flags & !supported_mask,
    {
        unsupported_flag_bits(flags, supported_mask)
    }
}

/// Division rounding toward zero.
pub open spec fn div_toward_zero(a: int, b: int) -> int {
    let q = if a >= 0 { a } else { -a } / (if b >= 0 { b } else { -b });
    if (a >= 0) == (b > 0) || q == 0 { q } else { -q }
}

/// `MulDiv(number, numerator, denominator)`: the 64-bit product divided
/// toward zero and truncated to 32 bits; -1 for a zero denominator.
pub fn mul_div_value(number: i32, numerator: i32, denominator: i32) -> (r: i32)
    ensures
        denominator == 0 ==> r == -1,
        denominator != 0 ==> r == div_toward_zero(number * numerator, denominator as int) as i32,
{
    if denominator == 0 {
        return -1;
    }
    proof {
        assert(-0x8000_0000 * 0x8000_0000 <= number * numerator <= 0x8000_0000 * 0x8000_0000) by (nonlinear_arith)
            requires
                -0x8000_0000 <= number <= 0x7FFF_FFFF,
                -0x8000_0000 <= numerator <= 0x7FFF_FFFF;
    }
    let p: i64 = number as i64 * numerator as i64;
    let ap: i64 = if p >= 0 { p } else { -p };
    let d: i64 = denominator as i64;
    let ad: i64 = if d >= 0 { d } else { -d };
    let q: i64 = ap / ad;
    proof {
        assert(0 <= q <= ap) by (nonlinear_arith)
            requires
                q == ap / ad,
                ap >= 0,
                ad > 0;
    }
    let signed: i64 = if (p >= 0) == (d > 0) || q == 0 { q } else { -q };
    signed as i32
}

/// `FormatMessageA` flags.
pub const FORMAT_MESSAGE_ALLOCATE_BUFFER: u32 = 0x0000_0100;
pub const FORMAT_MESSAGE_IGNORE_INSERTS: u32 = 0x0000_0200;
pub const FORMAT_MESSAGE_FROM_SYSTEM: u32 = 0x0000_1000;
pub const FORMAT_MESSAGE_MAX_WIDTH_MASK: u32 = 0x0000_00FF;
/// `ERROR_INVALID_PARAMETER`.
pub const ERROR_INVALID_PARAMETER: u32 = 87;

/// The flags `FormatMessageA` accepts.
pub open spec fn format_message_supported(flags: u32) -> bool {
    flags & !(FORMAT_MESSAGE_ALLOCATE_BUFFER | FORMAT_MESSAGE_IGNORE_INSERTS | FORMAT_MESSAGE_FROM_SYSTEM
        | FORMAT_MESSAGE_MAX_WIDTH_MASK) == 0 && flags & FORMAT_MESSAGE_FROM_SYSTEM != 0
}

/// The text of a system message: `Win32 Error 0x..` and a terminating NUL;
/// `None` (the call fails with `ERROR_INVALID_PARAMETER`) unless the flags
/// ask for a system message and hold nothing else than the supported ones.
pub fn format_message_text(flags: u32, message_id: u32) -> (r: Option<String>)
    ensures
        r is Some <==> format_message_supported(flags),
        r matches Some(t) ==> t@ == "Win32 Error "@ + hex_alt(message_id as nat) + seq!['\0'],
{
    let unsupported = unsupported_flag_bits(flags, FORMAT_MESSAGE_ALLOCATE_BUFFER | FORMAT_MESSAGE_IGNORE_INSERTS
        | FORMAT_MESSAGE_FROM_SYSTEM | FORMAT_MESSAGE_MAX_WIDTH_MASK);
    if unsupported != 0 || flags & FORMAT_MESSAGE_FROM_SYSTEM == 0 {
        return None;
    }
    let mut t = String::from_str("Win32 Error ");
    push_hex_alt(&mut t, message_id as u64);
    t.append("\0");
    proof {
        reveal_strlit("\0");
    }
    Some(t)
}

/// The EUC-KR bytes of a text, as `encoding_rs` encodes it (characters
/// that EUC-KR lacks become HTML numeric character references).
pub uninterp spec fn euc_kr_encoded(text: Seq<char>) -> Seq<u8>;

pub open spec fn is_ascii_text(text: Seq<char>) -> bool {
    forall|i: int| 0 <= i < text.len() ==> (#[trigger] text[i] as u32) < 0x80
}

/// Calls `encoding_rs::EUC_KR.encode` and keeps the bytes. The result is
/// named by `euc_kr_encoded`; as the crate's source shows, a text of ASCII
/// characters only is returned as its own bytes.
#[verifier::external_body]
fn euc_kr_encode(text: &str) -> (r: Vec<u8>)
    ensures
        r@ == euc_kr_encoded(text@),
        is_ascii_text(text@) ==> r@ == text@.map_values(|c: char| c as u8),
{
    let (bytes, _, _) = encoding_rs::EUC_KR.encode(text);
    bytes.into_owned()
}

/// At most `max_count - 1` bytes of `encoded` and a NUL (`max_count` 0
/// keeps no byte).
pub open spec fn copy_with_limit(encoded: Seq<u8>, max_count: usize) -> Seq<u8> {
    let room = if max_count == 0 { 0 } else { max_count - 1 };
    let n = if encoded.len() < room { encoded.len() as int } else { room };
    encoded.take(n).push(0u8)
}

/// The bytes `lstrcpynA` writes for an encoded source text.
pub fn copy_with_limit_bytes(encoded: &[u8], max_count: usize) -> (r: Vec<u8>)
    ensures
        r@ == copy_with_limit(encoded@, max_count),
{
    let room = if max_count == 0 { 0 } else { max_count - 1 };
    let n = if encoded.len() < room { encoded.len() } else { room };
    let mut out: Vec<u8> = Vec::new();
    let mut i: usize = 0;
    while i < n
        invariant
            n <= encoded@.len(),
            0 <= i <= n,
            out@ == encoded@.take(i as int),
        decreases n - i,
    {
        out.push(encoded[i]);
        proof {
            assert(encoded@.take(i + 1) =~= encoded@.take(i as int).push(encoded@[i as int]));
        }
        i = i + 1;
    }
    out.push(0);
    out
}

/// `lstrcpynA(dst, src, max_count)`: the bytes written at `dst`.
pub fn lstrcpyn_a_bytes(src: &str, max_count: usize) -> (r: Vec<u8>)
    ensures
        r@ == copy_with_limit(euc_kr_encoded(src@), max_count),
{
    let encoded = euc_kr_encode(src);
    copy_with_limit_bytes(encoded.as_slice(), max_count)
}

/// `lstrcatA(dst, src)`: the offset from `dst` at which the appended bytes
/// go (the encoded length of the current text) and those bytes, the
/// encoded source and a NUL.
pub fn lstrcat_a_bytes(dst: &str, src: &str) -> (r: (usize, Vec<u8>))
    ensures
        r.0 == euc_kr_encoded(dst@).len(),
        r.1@ == euc_kr_encoded(src@).push(0u8),
{
    let mut bytes = euc_kr_encode(src);
    bytes.push(0);
    let at = euc_kr_encode(dst).len();
    (at, bytes)
}

/// The lexicographic order of two texts by character: -1 when `a` comes
/// first, 1 when `b` does, 0 when they are equal.
pub open spec fn text_order(a: Seq<char>, b: Seq<char>) -> i32
    decreases a.len(),
{
    if a.len() == 0 {
        if b.len() == 0 { 0i32 } else { -1i32 }
    } else if b.len() == 0 {
        1i32
    } else if (a[0] as u32) < (b[0] as u32) {
        -1i32
    } else if (a[0] as u32) > (b[0] as u32) {
        1
    } else {
        text_order(a.drop_first(), b.drop_first())
    }
}

fn char_below(x: char, y: char) -> (r: bool)
    ensures
        r == ((x as u32) < (y as u32)),
{
    (x as u32) < (y as u32)
}

/// `lstrcmpA(s1, s2)`: -1, 0 or 1 as `s1` sorts before, equal to or after
/// `s2`.
pub fn lstrcompare_a_value(s1: &str, s2: &str) -> (r: i32)
    ensures
        r == text_order(s1@, s2@),
{
    let a = chars_of(s1);
    let b = chars_of(s2);
    proof {
        assert(a@.skip(0) =~= a@);
        assert(b@.skip(0) =~= b@);
    }
    let mut i: usize = 0;
    while i < a.len() && i < b.len()
        invariant
            a@ == s1@,
            b@ == s2@,
            0 <= i <= a@.len(),
            i <= b@.len(),
            text_order(s1@, s2@) == text_order(a@.skip(i as int), b@.skip(i as int)),
        decreases a@.len() - i,
    {
        if char_below(a[i], b[i]) {
            return -1;
        }
        if char_below(b[i], a[i]) {
            return 1;
        }
        proof {
            assert(a@.skip(i as int).drop_first() =~= a@.skip(i + 1));
            assert(b@.skip(i as int).drop_first() =~= b@.skip(i + 1));
        }
        i += 1;
    }
    if i < a.len() {
        1
    } else if i < b.len() {
        -1
    } else {
        0
    }
}

/// The source of guest handles: consecutive values from 0x1000, wrapping
/// at the end of the 32-bit range.
pub struct HandleCounter {
    pub next: u32,
}

impl HandleCounter {
    pub fn new() -> (c: HandleCounter)
        ensures
            c.next == 0x1000,
    {
        HandleCounter { next: 0x1000 }
    }

    /// Hands out a new handle.
    pub fn alloc_handle(&mut self) -> (h: u32)
        ensures
            h == old(self).next,
            final(self).next == (if old(self).next == u32::MAX { 0 } else { (old(self).next + 1) as u32 }),
    {
        let h = self.next;
        self.next = self.next.wrapping_add(1);
        h
    }
}

} // verus!
