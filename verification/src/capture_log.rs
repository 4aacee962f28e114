//! The records of a traffic capture: candidate server responses and notes
//! from `protocol_analysis.log`, packet chunks from `packets.log` and frame
//! summaries from `frames.log`, each read from one line.

use vstd::prelude::*;
use crate::capture::{PacketRecord, FrameRecord};
use crate::logtext::{
    tokens, char_views, first_prefixed, find_from, split_once, parse_unsigned, parse_hex_u8, parse_bool,
    has_prefix, skip_tokens, chars_of, split_whitespace, prefixed_value, find, parse_unsigned_exec,
    parse_hex_u8_exec, parse_bool_exec, join_tokens, starts_with,
};
use crate::text::{join, string_from_chars};
use crate::logtext::{is_ws, is_ws_exec};
use crate::logging::{lines_of, lines_from, next_newline, lemma_next_newline, string_views};

verus! {

/// A candidate server response noted after the initial handshake.
pub struct CandidateRecord {
    pub channel_id: u16,
    pub phase: String,
    pub candidate_index: usize,
    pub main_type: u8,
    pub sub_type: u8,
    pub payload_len: usize,
    pub payload_hex: String,
}

/// A free-form analysis note on a channel and phase.
pub struct NoteRecord {
    pub channel_id: u16,
    pub phase: String,
    pub text: String,
}

/// `(channel, phase, index, main, sub, payload length, payload hex)`.
pub type CandidateView = (u16, Seq<char>, usize, u8, u8, usize, Seq<char>);

pub open spec fn candidate_view(c: CandidateRecord) -> CandidateView {
    (c.channel_id, c.phase@, c.candidate_index, c.main_type, c.sub_type, c.payload_len, c.payload_hex@)
}

pub open spec fn strip_prefix(t: Seq<char>, p: Seq<char>) -> Option<Seq<char>> {
    if has_prefix(t, p) { Some(t.skip(p.len() as int)) } else { None }
}

/// The value of the first token `key...`, parsed as an unsigned integer no
/// larger than `max`.
pub open spec fn unsigned_field(toks: Seq<Seq<char>>, key: Seq<char>, max: nat) -> Option<nat> {
    match first_prefixed(toks, key) {
        Some(v) => parse_unsigned(v, max),
        None => None,
    }
}

pub open spec fn candidate_marker() -> Seq<char> {
    "requires server response:"@
}

/// The candidate record written on a line, if the line is one.
pub open spec fn candidate_of(line: Seq<char>) -> Option<CandidateView> {
    let toks = tokens(line);
    if find_from(line, "candidate#"@, 0) is None || find_from(line, candidate_marker(), 0) is None {
        None
    } else {
        let ch = unsigned_field(toks, "ch="@, u16::MAX as nat);
        let phase = first_prefixed(toks, "phase="@);
        let index = unsigned_field(toks, "candidate#"@, usize::MAX as nat);
        let parts = match split_once(line, candidate_marker()) {
            Some((_, after)) => tokens(after),
            None => Seq::empty(),
        };
        match (ch, phase, index) {
            (Some(c), Some(p), Some(ix)) => if parts.len() >= 3 {
                let main = match strip_prefix(parts[0], "main=0x"@) { Some(v) => parse_hex_u8(v), None => None };
                let sub = match strip_prefix(parts[1], "sub=0x"@) { Some(v) => parse_hex_u8(v), None => None };
                let len = match strip_prefix(parts[2], "payload="@) {
                    Some(v) => if v.len() > 0 && v.last() == 'B' { parse_unsigned(v.drop_last(), usize::MAX as nat) } else { None },
                    None => None,
                };
                match (main, sub, len) {
                    (Some(m), Some(sb), Some(l)) => Some((c as u16, p, ix as usize, m, sb, l as usize, join(parts.skip(3), seq![' ']))),
                    _ => None,
                }
            } else {
                None
            },
            _ => None,
        }
    }
}

fn unsigned_field_exec(toks: &Vec<Vec<char>>, key: &str, max: u64) -> (r: Option<u64>)
    ensures
        match r {
            Some(v) => unsigned_field(char_views(toks@), key@, max as nat) == Some(v as nat),
            None => unsigned_field(char_views(toks@), key@, max as nat) is None,
        },
{
    let k = chars_of(key);
    match prefixed_value(toks, k.as_slice()) {
        Some(v) => parse_unsigned_exec(v.as_slice(), max),
        None => None,
    }
}

fn contains(line: &Vec<char>, pat: &str) -> (r: bool)
    ensures
        r == (find_from(line@, pat@, 0) is Some),
{
    let p = chars_of(pat);
    find(line.as_slice(), p.as_slice()).is_some()
}

fn strip_prefix_exec(t: &Vec<char>, p: &str) -> (r: Option<Vec<char>>)
    ensures
        match r {
            Some(v) => strip_prefix(t@, p@) == Some(v@),
            None => strip_prefix(t@, p@) is None,
        },
{
    let pc = chars_of(p);
    if starts_with(t.as_slice(), pc.as_slice()) {
        let mut v: Vec<char> = Vec::new();
        let mut i = pc.len();
        while i < t.len()
            invariant
                pc@.len() <= i <= t@.len(),
                v@ == t@.subrange(pc@.len() as int, i as int),
            decreases t@.len() - i,
        {
            v.push(t[i]);
            proof {
                assert(t@.subrange(pc@.len() as int, i + 1) =~= t@.subrange(pc@.len() as int, i as int).push(t@[i as int]));
            }
            i = i + 1;
        }
        Some(v)
    } else {
        None
    }
}

fn tail_after(line: &Vec<char>, at: usize, skip: usize) -> (v: Vec<char>)
    requires
        at + skip <= line@.len(),
    ensures
        v@ == line@.skip(at + skip),
{
    let mut v: Vec<char> = Vec::new();
    let n = line.len();
    let mut i = at + skip;
    while i < n
        invariant
            n == line@.len(),
            at + skip <= i <= line@.len(),
            v@ == line@.subrange(at + skip, i as int),
        decreases line@.len() - i,
    {
        v.push(line[i]);
        proof {
            assert(line@.subrange(at + skip, i + 1) =~= line@.subrange(at + skip, i as int).push(line@[i as int]));
        }
        i = i + 1;
    }
    v
}

proof fn lemma_found_fits(s: Seq<char>, pat: Seq<char>, i: int, at: int)
    requires
        find_from(s, pat, i) == Some(at),
    ensures
        i <= at,
        at + pat.len() <= s.len(),
    decreases s.len() + 1 - i,
{
    if !(i < 0 || i + pat.len() > s.len()) && !crate::logtext::occurs_at(s, pat, i) {
        lemma_found_fits(s, pat, i + 1, at);
    }
}

/// Reads a candidate server response out of a line of the protocol
/// analysis log.
pub fn parse_candidate_record(line: &str) -> (r: Option<CandidateRecord>)
    ensures
        match r {
            Some(c) => candidate_of(line@) == Some(candidate_view(c)),
            None => candidate_of(line@) is None,
        },
{
    let chars = chars_of(line);
    if !contains(&chars, "candidate#") || !contains(&chars, "requires server response:") {
        return None;
    }
    let toks = split_whitespace(chars.as_slice());
    let channel_id = match unsigned_field_exec(&toks, "ch=", 0xFFFF) {
        Some(v) => v as u16,
        None => return None,
    };
    let phase_key = chars_of("phase=");
    let phase = match prefixed_value(&toks, phase_key.as_slice()) {
        Some(v) => v,
        None => return None,
    };
    let candidate_index = match unsigned_field_exec(&toks, "candidate#", usize::MAX as u64) {
        Some(v) => v as usize,
        None => return None,
    };
    let marker = chars_of("requires server response:");
    let at = match find(chars.as_slice(), marker.as_slice()) {
        Some(at) => at,
        None => return None,
    };
    proof {
        lemma_found_fits(chars@, marker@, 0, at as int);
    }
    let detail = tail_after(&chars, at, marker.len());
    let parts = split_whitespace(detail.as_slice());
    if parts.len() < 3 {
        return None;
    }
    let main_type = match strip_prefix_exec(&parts[0], "main=0x") {
        Some(v) => match parse_hex_u8_exec(v.as_slice()) {
            Some(b) => b,
            None => return None,
        },
        None => return None,
    };
    let sub_type = match strip_prefix_exec(&parts[1], "sub=0x") {
        Some(v) => match parse_hex_u8_exec(v.as_slice()) {
            Some(b) => b,
            None => return None,
        },
        None => return None,
    };
    let payload_len = match strip_prefix_exec(&parts[2], "payload=") {
        Some(v) => {
            if v.len() == 0 || v[v.len() - 1] != 'B' {
                return None;
            }
            let digits = tail_before_last(&v);
            match parse_unsigned_exec(digits.as_slice(), usize::MAX as u64) {
                Some(n) => n as usize,
                None => return None,
            }
        },
        None => return None,
    };
    let hex = join_tokens(&parts, 3);
    proof {
        assert(skip_tokens(char_views(parts@), 3) == char_views(parts@).skip(3) || char_views(parts@).len() == 3);
        if char_views(parts@).len() == 3 {
            assert(char_views(parts@).skip(3) =~= Seq::<Seq<char>>::empty());
        }
    }
    Some(CandidateRecord {
        channel_id,
        phase: string_from_chars(phase.as_slice()),
        candidate_index,
        main_type,
        sub_type,
        payload_len,
        payload_hex: string_from_chars(hex.as_slice()),
    })
}

fn tail_before_last(v: &Vec<char>) -> (r: Vec<char>)
    requires
        v@.len() > 0,
    ensures
        r@ == v@.drop_last(),
{
    let mut r: Vec<char> = Vec::new();
    let mut i: usize = 0;
    let last = v.len() - 1;
    while i < last
        invariant
            last == v@.len() - 1,
            0 <= i <= v@.len() - 1,
            r@ == v@.take(i as int),
        decreases v@.len() - i,
    {
        r.push(v[i]);
        proof {
            assert(v@.take(i + 1) =~= v@.take(i as int).push(v@[i as int]));
        }
        i = i + 1;
    }
    proof {
        assert(v@.take(i as int) =~= v@.drop_last());
    }
    r
}

/// The note written on a line of the protocol analysis log, as
/// `(channel, phase, text)`: every token after the first two.
pub open spec fn note_of(line: Seq<char>) -> Option<(u16, Seq<char>, Seq<char>)> {
    if find_from(line, "candidate#"@, 0) is Some {
        None
    } else {
        let toks = tokens(line);
        match (unsigned_field(toks, "ch="@, u16::MAX as nat), first_prefixed(toks, "phase="@)) {
            (Some(c), Some(p)) => {
                let text = join(skip_tokens(toks, 2), seq![' ']);
                if text.len() == 0 { None } else { Some((c as u16, p, text)) }
            },
            _ => None,
        }
    }
}

pub open spec fn note_view(n: NoteRecord) -> (u16, Seq<char>, Seq<char>) {
    (n.channel_id, n.phase@, n.text@)
}

/// Reads an analysis note out of a line that is not a candidate line.
pub fn parse_note_record(line: &str) -> (r: Option<NoteRecord>)
    ensures
        match r {
            Some(n) => note_of(line@) == Some(note_view(n)),
            None => note_of(line@) is None,
        },
{
    let chars = chars_of(line);
    if contains(&chars, "candidate#") {
        return None;
    }
    let toks = split_whitespace(chars.as_slice());
    let channel_id = match unsigned_field_exec(&toks, "ch=", 0xFFFF) {
        Some(v) => v as u16,
        None => return None,
    };
    let phase_key = chars_of("phase=");
    let phase = match prefixed_value(&toks, phase_key.as_slice()) {
        Some(v) => v,
        None => return None,
    };
    let text = join_tokens(&toks, 2);
    if text.len() == 0 {
        return None;
    }
    Some(NoteRecord { channel_id, phase: string_from_chars(phase.as_slice()), text: string_from_chars(text.as_slice()) })
}

#[verifier::external_type_specification]
#[verifier::external_body]
pub struct ExFromHexError(hex::FromHexError);

pub open spec fn hex_byte_value(b: u8) -> int {
    if 48 <= b <= 57 { b - 48 } else if 97 <= b <= 102 { b - 87 } else if 65 <= b <= 70 { b - 55 } else { -1 }
}

/// Even length and hexadecimal digits only.
pub open spec fn hex_bytes_valid(text: Seq<u8>) -> bool {
    text.len() % 2 == 0 && forall|i: int| 0 <= i < text.len() ==> #[trigger] hex_byte_value(text[i]) >= 0
}

/// Each pair of hexadecimal digits as one byte, high nibble first.
pub open spec fn hex_bytes_decoded(text: Seq<u8>) -> Seq<u8> {
    Seq::new(text.len() / 2, |i: int| (hex_byte_value(text[2 * i]) * 16 + hex_byte_value(text[2 * i + 1])) as u8)
}

/// Calls `<Vec<u8> as hex::FromHex>::from_hex`, which fails on an odd length
/// or a byte that is not a hexadecimal digit (either case) and otherwise
/// turns each pair of digits into one byte, high nibble first.
#[verifier::external_body]
fn hex_decode(text: &[u8]) -> (r: Result<Vec<u8>, hex::FromHexError>)
    ensures
        r is Ok <==> hex_bytes_valid(text@),
        r matches Ok(v) ==> v@ == hex_bytes_decoded(text@),
{
    <Vec<u8> as hex::FromHex>::from_hex(text)
}

/// The hexadecimal text is valid: an even number of ASCII hexadecimal digits.
pub open spec fn hex_text_valid(t: Seq<char>) -> bool {
    t.len() % 2 == 0 && forall|i: int| 0 <= i < t.len() ==> #[trigger] crate::logtext::hex_digit_value(t[i]) >= 0
}

pub open spec fn hex_text_decoded(t: Seq<char>) -> Seq<u8> {
    Seq::new(t.len() / 2, |i: int| (crate::logtext::hex_digit_value(t[2 * i]) * 16 + crate::logtext::hex_digit_value(t[2 * i + 1])) as u8)
}

fn decode_hex_text(t: &Vec<char>) -> (r: Option<Vec<u8>>)
    ensures
        match r {
            Some(v) => hex_text_valid(t@) && v@ == hex_text_decoded(t@),
            None => !hex_text_valid(t@),
        },
{
    let mut bytes: Vec<u8> = Vec::new();
    let mut i: usize = 0;
    while i < t.len()
        invariant
            0 <= i <= t@.len(),
            bytes@.len() == i,
            forall|k: int| 0 <= k < i ==> #[trigger] bytes@[k] as u32 == t@[k] as u32,
        decreases t@.len() - i,
    {
        let c = t[i];
        if c as u32 >= 128 {
            proof {
                assert(crate::logtext::hex_digit_value(t@[i as int]) < 0);
            }
            return None;
        }
        let ghost before = bytes@;
        let b = c as u32;
        proof {
            assert(b < 128 ==> (b as u8) as u32 == b) by (bit_vector);
        }
        bytes.push(b as u8);
        proof {
            assert forall|k: int| 0 <= k < i + 1 implies #[trigger] bytes@[k] as u32 == t@[k] as u32 by {
                if k < i {
                    assert(bytes@[k] == before[k]);
                }
            }
        }
        i = i + 1;
    }
    proof {
        assert forall|k: int| 0 <= k < t@.len() implies #[trigger] hex_byte_value(bytes@[k]) == crate::logtext::hex_digit_value(t@[k]) by {
            assert(bytes@[k] as u32 == t@[k] as u32);
        }
    }
    match hex_decode(bytes.as_slice()) {
        Ok(v) => {
            proof {
                assert forall|k: int| 0 <= k < t@.len() implies #[trigger] crate::logtext::hex_digit_value(t@[k]) >= 0 by {
                    assert(hex_byte_value(bytes@[k]) >= 0);
                }
                assert(v@ =~= hex_text_decoded(t@));
            }
            Some(v)
        },
        Err(_) => {
            proof {
                if hex_text_valid(t@) {
                    assert forall|k: int| 0 <= k < bytes@.len() implies #[trigger] hex_byte_value(bytes@[k]) >= 0 by {
                        assert(crate::logtext::hex_digit_value(t@[k]) >= 0);
                    }
                }
            }
            None
        },
    }
}

/// `(direction, socket, length, data, mirrored, summary)` of a packet line.
pub type PacketView = (Seq<char>, u32, usize, Seq<u8>, bool, Seq<char>);

pub open spec fn packet_view(p: PacketRecord) -> PacketView {
    (p.direction@, p.socket_id, p.len, p.data@, p.mirrored_prev_send, p.summary@)
}

/// The packet chunk written on a line of the packet log.
pub open spec fn packet_of(line: Seq<char>) -> Option<PacketView> {
    match split_once(line, " summary="@) {
        None => None,
        Some((prefix, summary)) => {
            let toks = tokens(prefix);
            match (first_prefixed(toks, "dir="@), unsigned_field(toks, "sock="@, u32::MAX as nat),
                unsigned_field(toks, "len="@, usize::MAX as nat), first_prefixed(toks, "hex="@),
                first_prefixed(toks, "mirror_prev_send="@)) {
                (Some(d), Some(sk), Some(l), Some(h), Some(m)) => match parse_bool(m) {
                    Some(b) => if hex_text_valid(h) { Some((d, sk as u32, l as usize, hex_text_decoded(h), b, summary)) } else { None },
                    None => None,
                },
                _ => None,
            }
        },
    }
}

fn split_once_exec(chars: &Vec<char>, pat: &str) -> (r: Option<(Vec<char>, Vec<char>)>)
    ensures
        match r {
            Some((a, b)) => split_once(chars@, pat@) == Some((a@, b@)),
            None => split_once(chars@, pat@) is None,
        },
{
    let p = chars_of(pat);
    match find(chars.as_slice(), p.as_slice()) {
        Some(at) => {
            proof {
                lemma_found_fits(chars@, p@, 0, at as int);
            }
            let mut head: Vec<char> = Vec::new();
            let mut i: usize = 0;
            while i < at
                invariant
                    0 <= i <= at <= chars@.len(),
                    head@ == chars@.take(i as int),
                decreases at - i,
            {
                head.push(chars[i]);
                proof {
                    assert(chars@.take(i + 1) =~= chars@.take(i as int).push(chars@[i as int]));
                }
                i = i + 1;
            }
            let tail = tail_after(chars, at, p.len());
            Some((head, tail))
        },
        None => None,
    }
}

/// Reads a packet chunk out of a line of the packet log.
pub fn parse_packet_record(line: &str) -> (r: Option<PacketRecord>)
    ensures
        match r {
            Some(p) => packet_of(line@) == Some(packet_view(p)),
            None => packet_of(line@) is None,
        },
{
    let chars = chars_of(line);
    let (prefix, summary) = match split_once_exec(&chars, " summary=") {
        Some(parts) => parts,
        None => return None,
    };
    let toks = split_whitespace(prefix.as_slice());
    let dir_key = chars_of("dir=");
    let direction = match prefixed_value(&toks, dir_key.as_slice()) {
        Some(v) => v,
        None => return None,
    };
    let socket_id = match unsigned_field_exec(&toks, "sock=", 0xFFFF_FFFF) {
        Some(v) => v as u32,
        None => return None,
    };
    let len = match unsigned_field_exec(&toks, "len=", usize::MAX as u64) {
        Some(v) => v as usize,
        None => return None,
    };
    let hex_key = chars_of("hex=");
    let hex = match prefixed_value(&toks, hex_key.as_slice()) {
        Some(v) => v,
        None => return None,
    };
    let mirror_key = chars_of("mirror_prev_send=");
    let mirrored_prev_send = match prefixed_value(&toks, mirror_key.as_slice()) {
        Some(v) => match parse_bool_exec(v.as_slice()) {
            Some(b) => b,
            None => return None,
        },
        None => return None,
    };
    let data = match decode_hex_text(&hex) {
        Some(d) => d,
        None => return None,
    };
    Some(PacketRecord {
        direction: string_from_chars(direction.as_slice()),
        socket_id,
        len,
        data,
        mirrored_prev_send,
        summary: string_from_chars(summary.as_slice()),
    })
}

/// `(mirrored, summary)` of a line of the frame log.
pub open spec fn frame_line_of(line: Seq<char>) -> Option<(bool, Seq<char>)> {
    match split_once(line, " summary="@) {
        None => None,
        Some((prefix, summary)) => match first_prefixed(tokens(prefix), "mirror_prev_send="@) {
            Some(m) => match parse_bool(m) {
                Some(b) => Some((b, summary)),
                None => None,
            },
            None => None,
        },
    }
}

/// Reads a frame summary out of a line of the frame log.
pub fn parse_frame_record(line: &str) -> (r: Option<FrameRecord>)
    ensures
        match r {
            Some(f) => frame_line_of(line@) == Some((f.mirrored_prev_send, f.summary@)),
            None => frame_line_of(line@) is None,
        },
{
    let chars = chars_of(line);
    let (prefix, summary) = match split_once_exec(&chars, " summary=") {
        Some(parts) => parts,
        None => return None,
    };
    let toks = split_whitespace(prefix.as_slice());
    let mirror_key = chars_of("mirror_prev_send=");
    let mirrored_prev_send = match prefixed_value(&toks, mirror_key.as_slice()) {
        Some(v) => match parse_bool_exec(v.as_slice()) {
            Some(b) => b,
            None => return None,
        },
        None => return None,
    };
    Some(FrameRecord { mirrored_prev_send, summary: string_from_chars(summary.as_slice()) })
}

/// The candidate records of the lines, in order.
pub open spec fn candidates_in(lines: Seq<String>) -> Seq<CandidateView>
    decreases lines.len(),
{
    if lines.len() == 0 {
        Seq::empty()
    } else {
        let prev = candidates_in(lines.drop_last());
        match candidate_of(lines.last()@) {
            Some(c) => prev.push(c),
            None => prev,
        }
    }
}

pub open spec fn notes_in(lines: Seq<String>) -> Seq<(u16, Seq<char>, Seq<char>)>
    decreases lines.len(),
{
    if lines.len() == 0 {
        Seq::empty()
    } else {
        let prev = notes_in(lines.drop_last());
        match note_of(lines.last()@) {
            Some(n) => prev.push(n),
            None => prev,
        }
    }
}

pub open spec fn packets_in(lines: Seq<String>) -> Seq<PacketView>
    decreases lines.len(),
{
    if lines.len() == 0 {
        Seq::empty()
    } else {
        let prev = packets_in(lines.drop_last());
        match packet_of(lines.last()@) {
            Some(p) => prev.push(p),
            None => prev,
        }
    }
}

pub open spec fn frame_lines_in(lines: Seq<String>) -> Seq<(bool, Seq<char>)>
    decreases lines.len(),
{
    if lines.len() == 0 {
        Seq::empty()
    } else {
        let prev = frame_lines_in(lines.drop_last());
        match frame_line_of(lines.last()@) {
            Some(f) => prev.push(f),
            None => prev,
        }
    }
}

/// Every candidate line, in order.
pub fn collect_candidates(lines: &[String]) -> (out: Vec<CandidateRecord>)
    ensures
        out@.map_values(|c: CandidateRecord| candidate_view(c)) == candidates_in(lines@),
{
    let mut out: Vec<CandidateRecord> = Vec::new();
    let mut i: usize = 0;
    while i < lines.len()
        invariant
            0 <= i <= lines@.len(),
            out@.map_values(|c: CandidateRecord| candidate_view(c)) == candidates_in(lines@.take(i as int)),
        decreases lines@.len() - i,
    {
        let ghost before = out@;
        proof {
            assert(lines@.take(i + 1).drop_last() =~= lines@.take(i as int));
        }
        match parse_candidate_record(lines[i].as_str()) {
            Some(c) => {
                out.push(c);
                proof {
                    assert(out@.map_values(|c: CandidateRecord| candidate_view(c))
                        =~= before.map_values(|c: CandidateRecord| candidate_view(c)).push(candidate_view(c)));
                }
            },
            None => {},
        }
        i = i + 1;
    }
    proof {
        assert(lines@.take(lines@.len() as int) =~= lines@);
    }
    out
}

/// Every note line, in order.
pub fn collect_notes(lines: &[String]) -> (out: Vec<NoteRecord>)
    ensures
        out@.map_values(|n: NoteRecord| note_view(n)) == notes_in(lines@),
{
    let mut out: Vec<NoteRecord> = Vec::new();
    let mut i: usize = 0;
    while i < lines.len()
        invariant
            0 <= i <= lines@.len(),
            out@.map_values(|n: NoteRecord| note_view(n)) == notes_in(lines@.take(i as int)),
        decreases lines@.len() - i,
    {
        let ghost before = out@;
        proof {
            assert(lines@.take(i + 1).drop_last() =~= lines@.take(i as int));
        }
        match parse_note_record(lines[i].as_str()) {
            Some(n) => {
                out.push(n);
                proof {
                    assert(out@.map_values(|n: NoteRecord| note_view(n))
                        =~= before.map_values(|n: NoteRecord| note_view(n)).push(note_view(n)));
                }
            },
            None => {},
        }
        i = i + 1;
    }
    proof {
        assert(lines@.take(lines@.len() as int) =~= lines@);
    }
    out
}

/// Every packet line, in order.
pub fn collect_packets(lines: &[String]) -> (out: Vec<PacketRecord>)
    ensures
        out@.map_values(|p: PacketRecord| packet_view(p)) == packets_in(lines@),
{
    let mut out: Vec<PacketRecord> = Vec::new();
    let mut i: usize = 0;
    while i < lines.len()
        invariant
            0 <= i <= lines@.len(),
            out@.map_values(|p: PacketRecord| packet_view(p)) == packets_in(lines@.take(i as int)),
        decreases lines@.len() - i,
    {
        let ghost before = out@;
        proof {
            assert(lines@.take(i + 1).drop_last() =~= lines@.take(i as int));
        }
        match parse_packet_record(lines[i].as_str()) {
            Some(p) => {
                out.push(p);
                proof {
                    assert(out@.map_values(|p: PacketRecord| packet_view(p))
                        =~= before.map_values(|p: PacketRecord| packet_view(p)).push(packet_view(p)));
                }
            },
            None => {},
        }
        i = i + 1;
    }
    proof {
        assert(lines@.take(lines@.len() as int) =~= lines@);
    }
    out
}

/// Every frame line, in order.
pub fn collect_frames(lines: &[String]) -> (out: Vec<FrameRecord>)
    ensures
        crate::capture::frame_views(out@) == frame_lines_in(lines@),
{
    let mut out: Vec<FrameRecord> = Vec::new();
    let mut i: usize = 0;
    while i < lines.len()
        invariant
            0 <= i <= lines@.len(),
            crate::capture::frame_views(out@) == frame_lines_in(lines@.take(i as int)),
        decreases lines@.len() - i,
    {
        let ghost before = out@;
        proof {
            assert(lines@.take(i + 1).drop_last() =~= lines@.take(i as int));
        }
        match parse_frame_record(lines[i].as_str()) {
            Some(f) => {
                out.push(f);
                proof {
                    assert(crate::capture::frame_views(out@)
                        =~= crate::capture::frame_views(before).push((out@.last().mirrored_prev_send, out@.last().summary@)));
                }
            },
            None => {},
        }
        i = i + 1;
    }
    proof {
        assert(lines@.take(lines@.len() as int) =~= lines@);
    }
    out
}

/// What the frame summaries of a capture suggest about the session.
pub struct CaptureConclusions {
    /// Channel 1 was opened, answered with the main-frame bootstrap and
    /// closed at once: the response did not satisfy the client.
    pub bootstrap_response_insufficient: bool,
    /// Channel 2 or 3 was opened or confirmed.
    pub stage_channels_detected: bool,
    /// Message 8 went out on channel 1.
    pub stage_open_followup_sent: bool,
    /// Message 9 went out on channel 1.
    pub stage_info_followup_sent: bool,
}

pub open spec fn summaries_of(frames: Seq<FrameRecord>) -> Seq<Seq<char>> {
    frames.map_values(|f: FrameRecord| f.summary@)
}

pub open spec fn some_has_prefix(sums: Seq<Seq<char>>, p: Seq<char>) -> bool {
    exists|i: int| 0 <= i < sums.len() && #[trigger] has_prefix(sums[i], p)
}

pub open spec fn spec_conclusions(sums: Seq<Seq<char>>) -> (bool, bool, bool, bool) {
    (
        sums.len() == 3 && has_prefix(sums[0], "ctrl msg=2 ch=1"@) && has_prefix(sums[1], "app ch=1 main=0xe0 sub=0x04"@)
            && has_prefix(sums[2], "ctrl msg=4 ch=1"@),
        some_has_prefix(sums, "ctrl msg=1 ch=2"@) || some_has_prefix(sums, "ctrl msg=1 ch=3"@)
            || some_has_prefix(sums, "ctrl msg=2 ch=2"@) || some_has_prefix(sums, "ctrl msg=2 ch=3"@),
        some_has_prefix(sums, "app ch=1 main=0x08 sub=0x00"@) || some_has_prefix(sums, "raw ch=1 msg=8"@)
            || some_has_prefix(sums, "raw ch=1 handler=0 msg=8"@),
        some_has_prefix(sums, "app ch=1 main=0x09 sub=0x00"@) || some_has_prefix(sums, "raw ch=1 msg=9"@)
            || some_has_prefix(sums, "raw ch=1 handler=0 msg=9"@),
    )
}

fn summary_has_prefix(f: &FrameRecord, p: &str) -> (r: bool)
    ensures
        r == has_prefix(f.summary@, p@),
{
    let s = chars_of(f.summary.as_str());
    let pc = chars_of(p);
    starts_with(s.as_slice(), pc.as_slice())
}

fn any_has_prefix(frames: &[FrameRecord], p: &str) -> (r: bool)
    ensures
        r == some_has_prefix(summaries_of(frames@), p@),
{
    let ghost sums = summaries_of(frames@);
    let mut i: usize = 0;
    while i < frames.len()
        invariant
            0 <= i <= frames@.len(),
            sums == summaries_of(frames@),
            forall|k: int| 0 <= k < i ==> !#[trigger] has_prefix(sums[k], p@),
        decreases frames@.len() - i,
    {
        if summary_has_prefix(&frames[i], p) {
            proof {
                assert(sums[i as int] == frames@[i as int].summary@);
            }
            return true;
        }
        proof {
            assert(sums[i as int] == frames@[i as int].summary@);
        }
        i = i + 1;
    }
    false
}

/// Some summary starts with `p` exactly when some frame's summary does.
proof fn lemma_some_frame_prefix(frames: Seq<FrameRecord>, p: Seq<char>)
    ensures
        some_has_prefix(summaries_of(frames), p) <==> exists|i: int|
            #![trigger frames[i]]
            0 <= i < frames.len() && has_prefix(frames[i].summary@, p),
{
    let sums = summaries_of(frames);
    if some_has_prefix(sums, p) {
        let i = choose|i: int| 0 <= i < sums.len() && #[trigger] has_prefix(sums[i], p);
        assert(sums[i] == frames[i].summary@);
    }
    if exists|i: int| #![trigger frames[i]] 0 <= i < frames.len() && has_prefix(frames[i].summary@, p) {
        let i = choose|i: int| #![trigger frames[i]] 0 <= i < frames.len() && has_prefix(frames[i].summary@, p);
        assert(sums[i] == frames[i].summary@);
        assert(has_prefix(sums[i], p));
    }
}

proof fn lemma_some_frame_prefix3(frames: Seq<FrameRecord>, a: Seq<char>, b: Seq<char>, c: Seq<char>)
    ensures
        (some_has_prefix(summaries_of(frames), a) || some_has_prefix(summaries_of(frames), b) || some_has_prefix(
            summaries_of(frames),
            c,
        )) <==> exists|i: int|
            #![trigger frames[i]]
            0 <= i < frames.len() && (has_prefix(frames[i].summary@, a) || has_prefix(frames[i].summary@, b)
                || has_prefix(frames[i].summary@, c)),
{
    lemma_some_frame_prefix(frames, a);
    lemma_some_frame_prefix(frames, b);
    lemma_some_frame_prefix(frames, c);
    if exists|i: int|
        #![trigger frames[i]]
        0 <= i < frames.len() && (has_prefix(frames[i].summary@, a) || has_prefix(frames[i].summary@, b)
            || has_prefix(frames[i].summary@, c)) {
        let i = choose|i: int|
            #![trigger frames[i]]
            0 <= i < frames.len() && (has_prefix(frames[i].summary@, a) || has_prefix(frames[i].summary@, b)
                || has_prefix(frames[i].summary@, c));
        let _ = frames[i];
    }
}

proof fn lemma_some_frame_prefix4(frames: Seq<FrameRecord>, a: Seq<char>, b: Seq<char>, c: Seq<char>, d: Seq<char>)
    ensures
        (some_has_prefix(summaries_of(frames), a) || some_has_prefix(summaries_of(frames), b) || some_has_prefix(
            summaries_of(frames),
            c,
        ) || some_has_prefix(summaries_of(frames), d)) <==> exists|i: int|
            #![trigger frames[i]]
            0 <= i < frames.len() && (has_prefix(frames[i].summary@, a) || has_prefix(frames[i].summary@, b)
                || has_prefix(frames[i].summary@, c) || has_prefix(frames[i].summary@, d)),
{
    lemma_some_frame_prefix(frames, a);
    lemma_some_frame_prefix(frames, b);
    lemma_some_frame_prefix(frames, c);
    lemma_some_frame_prefix(frames, d);
    if exists|i: int|
        #![trigger frames[i]]
        0 <= i < frames.len() && (has_prefix(frames[i].summary@, a) || has_prefix(frames[i].summary@, b)
            || has_prefix(frames[i].summary@, c) || has_prefix(frames[i].summary@, d)) {
        let i = choose|i: int|
            #![trigger frames[i]]
            0 <= i < frames.len() && (has_prefix(frames[i].summary@, a) || has_prefix(frames[i].summary@, b)
                || has_prefix(frames[i].summary@, c) || has_prefix(frames[i].summary@, d));
        let _ = frames[i];
    }
}

/// The conclusions read off frame summaries, stated frame by frame: the
/// bootstrap was refused when there are exactly three frames, the channel-1
/// open, the main-frame bootstrap and the channel-1 close; a stage channel
/// was seen when some frame opens or confirms channel 2 or 3; message 8
/// (resp. 9) went out on channel 1 when some frame is it as an application
/// message, as a raw message id or as a raw message of handler 0.
pub proof fn lemma_conclusions_by_frame(frames: Seq<FrameRecord>)
    ensures
        ({
            let c = spec_conclusions(summaries_of(frames));
            &&& c.0 <==> (frames.len() == 3 && has_prefix(frames[0].summary@, "ctrl msg=2 ch=1"@) && has_prefix(
                frames[1].summary@,
                "app ch=1 main=0xe0 sub=0x04"@,
            ) && has_prefix(frames[2].summary@, "ctrl msg=4 ch=1"@))
            &&& c.1 <==> exists|i: int|
                #![trigger frames[i]]
                0 <= i < frames.len() && (has_prefix(frames[i].summary@, "ctrl msg=1 ch=2"@) || has_prefix(
                    frames[i].summary@,
                    "ctrl msg=1 ch=3"@,
                ) || has_prefix(frames[i].summary@, "ctrl msg=2 ch=2"@) || has_prefix(
                    frames[i].summary@,
                    "ctrl msg=2 ch=3"@,
                ))
            &&& c.2 <==> exists|i: int|
                #![trigger frames[i]]
                0 <= i < frames.len() && (has_prefix(frames[i].summary@, "app ch=1 main=0x08 sub=0x00"@)
                    || has_prefix(frames[i].summary@, "raw ch=1 msg=8"@) || has_prefix(
                    frames[i].summary@,
                    "raw ch=1 handler=0 msg=8"@,
                ))
            &&& c.3 <==> exists|i: int|
                #![trigger frames[i]]
                0 <= i < frames.len() && (has_prefix(frames[i].summary@, "app ch=1 main=0x09 sub=0x00"@)
                    || has_prefix(frames[i].summary@, "raw ch=1 msg=9"@) || has_prefix(
                    frames[i].summary@,
                    "raw ch=1 handler=0 msg=9"@,
                ))
        }),
{
    let sums = summaries_of(frames);
    if frames.len() == 3 {
        assert(sums[0] == frames[0].summary@);
        assert(sums[1] == frames[1].summary@);
        assert(sums[2] == frames[2].summary@);
    }
    lemma_some_frame_prefix4(frames, "ctrl msg=1 ch=2"@, "ctrl msg=1 ch=3"@, "ctrl msg=2 ch=2"@, "ctrl msg=2 ch=3"@);
    lemma_some_frame_prefix3(frames, "app ch=1 main=0x08 sub=0x00"@, "raw ch=1 msg=8"@, "raw ch=1 handler=0 msg=8"@);
    lemma_some_frame_prefix3(frames, "app ch=1 main=0x09 sub=0x00"@, "raw ch=1 msg=9"@, "raw ch=1 handler=0 msg=9"@);
}

/// Reads the conclusions off the frame summaries.
pub fn infer_conclusions(frames: &[FrameRecord]) -> (c: CaptureConclusions)
    ensures
        (c.bootstrap_response_insufficient, c.stage_channels_detected, c.stage_open_followup_sent, c.stage_info_followup_sent)
            == spec_conclusions(summaries_of(frames@)),
{
    let ghost sums = summaries_of(frames@);
    let bootstrap = frames.len() == 3 && summary_has_prefix(&frames[0], "ctrl msg=2 ch=1")
        && summary_has_prefix(&frames[1], "app ch=1 main=0xe0 sub=0x04")
        && summary_has_prefix(&frames[2], "ctrl msg=4 ch=1");
    let stage = any_has_prefix(frames, "ctrl msg=1 ch=2") || any_has_prefix(frames, "ctrl msg=1 ch=3")
        || any_has_prefix(frames, "ctrl msg=2 ch=2") || any_has_prefix(frames, "ctrl msg=2 ch=3");
    let open = any_has_prefix(frames, "app ch=1 main=0x08 sub=0x00") || any_has_prefix(frames, "raw ch=1 msg=8")
        || any_has_prefix(frames, "raw ch=1 handler=0 msg=8");
    let info = any_has_prefix(frames, "app ch=1 main=0x09 sub=0x00") || any_has_prefix(frames, "raw ch=1 msg=9")
        || any_has_prefix(frames, "raw ch=1 handler=0 msg=9");
    proof {
        if frames@.len() == 3 {
            assert(sums[0] == frames@[0].summary@);
            assert(sums[1] == frames@[1].summary@);
            assert(sums[2] == frames@[2].summary@);
        }
    }
    CaptureConclusions {
        bootstrap_response_insufficient: bootstrap,
        stage_channels_detected: stage,
        stage_open_followup_sent: open,
        stage_info_followup_sent: info,
    }
}

/// Frames that answered the previous send.
pub open spec fn mirrored_count(frames: Seq<(bool, Seq<char>)>) -> nat
    decreases frames.len(),
{
    if frames.len() == 0 {
        0
    } else {
        mirrored_count(frames.drop_last()) + if frames.last().0 { 1nat } else { 0nat }
    }
}

/// Counts the frames that answered the previous send.
pub fn count_mirrored_frames(frames: &[FrameRecord]) -> (n: usize)
    ensures
        n == mirrored_count(crate::capture::frame_views(frames@)),
{
    let ghost fv = crate::capture::frame_views(frames@);
    let mut n: usize = 0;
    let mut i: usize = 0;
    while i < frames.len()
        invariant
            0 <= i <= frames@.len(),
            fv == crate::capture::frame_views(frames@),
            n == mirrored_count(fv.take(i as int)),
            n <= i,
        decreases frames@.len() - i,
    {
        proof {
            assert(fv.take(i + 1).drop_last() =~= fv.take(i as int));
        }
        if frames[i].mirrored_prev_send {
            n = n + 1;
        }
        i = i + 1;
    }
    proof {
        assert(fv.take(frames@.len() as int) =~= fv);
    }
    n
}

/// The number of white-space characters that begin `t`.
pub open spec fn leading_ws(t: Seq<char>) -> nat
    decreases t.len(),
{
    if t.len() > 0 && is_ws(t[0]) { 1 + leading_ws(t.drop_first()) } else { 0 }
}

/// The number of white-space characters that end `t`.
pub open spec fn trailing_ws(t: Seq<char>) -> nat
    decreases t.len(),
{
    if t.len() > 0 && is_ws(t.last()) { 1 + trailing_ws(t.drop_last()) } else { 0 }
}

/// `t` without white space at either end, as `str::trim` gives it.
pub open spec fn trimmed(t: Seq<char>) -> Seq<char> {
    if leading_ws(t) >= t.len() { Seq::empty() } else { t.subrange(leading_ws(t) as int, t.len() - trailing_ws(t)) }
}

/// The lines of a log file that are not blank, each trimmed.
pub open spec fn log_lines(ls: Seq<Seq<char>>) -> Seq<Seq<char>>
    decreases ls.len(),
{
    if ls.len() == 0 {
        Seq::empty()
    } else if trimmed(ls.last()).len() == 0 {
        log_lines(ls.drop_last())
    } else {
        log_lines(ls.drop_last()).push(trimmed(ls.last()))
    }
}

proof fn lemma_leading_ws(t: Seq<char>, i: int)
    requires
        0 <= i <= t.len(),
        forall|k: int| 0 <= k < i ==> is_ws(#[trigger] t[k]),
        i == t.len() || !is_ws(t[i]),
    ensures
        leading_ws(t) == i,
    decreases i,
{
    if i > 0 {
        assert forall|k: int| 0 <= k < i - 1 implies is_ws(#[trigger] t.drop_first()[k]) by {
            assert(t.drop_first()[k] == t[k + 1]);
        }
        if i < t.len() {
            assert(t.drop_first()[i - 1] == t[i]);
        }
        lemma_leading_ws(t.drop_first(), i - 1);
    }
}

proof fn lemma_trailing_ws(t: Seq<char>, j: int)
    requires
        0 <= j <= t.len(),
        forall|k: int| j <= k < t.len() ==> is_ws(#[trigger] t[k]),
        j == 0 || !is_ws(t[j - 1]),
    ensures
        trailing_ws(t) == t.len() - j,
    decreases t.len() - j,
{
    if j < t.len() {
        assert forall|k: int| j <= k < t.len() - 1 implies is_ws(#[trigger] t.drop_last()[k]) by {
            assert(t.drop_last()[k] == t[k]);
        }
        if j > 0 {
            assert(t.drop_last()[j - 1] == t[j - 1]);
        }
        lemma_trailing_ws(t.drop_last(), j);
    }
}

fn trim_chars(t: &[char]) -> (r: Vec<char>)
    ensures
        r@ == trimmed(t@),
{
    let n = t.len();
    let mut i: usize = 0;
    while i < n && is_ws_exec(t[i])
        invariant
            n == t@.len(),
            0 <= i <= n,
            forall|k: int| 0 <= k < i ==> is_ws(#[trigger] t@[k]),
        decreases n - i,
    {
        i = i + 1;
    }
    proof {
        lemma_leading_ws(t@, i as int);
    }
    if i == n {
        return Vec::new();
    }
    let mut j: usize = n;
    while j > i && is_ws_exec(t[j - 1])
        invariant
            n == t@.len(),
            i < n,
            !is_ws(t@[i as int]),
            i <= j <= n,
            forall|k: int| j <= k < n ==> is_ws(#[trigger] t@[k]),
        decreases j,
    {
        j = j - 1;
    }
    proof {
        if j == i {
            assert(is_ws(t@[i as int]));
        }
        lemma_trailing_ws(t@, j as int);
    }
    let mut out: Vec<char> = Vec::new();
    let mut k: usize = i;
    while k < j
        invariant
            i <= k <= j <= n,
            n == t@.len(),
            out@ == t@.subrange(i as int, k as int),
        decreases j - k,
    {
        out.push(t[k]);
        proof {
            assert(t@.subrange(i as int, k + 1) =~= t@.subrange(i as int, k as int).push(t@[k as int]));
        }
        k = k + 1;
    }
    out
}

/// The lines of a log file's text that hold anything but white space, each
/// trimmed, in order.
pub fn log_file_lines(text: &str) -> (r: Vec<String>)
    ensures
        string_views(r@) == log_lines(lines_of(text@)),
{
    let s = chars_of(text);
    let n = s.len();
    let mut out: Vec<String> = Vec::new();
    let mut i: usize = 0;
    proof {
        assert(lines_of(s@) == lines_from(s@, 0));
    }
    while i < n
        invariant
            n == s@.len(),
            s@ == text@,
            0 <= i <= n,
            (i == 0 || i == n || s@[i - 1] == '\n'),
            log_lines(lines_of(s@)) == log_lines_append(string_views(out@), lines_from(s@, i as int)),
        decreases n - i,
    {
        let start = i;
        while i < n && s[i] != '\n'
            invariant
                n == s@.len(),
                start <= i <= n,
                forall|k: int| start <= k < i ==> s@[k] != '\n',
            decreases n - i,
        {
            i = i + 1;
        }
        proof {
            lemma_next_newline(s@, start as int);
            if next_newline(s@, start as int) < i {
                assert(s@[next_newline(s@, start as int)] == '\n');
            }
            if next_newline(s@, start as int) > i {
                assert(s@[i as int] != '\n');
            }
            assert(next_newline(s@, start as int) == i);
        }
        let end = if i < n && i > start && s[i - 1] == '\r' { i - 1 } else { i };
        let mut line: Vec<char> = Vec::new();
        let mut k = start;
        while k < end
            invariant
                start <= k <= end <= n,
                n == s@.len(),
                line@ == s@.subrange(start as int, k as int),
            decreases end - k,
        {
            line.push(s[k]);
            proof {
                assert(s@.subrange(start as int, k + 1) =~= s@.subrange(start as int, k as int).push(s@[k as int]));
            }
            k = k + 1;
        }
        let t = trim_chars(line.as_slice());
        let ghost before = string_views(out@);
        let ghost rest = if i < n { lines_from(s@, i + 1) } else { Seq::<Seq<char>>::empty() };
        proof {
            assert(lines_from(s@, start as int) == seq![line@] + rest);
            lemma_log_lines_append_step(before, line@, rest);
        }
        if t.len() > 0 {
            out.push(string_from_chars(t.as_slice()));
            proof {
                assert(string_views(out@) =~= before.push(trimmed(line@)));
            }
        }
        if i < n {
            i = i + 1;
        }
    }
    proof {
        assert(lines_from(s@, n as int) =~= Seq::<Seq<char>>::empty());
    }
    out
}

/// The log lines of `done` followed by the log lines of `rest`.
pub open spec fn log_lines_append(done: Seq<Seq<char>>, rest: Seq<Seq<char>>) -> Seq<Seq<char>> {
    done + log_lines(rest)
}

proof fn lemma_log_lines_concat(a: Seq<Seq<char>>, b: Seq<Seq<char>>)
    ensures
        log_lines(a + b) == log_lines(a) + log_lines(b),
    decreases b.len(),
{
    if b.len() == 0 {
        assert(a + b =~= a);
        assert(log_lines(a) + log_lines(b) =~= log_lines(a));
    } else {
        assert((a + b).drop_last() =~= a + b.drop_last());
        lemma_log_lines_concat(a, b.drop_last());
        if trimmed(b.last()).len() != 0 {
            assert(log_lines(a) + log_lines(b.drop_last()).push(trimmed(b.last()))
                =~= (log_lines(a) + log_lines(b.drop_last())).push(trimmed(b.last())));
        }
    }
}

proof fn lemma_log_lines_append_step(done: Seq<Seq<char>>, line: Seq<char>, rest: Seq<Seq<char>>)
    ensures
        log_lines_append(done, seq![line] + rest) == log_lines_append(
            if trimmed(line).len() > 0 { done.push(trimmed(line)) } else { done }, rest),
{
    lemma_log_lines_concat(seq![line], rest);
    assert(seq![line].drop_last() =~= Seq::<Seq<char>>::empty());
    assert(log_lines(Seq::<Seq<char>>::empty()) == Seq::<Seq<char>>::empty());
    if trimmed(line).len() > 0 {
        assert(log_lines(seq![line]) =~= seq![trimmed(line)]);
        assert(done + (seq![trimmed(line)] + log_lines(rest)) =~= done.push(trimmed(line)) + log_lines(rest));
    } else {
        assert(log_lines(seq![line]) =~= Seq::<Seq<char>>::empty());
        assert(done + (Seq::<Seq<char>>::empty() + log_lines(rest)) =~= done + log_lines(rest));
    }
}

} // verus!
