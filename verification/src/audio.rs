//! Sound data of the Rare.dll proxy: telling WAV from MP3, walking the
//! chunks of a RIFF/WAVE file, decoding PCM samples to integers, and
//! finding an entry in a `.pak` sound archive.

use vstd::prelude::*;
use crate::text::{ends_with_ascii_ci, ends_with_ascii_ci_exec};

verus! {

/// How the bytes of a sound are to be decoded.
#[derive(Debug, Clone, Copy, PartialEq, Eq, Structural)]
pub enum AudioKind {
    Wave,
    Mp3,
    Unsupported,
}

pub open spec fn bytes_at(d: Seq<u8>, i: int, tag: Seq<u8>) -> bool {
    0 <= i && i + tag.len() <= d.len() && d.subrange(i, i + tag.len()) == tag
}

pub open spec fn riff_tag() -> Seq<u8> { seq![0x52u8, 0x49, 0x46, 0x46] }

pub open spec fn wave_tag() -> Seq<u8> { seq![0x57u8, 0x41, 0x56, 0x45] }

pub open spec fn fmt_tag() -> Seq<u8> { seq![0x66u8, 0x6d, 0x74, 0x20] }

pub open spec fn data_tag() -> Seq<u8> { seq![0x64u8, 0x61, 0x74, 0x61] }

pub open spec fn id3_tag() -> Seq<u8> { seq![0x49u8, 0x44, 0x33] }

/// A RIFF container of WAVE data.
pub open spec fn is_riff_wave(d: Seq<u8>) -> bool {
    d.len() >= 12 && bytes_at(d, 0, riff_tag()) && bytes_at(d, 8, wave_tag())
}

/// Some byte pair looks like an MPEG audio frame sync.
pub open spec fn has_frame_sync(d: Seq<u8>) -> bool {
    exists|i: int| 0 <= i < d.len() - 1 && d[i] == 0xff && #[trigger] (d[i + 1] & 0xe0) == 0xe0
}

/// RIFF/WAVE data is WAV; a name ending in `.mp3`, an ID3 tag or a frame
/// sync anywhere is MP3; anything else is unsupported.
pub open spec fn audio_kind(name: Seq<char>, d: Seq<u8>) -> AudioKind {
    if is_riff_wave(d) {
        AudioKind::Wave
    } else if ends_with_ascii_ci(name, ".mp3"@) || bytes_at(d, 0, id3_tag()) || has_frame_sync(d) {
        AudioKind::Mp3
    } else {
        AudioKind::Unsupported
    }
}

fn tag_at(d: &[u8], i: usize, t0: u8, t1: u8, t2: u8, t3: u8) -> (r: bool)
    requires
        i + 4 <= d@.len(),
    ensures
        r == (d@.subrange(i as int, i + 4) == seq![t0, t1, t2, t3]),
{
    let r = d[i] == t0 && d[i + 1] == t1 && d[i + 2] == t2 && d[i + 3] == t3;
    proof {
        if r {
            assert(d@.subrange(i as int, i + 4) =~= seq![t0, t1, t2, t3]);
        } else {
            if d@.subrange(i as int, i + 4) == seq![t0, t1, t2, t3] {
                assert(d@.subrange(i as int, i + 4)[0] == t0);
                assert(d@.subrange(i as int, i + 4)[1] == t1);
                assert(d@.subrange(i as int, i + 4)[2] == t2);
                assert(d@.subrange(i as int, i + 4)[3] == t3);
            }
        }
    }
    r
}

fn find_frame_sync(d: &[u8]) -> (r: bool)
    ensures
        r == has_frame_sync(d@),
{
    let mut i: usize = 0;
    while d.len() > 1 && i < d.len() - 1
        invariant
            0 <= i <= d@.len(),
            forall|j: int| 0 <= j < i && j < d@.len() - 1 ==> !(d@[j] == 0xff && #[trigger] (d@[j + 1] & 0xe0) == 0xe0),
        decreases d@.len() - i,
    {
        if d[i] == 0xff && (d[i + 1] & 0xe0) == 0xe0 {
            return true;
        }
        i = i + 1;
    }
    false
}

/// Decides how to decode a sound from its name and bytes.
pub fn sniff_audio_format(name_hint: &str, data: &[u8]) -> (r: AudioKind)
    ensures
        r == audio_kind(name_hint@, data@),
{
    if data.len() >= 12 && tag_at(data, 0, 0x52, 0x49, 0x46, 0x46) && tag_at(data, 8, 0x57, 0x41, 0x56, 0x45) {
        return AudioKind::Wave;
    }
    let id3 = data.len() >= 3 && data[0] == 0x49 && data[1] == 0x44 && data[2] == 0x33;
    proof {
        if id3 {
            assert(data@.subrange(0, 3) =~= id3_tag());
        } else if data@.len() >= 3 && bytes_at(data@, 0, id3_tag()) {
            assert(data@.subrange(0, 3)[0] == 0x49 && data@.subrange(0, 3)[1] == 0x44 && data@.subrange(0, 3)[2] == 0x33);
        }
        reveal_strlit(".mp3");
    }
    if ends_with_ascii_ci_exec(name_hint, ".mp3") || id3 || find_frame_sync(data) {
        AudioKind::Mp3
    } else {
        AudioKind::Unsupported
    }
}

/// Why a WAV file is refused.
#[derive(Debug, Clone, Copy, PartialEq, Eq, Structural)]
pub enum WaveError {
    /// No RIFF/WAVE header.
    NotRiffWave,
    /// A `fmt ` chunk shorter than 16 bytes.
    FmtTooShort,
    /// No usable format: channels, sample rate or sample size is 0.
    MissingFormat,
    /// No `data` chunk.
    MissingData,
    /// A sample coding other than 8, 16, 24 or 32-bit integer PCM or
    /// 32-bit float.
    Unsupported { audio_format: u16, bits_per_sample: u16 },
}

/// The format fields and sample data of a WAV file; the samples are
/// `data[data_start..data_start + data_len]`.
#[derive(Debug, Clone, Copy, PartialEq, Eq, Structural)]
pub struct WaveLayout {
    pub audio_format: u16,
    pub channels: u16,
    pub sample_rate: u32,
    pub bits_per_sample: u16,
    pub data_start: usize,
    pub data_len: usize,
}

pub open spec fn le16(d: Seq<u8>, i: int) -> int {
    d[i] + 256 * d[i + 1]
}

pub open spec fn le32(d: Seq<u8>, i: int) -> int {
    d[i] + 256 * d[i + 1] + 65536 * d[i + 2] + 16777216 * d[i + 3]
}

/// What the chunk walk has found so far: format, channels, sample rate,
/// sample size, and the last data chunk as (start, length).
pub struct WaveScan {
    pub audio_format: u16,
    pub channels: u16,
    pub sample_rate: u32,
    pub bits_per_sample: u16,
    pub data: Option<(int, int)>,
}

/// A chunk body is padded to an even length.
pub open spec fn padded(size: int) -> int {
    if size % 2 == 0 { size } else { size + 1 }
}

/// Walks the chunks from `pos`: a chunk whose header or body does not fit
/// ends the walk; a `fmt ` chunk sets the format (or fails when short); a
/// `data` chunk marks the samples; other chunks are skipped.
pub open spec fn scan_chunks(d: Seq<u8>, pos: int, acc: WaveScan) -> Result<WaveScan, WaveError>
    decreases d.len() + 1 - pos,
{
    if pos < 0 || pos + 8 > d.len() {
        Ok(acc)
    } else {
        let size = le32(d, pos + 4);
        let body = pos + 8;
        if body + size > d.len() {
            Ok(acc)
        } else if bytes_at(d, pos, fmt_tag()) {
            if size < 16 {
                Err(WaveError::FmtTooShort)
            } else {
                scan_chunks(d, body + padded(size), WaveScan {
                    audio_format: le16(d, body) as u16,
                    channels: le16(d, body + 2) as u16,
                    sample_rate: le32(d, body + 4) as u32,
                    bits_per_sample: le16(d, body + 14) as u16,
                    ..acc
                })
            }
        } else if bytes_at(d, pos, data_tag()) {
            scan_chunks(d, body + padded(size), WaveScan { data: Some((body, size)), ..acc })
        } else {
            scan_chunks(d, body + padded(size), acc)
        }
    }
}

pub open spec fn empty_scan() -> WaveScan {
    WaveScan { audio_format: 0, channels: 0, sample_rate: 0, bits_per_sample: 0, data: None }
}

/// The layout of a WAV file, or why it is refused.
pub open spec fn wave_layout(d: Seq<u8>) -> Result<WaveLayout, WaveError> {
    if !is_riff_wave(d) {
        Err(WaveError::NotRiffWave)
    } else {
        match scan_chunks(d, 12, empty_scan()) {
            Err(e) => Err(e),
            Ok(s) => if s.channels == 0 || s.sample_rate == 0 || s.bits_per_sample == 0 {
                Err(WaveError::MissingFormat)
            } else {
                match s.data {
                    None => Err(WaveError::MissingData),
                    Some((start, len)) => Ok(WaveLayout {
                        audio_format: s.audio_format,
                        channels: s.channels,
                        sample_rate: s.sample_rate,
                        bits_per_sample: s.bits_per_sample,
                        data_start: start as usize,
                        data_len: len as usize,
                    }),
                }
            },
        }
    }
}

fn read_le16(d: &[u8], i: usize) -> (r: u16)
    requires
        i + 2 <= d@.len(),
    ensures
        r == le16(d@, i as int),
{
    d[i] as u16 + 256 * (d[i + 1] as u16)
}

fn read_le32(d: &[u8], i: usize) -> (r: u32)
    requires
        i + 4 <= d@.len(),
    ensures
        r == le32(d@, i as int),
{
    d[i] as u32 + 256 * (d[i + 1] as u32) + 65536 * (d[i + 2] as u32) + 16777216 * (d[i + 3] as u32)
}

/// Reads the format and finds the samples of a WAV file.
pub fn parse_wave(data: &[u8]) -> (r: Result<WaveLayout, WaveError>)
    ensures
        r == wave_layout(data@),
{
    if !(data.len() >= 12 && tag_at(data, 0, 0x52, 0x49, 0x46, 0x46) && tag_at(data, 8, 0x57, 0x41, 0x56, 0x45)) {
        return Err(WaveError::NotRiffWave);
    }
    proof {
        assert(riff_tag() == seq![0x52u8, 0x49, 0x46, 0x46]);
        assert(wave_tag() == seq![0x57u8, 0x41, 0x56, 0x45]);
        assert(is_riff_wave(data@));
    }
    let mut audio_format: u16 = 0;
    let mut channels: u16 = 0;
    let mut sample_rate: u32 = 0;
    let mut bits_per_sample: u16 = 0;
    let mut pcm: Option<(usize, usize)> = None;
    let mut pos: usize = 12;
    let ghost d = data@;
    while pos <= data.len() && data.len() - pos >= 8
        invariant
            d == data@,
            is_riff_wave(d),
            12 <= pos <= d.len(),
            scan_chunks(d, 12, empty_scan()) == scan_chunks(d, pos as int, WaveScan {
                audio_format, channels, sample_rate, bits_per_sample,
                data: match pcm { Some((s, l)) => Some((s as int, l as int)), None => None },
            }),
        ensures
            scan_chunks(d, 12, empty_scan()) == Ok::<WaveScan, WaveError>(WaveScan {
                audio_format, channels, sample_rate, bits_per_sample,
                data: match pcm { Some((s, l)) => Some((s as int, l as int)), None => None },
            }),
        decreases d.len() + 1 - pos,
    {
        let ghost acc = WaveScan {
            audio_format, channels, sample_rate, bits_per_sample,
            data: match pcm { Some((s, l)) => Some((s as int, l as int)), None => None },
        };
        let size = read_le32(data, pos + 4) as usize;
        let body = pos + 8;
        if size > data.len() - body {
            break;
        }
        let next = if size % 2 == 0 || body + size < data.len() {
            if size % 2 == 0 { body + size } else { body + size + 1 }
        } else {
            data.len()
        };
        let ghost is_fmt = bytes_at(d, pos as int, fmt_tag());
        let ghost is_data = bytes_at(d, pos as int, data_tag());
        if tag_at(data, pos, 0x66, 0x6d, 0x74, 0x20) {
            if size < 16 {
                proof {
                    assert(fmt_tag() == seq![0x66u8, 0x6d, 0x74, 0x20]);
                    assert(bytes_at(d, pos as int, fmt_tag()));
                    assert(scan_chunks(d, pos as int, acc) == Err::<WaveScan, WaveError>(WaveError::FmtTooShort));
                }
                return Err(WaveError::FmtTooShort);
            }
            audio_format = read_le16(data, body);
            channels = read_le16(data, body + 2);
            sample_rate = read_le32(data, body + 4);
            bits_per_sample = read_le16(data, body + 14);
        } else if tag_at(data, pos, 0x64, 0x61, 0x74, 0x61) {
            pcm = Some((body, size));
        }
        proof {
            let acc2 = WaveScan {
                audio_format, channels, sample_rate, bits_per_sample,
                data: match pcm { Some((s, l)) => Some((s as int, l as int)), None => None },
            };
            let target = body + padded(size as int);
            if next as int != target {
                assert(scan_chunks(d, target, acc2) == Ok::<WaveScan, WaveError>(acc2));
                assert(scan_chunks(d, next as int, acc2) == Ok::<WaveScan, WaveError>(acc2));
            }
        }
        pos = next;
    }
    if channels == 0 || sample_rate == 0 || bits_per_sample == 0 {
        return Err(WaveError::MissingFormat);
    }
    match pcm {
        None => Err(WaveError::MissingData),
        Some((start, len)) => Ok(WaveLayout { audio_format, channels, sample_rate, bits_per_sample, data_start: start, data_len: len }),
    }
}

/// How the samples of a WAV file are coded.
#[derive(Debug, Clone, Copy, PartialEq, Eq, Structural)]
pub enum SampleCoding {
    /// Unsigned 8-bit PCM, silence at 128.
    Pcm8,
    Pcm16,
    Pcm24,
    Pcm32,
    /// IEEE 32-bit float.
    Float32,
}

pub open spec fn spec_sample_coding(audio_format: u16, bits_per_sample: u16) -> Result<SampleCoding, WaveError> {
    if audio_format == 1 && bits_per_sample == 8 {
        Ok(SampleCoding::Pcm8)
    } else if audio_format == 1 && bits_per_sample == 16 {
        Ok(SampleCoding::Pcm16)
    } else if audio_format == 1 && bits_per_sample == 24 {
        Ok(SampleCoding::Pcm24)
    } else if audio_format == 1 && bits_per_sample == 32 {
        Ok(SampleCoding::Pcm32)
    } else if audio_format == 3 && bits_per_sample == 32 {
        Ok(SampleCoding::Float32)
    } else {
        Err(WaveError::Unsupported { audio_format, bits_per_sample })
    }
}

/// The coding of a WAV file's samples, from its format tag (1: integer
/// PCM, 3: float) and sample size.
pub fn sample_coding(audio_format: u16, bits_per_sample: u16) -> (r: Result<SampleCoding, WaveError>)
    ensures
        r == spec_sample_coding(audio_format, bits_per_sample),
{
    if audio_format == 1 && bits_per_sample == 8 {
        Ok(SampleCoding::Pcm8)
    } else if audio_format == 1 && bits_per_sample == 16 {
        Ok(SampleCoding::Pcm16)
    } else if audio_format == 1 && bits_per_sample == 24 {
        Ok(SampleCoding::Pcm24)
    } else if audio_format == 1 && bits_per_sample == 32 {
        Ok(SampleCoding::Pcm32)
    } else if audio_format == 3 && bits_per_sample == 32 {
        Ok(SampleCoding::Float32)
    } else {
        Err(WaveError::Unsupported { audio_format, bits_per_sample })
    }
}

/// Bytes per sample.
pub open spec fn sample_width(c: SampleCoding) -> int {
    match c {
        SampleCoding::Pcm8 => 1,
        SampleCoding::Pcm16 => 2,
        SampleCoding::Pcm24 => 3,
        SampleCoding::Pcm32 => 4,
        SampleCoding::Float32 => 4,
    }
}

/// Sample `k` as an integer: the raw byte for 8-bit PCM, the
/// little-endian two's-complement value for 16, 24 and 32-bit PCM, and the
/// bit pattern for float samples.
pub open spec fn sample_value(c: SampleCoding, d: Seq<u8>, k: int) -> int {
    match c {
        SampleCoding::Pcm8 => d[k] as int,
        SampleCoding::Pcm16 => {
            let v = le16(d, 2 * k);
            if v >= 0x8000 { v - 0x1_0000 } else { v }
        },
        SampleCoding::Pcm24 => {
            let v = d[3 * k] + 256 * d[3 * k + 1] + 65536 * d[3 * k + 2];
            if v >= 0x80_0000 { v - 0x100_0000 } else { v }
        },
        SampleCoding::Pcm32 | SampleCoding::Float32 => {
            let v = le32(d, 4 * k);
            if v >= 0x8000_0000 { v - 0x1_0000_0000 } else { v }
        },
    }
}

fn width_of(c: SampleCoding) -> (w: usize)
    ensures
        w == sample_width(c),
{
    match c {
        SampleCoding::Pcm8 => 1,
        SampleCoding::Pcm16 => 2,
        SampleCoding::Pcm24 => 3,
        SampleCoding::Pcm32 => 4,
        SampleCoding::Float32 => 4,
    }
}

/// Decodes the whole samples of `data` (a trailing partial sample is
/// dropped) to integers; see `sample_value`.
pub fn decode_samples(coding: SampleCoding, data: &[u8]) -> (r: Vec<i32>)
    ensures
        r@.len() == (data@.len() as int) / sample_width(coding),
        forall|k: int| 0 <= k < r@.len() ==> #[trigger] r@[k] as int == sample_value(coding, data@, k),
{
    let w = width_of(coding);
    let n = data.len() / w;
    let mut out: Vec<i32> = Vec::new();
    let mut k: usize = 0;
    while k < n
        invariant
            w == sample_width(coding),
            n == (data@.len() as int) / sample_width(coding),
            0 <= k <= n,
            out@.len() == k,
            forall|j: int| 0 <= j < k ==> #[trigger] out@[j] as int == sample_value(coding, data@, j),
        decreases n - k,
    {
        proof {
            assert(k * w + w <= n * w) by (nonlinear_arith)
                requires k < n, w >= 1;
            assert(n * w <= data@.len()) by (nonlinear_arith)
                requires n as int == (data@.len() as int) / (w as int), w >= 1;
            assert(data@.len() == data.len());
        }
        let i = k * w;
        let v: i64 = match coding {
            SampleCoding::Pcm8 => data[i] as i64,
            SampleCoding::Pcm16 => {
                let u = data[i] as i64 + 256 * (data[i + 1] as i64);
                if u >= 0x8000 { u - 0x1_0000 } else { u }
            },
            SampleCoding::Pcm24 => {
                let u = data[i] as i64 + 256 * (data[i + 1] as i64) + 65536 * (data[i + 2] as i64);
                if u >= 0x80_0000 { u - 0x100_0000 } else { u }
            },
            _ => {
                let u = data[i] as i64 + 256 * (data[i + 1] as i64) + 65536 * (data[i + 2] as i64)
                    + 16777216 * (data[i + 3] as i64);
                if u >= 0x8000_0000 { u - 0x1_0000_0000 } else { u }
            },
        };
        out.push(v as i32);
        k = k + 1;
    }
    out
}

/// A little-endian `i32`.
pub open spec fn le32_signed(d: Seq<u8>, i: int) -> int {
    let v = le32(d, i);
    if v >= 0x8000_0000 { v - 0x1_0000_0000 } else { v }
}

/// The number of entries of a pack, stored as `n` or as `-n - 1`.
pub open spec fn pack_entry_count(d: Seq<u8>) -> int {
    let raw = le32_signed(d, 0);
    if raw < 0 { -raw - 1 } else { raw }
}

/// The bytes before the first data: the count and 28 bytes per entry.
pub open spec fn pack_header_size(d: Seq<u8>) -> int {
    4 + 28 * pack_entry_count(d)
}

/// The name of the entry at `off`: its first 20 bytes, each inverted, up
/// to the first zero.
pub open spec fn pack_entry_name(d: Seq<u8>, off: int) -> Seq<u8> {
    let raw = Seq::new(20, |j: int| (d[off + j] ^ 0xff) as u8);
    if exists|j: int| 0 <= j < 20 && raw[j] == 0 {
        raw.take(choose|j: int| 0 <= j < 20 && raw[j] == 0 && forall|k: int| 0 <= k < j ==> raw[k] != 0)
    } else {
        raw
    }
}

pub open spec fn ascii_lower_byte(b: u8) -> u8 {
    if 0x41 <= b <= 0x5a { (b + 32) as u8 } else { b }
}

/// Equal when ASCII letters are compared without case.
pub open spec fn names_match(a: Seq<u8>, b: Seq<u8>) -> bool {
    a.len() == b.len() && forall|i: int| 0 <= i < a.len() ==> #[trigger] ascii_lower_byte(a[i]) == ascii_lower_byte(b[i])
}

/// The entries from `index` on: the first whose name matches decides. Its
/// start and end are stored as negative offsets from the header end (the
/// start 1-based); a non-negative marker, an end of `i32::MIN`, an empty or
/// out-of-file range gives none.
pub open spec fn pack_search(d: Seq<u8>, wanted: Seq<u8>, count: int, header: int, index: int) -> Option<(Seq<u8>, int, int)>
    decreases count - index,
{
    if index < 0 || index >= count {
        None
    } else {
        let off = 4 + 28 * index;
        let name = pack_entry_name(d, off);
        if !names_match(name, wanted) {
            pack_search(d, wanted, count, header, index + 1)
        } else {
            let s = le32_signed(d, off + 20);
            let e = le32_signed(d, off + 24);
            let start = header + (-s - 1);
            let end = header + (-e);
            if s >= 0 || e >= 0 || e == i32::MIN || end > usize::MAX || start >= end || end > d.len() {
                None
            } else {
                Some((name, start, end))
            }
        }
    }
}

/// The entry of the pack `d` named `wanted` (ASCII case ignored): its name
/// and the range of its bytes.
pub open spec fn pack_lookup(d: Seq<u8>, wanted: Seq<u8>) -> Option<(Seq<u8>, int, int)> {
    if d.len() < 4 || pack_header_size(d) > usize::MAX || d.len() < pack_header_size(d) {
        None
    } else {
        pack_search(d, wanted, pack_entry_count(d), pack_header_size(d), 0)
    }
}

/// An entry of a sound pack: its name and where its bytes lie.
pub struct PackEntry {
    pub name: Vec<u8>,
    pub start: usize,
    pub end: usize,
}

fn read_le32_signed(d: &[u8], i: usize) -> (r: i64)
    requires
        i + 4 <= d@.len(),
    ensures
        r == le32_signed(d@, i as int),
{
    let v = read_le32(d, i) as i64;
    if v >= 0x8000_0000 { v - 0x1_0000_0000 } else { v }
}

fn lower_byte(b: u8) -> (r: u8)
    ensures
        r == ascii_lower_byte(b),
{
    if 0x41 <= b && b <= 0x5a { b + 32 } else { b }
}

fn entry_name(d: &[u8], off: usize) -> (r: Vec<u8>)
    requires
        off + 20 <= d@.len(),
    ensures
        r@ == pack_entry_name(d@, off as int),
{
    let ghost raw = Seq::new(20, |j: int| (d@[off + j] ^ 0xff) as u8);
    let mut out: Vec<u8> = Vec::new();
    let mut j: usize = 0;
    while j < 20
        invariant
            off + 20 <= d@.len(),
            d@.len() == d.len(),
            raw == Seq::new(20, |j: int| (d@[off + j] ^ 0xff) as u8),
            0 <= j <= 20,
            out@ == raw.take(j as int),
            forall|k: int| 0 <= k < j ==> raw[k] != 0,
        decreases 20 - j,
    {
        let b = d[off + j] ^ 0xff;
        if b == 0 {
            proof {
                assert(raw[j as int] == 0);
                let c = choose|c: int| 0 <= c < 20 && raw[c] == 0 && forall|k: int| 0 <= k < c ==> raw[k] != 0;
                assert(c == j) by {
                    if c < j { assert(raw[c] != 0); }
                    if c > j { assert(raw[j as int] != 0); }
                }
            }
            return out;
        }
        out.push(b);
        proof {
            assert(raw.take(j + 1) =~= raw.take(j as int).push(b));
        }
        j = j + 1;
    }
    proof {
        assert(raw.take(20) =~= raw);
    }
    out
}

fn names_match_exec(a: &Vec<u8>, b: &[u8]) -> (r: bool)
    ensures
        r == names_match(a@, b@),
{
    if a.len() != b.len() {
        return false;
    }
    let mut i: usize = 0;
    while i < a.len()
        invariant
            a@.len() == b@.len(),
            0 <= i <= a@.len(),
            forall|k: int| 0 <= k < i ==> #[trigger] ascii_lower_byte(a@[k]) == ascii_lower_byte(b@[k]),
        decreases a@.len() - i,
    {
        if lower_byte(a[i]) != lower_byte(b[i]) {
            return false;
        }
        i = i + 1;
    }
    true
}

/// Finds the entry named `wanted` in the sound pack `data`; see `pack_lookup`.
pub fn find_pack_entry(data: &[u8], wanted: &[u8]) -> (r: Option<PackEntry>)
    ensures
        match pack_lookup(data@, wanted@) {
            Some((name, start, end)) => r matches Some(e) && e.name@ == name && e.start == start && e.end == end,
            None => r is None,
        },
{
    if data.len() < 4 {
        return None;
    }
    let raw = read_le32_signed(data, 0);
    let count: u64 = if raw < 0 { (-raw - 1) as u64 } else { raw as u64 };
    let header64: u64 = 4 + 28 * count;
    if header64 > usize::MAX as u64 {
        return None;
    }
    let header = header64 as usize;
    if data.len() < header {
        return None;
    }
    let ghost d = data@;
    let mut index: u64 = 0;
    while index < count
        invariant
            d == data@,
            count == pack_entry_count(d),
            header == pack_header_size(d),
            header <= d.len(),
            0 <= index <= count,
            pack_lookup(d, wanted@) == pack_search(d, wanted@, count as int, header as int, index as int),
        decreases count - index,
    {
        let off = (4 + 28 * index) as usize;
        proof {
            assert(4 + 28 * index + 28 <= header) by (nonlinear_arith)
                requires index < count, header == 4 + 28 * count;
        }
        let name = entry_name(data, off);
        if names_match_exec(&name, wanted) {
            let s = read_le32_signed(data, off + 20);
            let e = read_le32_signed(data, off + 24);
            if s >= 0 || e >= 0 || e == -0x8000_0000 {
                return None;
            }
            let start_off = (-s - 1) as usize;
            let end_off = (-e) as usize;
            if start_off > usize::MAX - header || end_off > usize::MAX - header {
                return None;
            }
            let start = header + start_off;
            let end = header + end_off;
            if start >= end || end > data.len() {
                return None;
            }
            return Some(PackEntry { name, start, end });
        }
        index = index + 1;
    }
    None
}

/// A pack entry that is found lies inside the pack, after its header,
/// and its name matches the one asked for.
pub proof fn lemma_pack_lookup_sound(d: Seq<u8>, wanted: Seq<u8>)
    ensures
        pack_lookup(d, wanted) matches Some((name, start, end)) ==> {
            &&& pack_header_size(d) <= start < end <= d.len()
            &&& names_match(name, wanted)
            &&& name.len() <= 20
        },
{
    if d.len() >= 4 && pack_header_size(d) <= usize::MAX && d.len() >= pack_header_size(d) {
        lemma_pack_search_sound(d, wanted, pack_entry_count(d), pack_header_size(d), 0);
    }
}

proof fn lemma_pack_search_sound(d: Seq<u8>, wanted: Seq<u8>, count: int, header: int, index: int)
    ensures
        pack_search(d, wanted, count, header, index) matches Some((name, start, end)) ==> {
            &&& header <= start < end <= d.len()
            &&& names_match(name, wanted)
            &&& name.len() <= 20
        },
    decreases count - index,
{
    if 0 <= index < count {
        let off = 4 + 28 * index;
        if !names_match(pack_entry_name(d, off), wanted) {
            lemma_pack_search_sound(d, wanted, count, header, index + 1);
        }
    }
}

/// Every decoded sample lies in the range of its coding.
pub proof fn lemma_sample_ranges(c: SampleCoding, d: Seq<u8>, k: int)
    requires
        0 <= k,
        (k + 1) * sample_width(c) <= d.len(),
    ensures
        c == SampleCoding::Pcm8 ==> 0 <= sample_value(c, d, k) <= 255,
        c == SampleCoding::Pcm16 ==> -32768 <= sample_value(c, d, k) <= 32767,
        c == SampleCoding::Pcm24 ==> -8388608 <= sample_value(c, d, k) <= 8388607,
        (c == SampleCoding::Pcm32 || c == SampleCoding::Float32) ==> i32::MIN <= sample_value(c, d, k) <= i32::MAX,
{
}

} // verus!
