use emul_4leaf::audio::{
    decode_samples, find_pack_entry, parse_wave, sample_coding, sniff_audio_format, AudioKind, SampleCoding,
    WaveError,
};

fn wave_samples_as_f32(data: &[u8]) -> (u16, u32, Vec<f32>) {
    let layout = parse_wave(data).expect("PCM16 decoding should succeed");
    let coding = sample_coding(layout.audio_format, layout.bits_per_sample).unwrap();
    assert_eq!(coding, SampleCoding::Pcm16);
    let pcm = &data[layout.data_start..layout.data_start + layout.data_len];
    let samples = decode_samples(coding, pcm).into_iter().map(|v| v as f32 / i16::MAX as f32).collect();
    (layout.channels, layout.sample_rate, samples)
}

#[test]
fn decode_pcm16_wave() {
    let wave = vec![
        b'R', b'I', b'F', b'F', 40, 0, 0, 0, b'W', b'A', b'V', b'E', b'f', b'm', b't', b' ',
        16, 0, 0, 0, 1, 0, 1, 0, 0x44, 0xac, 0, 0, 0x88, 0x58, 0x01, 0, 2, 0, 16, 0, b'd',
        b'a', b't', b'a', 4, 0, 0, 0, 0, 0, 0xff, 0x7f,
    ];
    let (channels, sample_rate, samples) = wave_samples_as_f32(&wave);
    assert_eq!(channels, 1);
    assert_eq!(sample_rate, 44_100);
    assert_eq!(samples.len(), 2);
    assert!(samples[0].abs() < 0.0001);
    assert!(samples[1] > 0.99);
}

fn riff(chunks: &[u8]) -> Vec<u8> {
    let mut v = b"RIFF".to_vec();
    v.extend_from_slice(&((chunks.len() + 4) as u32).to_le_bytes());
    v.extend_from_slice(b"WAVE");
    v.extend_from_slice(chunks);
    v
}

fn chunk(id: &[u8; 4], body: &[u8]) -> Vec<u8> {
    let mut v = id.to_vec();
    v.extend_from_slice(&(body.len() as u32).to_le_bytes());
    v.extend_from_slice(body);
    if body.len() % 2 == 1 {
        v.push(0);
    }
    v
}

fn fmt_body(format: u16, channels: u16, rate: u32, bits: u16) -> Vec<u8> {
    let mut v = Vec::new();
    v.extend_from_slice(&format.to_le_bytes());
    v.extend_from_slice(&channels.to_le_bytes());
    v.extend_from_slice(&rate.to_le_bytes());
    v.extend_from_slice(&[0; 6]);
    v.extend_from_slice(&bits.to_le_bytes());
    v
}

#[test]
fn wave_errors() {
    assert_eq!(parse_wave(b"RIFX\0\0\0\0WAVE"), Err(WaveError::NotRiffWave));
    assert_eq!(parse_wave(&riff(&chunk(b"fmt ", &[1, 0, 1, 0]))), Err(WaveError::FmtTooShort));
    assert_eq!(parse_wave(&riff(&chunk(b"data", &[1, 2]))), Err(WaveError::MissingFormat));
    assert_eq!(parse_wave(&riff(&chunk(b"fmt ", &fmt_body(1, 2, 8000, 8)))), Err(WaveError::MissingData));
    assert_eq!(
        sample_coding(2, 4),
        Err(WaveError::Unsupported { audio_format: 2, bits_per_sample: 4 })
    );
}

#[test]
fn wave_chunks_are_walked_with_padding() {
    let mut body = chunk(b"LIST", &[9, 9, 9]);
    body.extend(chunk(b"fmt ", &fmt_body(1, 2, 22_050, 8)));
    body.extend(chunk(b"data", &[0x80, 0xff, 0x00]));
    let data = riff(&body);
    let layout = parse_wave(&data).unwrap();
    assert_eq!((layout.audio_format, layout.channels, layout.sample_rate, layout.bits_per_sample), (1, 2, 22_050, 8));
    assert_eq!(layout.data_len, 3);
    let pcm = &data[layout.data_start..layout.data_start + layout.data_len];
    assert_eq!(decode_samples(SampleCoding::Pcm8, pcm), vec![0x80, 0xff, 0x00]);
}

#[test]
fn truncated_chunk_ends_the_walk() {
    let mut body = chunk(b"fmt ", &fmt_body(1, 1, 8000, 16));
    body.extend(chunk(b"data", &[1, 0]));
    body.extend_from_slice(b"data\xff\0\0\0\x01");
    let layout = parse_wave(&riff(&body)).unwrap();
    assert_eq!(layout.data_len, 2);
}

#[test]
fn sample_decoding_widths_and_signs() {
    assert_eq!(decode_samples(SampleCoding::Pcm16, &[0x00, 0x80, 0xff, 0x7f, 0x01]), vec![-32768, 32767]);
    assert_eq!(decode_samples(SampleCoding::Pcm24, &[0xff, 0xff, 0xff, 0x00, 0x00, 0x40]), vec![-1, 0x40_0000]);
    assert_eq!(decode_samples(SampleCoding::Pcm32, &[0, 0, 0, 0x80]), vec![i32::MIN]);
    let bits = decode_samples(SampleCoding::Float32, &1.5f32.to_le_bytes());
    assert_eq!(f32::from_bits(bits[0] as u32), 1.5);
}

#[test]
fn audio_kind_sniffing() {
    assert_eq!(sniff_audio_format("a.bin", b"RIFF\0\0\0\0WAVEfmt "), AudioKind::Wave);
    assert_eq!(sniff_audio_format("SONG.MP3", &[0, 1, 2]), AudioKind::Mp3);
    assert_eq!(sniff_audio_format("x", b"ID3\x03"), AudioKind::Mp3);
    assert_eq!(sniff_audio_format("x", &[0x10, 0xff, 0xfb, 0x90]), AudioKind::Mp3);
    assert_eq!(sniff_audio_format("x.wav", &[1, 2, 3]), AudioKind::Unsupported);
}

fn pack(entries: &[(&str, &[u8])], negative_count: bool) -> Vec<u8> {
    let n = entries.len() as i32;
    let mut v = (if negative_count { -n - 1 } else { n }).to_le_bytes().to_vec();
    let mut offset = 0i32;
    for (name, data) in entries {
        let mut raw = [0u8; 20];
        raw[..name.len()].copy_from_slice(name.as_bytes());
        v.extend(raw.iter().map(|b| b ^ 0xff));
        v.extend_from_slice(&(-offset - 1).to_le_bytes());
        v.extend_from_slice(&(-(offset + data.len() as i32)).to_le_bytes());
        offset += data.len() as i32;
    }
    for (_, data) in entries {
        v.extend_from_slice(data);
    }
    v
}

#[test]
fn pack_entries_are_found_by_name() {
    let data = pack(&[("click.wav", b"abc"), ("Theme.MP3", b"defgh")], true);
    let entry = find_pack_entry(&data, b"theme.mp3").unwrap();
    assert_eq!(entry.name, b"Theme.MP3".to_vec());
    assert_eq!(&data[entry.start..entry.end], b"defgh");
    let first = find_pack_entry(&data, b"CLICK.WAV").unwrap();
    assert_eq!(&data[first.start..first.end], b"abc");
    assert!(find_pack_entry(&data, b"missing.wav").is_none());
    let plain = pack(&[("a", b"xy")], false);
    let e = find_pack_entry(&plain, b"a").unwrap();
    assert_eq!(&plain[e.start..e.end], b"xy");
    assert!(find_pack_entry(&plain[..10], b"a").is_none());
    assert!(find_pack_entry(&[1, 2], b"a").is_none());
}
