//! DNet frames in captured traffic: the 4-byte frame header, one-line frame
//! summaries, and the reassembly of frames from the packet chunks of each
//! direction and socket.

use vstd::prelude::*;
use vstd::string::StringExecFns;
use crate::text::{dec_digits, digit_char, hex_padded, push_dec, push_hex_padded};

verus! {

/// `hex::encode`: every byte as two lowercase hexadecimal digits.
pub open spec fn hex_lower(data: Seq<u8>) -> Seq<char>
    decreases data.len(),
{
    if data.len() == 0 {
        Seq::empty()
    } else {
        hex_lower(data.drop_last()) + seq![digit_char((data.last() / 16) as int), digit_char((data.last() % 16) as int)]
    }
}

/// Calls `hex::encode`, which writes each byte as two lowercase hexadecimal
/// digits, high nibble first.
#[verifier::external_body]
fn hex_encode(data: &[u8]) -> (s: String)
    ensures
        s@ == hex_lower(data@),
{
    hex::encode(data)
}

pub open spec fn le16(b: Seq<u8>, i: int) -> int {
    b[i] + b[i + 1] * 256
}

pub open spec fn le32(b: Seq<u8>, i: int) -> int {
    b[i] + b[i + 1] * 256 + b[i + 2] * 0x1_0000 + b[i + 3] * 0x100_0000
}

/// The `(channel, body length)` of a DNet header: channels 0 to 15, bodies
/// of at most 0x1ffc bytes, and control frames (channel 0) of exactly 4.
pub open spec fn spec_parse_dnet_header(h: Seq<u8>) -> Option<(u16, u16)> {
    let ch = le16(h, 0);
    let len = le16(h, 2);
    if ch > 15 || len > 0x1ffc || (ch == 0 && len != 4) {
        None
    } else {
        Some((ch as u16, len as u16))
    }
}

/// Reads the little-endian channel id and body length of a frame header.
pub fn parse_dnet_header(header: [u8; 4]) -> (r: Option<(u16, u16)>)
    ensures
        r == spec_parse_dnet_header(header@),
{
    let channel_id: u16 = header[0] as u16 + (header[1] as u16) * 256;
    let body_len: u16 = header[2] as u16 + (header[3] as u16) * 256;
    if channel_id > 15 || body_len > 0x1ffc {
        return None;
    }
    if channel_id == 0 && body_len != 4 {
        return None;
    }
    Some((channel_id, body_len))
}

pub open spec fn body_summary(ch: u16, body: Seq<u8>) -> Seq<char> {
    let n = body.len();
    if ch == 0 {
        if n < 4 {
            "ctrl malformed len="@ + dec_digits(n)
        } else {
            "ctrl msg="@ + dec_digits(le16(body, 0) as nat) + " ch="@ + dec_digits(le16(body, 2) as nat)
        }
    } else if n >= 8 && body[0] == 0 && body[1] == 0 && body[2] == 0 && body[3] == 0 {
        "raw ch="@ + dec_digits(ch as nat) + " handler=0 msg="@ + dec_digits(le32(body, 4) as nat) + " payload="@
            + dec_digits((n - 8) as nat) + "B "@ + hex_lower(body.skip(8))
    } else if n >= 4 && body[1] == 0 && body[2] == 0 && body[3] == 0 {
        "raw ch="@ + dec_digits(ch as nat) + " msg="@ + dec_digits(le32(body, 0) as nat) + " payload="@
            + dec_digits((n - 4) as nat) + "B "@ + hex_lower(body.skip(4))
    } else if n < 2 {
        "app ch="@ + dec_digits(ch as nat) + " malformed len="@ + dec_digits(n)
    } else {
        "app ch="@ + dec_digits(ch as nat) + " main=0x"@ + hex_padded(body[0] as nat, 2) + " sub=0x"@
            + hex_padded(body[1] as nat, 2) + " payload="@ + dec_digits((n - 2) as nat) + "B "@ + hex_lower(body.skip(2))
    }
}

/// The one-line summary of a whole frame: its header must be valid and
/// announce exactly the bytes that follow.
pub open spec fn frame_summary(frame: Seq<u8>) -> Seq<char> {
    if frame.len() < 4 {
        "raw/unparsed"@
    } else {
        match spec_parse_dnet_header(frame.take(4)) {
            None => "raw/unparsed"@,
            Some((ch, body_len)) => if frame.len() != 4 + body_len {
                "raw/unparsed"@
            } else {
                body_summary(ch, frame.skip(4))
            },
        }
    }
}

fn slice_from(v: &[u8], start: usize) -> (out: Vec<u8>)
    requires
        start <= v@.len(),
    ensures
        out@ == v@.skip(start as int),
{
    let mut out: Vec<u8> = Vec::new();
    let mut i = start;
    while i < v.len()
        invariant
            start <= i <= v@.len(),
            out@ == v@.subrange(start as int, i as int),
        decreases v@.len() - i,
    {
        out.push(v[i]);
        i = i + 1;
    }
    out
}

fn header_of(frame: &[u8]) -> (h: [u8; 4])
    requires
        frame@.len() >= 4,
    ensures
        h@ == frame@.take(4),
{
    let h = [frame[0], frame[1], frame[2], frame[3]];
    proof {
        assert(h@ =~= frame@.take(4));
    }
    h
}

/// Summarises one DNet frame for the capture report.
pub fn summarize_frame(frame: &[u8]) -> (s: String)
    ensures
        s@ == frame_summary(frame@),
{
    if frame.len() < 4 {
        return String::from_str("raw/unparsed");
    }
    let (channel_id, body_len) = match parse_dnet_header(header_of(frame)) {
        Some(h) => h,
        None => return String::from_str("raw/unparsed"),
    };
    if frame.len() != 4 + body_len as usize {
        return String::from_str("raw/unparsed");
    }
    let body = slice_from(frame, 4);
    let n = body.len();
    proof {
        assert(body@ == frame@.skip(4));
    }
    if channel_id == 0 {
        if n < 4 {
            let mut s = String::from_str("ctrl malformed len=");
            push_dec(&mut s, n as u64);
            return s;
        }
        let msg = body[0] as u64 + body[1] as u64 * 256;
        let target = body[2] as u64 + body[3] as u64 * 256;
        let mut s = String::from_str("ctrl msg=");
        push_dec(&mut s, msg);
        s.append(" ch=");
        push_dec(&mut s, target);
        return s;
    }
    if n >= 8 && body[0] == 0 && body[1] == 0 && body[2] == 0 && body[3] == 0 {
        let msg_id = body[4] as u64 + body[5] as u64 * 256 + body[6] as u64 * 0x1_0000 + body[7] as u64 * 0x100_0000;
        let mut s = String::from_str("raw ch=");
        push_dec(&mut s, channel_id as u64);
        s.append(" handler=0 msg=");
        push_dec(&mut s, msg_id);
        s.append(" payload=");
        push_dec(&mut s, (n - 8) as u64);
        s.append("B ");
        let payload = slice_from(body.as_slice(), 8);
        let h = hex_encode(payload.as_slice());
        s.append(h.as_str());
        return s;
    }
    if n >= 4 && body[1] == 0 && body[2] == 0 && body[3] == 0 {
        let msg_id = body[0] as u64 + body[1] as u64 * 256 + body[2] as u64 * 0x1_0000 + body[3] as u64 * 0x100_0000;
        let mut s = String::from_str("raw ch=");
        push_dec(&mut s, channel_id as u64);
        s.append(" msg=");
        push_dec(&mut s, msg_id);
        s.append(" payload=");
        push_dec(&mut s, (n - 4) as u64);
        s.append("B ");
        let payload = slice_from(body.as_slice(), 4);
        let h = hex_encode(payload.as_slice());
        s.append(h.as_str());
        return s;
    }
    if n < 2 {
        let mut s = String::from_str("app ch=");
        push_dec(&mut s, channel_id as u64);
        s.append(" malformed len=");
        push_dec(&mut s, n as u64);
        return s;
    }
    let mut s = String::from_str("app ch=");
    push_dec(&mut s, channel_id as u64);
    s.append(" main=0x");
    push_hex_padded(&mut s, body[0] as u64, 2);
    s.append(" sub=0x");
    push_hex_padded(&mut s, body[1] as u64, 2);
    s.append(" payload=");
    push_dec(&mut s, (n - 2) as u64);
    s.append("B ");
    let payload = slice_from(body.as_slice(), 2);
    let h = hex_encode(payload.as_slice());
    s.append(h.as_str());
    s
}

/// A line of `packets.log`: one chunk of traffic on a socket.
pub struct PacketRecord {
    pub direction: String,
    pub socket_id: u32,
    pub len: usize,
    pub data: Vec<u8>,
    pub mirrored_prev_send: bool,
    pub summary: String,
}

/// A reassembled DNet frame: whether it answered the previous send, and its
/// summary.
pub struct FrameRecord {
    pub mirrored_prev_send: bool,
    pub summary: String,
}

/// Splits whole frames off the front of a reassembly buffer: a byte that
/// does not start a valid header is dropped, and an incomplete frame waits
/// for more data. Returns the frames and what is left.
pub open spec fn extract_frames(buf: Seq<u8>) -> (Seq<Seq<u8>>, Seq<u8>)
    decreases buf.len(),
{
    if buf.len() < 4 {
        (Seq::empty(), buf)
    } else {
        match spec_parse_dnet_header(buf.take(4)) {
            None => extract_frames(buf.drop_first()),
            Some((_, body_len)) => {
                let n = 4 + body_len;
                if buf.len() < n {
                    (Seq::empty(), buf)
                } else {
                    let (fs, rest) = extract_frames(buf.skip(n));
                    (seq![buf.take(n)] + fs, rest)
                }
            },
        }
    }
}

/// A one-byte client chunk that its capture did not parse carries no frame
/// data and is left out.
pub open spec fn is_skipped_packet(p: PacketRecord) -> bool {
    p.direction@ == "CLIENT"@ && p.len == 1 && p.summary@ == "raw/unparsed"@
}

pub type StreamKey = (Seq<char>, u32);

/// The frames reassembled from the packets so far, as (mirrored, summary),
/// and the pending bytes of each (direction, socket) stream.
pub open spec fn derive_state(ps: Seq<PacketRecord>) -> (Seq<(bool, Seq<char>)>, Map<StreamKey, Seq<u8>>)
    decreases ps.len(),
{
    if ps.len() == 0 {
        (Seq::empty(), Map::empty())
    } else {
        let (frames, bufs) = derive_state(ps.drop_last());
        let p = ps.last();
        if is_skipped_packet(p) {
            (frames, bufs)
        } else {
            let key = (p.direction@, p.socket_id);
            let pending = if bufs.contains_key(key) { bufs[key] } else { Seq::empty() };
            let (fs, rest) = extract_frames(pending + p.data@);
            (frames + frame_entries(p.mirrored_prev_send, fs), bufs.insert(key, rest))
        }
    }
}

pub open spec fn frame_entry(mirrored: bool, f: Seq<u8>) -> (bool, Seq<char>) {
    (mirrored, frame_summary(f))
}

/// The records of frames reassembled from one chunk.
pub open spec fn frame_entries(mirrored: bool, fs: Seq<Seq<u8>>) -> Seq<(bool, Seq<char>)> {
    fs.map_values(|f: Seq<u8>| frame_entry(mirrored, f))
}

pub open spec fn frame_views(fs: Seq<FrameRecord>) -> Seq<(bool, Seq<char>)> {
    fs.map_values(|f: FrameRecord| (f.mirrored_prev_send, f.summary@))
}

fn split_front(v: &Vec<u8>, n: usize) -> (r: (Vec<u8>, Vec<u8>))
    requires
        n <= v@.len(),
    ensures
        r.0@ == v@.take(n as int),
        r.1@ == v@.skip(n as int),
{
    let mut head: Vec<u8> = Vec::new();
    let mut i: usize = 0;
    while i < n
        invariant
            0 <= i <= n <= v@.len(),
            head@ == v@.take(i as int),
        decreases n - i,
    {
        head.push(v[i]);
        proof {
            assert(v@.take(i + 1) =~= v@.take(i as int).push(v@[i as int]));
        }
        i = i + 1;
    }
    let tail = slice_from(v.as_slice(), n);
    (head, tail)
}

/// Splits all whole frames off `buf` and appends their records to `frames`.
fn drain_frames(buf: Vec<u8>, mirrored: bool, frames: &mut Vec<FrameRecord>) -> (rest: Vec<u8>)
    ensures
        frame_views(final(frames)@) == frame_views(old(frames)@)
            + frame_entries(mirrored, extract_frames(buf@).0),
        rest@ == extract_frames(buf@).1,
{
    let ghost b0 = buf@;
    let ghost f0 = frame_views(frames@);
    let mut buffer = buf;
    loop
        invariant
            f0 == frame_views(old(frames)@),
            b0 == buf@,
            extract_frames(b0).1 == extract_frames(buffer@).1,
            f0 + frame_entries(mirrored, extract_frames(b0).0)
                == frame_views(frames@) + frame_entries(mirrored, extract_frames(buffer@).0),
        decreases buffer@.len(),
    {
        if buffer.len() < 4 {
            proof {
                assert(extract_frames(buffer@).0 =~= Seq::<Seq<u8>>::empty());
                assert(extract_frames(buffer@).1 == buffer@);
                assert(frame_entries(mirrored, extract_frames(buffer@).0) =~= Seq::<(bool, Seq<char>)>::empty());
                assert(frame_views(frames@) + Seq::<(bool, Seq<char>)>::empty() =~= frame_views(frames@));
            }
            return buffer;
        }
        let header = header_of(buffer.as_slice());
        match parse_dnet_header(header) {
            None => {
                let ghost before = buffer@;
                buffer.remove(0);
                proof {
                    assert(buffer@ =~= before.drop_first());
                }
            },
            Some((_, body_len)) => {
                let frame_len = 4 + body_len as usize;
                if buffer.len() < frame_len {
                    proof {
                        assert(extract_frames(buffer@).0 =~= Seq::<Seq<u8>>::empty());
                        assert(extract_frames(buffer@).1 == buffer@);
                        assert(frame_entries(mirrored, extract_frames(buffer@).0) =~= Seq::<(bool, Seq<char>)>::empty());
                        assert(frame_views(frames@) + Seq::<(bool, Seq<char>)>::empty() =~= frame_views(frames@));
                    }
                    return buffer;
                }
                let ghost before = buffer@;
                let ghost fv = frame_views(frames@);
                let (frame, rest) = split_front(&buffer, frame_len);
                let summary = summarize_frame(frame.as_slice());
                frames.push(FrameRecord { mirrored_prev_send: mirrored, summary });
                buffer = rest;
                proof {
                    let (fs, r) = extract_frames(buffer@);
                    assert(extract_frames(before).0 == seq![frame@] + fs);
                    assert(frame_views(frames@) =~= fv.push((mirrored, frame_summary(frame@))));
                    assert(frame_entries(mirrored, seq![frame@] + fs) =~= seq![(mirrored, frame_summary(frame@))] + frame_entries(mirrored, fs));
                    assert(fv + frame_entries(mirrored, seq![frame@] + fs) =~= fv.push((mirrored, frame_summary(frame@))) + frame_entries(mirrored, fs));
                }
            },
        }
    }
}

fn find_stream(keys: &Vec<(String, u32)>, direction: &String, socket_id: u32) -> (r: Option<usize>)
    ensures
        match r {
            Some(i) => i < keys@.len() && keys@[i as int].0@ == direction@ && keys@[i as int].1 == socket_id,
            None => forall|i: int| 0 <= i < keys@.len() ==> !(#[trigger] keys@[i].0@ == direction@ && keys@[i].1 == socket_id),
        },
{
    let mut i: usize = 0;
    while i < keys.len()
        invariant
            0 <= i <= keys@.len(),
            forall|k: int| 0 <= k < i ==> !(#[trigger] keys@[k].0@ == direction@ && keys@[k].1 == socket_id),
        decreases keys@.len() - i,
    {
        if keys[i].1 == socket_id && keys[i].0 == *direction {
            return Some(i);
        }
        i = i + 1;
    }
    None
}

pub open spec fn streams_map(keys: Seq<(String, u32)>, bufs: Seq<Vec<u8>>) -> Map<StreamKey, Seq<u8>> {
    Map::new(
        |k: StreamKey| exists|i: int| 0 <= i < keys.len() && (#[trigger] keys[i]).0@ == k.0 && keys[i].1 == k.1,
        |k: StreamKey| bufs[choose|i: int| 0 <= i < keys.len() && (#[trigger] keys[i]).0@ == k.0 && keys[i].1 == k.1]@,
    )
}

pub open spec fn keys_unique(keys: Seq<(String, u32)>) -> bool {
    forall|i: int, j: int| 0 <= i < keys.len() && 0 <= j < keys.len() && i != j
        ==> !(#[trigger] keys[i].0@ == #[trigger] keys[j].0@ && keys[i].1 == keys[j].1)
}

fn is_skipped(p: &PacketRecord) -> (r: bool)
    ensures
        r == is_skipped_packet(*p),
{
    let client = String::from_str("CLIENT");
    let raw = String::from_str("raw/unparsed");
    p.direction == client && p.len == 1 && p.summary == raw
}

/// Reassembles DNet frames from the packet chunks when no frame log was
/// captured: chunks are appended to the buffer of their direction and socket,
/// and every whole frame is summarised as it completes.
pub fn derive_frames_from_packet_chunks(packets: &[PacketRecord]) -> (frames: Vec<FrameRecord>)
    ensures
        frame_views(frames@) == derive_state(packets@).0,
{
    let mut keys: Vec<(String, u32)> = Vec::new();
    let mut bufs: Vec<Vec<u8>> = Vec::new();
    let mut frames: Vec<FrameRecord> = Vec::new();
    let mut i: usize = 0;
    while i < packets.len()
        invariant
            0 <= i <= packets@.len(),
            keys@.len() == bufs@.len(),
            keys_unique(keys@),
            frame_views(frames@) == derive_state(packets@.take(i as int)).0,
            streams_map(keys@, bufs@) == derive_state(packets@.take(i as int)).1,
        decreases packets@.len() - i,
    {
        let p = &packets[i];
        proof {
            assert(packets@.take(i + 1).drop_last() =~= packets@.take(i as int));
            assert(packets@.take(i + 1).last() == packets@[i as int]);
        }
        if is_skipped(p) {
            i = i + 1;
            continue;
        }
        let ghost m0 = streams_map(keys@, bufs@);
        let ghost key: StreamKey = (p.direction@, p.socket_id);
        match find_stream(&keys, &p.direction, p.socket_id) {
            Some(k) => {
                let mut pending: Vec<u8> = Vec::new();
                let ghost old_keys = keys@;
                let ghost old_bufs = bufs@;
                proof {
                    assert(m0.contains_key(key));
                    let c = choose|j: int| 0 <= j < old_keys.len() && (#[trigger] old_keys[j]).0@ == key.0 && old_keys[j].1 == key.1;
                    if c != k {
                        assert(old_keys[c].0@ == old_keys[k as int].0@);
                    }
                    assert(m0[key] == old_bufs[k as int]@);
                }
                std::mem::swap(&mut pending, &mut bufs[k]);
                let ghost mid = bufs@;
                let mut j: usize = 0;
                while j < p.data.len()
                    invariant
                        0 <= j <= p.data@.len(),
                        pending@ == old_bufs[k as int]@ + p.data@.take(j as int),
                    decreases p.data@.len() - j,
                {
                    pending.push(p.data[j]);
                    proof {
                        assert(p.data@.take(j + 1) =~= p.data@.take(j as int).push(p.data@[j as int]));
                    }
                    j = j + 1;
                }
                proof {
                    assert(p.data@.take(p.data@.len() as int) =~= p.data@);
                }
                let rest = drain_frames(pending, p.mirrored_prev_send, &mut frames);
                bufs.set(k, rest);
                proof {
                    let nb = bufs@;
                    assert(nb =~= old_bufs.update(k as int, nb[k as int]));
                    assert(streams_map(keys@, nb) =~= m0.insert(key, nb[k as int]@)) by {
                        assert forall|kk: StreamKey| #[trigger] streams_map(keys@, nb).contains_key(kk) == m0.insert(key, nb[k as int]@).contains_key(kk) by {}
                        assert forall|kk: StreamKey| streams_map(keys@, nb).contains_key(kk) implies
                            #[trigger] streams_map(keys@, nb)[kk] == m0.insert(key, nb[k as int]@)[kk] by {
                            let c = choose|j: int| 0 <= j < keys@.len() && (#[trigger] keys@[j]).0@ == kk.0 && keys@[j].1 == kk.1;
                            if kk == key {
                                if c != k {
                                    assert(keys@[c].0@ == keys@[k as int].0@);
                                }
                            } else {
                                assert(c != k);
                            }
                        }
                    }
                }
            },
            None => {
                let mut pending: Vec<u8> = Vec::new();
                let mut j: usize = 0;
                while j < p.data.len()
                    invariant
                        0 <= j <= p.data@.len(),
                        pending@ == p.data@.take(j as int),
                    decreases p.data@.len() - j,
                {
                    pending.push(p.data[j]);
                    proof {
                        assert(p.data@.take(j + 1) =~= p.data@.take(j as int).push(p.data@[j as int]));
                    }
                    j = j + 1;
                }
                proof {
                    assert(p.data@.take(p.data@.len() as int) =~= p.data@);
                    assert(!m0.contains_key(key));
                    assert(Seq::<u8>::empty() + p.data@ =~= p.data@);
                }
                let rest = drain_frames(pending, p.mirrored_prev_send, &mut frames);
                let ghost old_keys = keys@;
                let ghost old_bufs = bufs@;
                keys.push((p.direction.clone(), p.socket_id));
                bufs.push(rest);
                proof {
                    let nk = keys@;
                    let nb = bufs@;
                    let last = old_keys.len() as int;
                    assert(nk[last].0@ == key.0);
                    assert forall|a: int, b: int| 0 <= a < nk.len() && 0 <= b < nk.len() && a != b
                        implies !(#[trigger] nk[a].0@ == #[trigger] nk[b].0@ && nk[a].1 == nk[b].1) by {
                        if a < last && b < last {
                            assert(nk[a] == old_keys[a] && nk[b] == old_keys[b]);
                        } else if a < last {
                            assert(nk[a] == old_keys[a]);
                        } else {
                            assert(nk[b] == old_keys[b]);
                        }
                    }
                    assert(streams_map(nk, nb) =~= m0.insert(key, nb[last]@)) by {
                        assert forall|kk: StreamKey| #[trigger] streams_map(nk, nb).contains_key(kk) == m0.insert(key, nb[last]@).contains_key(kk) by {
                            if streams_map(nk, nb).contains_key(kk) {
                                let c = choose|j: int| 0 <= j < nk.len() && (#[trigger] nk[j]).0@ == kk.0 && nk[j].1 == kk.1;
                                if c < last {
                                    assert(old_keys[c] == nk[c]);
                                }
                            }
                            if m0.contains_key(kk) {
                                let c = choose|j: int| 0 <= j < old_keys.len() && (#[trigger] old_keys[j]).0@ == kk.0 && old_keys[j].1 == kk.1;
                                assert(nk[c] == old_keys[c]);
                            }
                        }
                        assert forall|kk: StreamKey| streams_map(nk, nb).contains_key(kk) implies
                            #[trigger] streams_map(nk, nb)[kk] == m0.insert(key, nb[last]@)[kk] by {
                            let c = choose|j: int| 0 <= j < nk.len() && (#[trigger] nk[j]).0@ == kk.0 && nk[j].1 == kk.1;
                            if kk == key {
                                if c != last {
                                    assert(nk[c] == old_keys[c]);
                                }
                            } else {
                                assert(c != last);
                                assert(nk[c] == old_keys[c] && nb[c] == old_bufs[c]);
                                let c2 = choose|j: int| 0 <= j < old_keys.len() && (#[trigger] old_keys[j]).0@ == kk.0 && old_keys[j].1 == kk.1;
                                if c2 != c {
                                    assert(nk[c2] == old_keys[c2]);
                                }
                            }
                        }
                    }
                }
            },
        }
        i = i + 1;
    }
    proof {
        assert(packets@.take(packets@.len() as int) =~= packets@);
    }
    frames
}

} // verus!
