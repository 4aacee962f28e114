use emul_4leaf::capture::{parse_dnet_header, summarize_frame, derive_frames_from_packet_chunks, PacketRecord};
use emul_4leaf::capture_log::{
    parse_candidate_record, parse_note_record, parse_packet_record, parse_frame_record, collect_candidates,
    collect_notes, collect_packets, collect_frames, infer_conclusions, count_mirrored_frames,
};
use emul_4leaf::logtext::parse_unsigned_exec;

#[test]
fn dnet_headers_are_checked() {
    assert_eq!(parse_dnet_header([1, 0, 3, 0]), Some((1, 3)));
    assert_eq!(parse_dnet_header([0, 0, 4, 0]), Some((0, 4)));
    assert_eq!(parse_dnet_header([0, 0, 5, 0]), None);
    assert_eq!(parse_dnet_header([16, 0, 1, 0]), None);
    assert_eq!(parse_dnet_header([1, 0, 0xfd, 0x1f]), None);
    assert_eq!(parse_dnet_header([1, 0, 0xfc, 0x1f]), Some((1, 0x1ffc)));
}

#[test]
fn frames_are_summarised_by_kind() {
    assert_eq!(summarize_frame(&[0, 0, 4, 0, 2, 0, 1, 0]), "ctrl msg=2 ch=1");
    assert_eq!(summarize_frame(&[1, 0, 3, 0, 0xe0, 0x04, 0xab]), "app ch=1 main=0xe0 sub=0x04 payload=1B ab");
    assert_eq!(summarize_frame(&[1, 0, 5, 0, 8, 0, 0, 0, 0xff]), "raw ch=1 msg=8 payload=1B ff");
    assert_eq!(summarize_frame(&[2, 0, 8, 0, 0, 0, 0, 0, 9, 0, 0, 0]), "raw ch=2 handler=0 msg=9 payload=0B ");
    assert_eq!(summarize_frame(&[3, 0, 1, 0, 7]), "app ch=3 malformed len=1");
    assert_eq!(summarize_frame(&[3, 0, 2, 0, 7]), "raw/unparsed");
    assert_eq!(summarize_frame(&[3, 0]), "raw/unparsed");
}

fn packet(dir: &str, sock: u32, data: Vec<u8>, mirrored: bool) -> PacketRecord {
    PacketRecord {
        direction: dir.to_string(),
        socket_id: sock,
        len: data.len(),
        data,
        mirrored_prev_send: mirrored,
        summary: "x".to_string(),
    }
}

#[test]
fn frames_are_reassembled_per_stream() {
    let packets = vec![
        packet("SERVER", 1, vec![0, 0, 4, 0, 2], false),
        packet("CLIENT", 1, vec![1, 0, 2, 0], false),
        packet("SERVER", 1, vec![0, 1, 0, 0xff], true),
        packet("CLIENT", 1, vec![0x09, 0x00], false),
    ];
    let frames = derive_frames_from_packet_chunks(&packets);
    assert_eq!(frames.len(), 2);
    assert_eq!(frames[0].summary, "ctrl msg=2 ch=1");
    assert!(frames[0].mirrored_prev_send);
    assert_eq!(frames[1].summary, "app ch=1 main=0x09 sub=0x00 payload=0B ");
    assert!(!frames[1].mirrored_prev_send);
}

#[test]
fn bad_bytes_are_skipped_and_raw_client_bytes_ignored() {
    let mut one = packet("CLIENT", 7, vec![0x42], false);
    one.summary = "raw/unparsed".to_string();
    let packets = vec![one, packet("CLIENT", 7, vec![0xff, 0, 0, 4, 0, 1, 0, 1, 0], false)];
    let frames = derive_frames_from_packet_chunks(&packets);
    assert_eq!(frames.len(), 1);
    assert_eq!(frames[0].summary, "ctrl msg=1 ch=1");
}

#[test]
fn candidate_lines_are_parsed() {
    let line = "ch=1 phase=main candidate#3 requires server response: main=0xE0 sub=0x4 payload=2B ab cd";
    let c = parse_candidate_record(line).unwrap();
    assert_eq!(c.channel_id, 1);
    assert_eq!(c.phase, "main");
    assert_eq!(c.candidate_index, 3);
    assert_eq!(c.main_type, 0xe0);
    assert_eq!(c.sub_type, 4);
    assert_eq!(c.payload_len, 2);
    assert_eq!(c.payload_hex, "ab cd");
    assert!(parse_candidate_record("ch=1 phase=main candidate#3 no marker").is_none());
    assert!(parse_candidate_record("ch=70000 phase=m candidate#1 requires server response: main=0x1 sub=0x2 payload=0B").is_none());
    assert!(parse_candidate_record("ch=1 phase=m candidate#1 requires server response: main=0x1 sub=0x2").is_none());
    assert!(parse_candidate_record("ch=+1 phase=m candidate#1 requires server response: main=0x100 sub=0x2 payload=0B").is_none());
    let plus = parse_candidate_record("ch=+1 phase=m candidate#1 requires server response: main=0xff sub=0x2 payload=0B").unwrap();
    assert_eq!(plus.channel_id, 1);
    assert_eq!(plus.payload_hex, "");
}

#[test]
fn note_lines_are_parsed() {
    let n = parse_note_record("ch=2 phase=init the server  closed\tthe channel").unwrap();
    assert_eq!(n.channel_id, 2);
    assert_eq!(n.phase, "init");
    assert_eq!(n.text, "the server closed the channel");
    assert!(parse_note_record("ch=2 phase=init").is_none());
    assert!(parse_note_record("ch=2 phase=init candidate#1 x").is_none());
}

#[test]
fn packet_and_frame_lines_are_parsed() {
    let p = parse_packet_record("dir=SERVER sock=5 len=3 hex=0aFF10 mirror_prev_send=true summary=ctrl msg=2").unwrap();
    assert_eq!(p.direction, "SERVER");
    assert_eq!(p.socket_id, 5);
    assert_eq!(p.len, 3);
    assert_eq!(p.data, vec![0x0a, 0xff, 0x10]);
    assert!(p.mirrored_prev_send);
    assert_eq!(p.summary, "ctrl msg=2");
    assert!(parse_packet_record("dir=SERVER sock=5 len=3 hex=0aF mirror_prev_send=true summary=x").is_none());
    assert!(parse_packet_record("dir=SERVER sock=5 len=3 hex=zz mirror_prev_send=true summary=x").is_none());
    assert!(parse_packet_record("dir=SERVER sock=5 len=3 hex=00 mirror_prev_send=yes summary=x").is_none());
    let f = parse_frame_record("mirror_prev_send=false summary=app ch=1 main=0x08 sub=0x00").unwrap();
    assert!(!f.mirrored_prev_send);
    assert_eq!(f.summary, "app ch=1 main=0x08 sub=0x00");
    assert!(parse_frame_record("mirror_prev_send=false").is_none());
}

#[test]
fn logs_are_collected_and_read() {
    let lines: Vec<String> = vec![
        "ch=1 phase=main candidate#1 requires server response: main=0x01 sub=0x02 payload=0B".into(),
        "ch=1 phase=main something noted".into(),
        "garbage".into(),
    ];
    assert_eq!(collect_candidates(&lines).len(), 1);
    assert_eq!(collect_notes(&lines).len(), 1);
    let packets: Vec<String> = vec!["dir=CLIENT sock=1 len=1 hex=00 mirror_prev_send=false summary=raw/unparsed".into()];
    assert_eq!(collect_packets(&packets).len(), 1);
    let frame_lines: Vec<String> = vec![
        "mirror_prev_send=true summary=ctrl msg=2 ch=1".into(),
        "mirror_prev_send=false summary=app ch=1 main=0xe0 sub=0x04 payload=0B".into(),
        "mirror_prev_send=false summary=ctrl msg=4 ch=1".into(),
    ];
    let frames = collect_frames(&frame_lines);
    assert_eq!(frames.len(), 3);
    assert_eq!(count_mirrored_frames(&frames), 1);
    let c = infer_conclusions(&frames);
    assert!(c.bootstrap_response_insufficient);
    assert!(!c.stage_channels_detected);
    assert!(!c.stage_open_followup_sent);
    assert!(!c.stage_info_followup_sent);
}

#[test]
fn stage_messages_are_recognised() {
    let frame_lines: Vec<String> = vec![
        "mirror_prev_send=false summary=ctrl msg=1 ch=3".into(),
        "mirror_prev_send=false summary=raw ch=1 handler=0 msg=9 payload=0B ".into(),
    ];
    let c = infer_conclusions(&collect_frames(&frame_lines));
    assert!(!c.bootstrap_response_insufficient);
    assert!(c.stage_channels_detected);
    assert!(!c.stage_open_followup_sent);
    assert!(c.stage_info_followup_sent);
}

#[test]
fn unsigned_values_follow_rust_parsing() {
    let p = |s: &str, max: u64| parse_unsigned_exec(&s.chars().collect::<Vec<_>>(), max);
    assert_eq!(p("42", 100), Some(42));
    assert_eq!(p("+42", 100), Some(42));
    assert_eq!(p("101", 100), None);
    assert_eq!(p("", 100), None);
    assert_eq!(p("+", 100), None);
    assert_eq!(p("-1", 100), None);
    assert_eq!(p("007", 100), Some(7));
    assert_eq!(p("18446744073709551615", u64::MAX), Some(u64::MAX));
    assert_eq!(p("18446744073709551616", u64::MAX), None);
}
