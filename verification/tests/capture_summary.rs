use emul_4leaf::capture::{FrameRecord, PacketRecord};
use emul_4leaf::capture_log::CandidateRecord;
use emul_4leaf::capture_summary::{summarize_candidates, tally_frame_summaries, tally_packet_summaries};

fn candidate(ch: u16, phase: &str, main: u8, sub: u8, len: usize, payload: &str) -> CandidateRecord {
    CandidateRecord {
        channel_id: ch,
        phase: phase.to_string(),
        candidate_index: 0,
        main_type: main,
        sub_type: sub,
        payload_len: len,
        payload_hex: payload.to_string(),
    }
}

fn packet(summary: &str) -> PacketRecord {
    PacketRecord {
        direction: "SERVER".to_string(),
        socket_id: 1,
        len: 0,
        data: vec![],
        mirrored_prev_send: false,
        summary: summary.to_string(),
    }
}

#[test]
fn packet_summaries_are_counted_in_text_order() {
    let packets = vec![packet("raw ch=2"), packet("app ch=1"), packet("raw ch=2"), packet("Zeta"), packet("app")];
    let counts = tally_packet_summaries(&packets);
    assert_eq!(
        counts,
        vec![
            ("Zeta".to_string(), 1),
            ("app".to_string(), 1),
            ("app ch=1".to_string(), 1),
            ("raw ch=2".to_string(), 2),
        ]
    );
    assert!(tally_packet_summaries(&[]).is_empty());
}

#[test]
fn frame_summaries_are_counted() {
    let frames = vec![
        FrameRecord { mirrored_prev_send: false, summary: "b".to_string() },
        FrameRecord { mirrored_prev_send: true, summary: "a".to_string() },
        FrameRecord { mirrored_prev_send: false, summary: "b".to_string() },
    ];
    assert_eq!(tally_frame_summaries(&frames), vec![("a".to_string(), 1), ("b".to_string(), 2)]);
}

#[test]
fn candidates_are_grouped_by_channel_phase_and_type() {
    let candidates = vec![
        candidate(2, "main", 0x10, 1, 4, "aabbccdd"),
        candidate(1, "login", 0xe0, 4, 2, "0102"),
        candidate(1, "login", 0xe0, 4, 2, "0304"),
        candidate(1, "login", 0xe0, 4, 8, "0000000000000000"),
        candidate(1, "lobby", 0xe0, 4, 1, "ff"),
        candidate(1, "login", 0x01, 0, 0, ""),
    ];
    let groups = summarize_candidates(&candidates);
    let keys: Vec<(u16, String, u8, u8)> =
        groups.iter().map(|g| (g.channel_id, g.phase.clone(), g.main_type, g.sub_type)).collect();
    assert_eq!(
        keys,
        vec![
            (1, "lobby".to_string(), 0xe0, 4),
            (1, "login".to_string(), 0x01, 0),
            (1, "login".to_string(), 0xe0, 4),
            (2, "main".to_string(), 0x10, 1),
        ]
    );
    let login = &groups[2];
    assert_eq!(login.count, 3);
    assert_eq!(login.payload_lengths, vec![(2, 2), (8, 1)]);
    assert_eq!(login.first_payload_hex, "0102");
    assert_eq!(groups[3].first_payload_hex, "aabbccdd");
    assert!(summarize_candidates(&[]).is_empty());
}

#[test]
fn log_files_keep_trimmed_non_blank_lines() {
    use_log_lines();
}

fn use_log_lines() {
    let lines = emul_4leaf::capture_log::log_file_lines("  a \r\n\n b\n\t\n c\r");
    assert_eq!(lines, vec!["a".to_string(), "b".to_string(), "c".to_string()]);
    assert!(emul_4leaf::capture_log::log_file_lines("").is_empty());
    assert_eq!(emul_4leaf::capture_log::log_file_lines("x\n"), vec!["x".to_string()]);
}

#[test]
fn mirrored_packets_are_counted() {
    let mut a = packet("a");
    a.mirrored_prev_send = true;
    let packets = vec![a, packet("b"), packet("c")];
    assert_eq!(emul_4leaf::capture_summary::count_mirrored_packets(&packets), 1);
}
