use emul_4leaf::diagnostics::{
    format_file_trace, format_hook_trace, gif_lzw_output_limit_exceeded, heap_guard_message, trace_checksum,
    StackCleanup, format_cleanup, is_lime_gif_hot_rva, format_lzw_overflow, recent_summary, push_recent,
    should_trace_file, lime_gif_rva, emulator_quantum, VirtualClock, GifStallDetector, needs_lzw_cursor,
    format_stall_header, RECENT_LIMIT, register_summary, stack_summary,
};

#[test]
fn checksum_changes_when_input_bytes_change() {
    assert_eq!(trace_checksum(b"abc"), trace_checksum(b"abc"));
    assert_ne!(trace_checksum(b"abc"), trace_checksum(b"abd"));
}

#[test]
fn hook_trace_formats_cleanup_and_stack_state() {
    let line = format_hook_trace(
        "KERNEL32.dll!Sleep",
        StackCleanup::Callee(1),
        Some(0),
        0x5000,
        0x5004,
        0xf000_0004,
        0x401000,
        false,
    );
    assert!(line.contains("cleanup=callee(args=1,bytes=4)"));
    assert!(line.contains("esp=0x5000->0x5004"));
    assert!(line.contains("guest_ret=0x401000"));
}

#[test]
fn file_trace_formats_offsets_and_checksum() {
    let line = format_file_trace(
        "fread",
        0x1001,
        "Resources/MainFrame.pak",
        Some(4),
        Some(12),
        8,
        8,
        b"12345678",
    );
    assert!(line.contains("off=Some(4)->Some(12)"));
    assert!(line.contains("req=8 actual=8"));
    assert!(line.contains("checksum=0x"));
}

#[test]
fn heap_guard_message_contains_target_range() {
    let line = heap_guard_message(0x2000_0010, 4, 0x12);
    assert!(line.contains("addr=0x20000010"));
    assert!(line.contains("size=4"));
    assert!(line.contains("value=0x12"));
}

#[test]
fn gif_lzw_output_limit_detects_overflow() {
    assert_eq!(gif_lzw_output_limit_exceeded(0x3000, 0x3000), None);
    assert_eq!(gif_lzw_output_limit_exceeded(0x3000, 0x3001), Some(1));
    assert_eq!(gif_lzw_output_limit_exceeded(0x3000, 0x1000), None);
}

#[test]
fn hook_trace_is_the_whole_line() {
    let line = format_hook_trace("USER32.dll!GetDC", StackCleanup::Caller, None, 0x10, 0xff, 0x0, 0xabc, true);
    assert_eq!(line, "USER32.dll!GetDC cleanup=caller ret=None retry=true esp=0x10->0xff eip_after=0x0 guest_ret=0xabc");
    let neg = format_hook_trace("f", StackCleanup::Callee(3), Some(-7), 1, 2, 3, 4, false);
    assert_eq!(neg, "f cleanup=callee(args=3,bytes=12) ret=Some(-7) retry=false esp=0x1->0x2 eip_after=0x3 guest_ret=0x4");
}

#[test]
fn cleanup_texts() {
    assert_eq!(format_cleanup(StackCleanup::Caller), "caller");
    assert_eq!(format_cleanup(StackCleanup::Callee(0)), "callee(args=0,bytes=0)");
    assert_eq!(format_cleanup(StackCleanup::Callee(25)), "callee(args=25,bytes=100)");
}

#[test]
fn checksum_of_known_inputs() {
    assert_eq!(trace_checksum(b""), 0x811c_9dc5);
    let one = 0x811c_9dc5u32 ^ (b'a' as u32).wrapping_mul(0x0100_0193);
    assert_eq!(trace_checksum(b"a"), one);
    let two = one ^ (0xffu32).wrapping_mul(0x0100_0193);
    assert_eq!(trace_checksum(&[b'a', 0xff]), two);
}

#[test]
fn file_trace_is_the_whole_line() {
    let line = format_file_trace("fseek", 0xa, "x.pak", None, Some(0), 0, 0, b"");
    assert_eq!(line, "fseek handle=0xa path=x.pak off=None->Some(0) req=0 actual=0 checksum=0x811c9dc5");
    let small = format_file_trace("fread", 1, "p", Some(18446744073709551615), None, 1, 2, &[0]);
    assert!(small.contains("off=Some(18446744073709551615)->None"));
    assert!(small.ends_with("checksum=0x811c9dc5"));
}

#[test]
fn heap_guard_shows_negative_values_in_twos_complement() {
    assert_eq!(
        heap_guard_message(0, 0, -1),
        "HEAP_GUARD unallocated write addr=0x0 size=0 value=0xffffffffffffffff"
    );
}

#[test]
fn pak_files_are_traced_without_regard_to_case() {
    assert!(should_trace_file("Resources/MainFrame.pak"));
    assert!(should_trace_file("a.PaK"));
    assert!(!should_trace_file("a.pak.txt"));
    assert!(!should_trace_file("pak"));
    assert!(should_trace_file(".pak"));
}

#[test]
fn hot_loop_range_is_inclusive() {
    assert!(is_lime_gif_hot_rva(0xbd80));
    assert!(is_lime_gif_hot_rva(0xbe20));
    assert!(!is_lime_gif_hot_rva(0xbd7f));
    assert!(!is_lime_gif_hot_rva(0xbe21));
}

#[test]
fn lzw_overflow_descriptions() {
    assert_eq!(format_lzw_overflow(None), "limit_addr=<none>, cursor=<none>, overflow=0");
    assert_eq!(format_lzw_overflow(Some((0x3000, 0x3010, 16))), "limit_addr=0x3000, cursor=0x3010, overflow=16");
}

#[test]
fn recent_queue_keeps_the_latest_entries() {
    let mut q: Vec<String> = Vec::new();
    assert_eq!(recent_summary(&q), "<empty>");
    for i in 0..20 {
        push_recent(&mut q, format!("e{i}"));
    }
    assert_eq!(q.len(), RECENT_LIMIT);
    assert_eq!(q[0], "e4");
    assert_eq!(q[15], "e19");
    let mut small = vec!["a".to_string()];
    push_recent(&mut small, "b".to_string());
    assert_eq!(recent_summary(&small), "a | b");
}

#[test]
fn decoder_offsets_are_found_inside_the_module() {
    assert_eq!(lime_gif_rva(0x1000_0000, 0x5_0000, 0x1000_b000), Some(0xb000));
    assert_eq!(lime_gif_rva(0x1000_0000, 0x5_0000, 0x1000_ca81), None);
    assert_eq!(lime_gif_rva(0x1000_0000, 0x5_0000, 0x0fff_ffff), None);
    assert_eq!(lime_gif_rva(0x1000_0000, 0x5_0000, 0x1005_0000), None);
    assert_eq!(lime_gif_rva(u64::MAX - 10, 100, u64::MAX - 5), None);
}

#[test]
fn deterministic_runs_use_a_fixed_quantum_and_clock() {
    assert_eq!(emulator_quantum(true, 5), 20_000);
    assert_eq!(emulator_quantum(false, 5), 5);
    let mut clock = VirtualClock::new();
    assert_eq!(clock.virtual_millis(true, 999), 0);
    assert_eq!(clock.virtual_millis(true, 999), 16);
    assert_eq!(clock.virtual_millis(false, (1u128 << 32) + 7), 7);
    assert_eq!(clock.virtual_millis(true, 0), 32);
    let mut wrap = VirtualClock { ticks: u32::MAX - 3 };
    assert_eq!(wrap.virtual_millis(true, 0), u32::MAX - 3);
    assert_eq!(wrap.ticks, 12);
}

#[test]
fn stall_detector_reports_and_stops_in_the_hot_loop() {
    let mut d = GifStallDetector::new();
    let base = 0x1000_0000u64;
    let loc = Some((base, 0xbd90u32));
    assert!(needs_lzw_cursor(loc));
    assert!(!needs_lzw_cursor(Some((base, 0xb000))));
    assert!(!needs_lzw_cursor(None));
    for i in 1..16 {
        let step = d.observe(base + 0xbd90, loc, Some(0), true, false);
        assert!(!step.periodic_report && step.stop.is_none());
        assert_eq!(d.hot_loop_count, i);
    }
    let limit = emul_4leaf::diagnostics::lzw_limit_addr(base);
    let step = d.observe(base + 0xbd90, loc, Some(limit + 5), true, false);
    assert!(step.periodic_report);
    assert_eq!(
        step.overflow_line.unwrap(),
        format!("GIF_LZW_STACK_OVERFLOW limit_addr={:#x} cursor={:#x} overflow=5", limit, limit + 5)
    );
    assert!(step.stop.is_none());
    assert_eq!(d.last_report_count, 16);
    for _ in 17..64 {
        d.observe(base + 0xbd90, loc, Some(0), false, false);
    }
    let step = d.observe(base + 0xbd90, loc, Some(0), false, false);
    assert_eq!(d.hot_loop_count, 64);
    assert!(!step.final_report);
    assert_eq!(
        step.stop.unwrap(),
        "GIF LZW hot loop did not make progress at 0x1000bd90 (rva=0xbd90, repeat=64, limit_addr=<none>, cursor=<none>, overflow=0)"
    );
    assert_eq!(d.recent_eips.len(), RECENT_LIMIT);
    let step = d.observe(0x5, None, None, true, true);
    assert!(step.stop.is_none());
    assert_eq!(d.hot_loop_count, 0);
}

#[test]
fn stall_break_stops_at_the_first_report() {
    let mut d = GifStallDetector::new();
    let loc = Some((0u64, 0xbe00u32));
    let mut last = None;
    for _ in 0..16 {
        last = Some(d.observe(0xbe00, loc, None, true, true));
    }
    let step = last.unwrap();
    assert!(step.periodic_report);
    assert_eq!(step.stop.unwrap(), "GIF stall break requested at 0xbe00 (rva=0xbe00, repeat=16)");
}

#[test]
fn stall_header_lists_recent_program_counters() {
    assert_eq!(
        format_stall_header(0x10, 0xbd80, 3, 100, &vec![0x1, 0xab]),
        "GIF_STALL eip=0x10 lime_rva=0xbd80 repeat=3 quantum=100 recent_eips=[0x1 0xab]"
    );
    assert_eq!(format_stall_header(0, 0, 0, 0, &vec![]), "GIF_STALL eip=0x0 lime_rva=0x0 repeat=0 quantum=0 recent_eips=[]");
}

#[test]
fn register_and_stack_summaries() {
    let regs = [1u64, 2, 3, 4, 5, 6, 7, 0x12ff00, 0x40_1000];
    assert_eq!(
        register_summary(&regs),
        "EAX=0x1 EBX=0x2 ECX=0x3 EDX=0x4 ESI=0x5 EDI=0x6 EBP=0x7 ESP=0x12ff00 EIP=0x401000"
    );
    let words = [0xdead_beefu32, 0, 1, 2, 3, 4, 5, 6];
    assert_eq!(
        stack_summary(0x100, &words),
        "0x100:0xdeadbeef 0x104:0x0 0x108:0x1 0x10c:0x2 0x110:0x3 0x114:0x4 0x118:0x5 0x11c:0x6"
    );
}
