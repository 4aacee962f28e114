use emul_4leaf::debug_view::{
    debugger_layout, debugger_rules, DebugText, CYAN, RED, RUN_GREEN, SOCKET_GREEN, WHITE, YELLOW,
};
use emul_4leaf::debugger::DebuggerState;
use emul_4leaf::logging::{push_log, push_socket_log, LogBuffers};
use emul_4leaf::win_frame::CpuContext;

const KEYS: &str = "  |  F5: Run/Pause  |  F10: Step  |  Toggles: [S]tate [K]Socket [L]Log  |  ESC: Quit";

fn only(stack: bool, socket: bool, log: bool) -> DebuggerState {
    let mut s = DebuggerState::new();
    s.show_stack = stack;
    s.show_socket_log = socket;
    s.show_log = log;
    s
}

fn at(items: &[DebugText], i: usize) -> (&str, i32, i32, u32) {
    let t = &items[i];
    (t.text.as_str(), t.x, t.y, t.color)
}

fn cpu() -> CpuContext {
    CpuContext {
        regs: [1, 2, 3, 4, 5, 6, 7, 0x0012_ff00, 0x0040_1000],
        stack: vec![(0x0012_fefc, 9), (0x0012_ff00, 5)],
        next_instr: "mov eax, ebx".to_string(),
    }
}

#[test]
fn header_alone_when_every_panel_is_hidden() {
    let mut s = only(false, false, false);
    s.auto_running = false;
    let items = debugger_layout(&s, &LogBuffers::new(), 400);
    assert_eq!(items.len(), 1);
    let text = format!("Mode: [STEP]{}", KEYS);
    assert_eq!(at(&items, 0), (text.as_str(), 3, 3, YELLOW));
    assert!(debugger_rules(&s, 640, 400).is_empty());
}

#[test]
fn all_panels_share_the_height_below_the_header() {
    let s = DebuggerState::new();
    let mut b = LogBuffers::new();
    push_log(&mut b, "[0x000001] hello [!] x");
    push_log(&mut b, "plain");
    let items = debugger_layout(&s, &b, 400);
    let header = format!("Mode: [AUTO-RUN]{}", KEYS);
    assert_eq!(at(&items, 0), (header.as_str(), 3, 3, RUN_GREEN));
    // Panels are (400 - 22) / 3 = 126 pixels high.
    assert_eq!(at(&items, 1), ("Waiting for CPU state...", 3, 27, WHITE));
    assert_eq!(at(&items, 2), ("SOCKET LOG", 3, 153, YELLOW));
    assert_eq!(at(&items, 3), ("Input: ", 3, 255, YELLOW));
    // The log starts at 282 and shows 6 rows; two lines sit at its bottom.
    assert_eq!(at(&items, 4), ("[             ] hello [!] x", 3, 354, RED));
    assert_eq!(at(&items, 5), ("0x000001", 9, 354, WHITE));
    assert_eq!(at(&items, 6), ("", 3, 372, WHITE));
    assert_eq!(at(&items, 7), ("plain", 9, 372, WHITE));
    assert_eq!(items.len(), 8);
    assert_eq!(debugger_rules(&s, 640, 400), vec![(22, 3, 637), (150, 3, 637), (279, 3, 637)]);
}

#[test]
fn registers_stop_at_the_panel_bottom() {
    let mut s = only(true, false, false);
    s.cpu_state = Some(cpu());
    let items = debugger_layout(&s, &LogBuffers::new(), 100);
    // One 78-pixel panel: five register rows fit above 92, the instruction does not.
    assert_eq!(at(&items, 1), ("EAX: 0x00000001", 3, 27, WHITE));
    assert_eq!(at(&items, 5), ("ESI: 0x00000005", 3, 91, WHITE));
    assert_eq!(at(&items, 6), ("0x0012fefc: 0x00000009 ", 200, 26, WHITE));
    assert_eq!(at(&items, 7), ("0x0012ff00: 0x00000005 <- ESP", 200, 42, WHITE));
    assert_eq!(items.len(), 8);
}

#[test]
fn a_tall_cpu_panel_shows_every_register_and_the_next_instruction() {
    let mut s = only(true, false, false);
    s.cpu_state = Some(cpu());
    let items = debugger_layout(&s, &LogBuffers::new(), 400);
    assert_eq!(at(&items, 8), ("ESP: 0x0012ff00", 3, 139, WHITE));
    assert_eq!(at(&items, 9), ("EIP: 0x00401000", 3, 155, CYAN));
    assert_eq!(at(&items, 10), ("mov eax, ebx", 3, 194, CYAN));
    assert_eq!(items.len(), 13);
}

#[test]
fn socket_panel_shows_its_last_lines_and_the_input() {
    let mut s = only(false, true, false);
    s.input_buffer = vec!['A', 'B'];
    let mut b = LogBuffers::new();
    push_socket_log(&mut b, "a\nb\nc");
    let items = debugger_layout(&s, &b, 100);
    // 78 - 40 = 38 pixels hold two 18-pixel rows.
    assert_eq!(at(&items, 1), ("SOCKET LOG", 3, 25, YELLOW));
    assert_eq!(at(&items, 2), ("b", 3, 43, SOCKET_GREEN));
    assert_eq!(at(&items, 3), ("c", 3, 61, SOCKET_GREEN));
    assert_eq!(at(&items, 4), ("Input: AB", 3, 79, YELLOW));
    assert_eq!(items.len(), 5);
}

#[test]
fn scrolled_log_is_settled_and_marked_seen() {
    let mut s = only(false, false, true);
    let mut b = LogBuffers::new();
    for i in 0..10 {
        push_log(&mut b, &format!("line {} [*]", i));
    }
    s.log_scroll_offset = 9;
    s.settle_log_view(&b, 100);
    // Four rows fit below 25; the offset can show lines 0 to 3 at most.
    assert_eq!(s.log_scroll_offset, 6);
    assert_eq!(s.last_log_count, 10);
    let items = debugger_layout(&s, &b, 100);
    assert_eq!(at(&items, 2), ("line 0 [*]", 9, 25, WHITE));
    assert_eq!(at(&items, 8), ("line 3 [*]", 9, 79, WHITE));
    assert_eq!(items.len(), 9);
}

#[test]
fn message_colours_follow_their_markers() {
    let s = only(false, false, true);
    let mut b = LogBuffers::new();
    push_log(&mut b, "[0x000002] note [*] here");
    push_log(&mut b, "[0x000003] call _stricmp");
    let items = debugger_layout(&s, &b, 100);
    assert_eq!(items[1].color, CYAN);
    assert_eq!(items[3].text, "[             ] call _stricmp");
    assert_eq!(items[3].color, YELLOW);
    assert_eq!(items[4].text, "0x000003");
}

#[test]
fn settling_twice_keeps_the_offset() {
    let mut s = only(true, false, true);
    let mut b = LogBuffers::new();
    for i in 0..30 {
        push_log(&mut b, &format!("row {}", i));
    }
    s.log_scroll_offset = 100;
    s.settle_log_view(&b, 300);
    let first = s.log_scroll_offset;
    s.settle_log_view(&b, 300);
    assert_eq!(s.log_scroll_offset, first);
    // Two 139-pixel panels: the log starts at 166 and shows 7 rows.
    assert_eq!(first, 23);
}
