use emul_4leaf::debugger::{DebugKey, DebuggerState, HexSubmission};
use emul_4leaf::logging::LOG_SCROLL_MAX;
use emul_4leaf::win_frame::{CpuContext, DebugCommand};

fn typed(state: &mut DebuggerState, text: &str) -> bool {
    state.handle_key(true, DebugKey::Other, Some(text)).redraw
}

#[test]
fn new_debugger_runs_with_all_panels_shown() {
    let s = DebuggerState::new();
    assert!(s.auto_running);
    assert!(!s.waiting_for_step);
    assert!(s.show_stack && s.show_socket_log && s.show_log);
    assert_eq!(s.log_scroll_offset, 0);
    assert!(s.input_buffer.is_empty());
}

#[test]
fn f10_requests_one_step_until_the_snapshot_arrives() {
    let mut s = DebuggerState::new();
    let step = s.handle_key(true, DebugKey::F10, None);
    assert_eq!(step.commands, vec![DebugCommand::Step]);
    assert!(step.redraw);
    assert!(s.waiting_for_step);

    let again = s.handle_key(true, DebugKey::F10, None);
    assert!(again.commands.is_empty());
    assert!(!again.redraw);

    let redraw = s.tick(
        vec![CpuContext { regs: [1, 2, 3, 4, 5, 6, 7, 8, 9], stack: vec![], next_instr: "nop".to_string() }],
        0,
        0,
    );
    assert!(redraw);
    assert!(!s.waiting_for_step);
    assert_eq!(s.cpu_state.as_ref().unwrap().regs[8], 9);
}

#[test]
fn f5_toggles_between_pause_and_run() {
    let mut s = DebuggerState::new();
    let pause = s.handle_key(true, DebugKey::F5, None);
    assert_eq!(pause.commands, vec![DebugCommand::Pause]);
    assert_eq!(pause.log_lines, vec!["[DEBUG] UI: Pause requested".to_string()]);
    assert!(!s.auto_running);
    let run = s.handle_key(true, DebugKey::F5, None);
    assert_eq!(run.commands, vec![DebugCommand::Run]);
    assert_eq!(run.log_lines, vec!["[DEBUG] UI: Run requested".to_string()]);
    assert!(s.auto_running);
}

#[test]
fn key_release_does_nothing() {
    let mut s = DebuggerState::new();
    let step = s.handle_key(false, DebugKey::F5, Some("a"));
    assert!(!step.redraw && !step.exit && step.commands.is_empty());
    assert!(s.auto_running);
    assert!(s.input_buffer.is_empty());
}

#[test]
fn escape_leaves_the_event_loop() {
    let mut s = DebuggerState::new();
    assert!(s.handle_key(true, DebugKey::Escape, None).exit);
    assert!(!s.handle_key(true, DebugKey::Home, None).exit);
}

#[test]
fn log_scrolling_is_clamped() {
    let mut s = DebuggerState::new();
    s.handle_key(true, DebugKey::PageUp, None);
    assert_eq!(s.log_scroll_offset, 10);
    s.handle_key(true, DebugKey::ArrowUp, None);
    assert_eq!(s.log_scroll_offset, 11);
    s.handle_key(true, DebugKey::ArrowDown, None);
    s.handle_key(true, DebugKey::PageDown, None);
    assert_eq!(s.log_scroll_offset, 0);
    s.handle_key(true, DebugKey::PageDown, None);
    assert_eq!(s.log_scroll_offset, 0);
    s.handle_key(true, DebugKey::Home, None);
    assert_eq!(s.log_scroll_offset, LOG_SCROLL_MAX);
    s.handle_key(true, DebugKey::PageUp, None);
    assert_eq!(s.log_scroll_offset, LOG_SCROLL_MAX);
    s.handle_key(true, DebugKey::End, None);
    assert_eq!(s.log_scroll_offset, 0);
    assert!(s.scroll_lines(3));
    assert_eq!(s.log_scroll_offset, 3);
    s.scroll_lines(-5);
    assert_eq!(s.log_scroll_offset, 0);
    s.scroll_lines(i32::MAX);
    assert_eq!(s.log_scroll_offset, LOG_SCROLL_MAX);
}

#[test]
fn hex_digits_are_collected_in_upper_case() {
    let mut s = DebuggerState::new();
    assert!(typed(&mut s, "a1zF"));
    assert_eq!(s.input_buffer, vec!['A', '1', 'F']);
    s.handle_key(true, DebugKey::Backspace, None);
    assert_eq!(s.input_buffer, vec!['A', '1']);
}

#[test]
fn panel_shortcuts_only_work_with_an_empty_input_line() {
    let mut s = DebuggerState::new();
    assert!(typed(&mut s, "s"));
    assert!(!s.show_stack);
    assert!(typed(&mut s, "K"));
    assert!(!s.show_socket_log);
    assert!(typed(&mut s, "l"));
    assert!(!s.show_log);
    assert!(!typed(&mut s, "x"));
    typed(&mut s, "0");
    typed(&mut s, "s");
    assert!(!s.show_stack);
    assert_eq!(s.input_buffer, vec!['0']);
}

#[test]
fn enter_submits_even_length_input() {
    let mut s = DebuggerState::new();
    typed(&mut s, "0aff");
    let step = s.handle_key(true, DebugKey::Enter, None);
    assert!(step.redraw);
    match step.submission {
        Some(HexSubmission::Accepted(text)) => assert_eq!(text, "0AFF"),
        _ => panic!("expected an accepted submission"),
    }
    assert!(s.input_buffer.is_empty());
}

#[test]
fn enter_rejects_odd_length_input() {
    let mut s = DebuggerState::new();
    typed(&mut s, "abc");
    let step = s.handle_key(true, DebugKey::Enter, None);
    match step.submission {
        Some(HexSubmission::Rejected(e)) => assert_eq!(e, hex::FromHexError::OddLength),
        _ => panic!("expected a rejected submission"),
    }
    assert!(s.input_buffer.is_empty());
}

#[test]
fn enter_on_empty_input_does_nothing() {
    let mut s = DebuggerState::new();
    let step = s.handle_key(true, DebugKey::Enter, None);
    assert!(step.submission.is_none());
    assert!(!step.redraw);
}

#[test]
fn tick_reports_changed_log_counters() {
    let mut s = DebuggerState::new();
    assert!(!s.tick(vec![], 0, 0));
    assert!(s.tick(vec![], 3, 0));
    assert_eq!(s.last_log_count(), 3);
    assert!(s.tick(vec![], 3, 1));
    assert!(!s.tick(vec![], 3, 1));
}
