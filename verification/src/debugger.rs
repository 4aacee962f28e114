//! The debugger window's reactions: stepping and running, log scrolling,
//! panel toggles, and the hexadecimal packet input line.

use vstd::prelude::*;
use vstd::string::StringExecFns;
use crate::win_frame::{CpuContext, DebugCommand};
use crate::logging::LOG_SCROLL_MAX;
use crate::logtext::chars_of;
use crate::text::string_from_chars;

verus! {

/// The keys the debugger reacts to.
#[derive(Clone, Copy, Debug, PartialEq, Eq, Structural)]
pub enum DebugKey {
    F10,
    F5,
    Escape,
    PageUp,
    PageDown,
    Home,
    End,
    ArrowUp,
    ArrowDown,
    Backspace,
    Enter,
    Other,
}

/// The debugger's view state.
pub struct DebuggerState {
    pub cpu_state: Option<CpuContext>,
    pub waiting_for_step: bool,
    pub auto_running: bool,
    pub last_log_count: usize,
    pub last_socket_count: usize,
    pub log_scroll_offset: usize,
    /// Hexadecimal digits typed so far, in upper case.
    pub input_buffer: Vec<char>,
    pub show_stack: bool,
    pub show_socket_log: bool,
    pub show_log: bool,
}

/// What the debugger submitted from its input line: the digits when they
/// decode as hexadecimal bytes, else the decoder's error.
pub enum HexSubmission {
    Accepted(String),
    Rejected(hex::FromHexError),
}

/// What the UI loop does after one event: send these commands in order,
/// write these log lines, report a submitted input line, leave the event
/// loop, and repaint.
pub struct DebugUiStep {
    pub commands: Vec<DebugCommand>,
    pub log_lines: Vec<String>,
    pub submission: Option<HexSubmission>,
    pub exit: bool,
    pub redraw: bool,
}

pub open spec fn is_hex_digit(c: char) -> bool {
    ('0' <= c <= '9') || ('a' <= c <= 'f') || ('A' <= c <= 'F')
}

/// A character the input line holds: a digit or an upper-case letter A to F.
pub open spec fn input_char_ok(c: char) -> bool {
    ('0' <= c <= '9') || ('A' <= c <= 'F')
}

pub open spec fn upper(c: char) -> char {
    if 'a' <= c <= 'z' { ((c as u32) - 32) as char } else { c }
}

/// The panel toggles and input after typing `text`: hexadecimal digits are
/// appended in upper case; while the input is empty, `s`, `k` and `l` (any
/// case) toggle the stack, socket-log and log panels.
pub open spec fn typed(
    text: Seq<char>, input: Seq<char>, stack: bool, socket: bool, log: bool,
) -> (Seq<char>, bool, bool, bool, bool)
    decreases text.len(),
{
    if text.len() == 0 {
        (input, stack, socket, log, false)
    } else {
        let (i0, s0, k0, l0, r0) = typed(text.drop_last(), input, stack, socket, log);
        let c = text.last();
        if is_hex_digit(c) {
            (i0.push(upper(c)), s0, k0, l0, true)
        } else if i0.len() == 0 && upper(c) == 'S' {
            (i0, !s0, k0, l0, true)
        } else if i0.len() == 0 && upper(c) == 'K' {
            (i0, s0, !k0, l0, true)
        } else if i0.len() == 0 && upper(c) == 'L' {
            (i0, s0, k0, !l0, true)
        } else {
            (i0, s0, k0, l0, r0)
        }
    }
}

/// The keys whose typed text goes to the input line.
pub open spec fn types_text(key: DebugKey) -> bool {
    key == DebugKey::F10 || key == DebugKey::F5 || key == DebugKey::Escape || key == DebugKey::Other
}

pub open spec fn scrolled_up(offset: usize, by: int) -> usize {
    if offset + by > LOG_SCROLL_MAX { LOG_SCROLL_MAX } else { (offset + by) as usize }
}

pub open spec fn scrolled_down(offset: usize, by: int) -> usize {
    if offset - by < 0 { 0 } else { (offset - by) as usize }
}

fn is_hex_digit_exec(c: char) -> (r: bool)
    ensures
        r == is_hex_digit(c),
{
    ('0' <= c && c <= '9') || ('a' <= c && c <= 'f') || ('A' <= c && c <= 'F')
}

fn upper_exec(c: char) -> (r: char)
    ensures
        r == upper(c),
{
    if 'a' <= c && c <= 'z' {
        (((c as u32) - 32) as u8) as char
    } else {
        c
    }
}

/// Calls `<Vec<u8> as hex::FromHex>::from_hex` on the input digits; only
/// whether it succeeded and its error are used.
#[verifier::external_body]
fn check_hex_input(digits: &[u8]) -> (r: Result<(), hex::FromHexError>)
    ensures
        r is Ok <==> crate::capture_log::hex_bytes_valid(digits@),
{
    match <Vec<u8> as hex::FromHex>::from_hex(digits) {
        Ok(_) => Ok(()),
        Err(e) => Err(e),
    }
}

impl DebuggerState {
    /// The scroll offset stays within the log, and the input line holds
    /// upper-case hexadecimal digits only.
    pub open spec fn wf(&self) -> bool {
        &&& self.log_scroll_offset <= LOG_SCROLL_MAX
        &&& forall|i: int| 0 <= i < self.input_buffer@.len() ==> #[trigger] input_char_ok(self.input_buffer@[i])
    }

    /// The state of a new debugger window: running, all panels shown.
    pub fn new() -> (s: DebuggerState)
        ensures
            s.wf(),
            s.cpu_state is None,
            !s.waiting_for_step,
            s.auto_running,
            s.last_log_count == 0 && s.last_socket_count == 0 && s.log_scroll_offset == 0,
            s.input_buffer@.len() == 0,
            s.show_stack && s.show_socket_log && s.show_log,
    {
        DebuggerState {
            cpu_state: None,
            waiting_for_step: false,
            auto_running: true,
            last_log_count: 0,
            last_socket_count: 0,
            log_scroll_offset: 0,
            input_buffer: Vec::new(),
            show_stack: true,
            show_socket_log: true,
            show_log: true,
        }
    }

    /// Takes a new CPU snapshot; a pending step is then complete.
    pub fn update_state(&mut self, state: CpuContext)
        ensures
            final(self).cpu_state == Some(state),
            !final(self).waiting_for_step,
            final(self).auto_running == old(self).auto_running,
            final(self).log_scroll_offset == old(self).log_scroll_offset,
            final(self).input_buffer@ == old(self).input_buffer@,
    {
        self.cpu_state = Some(state);
        self.waiting_for_step = false;
    }

    /// The log counter last seen.
    pub fn last_log_count(&self) -> (r: usize)
        ensures
            r == self.last_log_count,
    {
        self.last_log_count
    }

    /// One poll of the UI loop: the CPU snapshots received since the last
    /// poll and the current log counters; a repaint is due when anything
    /// changed.
    pub fn tick(&mut self, snapshots: Vec<CpuContext>, log_count: usize, socket_count: usize) -> (redraw: bool)
        ensures
            redraw == (snapshots@.len() > 0 || log_count != old(self).last_log_count
                || socket_count != old(self).last_socket_count),
            final(self).last_log_count == log_count,
            final(self).last_socket_count == socket_count,
            snapshots@.len() > 0 ==> final(self).cpu_state == Some(snapshots@.last()) && !final(self).waiting_for_step,
            snapshots@.len() == 0 ==> final(self).cpu_state == old(self).cpu_state
                && final(self).waiting_for_step == old(self).waiting_for_step,
    {
        let mut redraw = false;
        let n = snapshots.len();
        let mut snapshots = snapshots;
        if n > 0 {
            let last = snapshots.pop().unwrap();
            self.update_state(last);
            redraw = true;
        }
        if self.last_log_count != log_count {
            self.last_log_count = log_count;
            redraw = true;
        }
        if self.last_socket_count != socket_count {
            self.last_socket_count = socket_count;
            redraw = true;
        }
        redraw
    }

    /// Reacts to the mouse wheel: positive `lines` scroll the log back.
    pub fn scroll_lines(&mut self, lines: i32) -> (redraw: bool)
        requires
            old(self).wf(),
        ensures
            final(self).wf(),
            redraw,
            final(self).input_buffer@ == old(self).input_buffer@,
            final(self).log_scroll_offset == (if lines > 0 {
                scrolled_up(old(self).log_scroll_offset, lines as int)
            } else {
                scrolled_down(old(self).log_scroll_offset, -(lines as int))
            }),
    {
        if lines > 0 {
            let up = self.log_scroll_offset + lines as usize;
            self.log_scroll_offset = if up > LOG_SCROLL_MAX { LOG_SCROLL_MAX } else { up };
        } else {
            let down = -(lines as i64) as u64;
            self.log_scroll_offset = if down >= self.log_scroll_offset as u64 { 0 } else { self.log_scroll_offset - down as usize };
        }
        true
    }

    fn type_text(&mut self, text: &str) -> (changed: bool)
        requires
            old(self).wf(),
        ensures
            final(self).wf(),
            ({
                let (i, s, k, l, r) = typed(text@, old(self).input_buffer@, old(self).show_stack,
                    old(self).show_socket_log, old(self).show_log);
                &&& final(self).input_buffer@ == i
                &&& final(self).show_stack == s
                &&& final(self).show_socket_log == k
                &&& final(self).show_log == l
                &&& changed == r
            }),
            final(self).log_scroll_offset == old(self).log_scroll_offset,
            final(self).auto_running == old(self).auto_running,
            final(self).waiting_for_step == old(self).waiting_for_step,
    {
        let chars = chars_of(text);
        let mut changed = false;
        let mut i: usize = 0;
        while i < chars.len()
            invariant
                0 <= i <= chars@.len(),
                chars@ == text@,
                ({
                    let (ti, s, k, l, r) = typed(chars@.take(i as int), old(self).input_buffer@, old(self).show_stack,
                        old(self).show_socket_log, old(self).show_log);
                    &&& self.input_buffer@ == ti
                    &&& self.show_stack == s
                    &&& self.show_socket_log == k
                    &&& self.show_log == l
                    &&& changed == r
                }),
                self.log_scroll_offset == old(self).log_scroll_offset,
                self.auto_running == old(self).auto_running,
                self.waiting_for_step == old(self).waiting_for_step,
                self.wf(),
            decreases chars@.len() - i,
        {
            proof {
                assert(chars@.take(i + 1).drop_last() =~= chars@.take(i as int));
            }
            let c = chars[i];
            if is_hex_digit_exec(c) {
                self.input_buffer.push(upper_exec(c));
                changed = true;
            } else if self.input_buffer.len() == 0 {
                let u = upper_exec(c);
                if u == 'S' {
                    self.show_stack = !self.show_stack;
                    changed = true;
                } else if u == 'K' {
                    self.show_socket_log = !self.show_socket_log;
                    changed = true;
                } else if u == 'L' {
                    self.show_log = !self.show_log;
                    changed = true;
                }
            }
            i = i + 1;
        }
        proof {
            assert(chars@.take(chars@.len() as int) =~= chars@);
        }
        changed
    }

    /// Reacts to a key press or release; `text` is the text the key typed.
    pub fn handle_key(&mut self, pressed: bool, key: DebugKey, text: Option<&str>) -> (step: DebugUiStep)
        requires
            old(self).wf(),
        ensures
            final(self).wf(),
            !pressed ==> !step.redraw && !step.exit && step.commands@.len() == 0 && step.log_lines@.len() == 0
                && step.submission is None && final(self).input_buffer@ == old(self).input_buffer@
                && final(self).log_scroll_offset == old(self).log_scroll_offset
                && final(self).auto_running == old(self).auto_running
                && final(self).waiting_for_step == old(self).waiting_for_step,
            pressed ==> {
                let steps = key == DebugKey::F10 && !old(self).waiting_for_step;
                let toggles = key == DebugKey::F5;
                &&& step.commands@ == (if steps { seq![DebugCommand::Step] } else { Seq::empty() })
                    + (if toggles { seq![if old(self).auto_running { DebugCommand::Pause } else { DebugCommand::Run }] } else { Seq::empty() })
                &&& final(self).waiting_for_step == (old(self).waiting_for_step || steps)
                &&& final(self).auto_running == (if toggles { !old(self).auto_running } else { old(self).auto_running })
                &&& step.exit == (key == DebugKey::Escape)
                &&& final(self).log_scroll_offset == match key {
                        DebugKey::PageUp => scrolled_up(old(self).log_scroll_offset, 10),
                        DebugKey::PageDown => scrolled_down(old(self).log_scroll_offset, 10),
                        DebugKey::Home => LOG_SCROLL_MAX,
                        DebugKey::End => 0,
                        DebugKey::ArrowUp => scrolled_up(old(self).log_scroll_offset, 1),
                        DebugKey::ArrowDown => scrolled_down(old(self).log_scroll_offset, 1),
                        _ => old(self).log_scroll_offset,
                    }
                &&& key == DebugKey::Backspace ==> final(self).input_buffer@ == (if old(self).input_buffer@.len() > 0 {
                        old(self).input_buffer@.drop_last() } else { old(self).input_buffer@ }) && step.redraw
                &&& key == DebugKey::Enter ==> (if old(self).input_buffer@.len() > 0 {
                        final(self).input_buffer@.len() == 0 && step.redraw && step.submission is Some
                            && (step.submission matches Some(HexSubmission::Accepted(t)) ==> t@ == old(self).input_buffer@)
                            && (step.submission is Some ==> (step.submission matches Some(HexSubmission::Accepted(_))
                                <==> old(self).input_buffer@.len() % 2 == 0))
                    } else {
                        final(self).input_buffer@ == old(self).input_buffer@ && step.submission is None
                    })
                &&& key != DebugKey::Enter ==> step.submission is None
                &&& step.log_lines@.len() == (if toggles { 1int } else { 0int })
                &&& toggles ==> step.log_lines@[0]@ == (if old(self).auto_running {
                        "[DEBUG] UI: Pause requested"@ } else { "[DEBUG] UI: Run requested"@ })
                &&& types_text(key) ==> {
                        let t = match text { Some(t) => t@, None => Seq::<char>::empty() };
                        let (i, s, k, l, r) = typed(t, old(self).input_buffer@, old(self).show_stack,
                            old(self).show_socket_log, old(self).show_log);
                        &&& final(self).input_buffer@ == i
                        &&& final(self).show_stack == s
                        &&& final(self).show_socket_log == k
                        &&& final(self).show_log == l
                        &&& step.redraw == (steps || toggles || r)
                    }
                &&& !types_text(key) ==> final(self).show_stack == old(self).show_stack
                        && final(self).show_socket_log == old(self).show_socket_log
                        && final(self).show_log == old(self).show_log
                &&& (!types_text(key) && key != DebugKey::Backspace && key != DebugKey::Enter) ==>
                        final(self).input_buffer@ == old(self).input_buffer@ && step.redraw
                &&& key == DebugKey::Enter && old(self).input_buffer@.len() == 0 ==> !step.redraw
            },
    {
        let mut step = DebugUiStep { commands: Vec::new(), log_lines: Vec::new(), submission: None, exit: false, redraw: false };
        if !pressed {
            return step;
        }
        if key == DebugKey::F10 && !self.waiting_for_step {
            step.commands.push(DebugCommand::Step);
            self.waiting_for_step = true;
            step.redraw = true;
        }
        if key == DebugKey::F5 {
            if self.auto_running {
                self.auto_running = false;
                step.commands.push(DebugCommand::Pause);
                step.log_lines.push(String::from_str("[DEBUG] UI: Pause requested"));
            } else {
                self.auto_running = true;
                step.commands.push(DebugCommand::Run);
                step.log_lines.push(String::from_str("[DEBUG] UI: Run requested"));
            }
            step.redraw = true;
        }
        if key == DebugKey::Escape {
            step.exit = true;
        }
        proof {
            assert(step.commands@ =~= (if key == DebugKey::F10 && !old(self).waiting_for_step { seq![DebugCommand::Step] } else { Seq::<DebugCommand>::empty() })
                + (if key == DebugKey::F5 { seq![if old(self).auto_running { DebugCommand::Pause } else { DebugCommand::Run }] } else { Seq::<DebugCommand>::empty() }));
        }
        match key {
            DebugKey::PageUp => {
                let up = self.log_scroll_offset + 10;
                self.log_scroll_offset = if up > LOG_SCROLL_MAX { LOG_SCROLL_MAX } else { up };
                step.redraw = true;
            },
            DebugKey::PageDown => {
                self.log_scroll_offset = if self.log_scroll_offset >= 10 { self.log_scroll_offset - 10 } else { 0 };
                step.redraw = true;
            },
            DebugKey::Home => {
                self.log_scroll_offset = LOG_SCROLL_MAX;
                step.redraw = true;
            },
            DebugKey::End => {
                self.log_scroll_offset = 0;
                step.redraw = true;
            },
            DebugKey::ArrowUp => {
                let up = self.log_scroll_offset + 1;
                self.log_scroll_offset = if up > LOG_SCROLL_MAX { LOG_SCROLL_MAX } else { up };
                step.redraw = true;
            },
            DebugKey::ArrowDown => {
                self.log_scroll_offset = if self.log_scroll_offset >= 1 { self.log_scroll_offset - 1 } else { 0 };
                step.redraw = true;
            },
            DebugKey::Backspace => {
                if self.input_buffer.len() > 0 {
                    let _ = self.input_buffer.pop();
                }
                step.redraw = true;
            },
            DebugKey::Enter => {
                if self.input_buffer.len() > 0 {
                    let mut digits: Vec<u8> = Vec::new();
                    let mut i: usize = 0;
                    while i < self.input_buffer.len()
                        invariant
                            0 <= i <= self.input_buffer@.len(),
                            digits@.len() == i,
                            self.wf(),
                            forall|k: int| 0 <= k < i ==> #[trigger] crate::capture_log::hex_byte_value(digits@[k]) >= 0,
                        decreases self.input_buffer@.len() - i,
                    {
                        let c = self.input_buffer[i];
                        let u = c as u32;
                        proof {
                            assert(input_char_ok(self.input_buffer@[i as int]));
                            assert(u < 128 ==> (u as u8) as u32 == u) by (bit_vector);
                        }
                        let ghost before = digits@;
                        digits.push(u as u8);
                        proof {
                            assert forall|k: int| 0 <= k < i + 1 implies #[trigger] crate::capture_log::hex_byte_value(digits@[k]) >= 0 by {
                                if k < i {
                                    assert(digits@[k] == before[k]);
                                }
                            }
                        }
                        i = i + 1;
                    }
                    let text = string_from_chars(self.input_buffer.as_slice());
                    step.submission = match check_hex_input(digits.as_slice()) {
                        Ok(()) => Some(HexSubmission::Accepted(text)),
                        Err(e) => Some(HexSubmission::Rejected(e)),
                    };
                    self.input_buffer = Vec::new();
                    step.redraw = true;
                }
            },
            _ => {
                let t = match text {
                    Some(t) => t,
                    None => "",
                };
                proof {
                    reveal_strlit("");
                }
                if self.type_text(t) {
                    step.redraw = true;
                }
            },
        }
        step
    }
}

} // verus!
