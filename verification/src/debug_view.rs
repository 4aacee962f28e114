//! The debugger window's layout: which texts it draws where and in which
//! colour, for the header, the CPU panel (registers, next instruction and
//! stack), the socket-log panel and the scrolled main log.

use vstd::prelude::*;
use vstd::string::StringExecFns;
use crate::blit::trunc_div;
use crate::debugger::DebuggerState;
use crate::diagnostics::register_names;
use crate::logging::{LogBuffers, string_views};
use crate::logtext::{chars_of, copy_range, find, find_from, has_prefix, starts_with};
use crate::text::{hex_padded, push_hex_padded, string_from_chars};
use crate::win_frame::CpuContext;

verus! {

/// Colours as 0x00RRGGBB.
pub const WHITE: u32 = 0x00FF_FFFF;
pub const RED: u32 = 0x00FF_0000;
pub const YELLOW: u32 = 0x00FF_FF00;
pub const CYAN: u32 = 0x0000_FFFF;
/// The header's colour while the emulator runs freely.
pub const RUN_GREEN: u32 = 0x0000_FF80;
/// The socket log's lines.
pub const SOCKET_GREEN: u32 = 0x0064_FF64;
/// The rule drawn above each panel.
pub const RULE_GREEN: u32 = 0x003C_783C;

/// A text drawn at (`x`, `y`) in `color` (0x00RRGGBB).
#[derive(Debug, Clone)]
pub struct DebugText {
    pub text: String,
    pub x: i32,
    pub y: i32,
    pub color: u32,
}

/// A `DebugText` with its text as characters.
pub struct TextView {
    pub text: Seq<char>,
    pub x: int,
    pub y: int,
    pub color: u32,
}

impl View for DebugText {
    type V = TextView;

    open spec fn view(&self) -> TextView {
        TextView { text: self.text@, x: self.x as int, y: self.y as int, color: self.color }
    }
}

pub open spec fn texts_view(s: Seq<DebugText>) -> Seq<TextView> {
    s.map_values(|t: DebugText| t@)
}

pub open spec fn tv(text: Seq<char>, x: int, y: int, color: u32) -> TextView {
    TextView { text, x, y, color }
}

/// The header line: the run mode and the keys.
pub open spec fn header_text(auto_running: bool) -> Seq<char> {
    "Mode: "@ + (if auto_running { "[AUTO-RUN]"@ } else { "[STEP]"@ })
        + "  |  F5: Run/Pause  |  F10: Step  |  Toggles: [S]tate [K]Socket [L]Log  |  ESC: Quit"@
}

/// How many panels are shown.
pub open spec fn panel_count(s: DebuggerState) -> int {
    (if s.show_stack { 1int } else { 0 }) + (if s.show_socket_log { 1int } else { 0 }) + (
    if s.show_log { 1int } else { 0 })
}

/// The height of each panel: what is below the 22-pixel header, shared
/// evenly, rounded toward zero.
pub open spec fn panel_height(s: DebuggerState, height: u32) -> int {
    trunc_div(height - 22, panel_count(s))
}

/// Rows `step` apart from `first` drawn while the next one stays at or
/// above `limit`: at least one, at most `most`.
pub open spec fn rows_drawn(first: int, limit: int, step: int, most: int) -> int {
    let n = if limit - first < step { 1 } else { (limit - first) / step + 1 };
    if n > most { most } else { n }
}

/// `NAME: 0x%08x` of register `k`; EIP in cyan.
pub open spec fn register_item(regs: Seq<u32>, k: int, y: int) -> TextView {
    tv(register_names()[k] + ": 0x"@ + hex_padded(regs[k] as nat, 8), 3, y, if k == 8 { CYAN } else { WHITE })
}

/// `0x%08x: 0x%08x ` of a stack word, marked `<- ESP` where it is ESP's.
pub open spec fn stack_item(entry: (u32, u32), esp: u32, y: int) -> TextView {
    tv(
        "0x"@ + hex_padded(entry.0 as nat, 8) + ": 0x"@ + hex_padded(entry.1 as nat, 8) + " "@ + (if entry.0
            == esp { "<- ESP"@ } else { ""@ }),
        200,
        y,
        WHITE,
    )
}

/// The CPU panel whose top is `cy`: registers from `cy + 3` every 16
/// pixels while they fit, the next instruction 23 pixels further if it
/// fits, and the stack from (200, `cy + 2`) every 16 pixels while it fits.
pub open spec fn cpu_panel(cpu: Option<CpuContext>, cy: int, ph: int) -> Seq<TextView> {
    match cpu {
        Some(c) => {
            let nr = rows_drawn(cy + 3, cy + ph - 10, 16, 9);
            let regs = Seq::new(nr as nat, |k: int| register_item(c.regs@, k, cy + 3 + 16 * k));
            let instr_y = cy + 3 + 16 * nr + 23;
            let instr = if instr_y < cy + ph - 20 { seq![tv(c.next_instr@, 3, instr_y, CYAN)] } else { Seq::empty() };
            let ns = rows_drawn(cy + 2, cy + ph - 10, 16, c.stack@.len() as int);
            let stack = Seq::new(ns as nat, |k: int| stack_item(c.stack@[k], c.regs@[7], cy + 2 + 16 * k));
            regs + instr + stack
        },
        None => seq![tv("Waiting for CPU state..."@, 3, cy + 3, WHITE)],
    }
}

/// Socket-log lines that fit below the title and above the input line.
pub open spec fn socket_rows(ph: int) -> int {
    if ph - 40 >= 18 { (ph - 40) / 18 } else { 1 }
}

/// The socket panel whose top is `cy`: its title, its last lines every 18
/// pixels, and the input line at the bottom.
pub open spec fn socket_panel(lines: Seq<Seq<char>>, input: Seq<char>, cy: int, ph: int) -> Seq<TextView> {
    let max = socket_rows(ph);
    let start = if lines.len() > max { lines.len() - max } else { 0 };
    seq![tv("SOCKET LOG"@, 3, cy, YELLOW)] + Seq::new(
        (lines.len() - start) as nat,
        |k: int| tv(lines[start + k], 3, cy + 18 + 18 * k, SOCKET_GREEN),
    ) + seq![tv("Input: "@ + input, 3, cy + ph - 40 + 16, YELLOW)]
}

/// Log rows that fit between `start_y` and the bottom of the window.
pub open spec fn log_rows(height: u32, start_y: int) -> int {
    (if height - start_y > 0 { height - start_y } else { 0 }) / 18
}

/// The scroll offset kept within the log: none when the log fits, else at
/// most what shows its first line at the top.
pub open spec fn settled_offset(offset: int, total: int, shows: int) -> int {
    if total < shows {
        0
    } else if offset > total - shows {
        total - shows
    } else {
        offset
    }
}

/// A log line as its number column and its message: `[0x%08x] msg` is
/// split into the eight digits with `0x`'s `x` and the message behind a
/// blank number field; any other line is all number column.
pub open spec fn split_log_line(line: Seq<char>) -> (Seq<char>, Seq<char>) {
    if has_prefix(line, "[0x"@) && line.len() >= 12 {
        (line.subrange(1, 9), "[             ] "@ + line.subrange(11, line.len() as int))
    } else {
        (line, Seq::empty())
    }
}

pub open spec fn contains(s: Seq<char>, pat: Seq<char>) -> bool {
    find_from(s, pat, 0) is Some
}

/// Errors red, notes cyan, string compares yellow, the rest white.
pub open spec fn message_color(m: Seq<char>) -> u32 {
    if contains(m, "[!]"@) {
        RED
    } else if contains(m, "[*]"@) {
        CYAN
    } else if contains(m, "_stricmp"@) {
        YELLOW
    } else {
        WHITE
    }
}

/// The texts of log lines drawn from `y0` every 18 pixels: each line's
/// message at x 3, then its number column over it at x 9.
pub open spec fn log_items(lines: Seq<Seq<char>>, y0: int) -> Seq<TextView>
    decreases lines.len(),
{
    if lines.len() == 0 {
        Seq::empty()
    } else {
        let y = y0 + 18 * (lines.len() - 1);
        let (no, msg) = split_log_line(lines.last());
        log_items(lines.drop_last(), y0) + seq![tv(msg, 3, y, message_color(msg)), tv(no, 9, y, WHITE)]
    }
}

/// The log panel whose text starts at `start_y`: the window of lines at the
/// settled scroll offset from the end, bottom-aligned.
pub open spec fn log_panel(lines: Seq<Seq<char>>, offset: int, start_y: int, height: u32) -> Seq<TextView> {
    let shows = log_rows(height, start_y);
    let end = lines.len() - settled_offset(offset, lines.len() as int, shows);
    let st = if end > shows { end - shows } else { 0 };
    log_items(lines.subrange(st, end), start_y + (shows - (end - st)) * 18)
}

/// The top of the socket panel's rule, and of the log panel's.
pub open spec fn socket_top(s: DebuggerState, height: u32) -> int {
    if s.show_stack { 22 + 2 + panel_height(s, height) } else { 22 }
}

pub open spec fn log_top(s: DebuggerState, height: u32) -> int {
    if s.show_socket_log { socket_top(s, height) + 3 + panel_height(s, height) } else { socket_top(s, height) }
}

/// Everything the debugger window draws as text, in drawing order.
pub open spec fn spec_debugger_layout(
    s: DebuggerState,
    log_lines: Seq<Seq<char>>,
    socket_lines: Seq<Seq<char>>,
    height: u32,
) -> Seq<TextView> {
    let header = seq![tv(header_text(s.auto_running), 3, 3, if s.auto_running { RUN_GREEN } else { YELLOW })];
    if panel_count(s) == 0 {
        header
    } else {
        let ph = panel_height(s, height);
        let cpu = if s.show_stack { cpu_panel(s.cpu_state, 24, ph) } else { Seq::empty() };
        let sock = if s.show_socket_log {
            socket_panel(socket_lines, s.input_buffer@, socket_top(s, height) + 3, ph)
        } else {
            Seq::empty()
        };
        let log = if s.show_log {
            log_panel(log_lines, s.log_scroll_offset as int, log_top(s, height) + 3, height)
        } else {
            Seq::empty()
        };
        header + cpu + sock + log
    }
}

/// The rows of the rules drawn across the window above each shown panel.
pub open spec fn spec_rule_rows(s: DebuggerState, height: u32) -> Seq<int> {
    if panel_count(s) == 0 {
        Seq::empty()
    } else {
        (if s.show_stack { seq![22int] } else { Seq::empty() }) + (if s.show_socket_log {
            seq![socket_top(s, height)]
        } else {
            Seq::empty()
        }) + (if s.show_log { seq![log_top(s, height)] } else { Seq::empty() })
    }
}

/// Settling the scroll offset a second time changes nothing, so every
/// repaint of an unchanged log shows the same lines.
pub proof fn lemma_settle_idempotent(offset: int, total: int, shows: int)
    requires
        0 <= offset,
        0 <= total,
        0 <= shows,
    ensures
        settled_offset(settled_offset(offset, total, shows), total, shows) == settled_offset(offset, total, shows),
{
}

/// Appends one text.
fn push_text(out: &mut Vec<DebugText>, text: String, x: i32, y: i64, color: u32)
    requires
        i32::MIN <= y <= i32::MAX,
    ensures
        texts_view(final(out)@) == texts_view(old(out)@).push(tv(text@, x as int, y as int, color)),
{
    let ghost before = out@;
    out.push(DebugText { text, x, y: y as i32, color });
    proof {
        assert(texts_view(out@) =~= texts_view(before).push(tv(text@, x as int, y as int, color)));
    }
}

/// `rows_drawn` for the 16-pixel rows of the CPU panel.
fn rows_fitting(first: i64, limit: i64, most: usize) -> (n: usize)
    requires
        -0x1_0000_0000 <= first <= 0x1_0000_0000,
        -0x1_0000_0000 <= limit <= 0x1_0000_0000,
    ensures
        n == rows_drawn(first as int, limit as int, 16, most as int),
{
    let span = limit - first;
    let n: i64 = if span < 16 { 1 } else { span / 16 + 1 };
    if n as u64 > most as u64 {
        most
    } else {
        n as usize
    }
}

/// Appends the CPU panel whose top is `cy`.
fn push_cpu_panel(out: &mut Vec<DebugText>, cpu: &Option<CpuContext>, cy: i64, ph: i64)
    requires
        -100 <= cy <= 0x7FFF_8000,
        -100 <= ph,
        cy + ph <= 0x7FFF_8000,
    ensures
        texts_view(final(out)@) == texts_view(old(out)@) + cpu_panel(*cpu, cy as int, ph as int),
{
    let ghost out0 = texts_view(out@);
    match cpu {
        Some(c) => {
            let names: [&str; 9] = ["EAX", "EBX", "ECX", "EDX", "ESI", "EDI", "EBP", "ESP", "EIP"];
            proof {
                assert forall|i: int| 0 <= i < 9 implies #[trigger] names@[i]@ == register_names()[i] by {}
            }
            let nr = rows_fitting(cy + 3, cy + ph - 10, 9);
            let ghost regs = Seq::new(nr as nat, |k: int| register_item(c.regs@, k, cy + 3 + 16 * k));
            let mut k: usize = 0;
            while k < nr
                invariant
                    nr <= 9,
                    k <= nr,
                    -100 <= cy <= 0x7FFF_8000,
                    forall|i: int| 0 <= i < 9 ==> #[trigger] names@[i]@ == register_names()[i],
                    regs == Seq::new(nr as nat, |j: int| register_item(c.regs@, j, cy + 3 + 16 * j)),
                    texts_view(out@) == out0 + regs.take(k as int),
                decreases nr - k,
            {
                let mut s = String::new();
                s.append(names[k]);
                s.append(": 0x");
                push_hex_padded(&mut s, c.regs[k] as u64, 8);
                let color = if k == 8 { CYAN } else { WHITE };
                push_text(out, s, 3, cy + 3 + 16 * (k as i64), color);
                proof {
                    assert(regs.take(k + 1) =~= regs.take(k as int).push(regs[k as int]));
                }
                k = k + 1;
            }
            let instr_y = cy + 3 + 16 * (nr as i64) + 23;
            let ghost before_instr = texts_view(out@);
            if instr_y < cy + ph - 20 {
                push_text(out, c.next_instr.clone(), 3, instr_y, CYAN);
            }
            let ghost instr = texts_view(out@).skip(before_instr.len() as int);
            proof {
                assert(regs.take(nr as int) =~= regs);
                if instr_y < cy + ph - 20 {
                    assert(instr =~= seq![tv(c.next_instr@, 3, instr_y as int, CYAN)]);
                } else {
                    assert(instr =~= Seq::<TextView>::empty());
                }
                assert(texts_view(out@) =~= out0 + regs + instr);
            }
            let ns = rows_fitting(cy + 2, cy + ph - 10, c.stack.len());
            let ghost stack = Seq::new(ns as nat, |j: int| stack_item(c.stack@[j], c.regs@[7], cy + 2 + 16 * j));
            let ghost mid = texts_view(out@);
            let mut k: usize = 0;
            while k < ns
                invariant
                    ns <= c.stack@.len(),
                    k <= ns,
                    ns == rows_drawn(cy + 2, cy + ph - 10, 16, c.stack@.len() as int),
                    -100 <= cy <= 0x7FFF_8000,
                    -100 <= ph,
                    cy + ph <= 0x7FFF_8000,
                    stack == Seq::new(ns as nat, |j: int| stack_item(c.stack@[j], c.regs@[7], cy + 2 + 16 * j)),
                    texts_view(out@) == mid + stack.take(k as int),
                decreases ns - k,
            {
                let (addr, val) = c.stack[k];
                let mut s = String::new();
                s.append("0x");
                push_hex_padded(&mut s, addr as u64, 8);
                s.append(": 0x");
                push_hex_padded(&mut s, val as u64, 8);
                s.append(" ");
                s.append(if addr == c.regs[7] { "<- ESP" } else { "" });
                assert(16 * k <= ph - 12 || k == 0);
                push_text(out, s, 200, cy + 2 + 16 * (k as i64), WHITE);
                proof {
                    assert(stack.take(k + 1) =~= stack.take(k as int).push(stack[k as int]));
                }
                k = k + 1;
            }
            proof {
                assert(stack.take(ns as int) =~= stack);
                assert(texts_view(out@) =~= out0 + (regs + instr + stack));
            }
        },
        None => {
            let mut s = String::new();
            s.append("Waiting for CPU state...");
            push_text(out, s, 3, cy + 3, WHITE);
        },
    }
}

/// Appends the socket panel whose top is `cy`.
fn push_socket_panel(out: &mut Vec<DebugText>, lines: &Vec<String>, input: &Vec<char>, cy: i64, ph: i64)
    requires
        -100 <= cy <= 0x7FFF_8000,
        -100 <= ph,
        cy + ph <= 0x7FFF_8000,
    ensures
        texts_view(final(out)@) == texts_view(old(out)@) + socket_panel(
            string_views(lines@),
            input@,
            cy as int,
            ph as int,
        ),
{
    let ghost out0 = texts_view(out@);
    let ghost views = string_views(lines@);
    let mut title = String::new();
    title.append("SOCKET LOG");
    push_text(out, title, 3, cy, YELLOW);
    let max: i64 = if ph - 40 >= 18 { (ph - 40) / 18 } else { 1 };
    let total = lines.len();
    assert(max >= 1);
    let start: usize = if total as u64 > max as u64 { total - max as usize } else { 0 };
    let ghost body = Seq::new((views.len() - start) as nat, |k: int| tv(views[start + k], 3, cy + 18 + 18 * k, SOCKET_GREEN));
    let ghost mid = texts_view(out@);
    let mut k: usize = start;
    while k < total
        invariant
            total == lines@.len(),
            start <= k <= total,
            max == socket_rows(ph as int),
            start == (if total > max { total - max } else { 0 }),
            -100 <= cy <= 0x7FFF_8000,
            -100 <= ph,
            cy + ph <= 0x7FFF_8000,
            views == string_views(lines@),
            body == Seq::new((views.len() - start) as nat, |j: int| tv(views[start + j], 3, cy + 18 + 18 * j, SOCKET_GREEN)),
            texts_view(out@) == mid + body.take(k - start),
        decreases total - k,
    {
        assert(18 * (k - start) + 18 <= ph - 40 || k == start);
        push_text(out, lines[k].clone(), 3, cy + 18 + 18 * ((k - start) as i64), SOCKET_GREEN);
        proof {
            assert(body.take(k + 1 - start) =~= body.take(k - start).push(body[k - start]));
        }
        k = k + 1;
    }
    let mut line = String::new();
    line.append("Input: ");
    let typed = string_from_chars(input.as_slice());
    line.append(typed.as_str());
    push_text(out, line, 3, cy + ph - 40 + 16, YELLOW);
    proof {
        assert(body.take(total - start) =~= body);
        assert(texts_view(out@) =~= out0 + socket_panel(views, input@, cy as int, ph as int));
    }
}

/// `line`'s number column and message, as `split_log_line` gives them.
fn split_line(line: &String) -> (r: (String, String))
    ensures
        r.0@ == split_log_line(line@).0,
        r.1@ == split_log_line(line@).1,
{
    let chars = chars_of(line.as_str());
    let prefix = chars_of("[0x");
    if chars.len() >= 12 && starts_with(chars.as_slice(), prefix.as_slice()) {
        let no = string_from_chars(copy_range(chars.as_slice(), 1, 9).as_slice());
        let rest = string_from_chars(copy_range(chars.as_slice(), 11, chars.len()).as_slice());
        let mut msg = String::new();
        msg.append("[             ] ");
        msg.append(rest.as_str());
        (no, msg)
    } else {
        (line.clone(), String::new())
    }
}

/// `pat` occurs in `m`.
fn contains_text(m: &Vec<char>, pat: &str) -> (r: bool)
    ensures
        r == contains(m@, pat@),
{
    let p = chars_of(pat);
    find(m.as_slice(), p.as_slice()).is_some()
}

/// The colour of a log message.
fn message_color_of(m: &String) -> (c: u32)
    ensures
        c == message_color(m@),
{
    let mc = chars_of(m.as_str());
    if contains_text(&mc, "[!]") {
        RED
    } else if contains_text(&mc, "[*]") {
        CYAN
    } else if contains_text(&mc, "_stricmp") {
        YELLOW
    } else {
        WHITE
    }
}

fn settle_offset(offset: usize, total: usize, shows: usize) -> (r: usize)
    ensures
        r == settled_offset(offset as int, total as int, shows as int),
{
    if total < shows {
        0
    } else if offset > total - shows {
        total - shows
    } else {
        offset
    }
}

/// Log rows that fit between `start_y` and the bottom of the window.
fn log_rows_of(height: u32, start_y: i64) -> (r: usize)
    requires
        -100 <= start_y <= 0x8000_0000,
    ensures
        r == log_rows(height, start_y as int),
        18 * r <= (if height - start_y > 0 { height - start_y } else { 0 }),
{
    let remaining: i64 = if height as i64 - start_y > 0 { height as i64 - start_y } else { 0 };
    (remaining / 18) as usize
}

/// Appends the log panel whose text starts at `start_y`.
fn push_log_panel(out: &mut Vec<DebugText>, lines: &Vec<String>, offset: usize, start_y: i64, height: u32)
    requires
        -100 <= start_y <= 0x7FFF_8000,
        height <= 0x7FFF_0000,
    ensures
        texts_view(final(out)@) == texts_view(old(out)@) + log_panel(
            string_views(lines@),
            offset as int,
            start_y as int,
            height,
        ),
{
    let ghost out0 = texts_view(out@);
    let ghost views = string_views(lines@);
    let shows = log_rows_of(height, start_y);
    let total = lines.len();
    let off = settle_offset(offset, total, shows);
    let end = total - off;
    let st: usize = if end > shows { end - shows } else { 0 };
    let y0: i64 = start_y + ((shows - (end - st)) as i64) * 18;
    let mut k: usize = st;
    while k < end
        invariant
            end <= total == lines@.len(),
            st <= k <= end,
            end - st <= shows,
            18 * shows <= (if height - start_y > 0 { height - start_y } else { 0 }),
            -100 <= start_y <= 0x7FFF_8000,
            height <= 0x7FFF_0000,
            y0 == start_y + (shows - (end - st)) * 18,
            views == string_views(lines@),
            texts_view(out@) == out0 + log_items(views.subrange(st as int, k as int), y0 as int),
        decreases end - k,
    {
        assert(18 * (shows - (end - st) + (k - st)) + 18 <= 18 * shows) by (nonlinear_arith)
            requires
                k < end,
                end - st <= shows,
                st <= k,
        ;
        let y = y0 + 18 * ((k - st) as i64);
        let (no, msg) = split_line(&lines[k]);
        let color = message_color_of(&msg);
        let ghost before = texts_view(out@);
        push_text(out, msg, 3, y, color);
        push_text(out, no, 9, y, WHITE);
        proof {
            let sub = views.subrange(st as int, k + 1);
            assert(sub.drop_last() =~= views.subrange(st as int, k as int));
            assert(sub.last() == lines@[k as int]@);
        }
        k = k + 1;
    }
}

/// The number column of a `[0x` line is ASCII, as the logger writes it, so
/// that its characters are its bytes.
pub open spec fn number_field_ascii(line: Seq<char>) -> bool {
    has_prefix(line, "[0x"@) ==> forall|k: int| 0 <= k < line.len() && k < 11 ==> (line[k] as u32) < 0x80
}

proof fn lemma_panel_height(h: int, cnt: int)
    requires
        0 <= h,
        1 <= cnt <= 3,
    ensures
        -22 <= trunc_div(h - 22, cnt),
        h >= 22 ==> 0 <= trunc_div(h - 22, cnt) && cnt * trunc_div(h - 22, cnt) <= h - 22,
        h < 22 ==> trunc_div(h - 22, cnt) <= 0,
{
    if h >= 22 {
        assert(cnt * ((h - 22) / cnt) <= h - 22) by (nonlinear_arith)
            requires
                h >= 22,
                1 <= cnt,
        ;
        assert(0 <= (h - 22) / cnt) by (nonlinear_arith)
            requires
                h >= 22,
                1 <= cnt,
        ;
    } else {
        assert(0 <= (22 - h) / cnt <= 22 - h) by (nonlinear_arith)
            requires
                h < 22,
                1 <= cnt,
        ;
    }
}

/// The panel height, for at least one shown panel.
fn panel_height_of(state: &DebuggerState, height: u32) -> (ph: i64)
    requires
        panel_count(*state) > 0,
        height <= 0x7FFF_0000,
    ensures
        ph == panel_height(*state, height),
        -22 <= ph,
        height >= 22 ==> 0 <= ph && panel_count(*state) * ph <= height - 22,
        height < 22 ==> ph <= 0,
{
    let count: i64 = (if state.show_stack { 1i64 } else { 0 }) + (if state.show_socket_log { 1i64 } else { 0 }) + (
    if state.show_log { 1i64 } else { 0 });
    let usable: i64 = height as i64 - 22;
    proof {
        lemma_panel_height(height as int, count as int);
    }
    if usable >= 0 {
        usable / count
    } else {
        -((-usable) / count)
    }
}

impl DebuggerState {
    /// What drawing does to the state: where the log is shown, its scroll
    /// offset is kept within the log (none when the log fits, else at most
    /// what shows its first line at the top) and its message counter is
    /// taken as seen.
    pub fn settle_log_view(&mut self, buffers: &LogBuffers, height: u32)
        requires
            old(self).wf(),
            height <= 0x7FFF_0000,
        ensures
            final(self).wf(),
            old(self).show_log ==> final(self).log_scroll_offset == settled_offset(
                old(self).log_scroll_offset as int,
                buffers.log_lines().len() as int,
                log_rows(height, log_top(*old(self), height) + 3),
            ) && final(self).last_log_count == buffers.spec_log_count(),
            !old(self).show_log ==> final(self).log_scroll_offset == old(self).log_scroll_offset
                && final(self).last_log_count == old(self).last_log_count,
            final(self).cpu_state == old(self).cpu_state,
            final(self).waiting_for_step == old(self).waiting_for_step,
            final(self).auto_running == old(self).auto_running,
            final(self).last_socket_count == old(self).last_socket_count,
            final(self).input_buffer@ == old(self).input_buffer@,
            final(self).show_stack == old(self).show_stack,
            final(self).show_socket_log == old(self).show_socket_log,
            final(self).show_log == old(self).show_log,
    {
        if self.show_log {
            let ph = panel_height_of(self, height);
            let mut y: i64 = 22;
            if self.show_stack {
                y = y + 2 + ph;
            }
            if self.show_socket_log {
                y = y + 3 + ph;
            }
            let shows = log_rows_of(height, y + 3);
            let total = buffers.log().len();
            self.log_scroll_offset = settle_offset(self.log_scroll_offset, total, shows);
            self.last_log_count = buffers.log_count();
        }
    }
}

/// Everything the debugger window draws as text, in drawing order: the
/// header, then each shown panel (CPU state, socket log, main log) stacked
/// below it, sharing the height below the header evenly.
///
/// The main log is shown at the scroll offset that `settle_log_view` keeps.
/// `height` leaves room for the few pixels drawn below a panel's end within
/// `i32`.
pub fn debugger_layout(state: &DebuggerState, buffers: &LogBuffers, height: u32) -> (items: Vec<DebugText>)
    requires
        height <= 0x7FFF_0000,
        forall|i: int|
            0 <= i < buffers.log_lines().len() ==> number_field_ascii(#[trigger] buffers.log_lines()[i]),
    ensures
        texts_view(items@) == spec_debugger_layout(*state, buffers.log_lines(), buffers.socket_lines(), height),
{
    let mut out: Vec<DebugText> = Vec::new();
    let mut header = String::new();
    header.append("Mode: ");
    header.append(if state.auto_running { "[AUTO-RUN]" } else { "[STEP]" });
    header.append("  |  F5: Run/Pause  |  F10: Step  |  Toggles: [S]tate [K]Socket [L]Log  |  ESC: Quit");
    push_text(&mut out, header, 3, 3, if state.auto_running { RUN_GREEN } else { YELLOW });
    proof {
        assert(texts_view(Seq::<DebugText>::empty()) =~= Seq::<TextView>::empty());
    }
    let ghost head = texts_view(out@);
    if !state.show_stack && !state.show_socket_log && !state.show_log {
        return out;
    }
    let ph = panel_height_of(state, height);
    let mut y: i64 = 22;
    let ghost s = *state;
    if state.show_stack {
        y = y + 2;
        push_cpu_panel(&mut out, &state.cpu_state, y, ph);
        y = y + ph;
    }
    let ghost after_cpu = texts_view(out@);
    assert(y == socket_top(s, height));
    if state.show_socket_log {
        y = y + 3;
        push_socket_panel(&mut out, buffers.socket_log(), &state.input_buffer, y, ph);
        y = y + ph;
    }
    let ghost after_sock = texts_view(out@);
    assert(y == log_top(s, height));
    if state.show_log {
        push_log_panel(&mut out, buffers.log(), state.log_scroll_offset, y + 3, height);
    }
    proof {
        let cpu = if s.show_stack { cpu_panel(s.cpu_state, 24, ph as int) } else { Seq::empty() };
        let sock = if s.show_socket_log {
            socket_panel(buffers.socket_lines(), s.input_buffer@, socket_top(s, height) + 3, ph as int)
        } else {
            Seq::empty()
        };
        let log = if s.show_log {
            log_panel(buffers.log_lines(), s.log_scroll_offset as int, log_top(s, height) + 3, height)
        } else {
            Seq::empty()
        };
        assert(after_cpu =~= head + cpu);
        assert(after_sock =~= head + cpu + sock);
        assert(texts_view(out@) =~= head + cpu + sock + log);
    }
    out
}

/// The rules drawn across the window above each shown panel, as (row,
/// first column, end column): pixels from column 3 up to 3 short of the
/// right edge, in `RULE_GREEN`.
pub fn debugger_rules(state: &DebuggerState, width: u32, height: u32) -> (rules: Vec<(i32, u32, u32)>)
    requires
        height <= 0x7FFF_0000,
    ensures
        rules@.len() == spec_rule_rows(*state, height).len(),
        forall|i: int|
            #![trigger rules@[i]]
            0 <= i < rules@.len() ==> rules@[i].0 as int == spec_rule_rows(*state, height)[i] && rules@[i].1 == 3
                && rules@[i].2 as int == (if width >= 3 { width - 3 } else { 0 }),
{
    let mut rules: Vec<(i32, u32, u32)> = Vec::new();
    if !state.show_stack && !state.show_socket_log && !state.show_log {
        return rules;
    }
    let to = width.saturating_sub(3);
    let ph = panel_height_of(state, height);
    let ghost s = *state;
    let mut y: i64 = 22;
    let ghost want = spec_rule_rows(s, height);
    let ghost mut done: Seq<int> = Seq::empty();
    if state.show_stack {
        rules.push((22, 3, to));
        proof {
            done = done.push(22);
        }
        y = y + 2 + ph;
    }
    if state.show_socket_log {
        rules.push((y as i32, 3, to));
        proof {
            done = done.push(y as int);
        }
        y = y + 3 + ph;
    }
    if state.show_log {
        rules.push((y as i32, 3, to));
        proof {
            done = done.push(y as int);
        }
    }
    proof {
        assert(done =~= want);
    }
    rules
}

} // verus!
