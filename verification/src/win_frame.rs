//! The emulator's table of guest windows, and the commands and snapshots it
//! exchanges with the UI thread.

use vstd::prelude::*;
use std::collections::HashMap;
use std::sync::mpsc::Sender;
use crate::frame::WindowFrameMetrics;
use vstd::std_specs::hash::spec_hash_map_iter;
use vstd::std_specs::iter::IteratorSpec;

verus! {

broadcast use vstd::std_specs::hash::group_hash_axioms;

#[verifier::external_type_specification]
#[verifier::external_body]
#[verifier::reject_recursive_types(T)]
pub struct ExSender<T>(Sender<T>);

/// CPU state shown by the debugger: the registers EAX, EBX, ECX, EDX, ESI,
/// EDI, EBP, ESP and EIP, the top of the stack as (address, value) pairs and
/// the next instruction's disassembly.
#[derive(Debug, Clone)]
pub struct CpuContext {
    pub regs: [u32; 9],
    pub stack: Vec<(u32, u32)>,
    pub next_instr: String,
}

/// A debugger request from the UI to the emulator.
#[derive(Debug, Clone, Copy, PartialEq, Eq, Structural)]
pub enum DebugCommand {
    /// Run one instruction and stop.
    Step,
    /// Run continuously.
    Run,
    /// Stop continuous running.
    Pause,
    /// End emulation.
    Stop,
}

/// A window request from the emulator to the UI thread.
#[derive(Debug, Clone)]
pub enum UiCommand {
    CreateWindow { hwnd: u32, title: String, width: u32, height: u32 },
    DestroyWindow { hwnd: u32 },
}

/// What the emulator knows of one guest window.
#[derive(Debug, Clone)]
pub struct WindowState {
    pub class_name: String,
    pub class_icon: u32,
    pub big_icon: u32,
    pub small_icon: u32,
    pub class_hbr_background: u32,
    pub title: String,
    pub x: i32,
    pub y: i32,
    pub width: i32,
    pub height: i32,
    pub style: u32,
    pub ex_style: u32,
    pub owner_thread_id: u32,
    pub parent: u32,
    pub id: u32,
    pub visible: bool,
    pub enabled: bool,
    pub zoomed: bool,
    pub iconic: bool,
    pub wnd_proc: u32,
    pub class_cursor: u32,
    pub user_data: u32,
    pub use_native_frame: bool,
    pub surface_bitmap: u32,
    pub window_rgn: u32,
    pub guest_frame_left: i32,
    pub guest_frame_top: i32,
    pub guest_frame_right: i32,
    pub guest_frame_bottom: i32,
    pub guest_frame_exact: bool,
    pub needs_paint: bool,
    pub last_hittest_lparam: u32,
    pub last_hittest_result: u32,
    pub z_order: u32,
}

/// The request that announces a new window to the UI thread: its handle,
/// title and size (negative sizes wrap as the `as u32` conversion does).
pub open spec fn is_create_command(cmd: UiCommand, hwnd: u32, state: WindowState) -> bool {
    match cmd {
        UiCommand::CreateWindow { hwnd: h, title, width, height } => h == hwnd && title@ == state.title@
            && width == state.width as u32 && height == state.height as u32,
        UiCommand::DestroyWindow { .. } => false,
    }
}

pub fn create_window_command(hwnd: u32, state: &WindowState) -> (cmd: UiCommand)
    ensures
        is_create_command(cmd, hwnd, *state),
{
    UiCommand::CreateWindow { hwnd, title: state.title.clone(), width: state.width as u32, height: state.height as u32 }
}

/// Calls `Sender::send`; a send to a UI thread that has gone away is
/// ignored, as the emulator does not depend on the UI.
#[verifier::external_body]
fn send_ui(tx: &Sender<UiCommand>, cmd: UiCommand) {
    let _ = tx.send(cmd);
}

/// Calls `HashMap::get_mut`: a mutable reference to the window of `hwnd`
/// when there is one; writes through it land in the map at `hwnd`.
#[verifier::external_body]
fn window_slot(windows: &mut HashMap<u32, WindowState>, hwnd: u32) -> (r: Option<&mut WindowState>)
    ensures
        r is Some <==> old(windows)@.contains_key(hwnd),
        r matches Some(w) ==> *w == old(windows)@[hwnd] && final(windows)@ == old(windows)@.insert(hwnd, *final(w)),
        r is None ==> final(windows)@ == old(windows)@,
{
    windows.get_mut(&hwnd)
}

/// Whether the guest-drawn frame `m` changes what is known of window `w`:
/// it is not when the window has a native frame or already has exactly `m`.
pub open spec fn frame_changes(w: WindowState, m: WindowFrameMetrics) -> bool {
    !w.use_native_frame && (w.guest_frame_left != m.left || w.guest_frame_top != m.top
        || w.guest_frame_right != m.right || w.guest_frame_bottom != m.bottom || !w.guest_frame_exact)
}

/// Window `w` after its guest-drawn frame is found to be `m`: the frame is
/// recorded as exact and the cached hit-test answer is dropped.
pub open spec fn frame_applied(w: WindowState, m: WindowFrameMetrics) -> WindowState {
    if frame_changes(w, m) {
        WindowState {
            guest_frame_left: m.left,
            guest_frame_top: m.top,
            guest_frame_right: m.right,
            guest_frame_bottom: m.bottom,
            guest_frame_exact: true,
            last_hittest_lparam: u32::MAX,
            ..w
        }
    } else {
        w
    }
}

/// The thread that owns window `hwnd`, or 0 where there is no such window.
pub open spec fn owner_of(frame: &WinFrame, hwnd: u32) -> u32 {
    if frame.window_map().contains_key(hwnd) { frame.window_map()[hwnd].owner_thread_id } else { 0 }
}

/// The surface bitmap of window `hwnd` and the window's size, when the
/// window is known and neither side is negative.
pub open spec fn surface_target(frame: &WinFrame, hwnd: u32) -> Option<(u32, u32, u32)> {
    if frame.window_map().contains_key(hwnd) {
        let w = frame.window_map()[hwnd];
        if w.width >= 0 && w.height >= 0 { Some((w.surface_bitmap, w.width as u32, w.height as u32)) } else { None }
    } else {
        None
    }
}

/// The emulator's windows by handle, and the channel to the UI thread that
/// shows them.
pub struct WinFrame {
    pub windows: HashMap<u32, WindowState>,
    ui_tx: Option<Sender<UiCommand>>,
}

impl WinFrame {
    /// The windows by handle.
    pub closed spec fn window_map(&self) -> Map<u32, WindowState> {
        self.windows@
    }

    /// Whether the frame has a channel to a UI thread.
    pub closed spec fn has_ui_channel(&self) -> bool {
        self.ui_tx is Some
    }

    /// No windows yet; `ui_tx` is the channel to the UI thread, if any.
    pub fn new(ui_tx: Option<Sender<UiCommand>>) -> (f: WinFrame)
        ensures
            f.window_map() == Map::<u32, WindowState>::empty(),
            f.has_ui_channel() == (ui_tx is Some),
    {
        WinFrame { windows: HashMap::new(), ui_tx }
    }

    /// Hands `cmd` to the UI thread, when the frame has a channel to one.
    pub fn send_to_ui(&self, cmd: UiCommand) {
        match &self.ui_tx {
            Some(tx) => send_ui(tx, cmd),
            None => {},
        }
    }

    /// Records the window (replacing an earlier one of the same handle);
    /// returns the command that asks the UI thread to open it, due when the
    /// frame has a UI channel (the caller sends it with `send_to_ui`).
    pub fn create_window(&mut self, hwnd: u32, state: WindowState) -> (cmd: Option<UiCommand>)
        ensures
            final(self).window_map() == old(self).window_map().insert(hwnd, state),
            final(self).has_ui_channel() == old(self).has_ui_channel(),
            match cmd {
                Some(c) => old(self).has_ui_channel() && is_create_command(c, hwnd, state),
                None => !old(self).has_ui_channel(),
            },
    {
        let cmd = create_window_command(hwnd, &state);
        self.windows.insert(hwnd, state);
        if self.ui_tx.is_some() { Some(cmd) } else { None }
    }

    /// Forgets the window; returns the command that asks the UI thread to
    /// close it, due when the frame has a UI channel, also for an unknown
    /// window (the caller sends it with `send_to_ui`).
    pub fn destroy_window(&mut self, hwnd: u32) -> (cmd: Option<UiCommand>)
        ensures
            final(self).window_map() == old(self).window_map().remove(hwnd),
            final(self).has_ui_channel() == old(self).has_ui_channel(),
            cmd == if old(self).has_ui_channel() { Some(UiCommand::DestroyWindow { hwnd }) } else { None::<UiCommand> },
    {
        self.windows.remove(&hwnd);
        if self.ui_tx.is_some() { Some(UiCommand::DestroyWindow { hwnd }) } else { None }
    }

    /// The state of the window `hwnd`, for update in place.
    pub fn get_window_mut(&mut self, hwnd: u32) -> (r: Option<&mut WindowState>)
        ensures
            r is Some <==> old(self).window_map().contains_key(hwnd),
            r matches Some(w) ==> *w == old(self).window_map()[hwnd]
                && final(self).window_map() == old(self).window_map().insert(hwnd, *final(w)),
            r is None ==> final(self).window_map() == old(self).window_map(),
            final(self).has_ui_channel() == old(self).has_ui_channel(),
    {
        window_slot(&mut self.windows, hwnd)
    }

    /// The surface bitmap of the window `hwnd`, or 0 where there is no such window.
    pub fn surface_bitmap_of(&self, hwnd: u32) -> (r: u32)
        ensures
            r == (if self.window_map().contains_key(hwnd) { self.window_map()[hwnd].surface_bitmap } else { 0 }),
    {
        match self.windows.get(&hwnd) {
            Some(w) => w.surface_bitmap,
            None => 0,
        }
    }

    /// Records the guest-drawn frame `m` of window `hwnd`; whether anything
    /// changed.
    pub fn apply_guest_frame(&mut self, hwnd: u32, m: WindowFrameMetrics) -> (changed: bool)
        ensures
            old(self).window_map().contains_key(hwnd) ==> final(self).window_map()
                == old(self).window_map().insert(hwnd, frame_applied(old(self).window_map()[hwnd], m))
                && changed == frame_changes(old(self).window_map()[hwnd], m),
            !old(self).window_map().contains_key(hwnd) ==> final(self).window_map() == old(self).window_map() && !changed,
            final(self).has_ui_channel() == old(self).has_ui_channel(),
    {
        match self.get_window_mut(hwnd) {
            Some(w) => {
                let changed = !w.use_native_frame && (w.guest_frame_left != m.left || w.guest_frame_top != m.top
                    || w.guest_frame_right != m.right || w.guest_frame_bottom != m.bottom || !w.guest_frame_exact);
                if changed {
                    w.guest_frame_left = m.left;
                    w.guest_frame_top = m.top;
                    w.guest_frame_right = m.right;
                    w.guest_frame_bottom = m.bottom;
                    w.guest_frame_exact = true;
                    w.last_hittest_lparam = u32::MAX;
                }
                changed
            },
            None => false,
        }
    }

    /// Some window has `hrgn` as its window region.
    pub open spec fn owns_region(&self, hrgn: u32) -> bool {
        exists|h: u32| #[trigger] self.window_map().contains_key(h) && self.window_map()[h].window_rgn == hrgn
    }

    /// Whether some window has `hrgn` as its window region.
    pub fn window_owns_region(&self, hrgn: u32) -> (r: bool)
        ensures
            r == self.owns_region(hrgn),
    {
        let ghost entries = spec_hash_map_iter(&self.windows).remaining();
        let mut found = false;
        for kv in it: self.windows.iter()
            invariant
                it.seq() == entries,
                entries == spec_hash_map_iter(&self.windows).remaining(),
                found == exists|i: int| 0 <= i < it.index() && #[trigger] entries[i].1.window_rgn == hrgn,
        {
            let (_k, w) = kv;
            if w.window_rgn == hrgn {
                found = true;
            }
        }
        proof {
            if found {
                let i = choose|i: int| 0 <= i < entries.len() && #[trigger] entries[i].1.window_rgn == hrgn;
                assert(self.window_map().contains_key(*entries[i].0));
            }
            if self.owns_region(hrgn) {
                let k = choose|k: u32| #[trigger] self.window_map().contains_key(k) && self.window_map()[k].window_rgn == hrgn;
                assert(entries.contains((&k, &self.window_map()[k])));
                let i = choose|i: int| 0 <= i < entries.len() && entries[i] == (&k, &self.window_map()[k]);
                assert(entries[i].1.window_rgn == hrgn);
            }
        }
        found
    }

    /// The surface bitmap of window `hwnd` and the window's size, unless the
    /// window is unknown or has a negative side.
    pub fn surface_target_of(&self, hwnd: u32) -> (r: Option<(u32, u32, u32)>)
        ensures
            r == surface_target(self, hwnd),
    {
        match self.windows.get(&hwnd) {
            Some(w) => if w.width >= 0 && w.height >= 0 {
                Some((w.surface_bitmap, w.width as u32, w.height as u32))
            } else {
                None
            },
            None => None,
        }
    }

    /// The thread that owns window `hwnd`, or 0 where there is no such
    /// window.
    pub fn window_owner_thread_id(&self, hwnd: u32) -> (r: u32)
        ensures
            r == owner_of(self, hwnd),
    {
        match self.windows.get(&hwnd) {
            Some(w) => w.owner_thread_id,
            None => 0,
        }
    }
}

} // verus!
