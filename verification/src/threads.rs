//! Guest threads: saved registers, what each one waits on, and the
//! scheduler's bookkeeping between the quanta it runs them for. The main
//! thread is thread id 0 and keeps its wait state apart from the table.
//! Times are milliseconds on the emulator's monotonic clock.

use vstd::prelude::*;
use std::collections::HashMap;
use std::collections::VecDeque;
use crate::heap::{GuestHeap, blocks_cover, block_covers};
use vstd::std_specs::hash::spec_keys_iter;
use vstd::std_specs::iter::IteratorSpec;

verus! {

broadcast use vstd::std_specs::hash::group_hash_axioms;

/// A guest thread created by `CreateThread`.
pub struct EmulatedThread {
    pub handle: u32,
    pub thread_id: u32,
    pub stack_alloc: u32,
    pub stack_size: u32,
    pub eax: u32,
    pub ecx: u32,
    pub edx: u32,
    pub ebx: u32,
    pub esp: u32,
    pub ebp: u32,
    pub esi: u32,
    pub edi: u32,
    pub eip: u32,
    /// Not blocked in a wait.
    pub ready: bool,
    pub alive: bool,
    pub terminate_requested: bool,
    pub suspended: bool,
    /// Not run again before this time.
    pub resume_time: Option<u64>,
    /// When the pending wait times out.
    pub wait_deadline: Option<u64>,
    /// Kernel objects the pending wait is for.
    pub wait_handles: Vec<u32>,
    /// Sockets the pending wait is for.
    pub wait_sockets: Vec<u32>,
}

/// An `EmulatedThread` with its wait lists as sequences.
pub struct ThreadView {
    pub handle: u32,
    pub thread_id: u32,
    pub stack_alloc: u32,
    pub stack_size: u32,
    pub regs: (u32, u32, u32, u32, u32, u32, u32, u32),
    pub eip: u32,
    pub ready: bool,
    pub alive: bool,
    pub terminate_requested: bool,
    pub suspended: bool,
    pub resume_time: Option<u64>,
    pub wait_deadline: Option<u64>,
    pub wait_handles: Seq<u32>,
    pub wait_sockets: Seq<u32>,
}

impl View for EmulatedThread {
    type V = ThreadView;

    open spec fn view(&self) -> ThreadView {
        ThreadView {
            handle: self.handle,
            thread_id: self.thread_id,
            stack_alloc: self.stack_alloc,
            stack_size: self.stack_size,
            regs: (self.eax, self.ecx, self.edx, self.ebx, self.esp, self.ebp, self.esi, self.edi),
            eip: self.eip,
            ready: self.ready,
            alive: self.alive,
            terminate_requested: self.terminate_requested,
            suspended: self.suspended,
            resume_time: self.resume_time,
            wait_deadline: self.wait_deadline,
            wait_handles: self.wait_handles@,
            wait_sockets: self.wait_sockets@,
        }
    }
}

/// The threads as views.
pub open spec fn views(ts: Seq<EmulatedThread>) -> Seq<ThreadView> {
    ts.map_values(|t: EmulatedThread| t@)
}

/// The index of the first thread with id `tid`, or -1.
pub open spec fn first_index(ts: Seq<ThreadView>, tid: u32) -> int
    decreases ts.len(),
{
    if ts.len() == 0 {
        -1
    } else {
        let r = first_index(ts.drop_last(), tid);
        if r >= 0 { r } else if ts.last().thread_id == tid { ts.len() - 1 } else { -1 }
    }
}

/// A thread's wait armed: blocked until woken or `deadline`.
pub open spec fn wait_scheduled(t: ThreadView, deadline: Option<u64>) -> ThreadView {
    ThreadView { ready: false, resume_time: deadline, wait_deadline: deadline, ..t }
}

/// A thread's wait finished: runnable, with nothing to wait on.
pub open spec fn wait_cleared(t: ThreadView) -> ThreadView {
    ThreadView { ready: true, resume_time: None, wait_deadline: None, wait_handles: Seq::empty(), wait_sockets: Seq::empty(), ..t }
}

pub open spec fn made_ready(t: ThreadView) -> ThreadView {
    ThreadView { ready: true, ..t }
}

/// `ts` with the first thread of id `tid`, if any, changed by `f`.
pub open spec fn update_first(ts: Seq<ThreadView>, tid: u32, next: ThreadView) -> Seq<ThreadView> {
    let i = first_index(ts, tid);
    if i >= 0 { ts.update(i, next) } else { ts }
}

/// The threads after waking those that wait on `handle` (a kernel object
/// or, with `on_socket`, a socket).
pub open spec fn woken(ts: Seq<ThreadView>, handle: u32, on_socket: bool) -> Seq<ThreadView> {
    ts.map_values(|t: ThreadView| if waits_on(t, handle, on_socket) { made_ready(t) } else { t })
}

pub open spec fn waits_on(t: ThreadView, handle: u32, on_socket: bool) -> bool {
    if on_socket { t.wait_sockets.contains(handle) } else { t.wait_handles.contains(handle) }
}

/// The threads still alive, in order.
pub open spec fn alive_only(ts: Seq<ThreadView>) -> Seq<ThreadView>
    decreases ts.len(),
{
    if ts.len() == 0 {
        Seq::empty()
    } else if ts.last().alive {
        alive_only(ts.drop_last()).push(ts.last())
    } else {
        alive_only(ts.drop_last())
    }
}

/// The ids of the finished threads.
pub open spec fn finished_ids(ts: Seq<ThreadView>) -> Set<u32>
    decreases ts.len(),
{
    if ts.len() == 0 {
        Set::empty()
    } else if ts.last().alive {
        finished_ids(ts.drop_last())
    } else {
        finished_ids(ts.drop_last()).insert(ts.last().thread_id)
    }
}

/// Point `a` lies in the allocation of one of `stacks` that `heap` holds.
pub open spec fn stacks_cover(heap: GuestHeap, stacks: Set<u32>, a: int) -> bool {
    exists|s: u32| #[trigger] stacks.contains(s) && s >= heap.spec_base() && heap.size_of(s) is Some
        && block_covers((s, heap.size_of(s)->0), a)
}

/// The stacks of the finished threads that have one.
pub open spec fn finished_stacks(ts: Seq<ThreadView>) -> Set<u32>
    decreases ts.len(),
{
    if ts.len() == 0 {
        Set::empty()
    } else if !ts.last().alive && ts.last().stack_alloc != 0 {
        finished_stacks(ts.drop_last()).insert(ts.last().stack_alloc)
    } else {
        finished_stacks(ts.drop_last())
    }
}

/// Whether the scheduler runs a thread in this round: alive with a code
/// address, and either asked to terminate (it runs to its exit) or neither
/// suspended nor sleeping past `now`.
pub open spec fn runnable(t: ThreadView, now: u64) -> bool {
    &&& t.alive
    &&& t.eip != 0
    &&& (t.terminate_requested || (!t.suspended && (t.resume_time matches Some(r) ==> now >= r)))
}

/// The indices of the runnable threads, in order.
pub open spec fn runnable_indices(ts: Seq<ThreadView>, now: u64) -> Seq<usize>
    decreases ts.len(),
{
    if ts.len() == 0 {
        Seq::empty()
    } else if runnable(ts.last(), now) {
        runnable_indices(ts.drop_last(), now).push((ts.len() - 1) as usize)
    } else {
        runnable_indices(ts.drop_last(), now)
    }
}

/// Threads without a code address are finished before a round.
pub open spec fn reaped(t: ThreadView) -> ThreadView {
    if t.alive && t.eip == 0 { ThreadView { alive: false, ..t } } else { t }
}

/// A thread after a quantum that left the CPU with `regs` (EIP, EAX, ECX,
/// EDX, EBX, ESP, EBP, ESI, EDI): it is finished when asked to terminate or
/// when it returned to `exit_address` or to 0.
pub open spec fn after_quantum(t: ThreadView, regs: [u32; 9], exit_address: u32) -> ThreadView {
    ThreadView {
        alive: !t.terminate_requested && regs[0] != exit_address && regs[0] != 0,
        eip: regs[0],
        regs: (regs[1], regs[2], regs[3], regs[4], regs[5], regs[6], regs[7], regs[8]),
        ..t
    }
}

/// `WaitForSingleObject` / `WaitForMultipleObjects` results.
pub const WAIT_OBJECT_0: u32 = 0;
pub const WAIT_TIMEOUT: u32 = 0x102;
/// The timeout that never expires.
pub const INFINITE: u32 = 0xFFFF_FFFF;

/// What a wait call does now: return that the object at this index is
/// signalled, return a timeout, or block until the deadline (if any) and
/// retry.
#[derive(Debug, Clone, Copy, PartialEq, Eq, Structural)]
pub enum WaitOutcome {
    Signaled(u32),
    TimedOut,
    Retry(Option<u64>),
}

/// The deadline of a blocking wait: none for `INFINITE`, else the deadline
/// already set by an earlier try of the same wait, else `timeout_ms` from `now`.
pub open spec fn wait_deadline_for(timeout_ms: u32, current: Option<u64>, now: u64) -> Option<u64> {
    if timeout_ms == INFINITE {
        None
    } else {
        match current {
            Some(d) => Some(d),
            None => Some((now + timeout_ms) as u64),
        }
    }
}

/// A wait returns the first ready object; with none, a zero timeout
/// returns at once, a passed deadline times out, and otherwise the thread
/// blocks until the deadline.
pub open spec fn wait_outcome(ready: Option<u32>, timeout_ms: u32, current: Option<u64>, now: u64) -> WaitOutcome {
    match ready {
        Some(i) => WaitOutcome::Signaled(i),
        None => if timeout_ms == 0 {
            WaitOutcome::TimedOut
        } else {
            let deadline = wait_deadline_for(timeout_ms, current, now);
            match deadline {
                Some(limit) => if now >= limit { WaitOutcome::TimedOut } else { WaitOutcome::Retry(deadline) },
                None => WaitOutcome::Retry(None),
            }
        },
    }
}

/// Whether computing the deadline of such a wait fits the clock.
pub open spec fn wait_fits(ready: Option<u32>, timeout_ms: u32, current: Option<u64>, now: u64) -> bool {
    ready is None && timeout_ms != 0 && timeout_ms != INFINITE && current is None ==> now + timeout_ms <= u64::MAX
}

/// The state of a kernel event object.
#[derive(Debug, Clone, Copy, PartialEq, Eq, Structural)]
pub struct EventState {
    pub signaled: bool,
    pub manual_reset: bool,
}

/// What a `Sleep` call does now: return, or come back later (after the
/// scheduler has run the other threads, for the main thread).
#[derive(Debug, Clone, Copy, PartialEq, Eq, Structural)]
pub enum SleepAction {
    Return,
    Retry,
    YieldAndRetry,
}

/// `CreateThread` flags.
pub const CREATE_SUSPENDED: u32 = 0x0000_0004;
pub const STACK_SIZE_PARAM_IS_A_RESERVATION: u32 = 0x0001_0000;
/// The stack given to every guest thread.
pub const THREAD_STACK_SIZE: u32 = 512 * 1024;

/// The wait state of the main thread.
pub struct MainWait {
    pub ready: bool,
    pub resume_time: Option<u64>,
    pub wait_deadline: Option<u64>,
    pub wait_handles: Seq<u32>,
    pub wait_sockets: Seq<u32>,
}

/// The guest threads and their thread-local storage.
pub struct ThreadTable {
    pub main_ready: bool,
    pub main_resume_time: Option<u64>,
    pub main_wait_deadline: Option<u64>,
    pub main_wait_handles: Vec<u32>,
    pub main_wait_sockets: Vec<u32>,
    pub threads: Vec<EmulatedThread>,
    /// TLS slot values by thread id, then by slot index.
    pub tls_slots: HashMap<u32, HashMap<u32, u32>>,
}

fn list_contains(v: &Vec<u32>, x: u32) -> (r: bool)
    ensures
        r == v@.contains(x),
{
    let mut i: usize = 0;
    while i < v.len()
        invariant
            0 <= i <= v@.len(),
            forall|k: int| 0 <= k < i ==> v@[k] != x,
        decreases v@.len() - i,
    {
        if v[i] == x {
            assert(v@[i as int] == x);
            return true;
        }
        i = i + 1;
    }
    false
}

fn copy_list(v: &[u32]) -> (r: Vec<u32>)
    ensures
        r@ == v@,
{
    let mut out: Vec<u32> = Vec::new();
    let mut i: usize = 0;
    while i < v.len()
        invariant
            0 <= i <= v@.len(),
            out@ == v@.take(i as int),
        decreases v@.len() - i,
    {
        out.push(v[i]);
        proof {
            assert(v@.take(i + 1) =~= v@.take(i as int).push(v@[i as int]));
        }
        i = i + 1;
    }
    proof {
        assert(v@.take(v@.len() as int) =~= v@);
    }
    out
}

/// Decides what a wait call does; see `wait_outcome`.
pub fn decide_wait(ready: Option<u32>, timeout_ms: u32, current_deadline: Option<u64>, now: u64) -> (r: WaitOutcome)
    requires
        wait_fits(ready, timeout_ms, current_deadline, now),
    ensures
        r == wait_outcome(ready, timeout_ms, current_deadline, now),
{
    match ready {
        Some(i) => WaitOutcome::Signaled(i),
        None => {
            if timeout_ms == 0 {
                return WaitOutcome::TimedOut;
            }
            let deadline = if timeout_ms == INFINITE {
                None
            } else {
                match current_deadline {
                    Some(d) => Some(d),
                    None => Some(now + timeout_ms as u64),
                }
            };
            match deadline {
                Some(limit) => if now >= limit { WaitOutcome::TimedOut } else { WaitOutcome::Retry(deadline) },
                None => WaitOutcome::Retry(None),
            }
        },
    }
}

/// The `CreateThread` flags check: whether the thread starts suspended, or
/// the unsupported flag bits (the call then fails with
/// `ERROR_INVALID_PARAMETER`).
pub fn thread_creation_flags(flags: u32) -> (r: Result<bool, u32>)
    ensures
        r == (if flags & !(CREATE_SUSPENDED | STACK_SIZE_PARAM_IS_A_RESERVATION) != 0 {
            Err::<bool, u32>(flags & !(CREATE_SUSPENDED | STACK_SIZE_PARAM_IS_A_RESERVATION))
        } else {
            Ok::<bool, u32>(flags & CREATE_SUSPENDED != 0)
        }),
{
    let unsupported = crate::kernel32::unsupported_flag_bits(flags, CREATE_SUSPENDED | STACK_SIZE_PARAM_IS_A_RESERVATION);
    if unsupported != 0 {
        Err(unsupported)
    } else {
        Ok(flags & CREATE_SUSPENDED != 0)
    }
}

/// The kernel event objects by handle.
pub struct EventTable {
    pub events: HashMap<u32, EventState>,
}

impl EventTable {
    pub fn new() -> (t: EventTable)
        ensures
            t.events@ == Map::<u32, EventState>::empty(),
    {
        EventTable { events: HashMap::new() }
    }

    /// `CreateEventA`: records the event `handle`.
    pub fn create_event(&mut self, handle: u32, manual_reset: bool, initial_state: bool)
        ensures
            final(self).events@ == old(self).events@.insert(handle, EventState { signaled: initial_state, manual_reset }),
    {
        self.events.insert(handle, EventState { signaled: initial_state, manual_reset });
    }

    /// `SetEvent` (`signaled`) and `ResetEvent` (not): an unknown handle is ignored.
    pub fn set_event_state(&mut self, handle: u32, signaled: bool)
        ensures
            final(self).events@ == (if old(self).events@.contains_key(handle) {
                old(self).events@.insert(handle, EventState { signaled, ..old(self).events@[handle] })
            } else {
                old(self).events@
            }),
    {
        match self.events.get(&handle) {
            Some(e) => {
                let manual_reset = e.manual_reset;
                self.events.insert(handle, EventState { signaled, manual_reset });
            },
            None => {},
        }
    }

    /// Whether `handle` is a signalled event; an auto-reset event is reset
    /// by being observed.
    pub fn try_consume_signaled_event(&mut self, handle: u32) -> (r: bool)
        ensures
            r == (old(self).events@.contains_key(handle) && old(self).events@[handle].signaled),
            final(self).events@ == (if r && !old(self).events@[handle].manual_reset {
                old(self).events@.insert(handle, EventState { signaled: false, ..old(self).events@[handle] })
            } else {
                old(self).events@
            }),
    {
        match self.events.get(&handle) {
            Some(e) => {
                if !e.signaled {
                    return false;
                }
                if !e.manual_reset {
                    self.events.insert(handle, EventState { signaled: false, manual_reset: false });
                }
                true
            },
            None => false,
        }
    }
}

impl ThreadTable {
    /// The threads as views.
    pub open spec fn thread_views(&self) -> Seq<ThreadView> {
        views(self.threads@)
    }

    pub open spec fn main_wait(&self) -> MainWait {
        MainWait {
            ready: self.main_ready,
            resume_time: self.main_resume_time,
            wait_deadline: self.main_wait_deadline,
            wait_handles: self.main_wait_handles@,
            wait_sockets: self.main_wait_sockets@,
        }
    }

    /// A table with the main thread running and no other thread.
    pub fn new() -> (t: ThreadTable)
        ensures
            t.main_wait() == (MainWait { ready: true, resume_time: None, wait_deadline: None,
                wait_handles: Seq::empty(), wait_sockets: Seq::empty() }),
            t.threads@.len() == 0,
            t.tls_slots@ == Map::<u32, HashMap<u32, u32>>::empty(),
    {
        ThreadTable {
            main_ready: true,
            main_resume_time: None,
            main_wait_deadline: None,
            main_wait_handles: Vec::new(),
            main_wait_sockets: Vec::new(),
            threads: Vec::new(),
            tls_slots: HashMap::new(),
        }
    }

    fn find_thread(&self, tid: u32) -> (r: Option<usize>)
        ensures
            match r {
                Some(i) => i < self.threads@.len() && i as int == first_index(self.thread_views(), tid),
                None => first_index(self.thread_views(), tid) == -1,
            },
    {
        let ghost ts = self.thread_views();
        let mut i: usize = 0;
        while i < self.threads.len()
            invariant
                0 <= i <= self.threads@.len(),
                ts == self.thread_views(),
                first_index(ts.take(i as int), tid) == -1,
            decreases self.threads@.len() - i,
        {
            proof {
                assert(ts.take(i + 1).drop_last() =~= ts.take(i as int));
                assert(ts.take(i + 1).last() == self.threads@[i as int]@);
            }
            if self.threads[i].thread_id == tid {
                proof {
                    lemma_first_index_prefix(ts, tid, i as int + 1);
                }
                return Some(i);
            }
            i = i + 1;
        }
        proof {
            assert(ts.take(ts.len() as int) =~= ts);
        }
        None
    }

    /// The deadline of the pending wait of thread `tid` (0: the main thread).
    pub fn current_wait_deadline(&self, tid: u32) -> (r: Option<u64>)
        ensures
            r == (if tid == 0 {
                self.main_wait_deadline
            } else if first_index(self.thread_views(), tid) >= 0 {
                self.thread_views()[first_index(self.thread_views(), tid)].wait_deadline
            } else {
                None
            }),
    {
        if tid == 0 {
            return self.main_wait_deadline;
        }
        match self.find_thread(tid) {
            Some(i) => self.threads[i].wait_deadline,
            None => None,
        }
    }

    fn replace_thread(&mut self, i: usize, t: EmulatedThread)
        requires
            i < old(self).threads@.len(),
        ensures
            final(self).thread_views() == old(self).thread_views().update(i as int, t@),
            final(self).main_wait() == old(self).main_wait(),
            final(self).tls_slots@ == old(self).tls_slots@,
    {
        let ghost tv = t@;
        let _ = self.threads.remove(i);
        self.threads.insert(i, t);
        proof {
            assert(self.thread_views() =~= old(self).thread_views().update(i as int, tv));
        }
    }

    fn take_thread(&mut self, i: usize) -> (t: EmulatedThread)
        requires
            i < old(self).threads@.len(),
        ensures
            t@ == old(self).thread_views()[i as int],
            final(self).threads@ == old(self).threads@.remove(i as int),
            final(self).main_wait() == old(self).main_wait(),
            final(self).tls_slots@ == old(self).tls_slots@,
    {
        self.threads.remove(i)
    }

    /// Blocks thread `tid` until it is woken or `deadline` passes.
    pub fn schedule_retry_wait(&mut self, tid: u32, deadline: Option<u64>)
        ensures
            final(self).tls_slots@ == old(self).tls_slots@,
            tid == 0 ==> final(self).main_wait() == (MainWait { ready: false, resume_time: deadline,
                wait_deadline: deadline, ..old(self).main_wait() })
                && final(self).thread_views() == old(self).thread_views(),
            tid != 0 ==> final(self).main_wait() == old(self).main_wait()
                && final(self).thread_views() == update_first(old(self).thread_views(), tid,
                    wait_scheduled(old(self).thread_views()[first_index(old(self).thread_views(), tid)], deadline)),
    {
        if tid == 0 {
            self.main_ready = false;
            self.main_resume_time = deadline;
            self.main_wait_deadline = deadline;
            return;
        }
        match self.find_thread(tid) {
            Some(i) => {
                let mut t = self.take_thread(i);
                let ghost rest = self.threads@;
                t.ready = false;
                t.resume_time = deadline;
                t.wait_deadline = deadline;
                self.threads.insert(i, t);
                proof {
                    assert(self.thread_views() =~= old(self).thread_views().update(i as int,
                        wait_scheduled(old(self).thread_views()[i as int], deadline)));
                }
            },
            None => {},
        }
    }

    /// Ends the wait of thread `tid`: runnable again, waiting on nothing.
    pub fn clear_retry_wait(&mut self, tid: u32)
        ensures
            final(self).tls_slots@ == old(self).tls_slots@,
            tid == 0 ==> final(self).main_wait() == (MainWait { ready: true, resume_time: None,
                wait_deadline: None, wait_handles: Seq::empty(), wait_sockets: Seq::empty() })
                && final(self).thread_views() == old(self).thread_views(),
            tid != 0 ==> final(self).main_wait() == old(self).main_wait()
                && final(self).thread_views() == update_first(old(self).thread_views(), tid,
                    wait_cleared(old(self).thread_views()[first_index(old(self).thread_views(), tid)])),
    {
        if tid == 0 {
            self.main_ready = true;
            self.main_resume_time = None;
            self.main_wait_deadline = None;
            self.main_wait_handles = Vec::new();
            self.main_wait_sockets = Vec::new();
            return;
        }
        match self.find_thread(tid) {
            Some(i) => {
                let mut t = self.take_thread(i);
                t.ready = true;
                t.resume_time = None;
                t.wait_deadline = None;
                t.wait_handles = Vec::new();
                t.wait_sockets = Vec::new();
                self.threads.insert(i, t);
                proof {
                    assert(self.thread_views() =~= old(self).thread_views().update(i as int,
                        wait_cleared(old(self).thread_views()[i as int])));
                }
            },
            None => {},
        }
    }

    /// Records the kernel objects thread `tid` waits on.
    pub fn set_wait_handles(&mut self, tid: u32, handles: &[u32])
        ensures
            final(self).tls_slots@ == old(self).tls_slots@,
            tid == 0 ==> final(self).main_wait() == (MainWait { wait_handles: handles@, ..old(self).main_wait() })
                && final(self).thread_views() == old(self).thread_views(),
            tid != 0 ==> final(self).main_wait() == old(self).main_wait()
                && final(self).thread_views() == update_first(old(self).thread_views(), tid,
                    ThreadView { wait_handles: handles@, ..old(self).thread_views()[first_index(old(self).thread_views(), tid)] }),
    {
        if tid == 0 {
            self.main_wait_handles = copy_list(handles);
            return;
        }
        match self.find_thread(tid) {
            Some(i) => {
                let mut t = self.take_thread(i);
                t.wait_handles = copy_list(handles);
                self.threads.insert(i, t);
                proof {
                    assert(self.thread_views() =~= old(self).thread_views().update(i as int,
                        ThreadView { wait_handles: handles@, ..old(self).thread_views()[i as int] }));
                }
            },
            None => {},
        }
    }

    /// Ends the message wait of thread `thread_id` (1 counts as the main
    /// thread, 0): it becomes ready. Returns the queue key used.
    pub fn wake_thread_message_wait(&mut self, thread_id: u32) -> (key: u32)
        ensures
            key == queue_key(thread_id),
            final(self).tls_slots@ == old(self).tls_slots@,
            key == 0 ==> final(self).main_wait() == (MainWait { ready: true, ..old(self).main_wait() })
                && final(self).thread_views() == old(self).thread_views(),
            key != 0 ==> final(self).main_wait() == old(self).main_wait()
                && final(self).thread_views() == update_first(old(self).thread_views(), key,
                    ThreadView { ready: true, ..old(self).thread_views()[first_index(old(self).thread_views(), key)] }),
    {
        let key = normalize_queue_thread_id(thread_id);
        if key == 0 {
            self.main_ready = true;
            return key;
        }
        match self.find_thread(key) {
            Some(i) => {
                let mut t = self.take_thread(i);
                t.ready = true;
                self.threads.insert(i, t);
                proof {
                    assert(self.thread_views() =~= old(self).thread_views().update(i as int,
                        ThreadView { ready: true, ..old(self).thread_views()[i as int] }));
                }
            },
            None => {},
        }
        key
    }

    /// The TLS slots by thread id, each a map from TLS index to value.
    pub open spec fn tls_view(&self) -> Map<u32, Map<u32, u32>> {
        self.tls_slots@.map_values(|m: HashMap<u32, u32>| m@)
    }

    /// `TlsGetValue`: the value thread `tid` stored at `index`, 0 if none.
    pub fn tls_get_value(&self, tid: u32, index: u32) -> (v: u32)
        ensures
            v == tls_value(self.tls_view(), tid, index),
    {
        match self.tls_slots.get(&tid) {
            Some(m) => match m.get(&index) {
                Some(v) => *v,
                None => 0,
            },
            None => 0,
        }
    }

    /// `TlsSetValue`: thread `tid` stores `value` at `index`.
    pub fn tls_set_value(&mut self, tid: u32, index: u32, value: u32)
        ensures
            final(self).tls_view() == tls_stored(old(self).tls_view(), tid, index, value),
            final(self).thread_views() == old(self).thread_views(),
            final(self).main_wait() == old(self).main_wait(),
    {
        let mut m = match self.tls_slots.remove(&tid) {
            Some(m) => m,
            None => HashMap::new(),
        };
        m.insert(index, value);
        self.tls_slots.insert(tid, m);
        proof {
            assert(self.tls_view() =~= tls_stored(old(self).tls_view(), tid, index, value));
        }
    }

    /// `TlsFree`: every thread drops its value at `index`.
    pub fn tls_free(&mut self, index: u32)
        ensures
            final(self).tls_view() == tls_freed(old(self).tls_view(), index),
            final(self).thread_views() == old(self).thread_views(),
            final(self).main_wait() == old(self).main_wait(),
    {
        let ghost old_view = self.tls_view();
        let mut ids: Vec<u32> = Vec::new();
        for k in it: self.tls_slots.keys()
            invariant
                ids@ == it.seq().take(it.index() as int).map_values(|r: &u32| *r),
        {
            ids.push(*k);
            proof {
                assert(it.seq().take(it.index() + 1).map_values(|r: &u32| *r)
                    =~= it.seq().take(it.index() as int).map_values(|r: &u32| *r).push(*k));
            }
        }
        proof {
            assert(ids@.to_set() =~= old_view.dom()) by {
                assert forall|k: u32| ids@.contains(k) <==> old_view.dom().contains(k) by {
                    assert(ids@ =~= spec_keys_iter(&self.tls_slots).remaining().unref());
                    assert(spec_keys_iter(&self.tls_slots).remaining().unref().to_set() == self.tls_slots@.dom());
                    if ids@.contains(k) {
                        assert(ids@.to_set().contains(k));
                    }
                    if old_view.dom().contains(k) {
                        assert(ids@.to_set().contains(k));
                    }
                }
            }
        }
        let mut i: usize = 0;
        while i < ids.len()
            invariant
                0 <= i <= ids@.len(),
                ids@.to_set() == old_view.dom(),
                self.tls_view().dom() == old_view.dom(),
                forall|k: u32| #[trigger] old_view.contains_key(k) ==> self.tls_view()[k]
                    == if ids@.take(i as int).contains(k) { old_view[k].remove(index) } else { old_view[k] },
                self.thread_views() == old(self).thread_views(),
                self.main_wait() == old(self).main_wait(),
            decreases ids@.len() - i,
        {
            let id = ids[i];
            let ghost before = self.tls_view();
            match self.tls_slots.remove(&id) {
                Some(mut m) => {
                    m.remove(&index);
                    self.tls_slots.insert(id, m);
                },
                None => {},
            }
            proof {
                assert(ids@.to_set().contains(id));
                assert forall|k: u32| #[trigger] old_view.contains_key(k) implies self.tls_view()[k]
                    == if ids@.take(i + 1).contains(k) { old_view[k].remove(index) } else { old_view[k] } by {
                    assert(ids@.take(i + 1) =~= ids@.take(i as int).push(id));
                    if k == id {
                        assert(ids@.take(i + 1)[i as int] == id);
                        assert(ids@.take(i + 1).contains(k));
                        if ids@.take(i as int).contains(k) {
                            assert(old_view[k].remove(index).remove(index) =~= old_view[k].remove(index));
                        }
                    }
                }
                assert(self.tls_view().dom() =~= old_view.dom());
            }
            i += 1;
        }
        proof {
            assert(ids@.take(ids@.len() as int) =~= ids@);
            assert forall|k: u32| #[trigger] old_view.contains_key(k) implies ids@.contains(k) by {
                assert(ids@.to_set().contains(k));
            }
            assert(self.tls_view() =~= tls_freed(old_view, index));
        }
    }

    /// Records the sockets thread `tid` waits on.
    pub fn set_wait_sockets(&mut self, tid: u32, sockets: &[u32])
        ensures
            final(self).tls_slots@ == old(self).tls_slots@,
            tid == 0 ==> final(self).main_wait() == (MainWait { wait_sockets: sockets@, ..old(self).main_wait() })
                && final(self).thread_views() == old(self).thread_views(),
            tid != 0 ==> final(self).main_wait() == old(self).main_wait()
                && final(self).thread_views() == update_first(old(self).thread_views(), tid,
                    ThreadView { wait_sockets: sockets@, ..old(self).thread_views()[first_index(old(self).thread_views(), tid)] }),
    {
        if tid == 0 {
            self.main_wait_sockets = copy_list(sockets);
            return;
        }
        match self.find_thread(tid) {
            Some(i) => {
                let mut t = self.take_thread(i);
                t.wait_sockets = copy_list(sockets);
                self.threads.insert(i, t);
                proof {
                    assert(self.thread_views() =~= old(self).thread_views().update(i as int,
                        ThreadView { wait_sockets: sockets@, ..old(self).thread_views()[i as int] }));
                }
            },
            None => {},
        }
    }

    fn wake_waiters(&mut self, handle: u32, on_socket: bool) -> (woke_any: bool)
        ensures
            final(self).tls_slots@ == old(self).tls_slots@,
            final(self).thread_views() == woken(old(self).thread_views(), handle, on_socket),
            woke_any == exists|j: int| 0 <= j < old(self).thread_views().len()
                && #[trigger] waits_on(old(self).thread_views()[j], handle, on_socket),
            final(self).main_wait() == old(self).main_wait(),
    {
        let mut old_threads: Vec<EmulatedThread> = Vec::new();
        std::mem::swap(&mut old_threads, &mut self.threads);
        let ghost all = old_threads@;
        let ghost vs = views(all);
        let mut woke_any = false;
        for t in it: old_threads.into_iter()
            invariant
                it.seq() == all,
                vs == views(all),
                self.tls_slots@ == old(self).tls_slots@,
                self.main_wait() == old(self).main_wait(),
                self.thread_views() == woken(vs.take(it.index() as int), handle, on_socket),
                woke_any == exists|j: int| 0 <= j < it.index() && #[trigger] waits_on(vs[j], handle, on_socket),
        {
            let mut t = t;
            let ghost k = it.index() as int;
            let w = if on_socket { list_contains(&t.wait_sockets, handle) } else { list_contains(&t.wait_handles, handle) };
            if w {
                t.ready = true;
                woke_any = true;
            }
            let ghost before = self.threads@;
            proof {
                assert(vs[k] == all[k]@);
                assert(t@ == (if waits_on(vs[k], handle, on_socket) { made_ready(vs[k]) } else { vs[k] }));
            }
            self.threads.push(t);
            proof {
                assert(self.threads@ == before.push(t));
                assert(views(before.push(t)) =~= views(before).push(t@));
                assert(vs.take(k + 1) =~= vs.take(k).push(vs[k]));
                assert(woken(vs.take(k).push(vs[k]), handle, on_socket) =~= woken(vs.take(k), handle, on_socket).push(
                    if waits_on(vs[k], handle, on_socket) { made_ready(vs[k]) } else { vs[k] }));
                assert(self.thread_views() =~= woken(vs.take(k + 1), handle, on_socket));
                if w {
                    assert(waits_on(vs[k], handle, on_socket));
                }
            }
        }
        proof {
            assert(vs.take(vs.len() as int) =~= vs);
        }
        woke_any
    }

    /// Makes the threads that wait on the kernel object `handle` runnable;
    /// whether any was, so that the caller wakes the emulator.
    pub fn wake_threads_waiting_on_handle(&mut self, handle: u32) -> (woke_any: bool)
        ensures
            final(self).tls_slots@ == old(self).tls_slots@,
            final(self).thread_views() == woken(old(self).thread_views(), handle, false),
            final(self).main_wait() == (MainWait {
                ready: old(self).main_ready || old(self).main_wait_handles@.contains(handle), ..old(self).main_wait() }),
            woke_any == (old(self).main_wait_handles@.contains(handle) || exists|j: int|
                0 <= j < old(self).thread_views().len() && #[trigger] waits_on(old(self).thread_views()[j], handle, false)),
    {
        let main = list_contains(&self.main_wait_handles, handle);
        if main {
            self.main_ready = true;
        }
        let others = self.wake_waiters(handle, false);
        main || others
    }

    /// Makes the threads that wait on the socket `socket` runnable; whether
    /// any was, so that the caller wakes the emulator.
    pub fn wake_threads_waiting_on_socket(&mut self, socket: u32) -> (woke_any: bool)
        ensures
            final(self).tls_slots@ == old(self).tls_slots@,
            final(self).thread_views() == woken(old(self).thread_views(), socket, true),
            final(self).main_wait() == (MainWait {
                ready: old(self).main_ready || old(self).main_wait_sockets@.contains(socket), ..old(self).main_wait() }),
            woke_any == (old(self).main_wait_sockets@.contains(socket) || exists|j: int|
                0 <= j < old(self).thread_views().len() && #[trigger] waits_on(old(self).thread_views()[j], socket, true)),
    {
        let main = list_contains(&self.main_wait_sockets, socket);
        if main {
            self.main_ready = true;
        }
        let others = self.wake_waiters(socket, true);
        main || others
    }

    /// Drops the finished threads: their entries, their thread-local
    /// storage, and their stacks, which go back to the guest heap.
    pub fn cleanup_finished_threads(&mut self, heap: &mut GuestHeap)
        requires
            old(heap).wf(),
        ensures
            final(self).thread_views() == alive_only(old(self).thread_views()),
            final(self).main_wait() == old(self).main_wait(),
            final(self).tls_slots@ == old(self).tls_slots@.remove_keys(finished_ids(old(self).thread_views())),
            final(heap).wf(),
            final(heap).spec_base() == old(heap).spec_base(),
            forall|a: u32| #[trigger] final(heap).size_of(a) == (if finished_stacks(old(self).thread_views()).contains(a) {
                None::<u32> } else { old(heap).size_of(a) }),
            forall|a: int| #[trigger] blocks_cover(final(heap).spec_free_list(), a)
                == (blocks_cover(old(heap).spec_free_list(), a)
                    || stacks_cover(*old(heap), finished_stacks(old(self).thread_views()), a)),
    {
        let mut old_threads: Vec<EmulatedThread> = Vec::new();
        std::mem::swap(&mut old_threads, &mut self.threads);
        let ghost all = old_threads@;
        let ghost vs = views(all);
        for t in it: old_threads.into_iter()
            invariant
                it.seq() == all,
                vs == views(all),
                self.main_wait() == old(self).main_wait(),
                self.thread_views() == alive_only(vs.take(it.index() as int)),
                self.tls_slots@ == old(self).tls_slots@.remove_keys(finished_ids(vs.take(it.index() as int))),
                heap.wf(),
                heap.spec_base() == old(heap).spec_base(),
                forall|a: u32| #[trigger] heap.size_of(a) == (if finished_stacks(vs.take(it.index() as int)).contains(a) {
                    None::<u32> } else { old(heap).size_of(a) }),
                forall|a: int| #[trigger] blocks_cover(heap.spec_free_list(), a)
                    == (blocks_cover(old(heap).spec_free_list(), a)
                        || stacks_cover(*old(heap), finished_stacks(vs.take(it.index() as int)), a)),
        {
            let ghost k = it.index() as int;
            let ghost before = self.threads@;
            let ghost heap_before = *heap;
            proof {
                assert(vs[k] == all[k]@);
                assert(vs.take(k + 1) =~= vs.take(k).push(vs[k]));
                assert(vs.take(k + 1).drop_last() =~= vs.take(k));
            }
            if t.alive {
                self.threads.push(t);
                proof {
                    assert(views(before.push(all[k])) =~= views(before).push(vs[k]));
                }
            } else {
                let id = t.thread_id;
                if t.stack_alloc != 0 {
                    let _ = heap.free_heap_block(t.stack_alloc);
                }
                self.tls_slots.remove(&id);
                proof {
                    assert(self.tls_slots@ =~= old(self).tls_slots@.remove_keys(finished_ids(vs.take(k + 1))));
                    assert forall|a: u32| #[trigger] heap.size_of(a) == (if finished_stacks(vs.take(k + 1)).contains(a) {
                        None::<u32> } else { old(heap).size_of(a) }) by {
                        if vs[k].stack_alloc != 0 && a != vs[k].stack_alloc {
                            assert(heap.size_of(a) == heap_before.size_of(a));
                        }
                    }
                    let st = vs[k].stack_alloc;
                    let fs0 = finished_stacks(vs.take(k));
                    let fs1 = finished_stacks(vs.take(k + 1));
                    assert forall|a: int| #[trigger] blocks_cover(heap.spec_free_list(), a)
                        == (blocks_cover(old(heap).spec_free_list(), a) || stacks_cover(*old(heap), fs1, a)) by {
                        if st != 0 {
                            assert(fs1 == fs0.insert(st));
                            if stacks_cover(*old(heap), fs1, a) && !stacks_cover(*old(heap), fs0, a) {
                                let w = choose|w: u32| #[trigger] fs1.contains(w) && w >= old(heap).spec_base()
                                    && old(heap).size_of(w) is Some && block_covers((w, old(heap).size_of(w)->0), a);
                                assert(w == st);
                                assert(heap_before.size_of(st) == old(heap).size_of(st));
                            }
                            if stacks_cover(*old(heap), fs0, a) {
                                let w = choose|w: u32| #[trigger] fs0.contains(w) && w >= old(heap).spec_base()
                                    && old(heap).size_of(w) is Some && block_covers((w, old(heap).size_of(w)->0), a);
                                assert(fs1.contains(w));
                            }
                            if heap_before.size_of(st) is Some && st >= heap_before.spec_base()
                                && block_covers((st, heap_before.size_of(st)->0), a) {
                                assert(!fs0.contains(st));
                                assert(heap_before.size_of(st) == old(heap).size_of(st));
                                assert(fs1.contains(st));
                            }
                        } else {
                            assert(fs1 == fs0);
                        }
                    }
                }
            }
        }
        proof {
            assert(vs.take(vs.len() as int) =~= vs);
        }
    }

    /// Readies a round: finishes threads without a code address and returns
    /// the indices of the threads to run, in order.
    pub fn collect_runnable(&mut self, now: u64) -> (r: Vec<usize>)
        ensures
            final(self).main_wait() == old(self).main_wait(),
            final(self).tls_slots@ == old(self).tls_slots@,
            final(self).thread_views() == old(self).thread_views().map_values(|t: ThreadView| reaped(t)),
            r@ == runnable_indices(old(self).thread_views(), now),
    {
        let mut old_threads: Vec<EmulatedThread> = Vec::new();
        std::mem::swap(&mut old_threads, &mut self.threads);
        let ghost all = old_threads@;
        let ghost vs = views(all);
        let mut result: Vec<usize> = Vec::new();
        let mut i: usize = 0;
        proof {
            assert(all.len() == old_threads.len());
        }
        for t in it: old_threads.into_iter()
            invariant
                it.seq() == all,
                all.len() <= usize::MAX,
                vs == views(all),
                i == it.index(),
                self.main_wait() == old(self).main_wait(),
                self.tls_slots@ == old(self).tls_slots@,
                self.thread_views() == vs.take(it.index() as int).map_values(|t: ThreadView| reaped(t)),
                result@ == runnable_indices(vs.take(it.index() as int), now),
        {
            let ghost k = it.index() as int;
            let ghost before = self.threads@;
            proof {
                assert(vs[k] == all[k]@);
                assert(vs.take(k + 1).drop_last() =~= vs.take(k));
                assert(vs.take(k + 1).last() == vs[k]);
            }
            let mut t = t;
            let run = t.alive && t.eip != 0 && (t.terminate_requested || (!t.suspended && match t.resume_time {
                Some(r) => now >= r,
                None => true,
            }));
            if t.alive && t.eip == 0 {
                t.alive = false;
            }
            if run {
                result.push(i);
            }
            self.threads.push(t);
            proof {
                assert(views(before.push(t)) =~= views(before).push(t@));
                assert(vs.take(k + 1).map_values(|t: ThreadView| reaped(t)) =~= vs.take(k).map_values(|t: ThreadView| reaped(t)).push(reaped(vs[k])));
            }
            i = i + 1;
        }
        proof {
            assert(vs.take(vs.len() as int) =~= vs);
        }
        result
    }

    /// Records the end of a quantum of thread `index`: the registers it left
    /// (EIP, EAX, ECX, EDX, EBX, ESP, EBP, ESI, EDI) and whether it lives on,
    /// which it returns.
    pub fn finish_quantum(&mut self, index: usize, regs: [u32; 9], exit_address: u32) -> (alive: bool)
        ensures
            final(self).main_wait() == old(self).main_wait(),
            final(self).tls_slots@ == old(self).tls_slots@,
            index < old(self).threads@.len() ==> final(self).thread_views() == old(self).thread_views().update(
                index as int, after_quantum(old(self).thread_views()[index as int], regs, exit_address))
                && alive == after_quantum(old(self).thread_views()[index as int], regs, exit_address).alive,
            index >= old(self).threads@.len() ==> final(self).thread_views() == old(self).thread_views()
                && alive == (regs[0] != exit_address && regs[0] != 0),
    {
        let new_eip = regs[0];
        if index >= self.threads.len() {
            return new_eip != exit_address && new_eip != 0;
        }
        let mut t = self.take_thread(index);
        let alive = !t.terminate_requested && new_eip != exit_address && new_eip != 0;
        t.alive = alive;
        t.eip = new_eip;
        t.eax = regs[1];
        t.ecx = regs[2];
        t.edx = regs[3];
        t.ebx = regs[4];
        t.esp = regs[5];
        t.ebp = regs[6];
        t.esi = regs[7];
        t.edi = regs[8];
        let ghost tv = t@;
        self.threads.insert(index, t);
        proof {
            assert(self.thread_views() =~= old(self).thread_views().update(index as int, tv));
        }
        alive
    }

    /// The deadline that `current_wait_deadline` reports for `tid`.
    pub open spec fn deadline_of(&self, tid: u32) -> Option<u64> {
        if tid == 0 {
            self.main_wait_deadline
        } else if first_index(self.thread_views(), tid) >= 0 {
            self.thread_views()[first_index(self.thread_views(), tid)].wait_deadline
        } else {
            None
        }
    }

    /// One try of a wait by thread `tid`: `ready` is the index of the first
    /// signalled object, if any. Returns the call's result, or `None` when
    /// the thread blocks and the call is retried later; the thread's wait
    /// state is cleared or armed to match.
    pub fn wait_step(&mut self, tid: u32, ready: Option<u32>, timeout_ms: u32, now: u64) -> (r: Option<u32>)
        requires
            wait_fits(ready, timeout_ms, old(self).deadline_of(tid), now),
            ready matches Some(i) ==> i < 64,
        ensures
            final(self).tls_slots@ == old(self).tls_slots@,
            ({
                let outcome = wait_outcome(ready, timeout_ms, old(self).deadline_of(tid), now);
                &&& r == match outcome {
                    WaitOutcome::Signaled(i) => Some((WAIT_OBJECT_0 + i) as u32),
                    WaitOutcome::TimedOut => Some(WAIT_TIMEOUT),
                    WaitOutcome::Retry(_) => None::<u32>,
                }
                &&& match outcome {
                    WaitOutcome::Retry(d) => if tid == 0 {
                        final(self).main_wait() == (MainWait { ready: false, resume_time: d, wait_deadline: d, ..old(self).main_wait() })
                            && final(self).thread_views() == old(self).thread_views()
                    } else {
                        final(self).main_wait() == old(self).main_wait()
                            && final(self).thread_views() == update_first(old(self).thread_views(), tid,
                                wait_scheduled(old(self).thread_views()[first_index(old(self).thread_views(), tid)], d))
                    },
                    _ => if tid == 0 {
                        final(self).main_wait() == (MainWait { ready: true, resume_time: None,
                            wait_deadline: None, wait_handles: Seq::empty(), wait_sockets: Seq::empty() })
                            && final(self).thread_views() == old(self).thread_views()
                    } else {
                        final(self).main_wait() == old(self).main_wait()
                            && final(self).thread_views() == update_first(old(self).thread_views(), tid,
                                wait_cleared(old(self).thread_views()[first_index(old(self).thread_views(), tid)]))
                    },
                }
            }),
    {
        let current = self.current_wait_deadline(tid);
        match decide_wait(ready, timeout_ms, current, now) {
            WaitOutcome::Signaled(i) => {
                self.clear_retry_wait(tid);
                Some(WAIT_OBJECT_0 + i)
            },
            WaitOutcome::TimedOut => {
                self.clear_retry_wait(tid);
                Some(WAIT_TIMEOUT)
            },
            WaitOutcome::Retry(d) => {
                self.schedule_retry_wait(tid, d);
                None
            },
        }
    }

    /// One try of `Sleep(ms)` by thread `tid` at `now`. A thread sleeps by
    /// setting its resume time and is run again by the scheduler once it has
    /// passed; the try after that returns. The main thread sets its resume
    /// time and yields until that time has passed.
    pub fn sleep_step(&mut self, tid: u32, ms: u32, now: u64) -> (r: SleepAction)
        requires
            now + ms <= u64::MAX,
        ensures
            final(self).tls_slots@ == old(self).tls_slots@,
            tid != 0 ==> final(self).main_wait() == old(self).main_wait() && ({
                let ts = old(self).thread_views();
                let i = first_index(ts, tid);
                if ms > 0 && i >= 0 {
                    if ts[i].resume_time is None {
                        &&& r == SleepAction::Retry
                        &&& final(self).thread_views() == ts.update(i, ThreadView {
                            resume_time: Some((now + ms) as u64), wait_deadline: None, ..ts[i] })
                    } else {
                        &&& r == SleepAction::Return
                        &&& final(self).thread_views() == ts.update(i, ThreadView {
                            resume_time: None, wait_deadline: None, ..ts[i] })
                    }
                } else {
                    r == SleepAction::Return && final(self).thread_views() == ts
                }
            }),
            tid == 0 ==> final(self).thread_views() == old(self).thread_views() && ({
                let m = old(self).main_wait();
                match m.resume_time {
                    None => r == SleepAction::YieldAndRetry && final(self).main_wait() == (MainWait {
                        resume_time: if ms > 0 { Some((now + ms) as u64) } else { None }, wait_deadline: None, ..m }),
                    Some(t) => if now >= t {
                        r == SleepAction::Return && final(self).main_wait() == (MainWait {
                            resume_time: None, wait_deadline: None, ..m })
                    } else {
                        r == SleepAction::YieldAndRetry && final(self).main_wait() == (MainWait { wait_deadline: None, ..m })
                    },
                }
            }),
    {
        if tid != 0 {
            if ms > 0 {
                match self.find_thread(tid) {
                    Some(i) => {
                        let mut t = self.take_thread(i);
                        let ghost before = t@;
                        let r = match t.resume_time {
                            None => {
                                t.resume_time = Some(now + ms as u64);
                                t.wait_deadline = None;
                                SleepAction::Retry
                            },
                            Some(_) => {
                                t.resume_time = None;
                                t.wait_deadline = None;
                                SleepAction::Return
                            },
                        };
                        let ghost tv = t@;
                        self.threads.insert(i, t);
                        proof {
                            assert(self.thread_views() =~= old(self).thread_views().update(i as int, tv));
                        }
                        return r;
                    },
                    None => {},
                }
            }
            return SleepAction::Return;
        }
        match self.main_resume_time {
            None => {
                if ms > 0 {
                    self.main_resume_time = Some(now + ms as u64);
                }
                self.main_wait_deadline = None;
                SleepAction::YieldAndRetry
            },
            Some(t) => {
                self.main_wait_deadline = None;
                if now >= t {
                    self.main_resume_time = None;
                    SleepAction::Return
                } else {
                    SleepAction::YieldAndRetry
                }
            },
        }
    }

    /// Registers a thread made by `CreateThread`: it starts at
    /// `start_address` with the stack at `stack_alloc`, whose top holds the
    /// return address and the thread's parameter, so that ESP and EBP point
    /// 8 bytes below the top. Returns that initial ESP.
    pub fn add_created_thread(
        &mut self, handle: u32, thread_id: u32, start_address: u32, stack_alloc: u32, suspended: bool,
    ) -> (esp: u32)
        requires
            stack_alloc + THREAD_STACK_SIZE <= u32::MAX,
        ensures
            esp == stack_alloc + THREAD_STACK_SIZE - 8,
            final(self).main_wait() == old(self).main_wait(),
            final(self).tls_slots@ == old(self).tls_slots@,
            final(self).thread_views() == old(self).thread_views().push(ThreadView {
                handle, thread_id, stack_alloc, stack_size: THREAD_STACK_SIZE,
                regs: (0, 0, 0, 0, esp, esp, 0, 0), eip: start_address,
                ready: true, alive: true, terminate_requested: false, suspended,
                resume_time: None, wait_deadline: None, wait_handles: Seq::empty(), wait_sockets: Seq::empty(),
            }),
    {
        let esp = stack_alloc + THREAD_STACK_SIZE - 8;
        let t = EmulatedThread {
            handle, thread_id, stack_alloc, stack_size: THREAD_STACK_SIZE,
            eax: 0, ecx: 0, edx: 0, ebx: 0, esp, ebp: esp, esi: 0, edi: 0, eip: start_address,
            ready: true, alive: true, terminate_requested: false, suspended,
            resume_time: None, wait_deadline: None, wait_handles: Vec::new(), wait_sockets: Vec::new(),
        };
        let ghost before = self.threads@;
        self.threads.push(t);
        proof {
            assert(views(before.push(t)) =~= views(before).push(t@));
        }
        esp
    }
}

pub proof fn lemma_first_index_prefix(ts: Seq<ThreadView>, tid: u32, n: int)
    requires
        0 < n <= ts.len(),
        first_index(ts.take(n - 1), tid) == -1,
        ts[n - 1].thread_id == tid,
    ensures
        first_index(ts, tid) == n - 1,
    decreases ts.len(),
{
    assert(ts.take(n).drop_last() =~= ts.take(n - 1));
    assert(first_index(ts.take(n), tid) == n - 1);
    if ts.len() > n {
        assert(ts.drop_last().take(n) =~= ts.take(n));
        assert(ts.drop_last().take(n - 1) =~= ts.take(n - 1));
        lemma_first_index_prefix(ts.drop_last(), tid, n);
    } else {
        assert(ts.take(n) =~= ts);
    }
}

/// A wait whose object is ready returns it whatever the timeout; a zero
/// timeout never blocks; an infinite one never times out.
pub proof fn lemma_wait_outcome_cases(ready: Option<u32>, timeout_ms: u32, current: Option<u64>, now: u64)
    ensures
        ready matches Some(i) ==> wait_outcome(ready, timeout_ms, current, now) == WaitOutcome::Signaled(i),
        ready is None && timeout_ms == 0 ==> wait_outcome(ready, timeout_ms, current, now) == WaitOutcome::TimedOut,
        ready is None && timeout_ms == INFINITE ==> wait_outcome(ready, timeout_ms, current, now) == WaitOutcome::Retry(None),
{
}

/// The deadline that the first try of a wait sets governs its retries: a
/// retry at any later time keeps it, and times out once it has passed.
pub proof fn lemma_wait_deadline_is_kept(timeout_ms: u32, now: u64, later: u64)
    requires
        timeout_ms != 0,
        timeout_ms != INFINITE,
        now + timeout_ms <= u64::MAX,
        now <= later,
    ensures
        ({
            let first = wait_outcome(None, timeout_ms, None, now);
            let limit = (now + timeout_ms) as u64;
            &&& first == WaitOutcome::Retry(Some(limit))
            &&& wait_deadline_for(timeout_ms, Some(limit), later) == Some(limit)
            &&& wait_outcome(None, timeout_ms, Some(limit), later) == (if later >= limit {
                WaitOutcome::TimedOut } else { WaitOutcome::Retry(Some(limit)) })
        }),
{
}

/// Ending a wait undoes arming it: the thread is runnable with no deadline.
pub proof fn lemma_clear_undoes_schedule(t: ThreadView, deadline: Option<u64>)
    ensures
        wait_cleared(wait_scheduled(t, deadline)) == wait_cleared(t),
        wait_cleared(t).ready && (wait_cleared(t).wait_deadline is None) && (wait_cleared(t).resume_time is None),
        !wait_scheduled(t, deadline).ready,
{
}

/// Waking makes exactly the waiters ready and changes nothing else.
pub proof fn lemma_wake_readies_waiters(ts: Seq<ThreadView>, handle: u32, on_socket: bool, j: int)
    requires
        0 <= j < ts.len(),
    ensures
        woken(ts, handle, on_socket).len() == ts.len(),
        woken(ts, handle, on_socket)[j].ready == (ts[j].ready || waits_on(ts[j], handle, on_socket)),
        woken(ts, handle, on_socket)[j] == (ThreadView { ready: woken(ts, handle, on_socket)[j].ready, ..ts[j] }),
{
}

/// Cleanup keeps exactly the live threads, in order.
pub proof fn lemma_cleanup_keeps_live_threads(ts: Seq<ThreadView>)
    ensures
        forall|j: int| 0 <= j < alive_only(ts).len() ==> #[trigger] alive_only(ts)[j].alive,
        forall|j: int| 0 <= j < ts.len() && ts[j].alive ==> alive_only(ts).contains(#[trigger] ts[j]),
        forall|j: int| 0 <= j < ts.len() && !ts[j].alive ==> finished_ids(ts).contains(#[trigger] ts[j].thread_id),
    decreases ts.len(),
{
    if ts.len() > 0 {
        let p = ts.drop_last();
        lemma_cleanup_keeps_live_threads(p);
        assert forall|j: int| 0 <= j < ts.len() && ts[j].alive implies alive_only(ts).contains(#[trigger] ts[j]) by {
            if j < ts.len() - 1 {
                assert(p[j] == ts[j]);
                assert(alive_only(p).contains(p[j]));
                if ts.last().alive {
                    let k = choose|k: int| 0 <= k < alive_only(p).len() && alive_only(p)[k] == p[j];
                    assert(alive_only(ts)[k] == p[j]);
                }
            } else {
                assert(alive_only(ts)[alive_only(ts).len() - 1] == ts[j]);
            }
        }
        assert forall|j: int| 0 <= j < ts.len() && !ts[j].alive implies finished_ids(ts).contains(#[trigger] ts[j].thread_id) by {
            if j < ts.len() - 1 {
                assert(p[j] == ts[j]);
            }
        }
    }
}

/// Every index a round runs names a runnable thread, in increasing order.
pub proof fn lemma_runnable_indices_sound(ts: Seq<ThreadView>, now: u64)
    requires
        ts.len() <= usize::MAX,
    ensures
        forall|k: int| 0 <= k < runnable_indices(ts, now).len() ==> {
            let i = #[trigger] runnable_indices(ts, now)[k] as int;
            0 <= i < ts.len() && runnable(ts[i], now)
        },
        forall|k1: int, k2: int| 0 <= k1 < k2 < runnable_indices(ts, now).len() ==>
            #[trigger] runnable_indices(ts, now)[k1] < #[trigger] runnable_indices(ts, now)[k2],
    decreases ts.len(),
{
    if ts.len() > 0 {
        let p = ts.drop_last();
        lemma_runnable_indices_sound(p, now);
        let rp = runnable_indices(p, now);
        let r = runnable_indices(ts, now);
        if runnable(ts.last(), now) {
            assert(r == rp.push((ts.len() - 1) as usize));
        } else {
            assert(r == rp);
        }
        assert forall|k: int| 0 <= k < r.len() implies {
            let i = #[trigger] r[k] as int;
            0 <= i < ts.len() && runnable(ts[i], now)
        } by {
            if k < rp.len() {
                assert(r[k] == rp[k]);
                assert(p[rp[k] as int] == ts[rp[k] as int]);
            } else {
                assert(r[k] as int == ts.len() - 1);
            }
        }
        assert forall|k1: int, k2: int| 0 <= k1 < k2 < r.len() implies #[trigger] r[k1] < #[trigger] r[k2] by {
            if k2 < rp.len() {
                assert(r[k1] == rp[k1] && r[k2] == rp[k2]);
            } else {
                assert(r[k1] == rp[k1]);
                assert(rp[k1] < p.len());
            }
        }
    }
}

/// The value thread `tid` stored at TLS index `index`, 0 if none.
pub open spec fn tls_value(slots: Map<u32, Map<u32, u32>>, tid: u32, index: u32) -> u32 {
    if slots.contains_key(tid) && slots[tid].contains_key(index) { slots[tid][index] } else { 0 }
}

/// The slots after thread `tid` stores `value` at `index`.
pub open spec fn tls_stored(slots: Map<u32, Map<u32, u32>>, tid: u32, index: u32, value: u32) -> Map<u32, Map<u32, u32>> {
    let m = if slots.contains_key(tid) { slots[tid] } else { Map::empty() };
    slots.insert(tid, m.insert(index, value))
}

/// The slots after every thread drops index `index`.
pub open spec fn tls_freed(slots: Map<u32, Map<u32, u32>>, index: u32) -> Map<u32, Map<u32, u32>> {
    slots.map_values(|m: Map<u32, u32>| m.remove(index))
}

/// A read gives back what the thread last stored at that index; other
/// threads and indices keep their values.
pub proof fn lemma_tls_read_after_write(slots: Map<u32, Map<u32, u32>>, tid: u32, index: u32, value: u32, t2: u32, i2: u32)
    ensures
        tls_value(tls_stored(slots, tid, index, value), tid, index) == value,
        (t2 != tid || i2 != index) ==> tls_value(tls_stored(slots, tid, index, value), t2, i2) == tls_value(slots, t2, i2),
{
}

/// After `TlsFree(index)` every thread reads 0 at `index`, and nothing else
/// changes.
pub proof fn lemma_tls_free_clears(slots: Map<u32, Map<u32, u32>>, index: u32, t2: u32, i2: u32)
    ensures
        tls_value(tls_freed(slots, index), t2, index) == 0,
        i2 != index ==> tls_value(tls_freed(slots, index), t2, i2) == tls_value(slots, t2, i2),
{
}

/// Hands out TLS indices, counting up from 1.
pub struct TlsCounter {
    pub next: u32,
}

impl TlsCounter {
    pub fn new() -> (c: TlsCounter)
        ensures
            c.next == 1,
    {
        TlsCounter { next: 1 }
    }

    /// `TlsAlloc`: a new index (the counter wraps around).
    pub fn tls_alloc(&mut self) -> (index: u32)
        ensures
            index == old(self).next,
            final(self).next == (if old(self).next == u32::MAX { 0 } else { (old(self).next + 1) as u32 }),
    {
        let index = self.next;
        self.next = self.next.wrapping_add(1);
        index
    }
}

/// The key of a thread's message queue: the guest's id 1 is the main
/// thread, kept as 0.
pub open spec fn queue_key(thread_id: u32) -> u32 {
    if thread_id == 1 { 0 } else { thread_id }
}

pub fn normalize_queue_thread_id(thread_id: u32) -> (r: u32)
    ensures
        r == queue_key(thread_id),
{
    if thread_id == 1 { 0 } else { thread_id }
}

/// A posted window message: hwnd, message, wParam, lParam, time and the
/// cursor's x and y.
pub type QueuedMessage = [u32; 7];

/// Each thread's queue of posted messages, by queue key.
pub struct MessageQueues {
    pub queues: HashMap<u32, VecDeque<QueuedMessage>>,
}

impl MessageQueues {
    /// The queues by key; a thread without an entry has an empty queue.
    pub closed spec fn queue_map(&self) -> Map<u32, Seq<QueuedMessage>> {
        self.queues@.map_values(|q: VecDeque<QueuedMessage>| q@)
    }

    /// The queue of `key`.
    pub open spec fn queue_of(&self, key: u32) -> Seq<QueuedMessage> {
        if self.queue_map().contains_key(key) { self.queue_map()[key] } else { Seq::empty() }
    }

    pub fn new() -> (r: MessageQueues)
        ensures
            r.queue_map() == Map::<u32, Seq<QueuedMessage>>::empty(),
    {
        let r = MessageQueues { queues: HashMap::new() };
        proof {
            assert(r.queue_map() =~= Map::<u32, Seq<QueuedMessage>>::empty());
        }
        r
    }

    /// Appends `message` to the queue of thread `thread_id` and returns the
    /// queue key used.
    pub fn queue_message_for_thread(&mut self, thread_id: u32, message: QueuedMessage) -> (key: u32)
        ensures
            key == queue_key(thread_id),
            final(self).queue_map() == old(self).queue_map().insert(key, old(self).queue_of(key).push(message)),
    {
        let key = normalize_queue_thread_id(thread_id);
        let mut q = match self.queues.remove(&key) {
            Some(q) => q,
            None => VecDeque::new(),
        };
        q.push_back(message);
        let ghost qv = q@;
        self.queues.insert(key, q);
        proof {
            assert(qv == old(self).queue_of(key).push(message));
            assert(self.queue_map() =~= old(self).queue_map().insert(key, qv));
        }
        key
    }

    /// Appends `message` to the queue of the thread owning window `hwnd`
    /// (the thread `current` when `hwnd` is 0); returns the queue key used.
    pub fn queue_message_for_window(&mut self, frame: &crate::win_frame::WinFrame, current: u32, hwnd: u32, message: QueuedMessage) -> (key: u32)
        ensures
            key == queue_key(if hwnd == 0 { current } else { crate::win_frame::owner_of(frame, hwnd) }),
            final(self).queue_map() == old(self).queue_map().insert(key, old(self).queue_of(key).push(message)),
    {
        let thread_id = if hwnd == 0 { current } else { frame.window_owner_thread_id(hwnd) };
        self.queue_message_for_thread(thread_id, message)
    }
}

} // verus!
