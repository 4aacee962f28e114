use emul_4leaf::heap::GuestHeap;
use emul_4leaf::threads::{
    normalize_queue_thread_id, MessageQueues, TlsCounter, decide_wait, thread_creation_flags, EmulatedThread, EventTable, SleepAction, ThreadTable, WaitOutcome,
    CREATE_SUSPENDED, INFINITE, THREAD_STACK_SIZE, WAIT_TIMEOUT,
};
use std::collections::HashMap;

const HEAP_BASE: u32 = 0x2000_0000;
const HEAP_SIZE: u32 = 0x0100_0000;
const EXIT_ADDRESS: u32 = 0xFFFF_FFF0;

fn sample_thread(thread_id: u32, alive: bool) -> EmulatedThread {
    EmulatedThread {
        handle: thread_id + 0x1000,
        thread_id,
        stack_alloc: 0,
        stack_size: 0,
        eax: 0,
        ecx: 0,
        edx: 0,
        ebx: 0,
        esp: 0,
        ebp: 0,
        esi: 0,
        edi: 0,
        eip: 0,
        ready: true,
        alive,
        terminate_requested: !alive,
        suspended: false,
        resume_time: None,
        wait_deadline: None,
        wait_handles: Vec::new(),
        wait_sockets: Vec::new(),
    }
}

fn cleanup_prunes_dead_entries_and_tls() {
    let mut ctx = ThreadTable::new();
    let mut heap = GuestHeap::new(HEAP_BASE, HEAP_SIZE);
    let finished_stack = heap.alloc_heap_block(0x1000).unwrap();
    ctx.threads.push(sample_thread(0x2001, true));
    let mut finished = sample_thread(0x2002, false);
    finished.stack_alloc = finished_stack;
    finished.stack_size = 0x1000;
    ctx.threads.push(finished);
    ctx.tls_slots.insert(0x2001, HashMap::new());
    ctx.tls_slots.insert(0x2002, HashMap::new());

    ctx.cleanup_finished_threads(&mut heap);

    assert_eq!(ctx.threads.len(), 1);
    assert_eq!(ctx.threads[0].thread_id, 0x2001);
    assert!(ctx.tls_slots.contains_key(&0x2001));
    assert!(!ctx.tls_slots.contains_key(&0x2002));

    let reused_stack = heap.alloc_heap_block(0x800).unwrap();
    assert_eq!(reused_stack, finished_stack);
}

#[test]
fn kernel32_cleanup_finished_threads_prunes_dead_entries_and_tls() {
    cleanup_prunes_dead_entries_and_tls();
}

#[test]
fn mod_cleanup_finished_threads_prunes_dead_entries_and_tls() {
    cleanup_prunes_dead_entries_and_tls();
}

#[test]
fn wake_threads_waiting_on_handle_marks_thread_ready() {
    let mut ctx = ThreadTable::new();
    let mut thread = sample_thread(0x2201, true);
    thread.ready = false;
    thread.wait_handles = vec![0x9000];
    ctx.threads.push(thread);

    assert!(ctx.wake_threads_waiting_on_handle(0x9000));

    assert!(ctx.threads[0].ready);
}

#[test]
fn schedule_retry_wait_tracks_main_socket_interest() {
    let mut ctx = ThreadTable::new();

    ctx.set_wait_handles(0, &[]);
    ctx.set_wait_sockets(0, &[0x4400, 0x5500]);
    ctx.schedule_retry_wait(0, None);

    assert!(!ctx.main_ready);
    assert_eq!(ctx.main_wait_sockets, vec![0x4400, 0x5500]);

    assert!(ctx.wake_threads_waiting_on_socket(0x5500));
    assert!(ctx.main_ready);
}

#[test]
fn waking_an_unwatched_handle_wakes_nobody() {
    let mut ctx = ThreadTable::new();
    let mut thread = sample_thread(0x2201, true);
    thread.ready = false;
    thread.wait_handles = vec![0x9000];
    ctx.threads.push(thread);
    ctx.schedule_retry_wait(0, Some(5));
    assert!(!ctx.wake_threads_waiting_on_handle(0x9001));
    assert!(!ctx.threads[0].ready);
    assert!(!ctx.main_ready);
}

#[test]
fn thread_wait_is_armed_and_cleared() {
    let mut ctx = ThreadTable::new();
    ctx.threads.push(sample_thread(7, true));
    ctx.set_wait_handles(7, &[1, 2]);
    ctx.schedule_retry_wait(7, Some(100));
    assert_eq!(ctx.current_wait_deadline(7), Some(100));
    assert!(!ctx.threads[0].ready);
    assert_eq!(ctx.threads[0].resume_time, Some(100));
    ctx.clear_retry_wait(7);
    assert!(ctx.threads[0].ready);
    assert_eq!(ctx.current_wait_deadline(7), None);
    assert!(ctx.threads[0].wait_handles.is_empty());
    assert_eq!(ctx.current_wait_deadline(8), None);
}

#[test]
fn wait_decisions() {
    assert_eq!(decide_wait(Some(2), 0, None, 10), WaitOutcome::Signaled(2));
    assert_eq!(decide_wait(None, 0, None, 10), WaitOutcome::TimedOut);
    assert_eq!(decide_wait(None, INFINITE, Some(3), 10), WaitOutcome::Retry(None));
    assert_eq!(decide_wait(None, 50, None, 10), WaitOutcome::Retry(Some(60)));
    assert_eq!(decide_wait(None, 50, Some(60), 59), WaitOutcome::Retry(Some(60)));
    assert_eq!(decide_wait(None, 50, Some(60), 60), WaitOutcome::TimedOut);
}

#[test]
fn wait_step_results_and_bookkeeping() {
    let mut ctx = ThreadTable::new();
    assert_eq!(ctx.wait_step(0, None, 50, 1000), None);
    assert!(!ctx.main_ready);
    assert_eq!(ctx.main_wait_deadline, Some(1050));
    assert_eq!(ctx.wait_step(0, None, 50, 1049), None);
    assert_eq!(ctx.main_wait_deadline, Some(1050));
    assert_eq!(ctx.wait_step(0, None, 50, 1050), Some(WAIT_TIMEOUT));
    assert!(ctx.main_ready);
    assert_eq!(ctx.main_wait_deadline, None);
    assert_eq!(ctx.wait_step(0, Some(3), INFINITE, 2000), Some(3));
}

#[test]
fn events_signal_and_auto_reset() {
    let mut events = EventTable::new();
    events.create_event(0x10, false, true);
    events.create_event(0x11, true, false);
    assert!(events.try_consume_signaled_event(0x10));
    assert!(!events.try_consume_signaled_event(0x10));
    assert!(!events.try_consume_signaled_event(0x11));
    events.set_event_state(0x11, true);
    assert!(events.try_consume_signaled_event(0x11));
    assert!(events.try_consume_signaled_event(0x11));
    events.set_event_state(0x11, false);
    assert!(!events.try_consume_signaled_event(0x11));
    assert!(!events.try_consume_signaled_event(0x99));
}

#[test]
fn scheduler_round_runs_ready_threads_and_records_quanta() {
    let mut ctx = ThreadTable::new();
    let mut a = sample_thread(1, true);
    a.eip = 0x40_1000;
    let mut b = sample_thread(2, true);
    b.eip = 0x40_2000;
    b.resume_time = Some(500);
    let c = sample_thread(3, true);
    let mut d = sample_thread(4, true);
    d.eip = 0x40_3000;
    d.suspended = true;
    ctx.threads.push(a);
    ctx.threads.push(b);
    ctx.threads.push(c);
    ctx.threads.push(d);

    assert_eq!(ctx.collect_runnable(100), vec![0]);
    assert!(!ctx.threads[2].alive);
    assert_eq!(ctx.collect_runnable(500), vec![0, 1]);

    assert!(ctx.finish_quantum(0, [0x40_1010, 1, 2, 3, 4, 5, 6, 7, 8], EXIT_ADDRESS));
    assert_eq!(ctx.threads[0].eip, 0x40_1010);
    assert_eq!(ctx.threads[0].edi, 8);
    assert!(!ctx.finish_quantum(1, [EXIT_ADDRESS, 0, 0, 0, 0, 0, 0, 0, 0], EXIT_ADDRESS));
    assert!(!ctx.threads[1].alive);

    let mut heap = GuestHeap::new(HEAP_BASE, HEAP_SIZE);
    ctx.cleanup_finished_threads(&mut heap);
    let ids: Vec<u32> = ctx.threads.iter().map(|t| t.thread_id).collect();
    assert_eq!(ids, vec![1, 4]);
}

#[test]
fn sleep_in_a_thread_retries_once() {
    let mut ctx = ThreadTable::new();
    ctx.threads.push(sample_thread(9, true));
    assert_eq!(ctx.sleep_step(9, 20, 100), SleepAction::Retry);
    assert_eq!(ctx.threads[0].resume_time, Some(120));
    assert_eq!(ctx.sleep_step(9, 20, 130), SleepAction::Return);
    assert_eq!(ctx.threads[0].resume_time, None);
    assert_eq!(ctx.sleep_step(9, 0, 130), SleepAction::Return);
    assert_eq!(ctx.sleep_step(10, 5, 130), SleepAction::Return);
}

#[test]
fn sleep_on_the_main_thread_yields_until_due() {
    let mut ctx = ThreadTable::new();
    assert_eq!(ctx.sleep_step(0, 50, 1000), SleepAction::YieldAndRetry);
    assert_eq!(ctx.main_resume_time, Some(1050));
    assert_eq!(ctx.sleep_step(0, 50, 1020), SleepAction::YieldAndRetry);
    assert_eq!(ctx.sleep_step(0, 50, 1050), SleepAction::Return);
    assert_eq!(ctx.main_resume_time, None);
    assert_eq!(ctx.sleep_step(0, 0, 2000), SleepAction::YieldAndRetry);
    assert_eq!(ctx.main_resume_time, None);
}

#[test]
fn created_threads_start_with_their_stack() {
    assert_eq!(thread_creation_flags(CREATE_SUSPENDED), Ok(true));
    assert_eq!(thread_creation_flags(0x0001_0000), Ok(false));
    assert_eq!(thread_creation_flags(0x0000_0008 | CREATE_SUSPENDED), Err(0x0000_0008));
    let mut ctx = ThreadTable::new();
    let esp = ctx.add_created_thread(0x1004, 0x1005, 0x40_1000, HEAP_BASE, false);
    assert_eq!(esp, HEAP_BASE + THREAD_STACK_SIZE - 8);
    let t = &ctx.threads[0];
    assert_eq!((t.handle, t.thread_id, t.eip, t.esp, t.ebp), (0x1004, 0x1005, 0x40_1000, esp, esp));
    assert!(t.alive && t.ready && !t.suspended);
}

#[test]
fn messages_queue_by_owning_thread() {
    let mut queues = MessageQueues::new();
    let mut frame = emul_4leaf::win_frame::WinFrame::new(None);
    assert_eq!(normalize_queue_thread_id(1), 0);
    assert_eq!(normalize_queue_thread_id(7), 7);
    assert_eq!(queues.queue_message_for_thread(1, [1, 2, 3, 4, 5, 6, 7]), 0);
    assert_eq!(queues.queue_message_for_thread(0, [8; 7]), 0);
    assert_eq!(queues.queues.get(&0).unwrap().len(), 2);
    assert_eq!(queues.queues.get(&0).unwrap()[1], [8; 7]);
    let mut w = window(9);
    w.owner_thread_id = 9;
    frame.create_window(0x4000, w);
    assert_eq!(queues.queue_message_for_window(&frame, 3, 0x4000, [0; 7]), 9);
    assert_eq!(queues.queue_message_for_window(&frame, 3, 0, [0; 7]), 3);
    assert_eq!(queues.queue_message_for_window(&frame, 3, 0x5555, [0; 7]), 0);
    assert_eq!(queues.queues.get(&0).unwrap().len(), 3);
}

#[test]
fn message_wait_wakes_the_thread() {
    let mut table = ThreadTable::new();
    let mut t = sample_thread(5, true);
    t.ready = false;
    table.threads.push(t);
    table.main_ready = false;
    assert_eq!(table.wake_thread_message_wait(5), 5);
    assert!(table.threads[0].ready);
    assert_eq!(table.wake_thread_message_wait(1), 0);
    assert!(table.main_ready);
    assert_eq!(table.wake_thread_message_wait(42), 42);
}

fn window(owner: u32) -> emul_4leaf::win_frame::WindowState {
    emul_4leaf::win_frame::WindowState {
        class_name: String::new(),
        class_icon: 0,
        big_icon: 0,
        small_icon: 0,
        class_hbr_background: 0,
        title: String::new(),
        x: 0,
        y: 0,
        width: 10,
        height: 10,
        style: 0,
        ex_style: 0,
        owner_thread_id: owner,
        parent: 0,
        id: 0,
        visible: true,
        enabled: true,
        zoomed: false,
        iconic: false,
        wnd_proc: 0,
        class_cursor: 0,
        user_data: 0,
        use_native_frame: false,
        surface_bitmap: 0,
        window_rgn: 0,
        guest_frame_left: 0,
        guest_frame_top: 0,
        guest_frame_right: 0,
        guest_frame_bottom: 0,
        guest_frame_exact: false,
        needs_paint: false,
        last_hittest_lparam: u32::MAX,
        last_hittest_result: 0,
        z_order: 0,
    }
}

#[test]
fn tls_values_are_per_thread_and_cleared_by_free() {
    let mut table = ThreadTable::new();
    let mut counter = TlsCounter::new();
    let a = counter.tls_alloc();
    let b = counter.tls_alloc();
    assert_eq!((a, b), (1, 2));
    assert_eq!(table.tls_get_value(0, a), 0);
    table.tls_set_value(0, a, 0x1234);
    table.tls_set_value(7, a, 0x5678);
    table.tls_set_value(7, b, 9);
    assert_eq!(table.tls_get_value(0, a), 0x1234);
    assert_eq!(table.tls_get_value(7, a), 0x5678);
    table.tls_set_value(7, a, 1);
    assert_eq!(table.tls_get_value(7, a), 1);
    table.tls_free(a);
    assert_eq!(table.tls_get_value(0, a), 0);
    assert_eq!(table.tls_get_value(7, a), 0);
    assert_eq!(table.tls_get_value(7, b), 9);
}
