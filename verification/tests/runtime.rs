use emul_4leaf::logging::{init_logger, push_log, push_socket_log, LogBuffers, SOCKET_LOG_MAX};
use emul_4leaf::win_frame::{create_window_command, UiCommand, WinFrame, WindowState, DebugCommand, CpuContext};
use emul_4leaf::kernel32::{lstrcompare_a_value, copy_with_limit_bytes, lstrcat_a_bytes, lstrcpyn_a_bytes, format_message_text, unsupported_flag_bits, mul_div_value, KERNEL32, FORMAT_MESSAGE_ALLOCATE_BUFFER, FORMAT_MESSAGE_FROM_SYSTEM};
use emul_4leaf::rare::normalize_export_name;
use emul_4leaf::surface::pixels_look_presentable_as_initial_frame;
use emul_4leaf::boot::{resource_dir, select_resource_dir, missing_resource_files, required_resource_files};
use std::sync::mpsc::channel;

fn sample_window_state(width: i32, height: i32) -> WindowState {
    WindowState {
        class_name: "TEST".to_string(),
        class_icon: 0,
        big_icon: 0,
        small_icon: 0,
        class_hbr_background: 0,
        title: "test".to_string(),
        x: 0,
        y: 0,
        width,
        height,
        style: 0,
        ex_style: 0,
        owner_thread_id: 0,
        parent: 0,
        id: 0,
        visible: true,
        enabled: true,
        zoomed: false,
        iconic: false,
        wnd_proc: 0,
        class_cursor: 0,
        user_data: 0,
        use_native_frame: false,
        surface_bitmap: 0,
        window_rgn: 0,
        guest_frame_left: 0,
        guest_frame_top: 0,
        guest_frame_right: 0,
        guest_frame_bottom: 0,
        guest_frame_exact: false,
        needs_paint: false,
        last_hittest_lparam: u32::MAX,
        last_hittest_result: 0,
        z_order: 0,
    }
}

#[test]
fn logger_exists_only_for_debug_messages() {
    let mut none: Option<LogBuffers> = None;
    init_logger(&mut none, false);
    assert!(none.is_none());
    let mut buffers: Option<LogBuffers> = None;
    init_logger(&mut buffers, true);
    let b = buffers.as_ref().unwrap();
    assert!(b.log().is_empty());
    assert_eq!(b.socket_log_count(), 0);
    // A second setup keeps what the buffers hold.
    push_log(buffers.as_mut().unwrap(), "kept");
    init_logger(&mut buffers, true);
    assert_eq!(buffers.as_ref().unwrap().log().clone(), vec!["kept"]);
}

#[test]
fn messages_are_split_into_lines() {
    let mut b = LogBuffers::new();
    push_socket_log(&mut b, "a\r\nb\n\nc\r");
    assert_eq!(b.socket_log().clone(), vec!["a", "b", "", "c\r"]);
    assert_eq!(b.socket_log_count(), 1);
    push_log(&mut b, "");
    assert!(b.log().is_empty());
    assert_eq!(b.log_count(), 1);
    push_log(&mut b, "x\n");
    assert_eq!(b.log().clone(), vec!["x"]);
}

#[test]
fn socket_log_keeps_the_latest_lines() {
    let mut b = LogBuffers::new();
    for i in 0..250 {
        push_socket_log(&mut b, &format!("line {i}"));
    }
    assert_eq!(b.socket_log().len(), SOCKET_LOG_MAX);
    assert_eq!(b.socket_log()[0], "line 50");
    assert_eq!(b.socket_log()[199], "line 249");
    assert_eq!(b.socket_log_count(), 250);
}

#[test]
fn windows_are_tracked_and_announced() {
    let (tx, rx) = channel();
    let mut frame = WinFrame::new(Some(tx));
    let cmd = frame.create_window(0x1000, sample_window_state(100, 80)).unwrap();
    frame.send_to_ui(cmd);
    match rx.try_recv().unwrap() {
        UiCommand::CreateWindow { hwnd, title, width, height } => {
            assert_eq!((hwnd, title.as_str(), width, height), (0x1000, "test", 100, 80));
        }
        UiCommand::DestroyWindow { .. } => panic!("unexpected command"),
    }
    frame.get_window_mut(0x1000).unwrap().needs_paint = true;
    assert!(frame.windows.get(&0x1000).unwrap().needs_paint);
    assert!(frame.get_window_mut(0x2000).is_none());
    let cmd = frame.destroy_window(0x1000).unwrap();
    frame.send_to_ui(cmd);
    assert!(frame.windows.is_empty());
    assert!(matches!(rx.try_recv().unwrap(), UiCommand::DestroyWindow { hwnd: 0x1000 }));
    // An unknown window is still announced as closed.
    assert!(matches!(frame.destroy_window(0x5555), Some(UiCommand::DestroyWindow { hwnd: 0x5555 })));
    let mut quiet = WinFrame::new(None);
    assert!(quiet.create_window(1, sample_window_state(-1, 2)).is_none());
    assert!(quiet.destroy_window(7).is_none());
    assert_eq!(quiet.windows.len(), 1);
    match create_window_command(1, &sample_window_state(-1, 2)) {
        UiCommand::CreateWindow { width, .. } => assert_eq!(width, u32::MAX),
        UiCommand::DestroyWindow { .. } => panic!("unexpected command"),
    }
    let ctx = CpuContext { regs: [0; 9], stack: vec![(1, 2)], next_instr: "nop".to_string() };
    assert_eq!(ctx.clone().stack, vec![(1, 2)]);
    assert_ne!(DebugCommand::Step, DebugCommand::Run);
}

#[test]
fn flags_and_muldiv() {
    assert_eq!(unsupported_flag_bits(0b1011, 0b0011), 0b1000);
    assert_eq!(KERNEL32::unsupported_flag_bits(0xFF, 0xF0), 0x0F);
    assert_eq!(mul_div_value(10, 3, 4), 7);
    assert_eq!(mul_div_value(-10, 3, 4), -7);
    assert_eq!(mul_div_value(10, 3, -4), -7);
    assert_eq!(mul_div_value(-10, -3, -4), -7);
    assert_eq!(mul_div_value(5, 5, 0), -1);
    assert_eq!(mul_div_value(i32::MAX, i32::MAX, 1), 1);
    assert_eq!(mul_div_value(0x10000, 0x10000, 1), 0);
}

#[test]
fn rare_exports_are_normalised() {
    assert_eq!(normalize_export_name("Rare_PlaySound"), Some("?Rare_PlaySound@@YAXPAVRSound@@@Z"));
    assert_eq!(normalize_export_name("?Rare_IsRepeat@@YAHPAVRSound@@@Z"), Some("?Rare_IsRepeat@@YAHPAVRSound@@@Z"));
    assert_eq!(normalize_export_name("Rare_Unknown"), None);
    assert_eq!(normalize_export_name(""), None);
}

#[test]
fn first_frames_need_content() {
    assert!(!pixels_look_presentable_as_initial_frame(&[]));
    assert!(!pixels_look_presentable_as_initial_frame(&[0xFF00_0000; 10]));
    assert!(pixels_look_presentable_as_initial_frame(&[0xFF11_2233; 10]));
    let mut mostly_black = vec![0xFF00_0000u32; 100];
    mostly_black[0] = 0xFF00_0001;
    assert!(pixels_look_presentable_as_initial_frame(&mostly_black));
    let mut sparse = vec![0u32; 100];
    for p in sparse.iter_mut().take(11) {
        *p = 0xFF12_3456;
    }
    assert!(!pixels_look_presentable_as_initial_frame(&sparse));
    sparse[11] = 0x0100_0001;
    assert!(pixels_look_presentable_as_initial_frame(&sparse));
}

#[test]
fn resource_directory_choice() {
    assert_eq!(resource_dir(None), "./Resources");
    assert_eq!(resource_dir(Some("/opt/game")), "/opt/game");
    assert_eq!(select_resource_dir(&[false, true, true]), Some(1));
    assert_eq!(select_resource_dir(&[false, false]), None);
    assert_eq!(required_resource_files().len(), 7);
    assert_eq!(missing_resource_files(&[true, false, true, true, true, false, true]), vec!["4Leaf.dll", "Lime.dll"]);
    assert!(missing_resource_files(&[true; 7]).is_empty());
}

#[test]
fn format_message_text_for_system_errors() {
    assert_eq!(format_message_text(FORMAT_MESSAGE_FROM_SYSTEM, 0x57).unwrap(), "Win32 Error 0x57\0");
    assert_eq!(
        format_message_text(FORMAT_MESSAGE_FROM_SYSTEM | FORMAT_MESSAGE_ALLOCATE_BUFFER | 0x200 | 0xFF, 0).unwrap(),
        "Win32 Error 0x0\0"
    );
    assert!(format_message_text(FORMAT_MESSAGE_ALLOCATE_BUFFER, 5).is_none());
    assert!(format_message_text(FORMAT_MESSAGE_FROM_SYSTEM | 0x2000, 5).is_none());
}

#[test]
fn lstrcpyn_copies_at_most_max_minus_one_bytes() {
    assert_eq!(lstrcpyn_a_bytes("hello", 3), b"he\0".to_vec());
    assert_eq!(lstrcpyn_a_bytes("hello", 0), b"\0".to_vec());
    assert_eq!(lstrcpyn_a_bytes("hi", 10), b"hi\0".to_vec());
    assert_eq!(lstrcpyn_a_bytes("\u{AC00}", 10), vec![0xB0, 0xA1, 0]);
    assert_eq!(copy_with_limit_bytes(&[1, 2, 3], 2), vec![1, 0]);
}

#[test]
fn lstrcat_appends_after_the_encoded_text() {
    assert_eq!(lstrcat_a_bytes("ab", "cd"), (2, b"cd\0".to_vec()));
    assert_eq!(lstrcat_a_bytes("\u{AC00}", "x"), (2, b"x\0".to_vec()));
}

#[test]
fn handles_are_handed_out_in_sequence() {
    let mut c = emul_4leaf::kernel32::HandleCounter::new();
    assert_eq!(c.alloc_handle(), 0x1000);
    assert_eq!(c.alloc_handle(), 0x1001);
    c.next = u32::MAX;
    assert_eq!(c.alloc_handle(), u32::MAX);
    assert_eq!(c.alloc_handle(), 0);
}

#[test]
fn lstrcmp_orders_by_character() {
    assert_eq!(lstrcompare_a_value("abc", "abc"), 0);
    assert_eq!(lstrcompare_a_value("abc", "abd"), -1);
    assert_eq!(lstrcompare_a_value("b", "abc"), 1);
    assert_eq!(lstrcompare_a_value("ab", "abc"), -1);
    assert_eq!(lstrcompare_a_value("", ""), 0);
    assert_eq!(lstrcompare_a_value("Z", "a"), -1);
}
