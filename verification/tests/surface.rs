use emul_4leaf::surface::{GpuBitmapUpdate, GpuDrawCommand, GpuSurfaceOp, SurfaceBitmaps};
use emul_4leaf::win_frame::{WinFrame, WindowState};

const HBMP: u32 = 0x1001;

fn with_surface_bitmap() -> SurfaceBitmaps {
    let mut ctx = SurfaceBitmaps::new();
    ctx.create_surface_bitmap(HBMP);
    ctx
}

#[test]
fn surface_bitmap_upload_queue_tracks_full_and_partial_updates() {
    let mut ctx = with_surface_bitmap();
    let hbmp = HBMP;

    assert!(!ctx.surface_bitmap_has_content(hbmp));
    assert!(ctx.consume_surface_bitmap_full_upload(hbmp));

    ctx.queue_surface_bitmap_upload(GpuBitmapUpdate {
        surface_bitmap: hbmp,
        x: 1,
        y: 1,
        width: 2,
        height: 2,
        pixels: vec![0xFFFF_FFFF; 4],
    });

    assert!(ctx.surface_bitmap_has_content(hbmp));
    assert!(ctx.take_surface_bitmap_uploads(hbmp).is_empty());
    assert!(ctx.consume_surface_bitmap_full_upload(hbmp));

    ctx.queue_surface_bitmap_upload(GpuBitmapUpdate {
        surface_bitmap: hbmp,
        x: 1,
        y: 1,
        width: 2,
        height: 2,
        pixels: vec![0xFFFF_FFFF; 4],
    });
    let updates = ctx.take_surface_bitmap_uploads(hbmp);
    assert_eq!(updates.len(), 1);
    assert!(!ctx.consume_surface_bitmap_full_upload(hbmp));

    ctx.mark_surface_bitmap_dirty(hbmp);
    ctx.queue_surface_bitmap_upload(GpuBitmapUpdate {
        surface_bitmap: hbmp,
        x: 0,
        y: 0,
        width: 1,
        height: 1,
        pixels: vec![0xFFFF_FFFF],
    });

    assert!(ctx.consume_surface_bitmap_full_upload(hbmp));
    assert!(ctx.take_surface_bitmap_uploads(hbmp).is_empty());
    assert!(ctx.surface_bitmap_has_content(hbmp));
}

#[test]
fn surface_bitmap_dc_lifetime_tracks_active_state() {
    let mut ctx = with_surface_bitmap();
    let hbmp = HBMP;

    assert!(!ctx.surface_bitmap_dc_active(hbmp));

    ctx.begin_surface_bitmap_dc(hbmp);
    assert!(ctx.surface_bitmap_dc_active(hbmp));

    ctx.end_surface_bitmap_dc(hbmp);
    assert!(!ctx.surface_bitmap_dc_active(hbmp));

    ctx.end_surface_bitmap_dc(hbmp);
    assert!(!ctx.surface_bitmap_dc_active(hbmp));
}

#[test]
fn surface_bitmap_draw_command_marks_content_ready() {
    let mut ctx = with_surface_bitmap();
    let hbmp = HBMP;
    let _ = ctx.consume_surface_bitmap_full_upload(hbmp);

    ctx.queue_surface_bitmap_line(hbmp, 0, 1, 3, 2, 0xFF11_2233);

    assert!(ctx.surface_bitmap_has_content(hbmp));
}

#[test]
fn surface_bitmap_release_sync_flag_is_cleared_by_full_upload() {
    let mut ctx = with_surface_bitmap();
    let hbmp = HBMP;
    let _ = ctx.consume_surface_bitmap_full_upload(hbmp);

    ctx.note_surface_bitmap_release_sync(hbmp);
    {
        let state = ctx.sync_state(hbmp).unwrap();
        assert!(state.needs_release_sync);
    }

    ctx.mark_surface_bitmap_dirty(hbmp);
    {
        let state = ctx.sync_state(hbmp).unwrap();
        assert!(!state.needs_release_sync);
        assert!(state.needs_full_upload);
    }
}

#[test]
fn surface_bitmap_rect_upload_is_clipped_to_bitmap_bounds() {
    let mut ctx = with_surface_bitmap();
    let hbmp = HBMP;
    let _ = ctx.consume_surface_bitmap_full_upload(hbmp);

    ctx.mark_surface_bitmap_has_content(hbmp);
    ctx.queue_surface_bitmap_rect_upload(
        hbmp,
        &[0xFF00_0001, 0xFF00_0002, 0xFF00_0003, 0xFF00_0004],
        2,
        2,
        -1,
        -1,
        2,
        1,
    );

    let updates = ctx.take_surface_bitmap_uploads(hbmp);
    assert_eq!(updates.len(), 1);
    assert_eq!(updates[0].x, 0);
    assert_eq!(updates[0].y, 0);
    assert_eq!(updates[0].width, 2);
    assert_eq!(updates[0].height, 1);
    assert_eq!(updates[0].pixels, vec![0xFF00_0001, 0xFF00_0002]);
}

#[test]
fn surface_bitmap_line_command_is_queued() {
    let mut ctx = with_surface_bitmap();
    let hbmp = HBMP;
    let _ = ctx.consume_surface_bitmap_full_upload(hbmp);

    ctx.queue_surface_bitmap_line(hbmp, 0, 1, 3, 2, 0xFF11_2233);

    let commands = ctx.take_surface_bitmap_draw_commands(hbmp);
    assert_eq!(
        commands,
        vec![GpuDrawCommand::Line {
            surface_bitmap: hbmp,
            x1: 0,
            y1: 1,
            x2: 3,
            y2: 2,
            color: 0xFF11_2233,
        }]
    );
}

#[test]
fn surface_bitmap_text_mask_command_is_queued() {
    let mut ctx = with_surface_bitmap();
    let hbmp = HBMP;
    let _ = ctx.consume_surface_bitmap_full_upload(hbmp);

    ctx.queue_surface_bitmap_text_mask(hbmp, 1, 2, 3, 4, 0xFFAA_BBCC, vec![1, 2, 3]);

    let commands = ctx.take_surface_bitmap_draw_commands(hbmp);
    assert_eq!(
        commands,
        vec![GpuDrawCommand::TextMask {
            surface_bitmap: hbmp,
            x: 1,
            y: 2,
            width: 3,
            height: 4,
            color: 0xFFAA_BBCC,
            alpha: vec![1, 2, 3],
        }]
    );
}

fn uv(values: [f32; 4]) -> [u32; 4] {
    [values[0].to_bits(), values[1].to_bits(), values[2].to_bits(), values[3].to_bits()]
}

#[test]
fn surface_bitmap_blit_command_is_queued() {
    let mut ctx = with_surface_bitmap();
    let hbmp = HBMP;
    let _ = ctx.consume_surface_bitmap_full_upload(hbmp);

    ctx.queue_surface_bitmap_blit(hbmp, 1, 2, 5, 6, 4, 4, uv([0.0, 0.0, 1.0, 1.0]), vec![0xFFFF_FFFF; 16]);

    let commands = ctx.take_surface_bitmap_draw_commands(hbmp);
    assert_eq!(
        commands,
        vec![GpuDrawCommand::Blit {
            surface_bitmap: hbmp,
            left: 1,
            top: 2,
            right: 5,
            bottom: 6,
            src_width: 4,
            src_height: 4,
            uv: uv([0.0, 0.0, 1.0, 1.0]),
            pixels: vec![0xFFFF_FFFF; 16],
        }]
    );
}

#[test]
fn unregistered_handles_are_ignored() {
    let mut ctx = with_surface_bitmap();
    assert!(!ctx.is_surface_bitmap(0x2000));
    assert!(!ctx.consume_surface_bitmap_full_upload(0x2000));
    ctx.queue_surface_bitmap_line(0x2000, 0, 0, 1, 1, 1);
    assert!(!ctx.surface_bitmap_has_content(0x2000));
    assert!(ctx.take_surface_bitmap_ops(0x2000).is_empty());
    assert!(ctx.sync_state(0x2000).is_none());
}

#[test]
fn unpresentable_first_frame_is_held_back() {
    let mut ctx = with_surface_bitmap();
    let _ = ctx.consume_surface_bitmap_full_upload(HBMP);
    ctx.queue_surface_bitmap_upload(GpuBitmapUpdate {
        surface_bitmap: HBMP,
        x: 0,
        y: 0,
        width: 2,
        height: 2,
        pixels: vec![0xFF00_0000; 4],
    });
    assert!(!ctx.surface_bitmap_has_content(HBMP));
    assert!(!ctx.consume_surface_bitmap_full_upload(HBMP));
}

#[test]
fn pending_full_upload_drops_draw_commands() {
    let mut ctx = with_surface_bitmap();
    ctx.mark_surface_bitmap_has_content(HBMP);
    ctx.queue_surface_bitmap_fill_rect(HBMP, 0, 0, 2, 2, 0xFF00_FF00);
    assert!(ctx.take_surface_bitmap_ops(HBMP).is_empty());
    let _ = ctx.consume_surface_bitmap_full_upload(HBMP);
    ctx.queue_surface_bitmap_fill_rect(HBMP, 0, 0, 2, 2, 0xFF00_FF00);
    let ops = ctx.take_surface_bitmap_ops(HBMP);
    assert_eq!(ops.len(), 1);
    assert!(matches!(ops[0], GpuSurfaceOp::Draw(GpuDrawCommand::FillRect { color: 0xFF00_FF00, .. })));
}

#[test]
fn rect_upload_outside_the_bitmap_queues_nothing() {
    let mut ctx = with_surface_bitmap();
    let _ = ctx.consume_surface_bitmap_full_upload(HBMP);
    ctx.mark_surface_bitmap_has_content(HBMP);
    ctx.queue_surface_bitmap_rect_upload(HBMP, &[1, 2, 3, 4], 2, 2, 2, 0, 5, 2);
    assert!(ctx.take_surface_bitmap_uploads(HBMP).is_empty());
    ctx.queue_surface_bitmap_rect_upload(HBMP, &[1, 2, 3, 4, 5, 6], 3, 2, 1, 0, 3, 2);
    let updates = ctx.take_surface_bitmap_uploads(HBMP);
    assert_eq!(updates[0].pixels, vec![2, 3, 5, 6]);
    assert_eq!((updates[0].x, updates[0].y, updates[0].width, updates[0].height), (1, 0, 2, 2));
}

#[test]
fn window_release_sync_turns_into_full_upload() {
    let mut ctx = with_surface_bitmap();
    let _ = ctx.consume_surface_bitmap_full_upload(HBMP);
    ctx.note_surface_bitmap_release_sync(HBMP);
    let mut frame = WinFrame::new(None);
    frame.create_window(0x10, window_with_surface(HBMP));
    ctx.ensure_window_surface_bitmap_sync(&frame, 0x10);
    let state = ctx.sync_state(HBMP).unwrap();
    assert!(state.needs_full_upload);
    assert!(!state.needs_release_sync);
    ctx.ensure_window_surface_bitmap_sync(&frame, 0x10);
    assert!(ctx.consume_surface_bitmap_full_upload(HBMP));
    assert!(!ctx.consume_surface_bitmap_full_upload(HBMP));
}

#[test]
fn forgotten_surface_bitmap_is_no_longer_tracked() {
    let mut ctx = with_surface_bitmap();
    ctx.forget_surface_bitmap(HBMP);
    assert!(!ctx.is_surface_bitmap(HBMP));
    assert!(ctx.sync_state(HBMP).is_none());
}

fn window_with_surface(surface_bitmap: u32) -> WindowState {
    WindowState {
        class_name: "TEST".to_string(),
        class_icon: 0,
        big_icon: 0,
        small_icon: 0,
        class_hbr_background: 0,
        title: "test".to_string(),
        x: 0,
        y: 0,
        width: 2,
        height: 2,
        style: 0,
        ex_style: 0,
        owner_thread_id: 0,
        parent: 0,
        id: 0,
        visible: true,
        enabled: true,
        zoomed: false,
        iconic: false,
        wnd_proc: 0,
        class_cursor: 0,
        user_data: 0,
        use_native_frame: false,
        surface_bitmap,
        window_rgn: 0,
        guest_frame_left: 0,
        guest_frame_top: 0,
        guest_frame_right: 0,
        guest_frame_bottom: 0,
        guest_frame_exact: false,
        needs_paint: false,
        last_hittest_lparam: 0,
        last_hittest_result: 0,
        z_order: 0,
    }
}

#[test]
fn clip_fills_follow_the_clip_rectangles() {
    let mut ctx = with_surface_bitmap();
    let _ = ctx.consume_surface_bitmap_full_upload(HBMP);
    ctx.mark_surface_bitmap_has_content(HBMP);
    ctx.queue_fill_rects_for_clip(HBMP, &[(0, 0, 2, 2), (5, 5, 6, 6), (3, 0, 10, 1)], 1, 0, 4, 3, 7);
    let commands = ctx.take_surface_bitmap_draw_commands(HBMP);
    assert_eq!(
        commands,
        vec![
            GpuDrawCommand::FillRect { surface_bitmap: HBMP, left: 1, top: 0, right: 2, bottom: 2, color: 7 },
            GpuDrawCommand::FillRect { surface_bitmap: HBMP, left: 3, top: 0, right: 4, bottom: 1, color: 7 },
        ]
    );
}

#[test]
fn rectangle_fills_inside_then_edges() {
    let mut ctx = with_surface_bitmap();
    let _ = ctx.consume_surface_bitmap_full_upload(HBMP);
    ctx.queue_rectangle_fills(HBMP, &[(0, 0, 100, 100)], 10, 20, 30, 40, Some(1), Some(2));
    let fill = |left, top, right, bottom, color| GpuDrawCommand::FillRect { surface_bitmap: HBMP, left, top, right, bottom, color };
    assert_eq!(
        ctx.take_surface_bitmap_draw_commands(HBMP),
        vec![
            fill(10, 20, 30, 40, 2),
            fill(10, 20, 30, 21, 1),
            fill(10, 39, 30, 40, 1),
            fill(10, 20, 11, 40, 1),
            fill(29, 20, 30, 40, 1),
        ]
    );
    ctx.queue_rectangle_fills(HBMP, &[(0, 0, 100, 100)], 10, 20, 30, 40, None, None);
    assert!(ctx.take_surface_bitmap_ops(HBMP).is_empty());
}
