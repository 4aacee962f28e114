use emul_4leaf::gdi_table::{resize_pixels, GdiObject, GdiTable};
use emul_4leaf::blit::{gpu_blit_rects, SRCCOPY, SRCINVERT, PATCOPY};
use emul_4leaf::surface::clipped_rect_pixels;
use emul_4leaf::dib::DibHeaderInfo;
use emul_4leaf::heap::GuestHeap;
use emul_4leaf::kernel32::HandleCounter;
use emul_4leaf::region::{COMPLEXREGION, NULLREGION, RGN_AND, RGN_OR, SIMPLEREGION};
use emul_4leaf::surface::SurfaceBitmaps;
use emul_4leaf::win_frame::{WinFrame, WindowState};

fn sample_window_state(width: i32, height: i32) -> WindowState {
    WindowState {
        class_name: "TEST".to_string(),
        class_icon: 0,
        big_icon: 0,
        small_icon: 0,
        class_hbr_background: 0,
        title: "test".to_string(),
        x: 0,
        y: 0,
        width,
        height,
        style: 0,
        ex_style: 0,
        owner_thread_id: 0,
        parent: 0,
        id: 0,
        visible: true,
        enabled: true,
        zoomed: false,
        iconic: false,
        wnd_proc: 0,
        class_cursor: 0,
        user_data: 0,
        use_native_frame: false,
        surface_bitmap: 0,
        window_rgn: 0,
        guest_frame_left: 0,
        guest_frame_top: 0,
        guest_frame_right: 0,
        guest_frame_bottom: 0,
        guest_frame_exact: false,
        needs_paint: false,
        last_hittest_lparam: u32::MAX,
        last_hittest_result: 0,
        z_order: 0,
    }
}

fn dc(associated_window: u32, width: i32, height: i32, origin_x: i32, origin_y: i32) -> GdiObject {
    GdiObject::Dc {
        associated_window,
        width,
        height,
        origin_x,
        origin_y,
        selected_bitmap: 0,
        selected_font: 0,
        selected_brush: 0,
        selected_pen: 0,
        selected_region: 0,
        selected_palette: 0,
        bk_mode: 2,
        bk_color: 0,
        text_color: 0,
        rop2_mode: 13,
        current_x: 0,
        current_y: 0,
    }
}

fn insert_dc(table: &mut GdiTable, handles: &mut HandleCounter, hwnd: u32, width: i32, height: i32, origin_x: i32, origin_y: i32) -> u32 {
    let hdc = handles.alloc_handle();
    table.objects.insert(hdc, dc(hwnd, width, height, origin_x, origin_y));
    hdc
}

fn insert_region(table: &mut GdiTable, handles: &mut HandleCounter, rects: Vec<(i32, i32, i32, i32)>) -> u32 {
    let hrgn = handles.alloc_handle();
    table.objects.insert(hrgn, GdiObject::Region { rects });
    hrgn
}

fn selected_region_of(table: &GdiTable, hdc: u32) -> u32 {
    match table.objects.get(&hdc).unwrap() {
        GdiObject::Dc { selected_region, .. } => *selected_region,
        _ => unreachable!(),
    }
}

#[test]
fn compatible_bitmap_inherits_monochrome_format_from_memory_dc() {
    let mut table = GdiTable::new();
    table.objects.insert(
        0x1001,
        GdiObject::Bitmap {
            width: 1,
            height: 1,
            pixels: vec![0u32; 1],
            bits_addr: None,
            stride: 4,
            bit_count: 1,
            top_down: false,
            palette: vec![0x000000, 0x00FF_FFFF],
            red_mask: 0,
            green_mask: 0,
            blue_mask: 0,
            alpha_mask: 0,
        },
    );
    table.objects.insert(
        0x2001,
        GdiObject::Dc {
            associated_window: 0,
            width: 1,
            height: 1,
            origin_x: 0,
            origin_y: 0,
            selected_bitmap: 0x1001,
            selected_font: 0,
            selected_brush: 0,
            selected_pen: 0,
            selected_region: 0,
            selected_palette: 0,
            bk_mode: 1,
            bk_color: 0x00FF_FFFF,
            text_color: 0x0000_0000,
            rop2_mode: 13,
            current_x: 0,
            current_y: 0,
        },
    );
    assert_eq!(table.objects.len(), 2);
}

#[test]
fn select_clip_rgn_updates_window_dc_guest_frame() {
    let mut table = GdiTable::new();
    let mut handles = HandleCounter::new();
    let mut frame = WinFrame::new(None);
    frame.create_window(0x1000, sample_window_state(100, 80));
    let hdc = insert_dc(&mut table, &mut handles, 0x1000, 100, 80, 0, 0);
    let hrgn = insert_region(
        &mut table,
        &mut handles,
        vec![(0, 0, 100, 8), (0, 8, 12, 72), (88, 8, 100, 72), (0, 72, 100, 80)],
    );

    let result = table.select_clip_rgn(&mut handles, &mut frame, hdc, hrgn);

    assert_eq!(result, 3);
    let window = frame.windows.get(&0x1000).unwrap();
    assert_eq!(window.guest_frame_left, 12);
    assert_eq!(window.guest_frame_top, 8);
    assert_eq!(window.guest_frame_right, 12);
    assert_eq!(window.guest_frame_bottom, 8);
    assert!(window.guest_frame_exact);
}

#[test]
fn select_clip_rgn_copies_region_before_selection() {
    let mut table = GdiTable::new();
    let mut handles = HandleCounter::new();
    let mut frame = WinFrame::new(None);
    let hdc = insert_dc(&mut table, &mut handles, 0, 100, 80, 0, 0);
    let original_rects = vec![(5, 6, 30, 40)];
    let hrgn = insert_region(&mut table, &mut handles, original_rects.clone());

    let result = table.select_clip_rgn(&mut handles, &mut frame, hdc, hrgn);

    assert_eq!(result, SIMPLEREGION);
    let selected_region = selected_region_of(&table, hdc);
    assert_ne!(selected_region, hrgn);
    assert!(matches!(
        table.objects.get(&hrgn),
        Some(GdiObject::Region { rects }) if *rects == original_rects
    ));
    assert!(matches!(
        table.objects.get(&selected_region),
        Some(GdiObject::Region { rects }) if *rects == original_rects
    ));
}

#[test]
fn select_clip_rgn_ignores_client_origin_dc() {
    let mut table = GdiTable::new();
    let mut handles = HandleCounter::new();
    let mut frame = WinFrame::new(None);
    frame.create_window(0x1000, sample_window_state(100, 80));
    let hdc = insert_dc(&mut table, &mut handles, 0x1000, 88, 72, 12, 8);
    let hrgn = insert_region(&mut table, &mut handles, vec![(0, 0, 88, 72)]);

    let _ = table.select_clip_rgn(&mut handles, &mut frame, hdc, hrgn);

    let window = frame.windows.get(&0x1000).unwrap();
    assert!(!window.guest_frame_exact);
    assert_eq!(window.guest_frame_left, 0);
}

#[test]
fn select_clip_rgn_ignores_memory_dc_without_window() {
    let mut table = GdiTable::new();
    let mut handles = HandleCounter::new();
    let mut frame = WinFrame::new(None);
    frame.create_window(0x1000, sample_window_state(100, 80));
    let hdc = insert_dc(&mut table, &mut handles, 0, 100, 80, 0, 0);
    let hrgn = insert_region(&mut table, &mut handles, vec![(0, 0, 100, 8), (0, 8, 12, 72), (88, 8, 100, 72)]);

    let _ = table.select_clip_rgn(&mut handles, &mut frame, hdc, hrgn);

    let window = frame.windows.get(&0x1000).unwrap();
    assert!(!window.guest_frame_exact);
    assert_eq!(window.guest_frame_top, 0);
}

#[test]
fn select_clip_rgn_on_unknown_dc_or_region() {
    let mut table = GdiTable::new();
    let mut handles = HandleCounter::new();
    let mut frame = WinFrame::new(None);
    let hdc = insert_dc(&mut table, &mut handles, 0, 10, 10, 0, 0);
    assert_eq!(table.select_clip_rgn(&mut handles, &mut frame, 0xBEEF, 0), 0);
    assert_eq!(table.select_clip_rgn(&mut handles, &mut frame, hdc, 0xBEEF), 0);
    assert_eq!(table.select_clip_rgn(&mut handles, &mut frame, hdc, 0), SIMPLEREGION);
    assert_eq!(selected_region_of(&table, hdc), 0);
}

#[test]
fn memory_dc_defaults_and_stock_selection() {
    let mut table = GdiTable::new();
    let mut handles = HandleCounter::new();
    let hdc = table.create_compatible_dc(&mut handles, 0);
    assert_eq!(hdc, 0x1000);
    assert_eq!(table.get_bk_mode(hdc), 1);
    assert_eq!(table.get_device_caps(hdc, 1), 640);
    assert_eq!(table.get_device_caps(hdc, 2), 480);
    assert_eq!(table.get_device_caps(hdc, 3), 640 * 254 / 96);
    assert_eq!(table.get_device_caps(hdc, 12), 32);
    assert_eq!(table.get_device_caps(0xBEEF, 1), 0);
    // The default 1x1 monochrome bitmap sits in the DC.
    match table.objects.get(&0x1001) {
        Some(GdiObject::Bitmap { width, height, bit_count, .. }) => {
            assert_eq!((*width, *height, *bit_count), (1, 1, 1));
        }
        _ => panic!("no default bitmap"),
    }
    let brush = table.get_stock_object(&mut handles, 4);
    let pen = table.get_stock_object(&mut handles, 7);
    let font = table.get_stock_object(&mut handles, 13);
    let other = table.get_stock_object(&mut handles, 9);
    assert_eq!(table.select_object(hdc, brush, 0), 0);
    assert_eq!(table.select_object(hdc, pen, 0), 0);
    assert_eq!(table.select_object(hdc, font, 0), 0);
    assert_eq!(table.select_object(hdc, other, 0), 0);
    let brush2 = table.get_stock_object(&mut handles, 18);
    assert_eq!(table.select_object(hdc, brush2, 0), brush);
    assert_eq!(table.set_bk_mode(hdc, 2), 1);
    assert_eq!(table.get_bk_mode(hdc), 2);
}

#[test]
fn bitmap_object_info() {
    let mut table = GdiTable::new();
    let mut handles = HandleCounter::new();
    let hdc = table.create_compatible_dc(&mut handles, 0);
    let (size, info) = table.get_object_info(0x1001);
    assert_eq!(size, 28);
    assert_eq!(info, Some((1, 1, 2, 1, 0)));
    assert_eq!(table.get_object_info(hdc), (0, None));
}

#[test]
fn region_combination_and_comparison() {
    let mut table = GdiTable::new();
    let mut handles = HandleCounter::new();
    let a = table.create_rect_rgn(&mut handles, 0, 0, 10, 10);
    let b = table.create_rect_rgn(&mut handles, 5, 5, 15, 15);
    let dest = table.create_rect_rgn(&mut handles, 0, 0, 0, 0);
    assert_eq!(table.combine_rgn(dest, a, b, RGN_AND), SIMPLEREGION);
    assert_eq!(table.get_rgn_box(dest), (SIMPLEREGION, Some((5, 5, 10, 10))));
    assert_eq!(table.combine_rgn(dest, a, b, RGN_OR), COMPLEXREGION);
    let c = table.create_rect_rgn(&mut handles, 0, 0, 20, 20);
    let d = table.create_rect_rgn(&mut handles, 20, 0, 0, 20);
    assert_eq!(table.equal_rgn(a, a), 1);
    assert_eq!(table.equal_rgn(a, c), 0);
    assert_eq!(table.get_rgn_box(d).0, NULLREGION);
}

#[test]
fn delete_object_refuses_selected_and_window_regions() {
    let mut table = GdiTable::new();
    let mut handles = HandleCounter::new();
    let mut frame = WinFrame::new(None);
    let mut surfaces = SurfaceBitmaps::new();
    let mut heap = GuestHeap::new(0x10_0000, 0x1000);
    let hdc = table.create_compatible_dc(&mut handles, 0);
    // The default bitmap is selected into the DC.
    assert_eq!(table.delete_object(&frame, &mut surfaces, &mut heap, 0x1001), 0);
    assert!(table.objects.contains_key(&0x1001));
    let rgn = table.create_rect_rgn(&mut handles, 0, 0, 4, 4);
    let mut w = sample_window_state(10, 10);
    w.window_rgn = rgn;
    frame.create_window(0x9000, w);
    assert_eq!(table.delete_object(&frame, &mut surfaces, &mut heap, rgn), 0);
    assert!(table.objects.contains_key(&rgn));
    let free = table.create_rect_rgn(&mut handles, 1, 1, 2, 2);
    assert_eq!(table.delete_object(&frame, &mut surfaces, &mut heap, free), 1);
    assert!(!table.objects.contains_key(&free));
    // An unknown handle is deleted without complaint.
    assert_eq!(table.delete_object(&frame, &mut surfaces, &mut heap, 0xBEEF), 1);
    assert!(table.objects.contains_key(&hdc));
}

#[test]
fn delete_object_frees_dib_section_bits() {
    let mut table = GdiTable::new();
    let mut surfaces = SurfaceBitmaps::new();
    let frame = WinFrame::new(None);
    let mut heap = GuestHeap::new(0x10_0000, 0x1000);
    let bits = heap.alloc_heap_block(64).unwrap();
    assert_eq!(heap.heap_block_size(bits), Some(64));
    table.objects.insert(
        0x5000,
        GdiObject::Bitmap {
            width: 4,
            height: 4,
            pixels: vec![0u32; 16],
            bits_addr: Some(bits),
            stride: 16,
            bit_count: 32,
            top_down: true,
            palette: Vec::new(),
            red_mask: 0,
            green_mask: 0,
            blue_mask: 0,
            alpha_mask: 0,
        },
    );
    surfaces.create_surface_bitmap(0x5000);
    assert_eq!(table.delete_object(&frame, &mut surfaces, &mut heap, 0x5000), 1);
    assert_eq!(heap.heap_block_size(bits), None);
    assert!(!surfaces.is_surface_bitmap(0x5000));
}

#[test]
fn resize_keeps_shared_corner_and_blanks_the_rest() {
    let old = vec![1, 2, 3, 4, 5, 6];
    // 3x2 -> 2x3
    let out = resize_pixels(&old, 3, 2, 2, 3);
    assert_eq!(out, vec![1, 2, 4, 5, 0, 0]);
    // 3x2 -> 4x1
    assert_eq!(resize_pixels(&old, 3, 2, 4, 1), vec![1, 2, 3, 0]);
    assert_eq!(resize_pixels(&old, 3, 2, 0, 5), Vec::<u32>::new());
}

#[test]
fn window_surface_follows_window_size() {
    let mut table = GdiTable::new();
    let mut handles = HandleCounter::new();
    let mut surfaces = SurfaceBitmaps::new();
    let mut frame = WinFrame::new(None);
    let hbmp = table.create_surface_bitmap(&mut handles, &mut surfaces, 2, 2);
    match table.objects.get_mut(&hbmp) {
        Some(GdiObject::Bitmap { pixels, .. }) => {
            pixels.copy_from_slice(&[7, 8, 9, 10]);
        }
        _ => panic!("no surface bitmap"),
    }
    let mut w = sample_window_state(3, 1);
    w.surface_bitmap = hbmp;
    frame.create_window(0x7000, w);
    surfaces.consume_surface_bitmap_full_upload(hbmp);
    table.sync_window_surface_bitmap(&frame, &mut surfaces, 0x7000);
    match table.objects.get(&hbmp) {
        Some(GdiObject::Bitmap { width, height, pixels, stride, .. }) => {
            assert_eq!((*width, *height), (3, 1));
            assert_eq!(pixels.clone(), vec![7, 8, 0]);
            assert_eq!(*stride, 12);
        }
        _ => panic!("no surface bitmap"),
    }
    assert!(surfaces.consume_surface_bitmap_full_upload(hbmp));
    // Same size again: nothing to do.
    table.sync_window_surface_bitmap(&frame, &mut surfaces, 0x7000);
    assert!(!surfaces.consume_surface_bitmap_full_upload(hbmp));
}

#[test]
fn compatible_bitmap_is_blank_24_bit() {
    let mut table = GdiTable::new();
    let mut handles = HandleCounter::new();
    let h = table.create_compatible_bitmap(&mut handles, 0, 5, 2);
    match table.objects.get(&h) {
        Some(GdiObject::Bitmap { width, height, pixels, stride, bit_count, bits_addr, .. }) => {
            assert_eq!((*width, *height, *stride, *bit_count), (5, 2, 16, 24));
            assert_eq!(pixels.len(), 10);
            assert!(pixels.iter().all(|p| *p == 0));
            assert_eq!(*bits_addr, None);
        }
        _ => panic!("no bitmap"),
    }
    let pal = table.create_palette(&mut handles, 16);
    let hdc = table.create_compatible_dc(&mut handles, 0);
    assert_eq!(table.select_object(hdc, pal, 0), 0);
    assert_eq!(table.realize_palette(hdc), 16);
}

#[test]
fn delete_dc_ends_surface_hold() {
    let mut table = GdiTable::new();
    let mut handles = HandleCounter::new();
    let mut surfaces = SurfaceBitmaps::new();
    let hbmp = table.create_surface_bitmap(&mut handles, &mut surfaces, 4, 4);
    let hdc = table.create_compatible_dc(&mut handles, 0);
    table.select_object(hdc, hbmp, 0x7000);
    surfaces.begin_surface_bitmap_dc(hbmp);
    assert!(surfaces.surface_bitmap_dc_active(hbmp));
    assert_eq!(table.delete_dc(&mut surfaces, hdc), 1);
    assert!(!surfaces.surface_bitmap_dc_active(hbmp));
    assert!(!table.objects.contains_key(&hdc));
    assert!(!table.release_gdi_dc(&mut surfaces, hdc));
    assert_eq!(table.delete_dc(&mut surfaces, 0xBEEF), 1);
}

fn pixels_of(table: &GdiTable, h: u32) -> Vec<u32> {
    match table.objects.get(&h) {
        Some(GdiObject::Bitmap { pixels, .. }) => pixels.clone(),
        _ => panic!("no bitmap"),
    }
}

fn set_pixels(table: &mut GdiTable, h: u32, values: &[u32]) {
    match table.objects.get_mut(&h) {
        Some(GdiObject::Bitmap { pixels, .. }) => pixels.copy_from_slice(values),
        _ => panic!("no bitmap"),
    }
}

/// A destination DC over a blank 4x4 bitmap and a source DC over a 2x2
/// bitmap holding 1, 2, 3, 4.
fn two_dcs(table: &mut GdiTable, handles: &mut HandleCounter) -> (u32, u32, u32, u32) {
    let hdc_dest = table.create_compatible_dc(handles, 0);
    let dest = table.create_compatible_bitmap(handles, hdc_dest, 4, 4);
    table.select_object(hdc_dest, dest, 0);
    let hdc_src = table.create_compatible_dc(handles, 0);
    let src = table.create_compatible_bitmap(handles, hdc_src, 2, 2);
    table.select_object(hdc_src, src, 0);
    set_pixels(table, src, &[1, 2, 3, 4]);
    (hdc_dest, dest, hdc_src, src)
}

#[test]
fn bit_blt_copies_into_the_destination_corner() {
    let mut table = GdiTable::new();
    let mut handles = HandleCounter::new();
    let mut surfaces = SurfaceBitmaps::new();
    let (hdc_dest, dest, hdc_src, src) = two_dcs(&mut table, &mut handles);
    let plan = table.bit_blt(&mut surfaces, hdc_dest, 1, 1, 2, 2, hdc_src, 0, 0, SRCCOPY, &|_d: u32, s: u32| s).unwrap();
    assert_eq!((plan.dest_bitmap, plan.src_bitmap, plan.dest_x, plan.dest_y), (dest, src, 1, 1));
    assert_eq!(
        pixels_of(&table, dest),
        vec![0, 0, 0, 0, 0, 1, 2, 0, 0, 3, 4, 0, 0, 0, 0, 0]
    );
    // XOR the same source over it again: the copied cells clear.
    table.bit_blt(&mut surfaces, hdc_dest, 1, 1, 2, 2, hdc_src, 0, 0, SRCINVERT, &|_d: u32, s: u32| s).unwrap();
    assert_eq!(pixels_of(&table, dest), vec![0u32; 16]);
    // Pattern operations and unknown DCs do nothing here.
    assert!(table.bit_blt(&mut surfaces, hdc_dest, 0, 0, 2, 2, hdc_src, 0, 0, PATCOPY, &|_d: u32, s: u32| s).is_none());
    assert!(table.bit_blt(&mut surfaces, 0xBEEF, 0, 0, 2, 2, hdc_src, 0, 0, SRCCOPY, &|_d: u32, s: u32| s).is_none());
}

#[test]
fn bit_blt_clips_to_both_bitmaps_and_the_clip_region() {
    let mut table = GdiTable::new();
    let mut handles = HandleCounter::new();
    let mut surfaces = SurfaceBitmaps::new();
    let mut frame = WinFrame::new(None);
    let (hdc_dest, dest, hdc_src, _src) = two_dcs(&mut table, &mut handles);
    let rgn = table.create_rect_rgn(&mut handles, 0, 0, 4, 1);
    table.select_clip_rgn(&mut handles, &mut frame, hdc_dest, rgn);
    table.bit_blt(&mut surfaces, hdc_dest, -1, 0, 4, 4, hdc_src, 0, 0, SRCCOPY, &|_d: u32, s: u32| s).unwrap();
    // Only row 0 passes the clip; column -1 falls off the bitmap.
    assert_eq!(pixels_of(&table, dest), vec![2, 0, 0, 0, 0, 0, 0, 0, 0, 0, 0, 0, 0, 0, 0, 0]);
}

#[test]
fn stretch_blt_doubles_and_mirrors() {
    let mut table = GdiTable::new();
    let mut handles = HandleCounter::new();
    let mut surfaces = SurfaceBitmaps::new();
    let (hdc_dest, dest, hdc_src, _src) = two_dcs(&mut table, &mut handles);
    table.stretch_blt(&mut surfaces, hdc_dest, 0, 0, 4, 4, hdc_src, 0, 0, 2, 2, SRCCOPY, &|_d: u32, s: u32| s).unwrap();
    assert_eq!(
        pixels_of(&table, dest),
        vec![1, 1, 2, 2, 1, 1, 2, 2, 3, 3, 4, 4, 3, 3, 4, 4]
    );
    table.stretch_blt(&mut surfaces, hdc_dest, 0, 0, -4, 2, hdc_src, 0, 0, 2, 2, SRCCOPY, &|_d: u32, s: u32| s).unwrap();
    assert_eq!(
        pixels_of(&table, dest),
        vec![2, 2, 1, 1, 4, 4, 3, 3, 3, 3, 4, 4, 3, 3, 4, 4]
    );
    assert!(table.stretch_blt(&mut surfaces, hdc_dest, 0, 0, 0, 4, hdc_src, 0, 0, 2, 2, SRCCOPY, &|_d: u32, s: u32| s).is_none());
}

#[test]
fn bit_blt_queues_upload_of_surface_destination() {
    let mut table = GdiTable::new();
    let mut handles = HandleCounter::new();
    let mut surfaces = SurfaceBitmaps::new();
    let hdc_dest = table.create_compatible_dc(&mut handles, 0);
    let surface = table.create_surface_bitmap(&mut handles, &mut surfaces, 4, 4);
    table.select_object(hdc_dest, surface, 0x7000);
    let hdc_src = table.create_compatible_dc(&mut handles, 0);
    let src = table.create_compatible_bitmap(&mut handles, hdc_src, 2, 2);
    table.select_object(hdc_src, src, 0);
    set_pixels(&mut table, src, &[0xFF11_2233; 4]);
    // A presentable first frame turns the pending full upload into content.
    surfaces.mark_surface_bitmap_has_content(surface);
    surfaces.consume_surface_bitmap_full_upload(surface);
    table.bit_blt(&mut surfaces, hdc_dest, 0, 0, 2, 2, hdc_src, 0, 0, SRCINVERT, &|_d: u32, s: u32| s).unwrap();
    let uploads = surfaces.take_surface_bitmap_uploads(surface);
    assert_eq!(uploads.len(), 1);
    assert_eq!((uploads[0].x, uploads[0].y, uploads[0].width, uploads[0].height), (0, 0, 2, 2));
    // A plain copy onto the surface is left for the GPU path.
    table.bit_blt(&mut surfaces, hdc_dest, 0, 0, 2, 2, hdc_src, 0, 0, SRCCOPY, &|_d: u32, s: u32| s).unwrap();
    assert!(surfaces.take_surface_bitmap_uploads(surface).is_empty());
}

#[test]
fn set_dib_its_to_device_blends_scanlines_in() {
    let mut table = GdiTable::new();
    let mut handles = HandleCounter::new();
    let mut surfaces = SurfaceBitmaps::new();
    let (hdc_dest, dest, _hdc_src, _src) = two_dcs(&mut table, &mut handles);
    let src = [1u32, 2, 3, 4, 5, 6];
    // A 3x2 image; copy 2x2 from (1, 0) to (2, 2).
    let target = table
        .set_dib_its_to_device(&mut surfaces, hdc_dest, 2, 2, 2, 2, 1, 0, &src, 3, 2, &|_d: u32, s: u32| s)
        .unwrap();
    assert_eq!(target.dest_bitmap, dest);
    assert_eq!(target.dest_rect, (2, 2, 4, 4));
    assert_eq!(
        pixels_of(&table, dest),
        vec![0, 0, 0, 0, 0, 0, 0, 0, 0, 0, 2, 3, 0, 0, 5, 6]
    );
    assert!(table
        .set_dib_its_to_device(&mut surfaces, 0xBEEF, 0, 0, 1, 1, 0, 0, &src, 3, 2, &|_d: u32, s: u32| s)
        .is_none());
}

#[test]
fn covering_dib_transfer_schedules_full_upload() {
    let mut table = GdiTable::new();
    let mut handles = HandleCounter::new();
    let mut surfaces = SurfaceBitmaps::new();
    let hdc = table.create_compatible_dc(&mut handles, 0);
    let surface = table.create_surface_bitmap(&mut handles, &mut surfaces, 2, 1);
    table.select_object(hdc, surface, 0x7000);
    surfaces.consume_surface_bitmap_full_upload(surface);
    assert!(!surfaces.surface_bitmap_has_content(surface));
    let src = [9u32, 8];
    table
        .set_dib_its_to_device(&mut surfaces, hdc, 0, 0, 2, 1, 0, 0, &src, 2, 1, &|_d: u32, s: u32| s)
        .unwrap();
    assert_eq!(pixels_of(&table, surface), vec![9, 8]);
    assert!(surfaces.surface_bitmap_has_content(surface));
    assert!(surfaces.consume_surface_bitmap_full_upload(surface));
}

#[test]
fn stretch_dib_its_scales_the_image() {
    let mut table = GdiTable::new();
    let mut handles = HandleCounter::new();
    let mut surfaces = SurfaceBitmaps::new();
    let (hdc_dest, dest, _hdc_src, _src) = two_dcs(&mut table, &mut handles);
    let src = [1u32, 2, 3, 4];
    let target = table
        .stretch_dib_its(&mut surfaces, hdc_dest, 0, 0, 4, 4, 0, 0, 2, 2, &src, 2, 2, SRCCOPY, &|_d: u32, s: u32| s)
        .unwrap();
    assert_eq!(target.dest_rect, (0, 0, 4, 4));
    assert_eq!(
        pixels_of(&table, dest),
        vec![1, 1, 2, 2, 1, 1, 2, 2, 3, 3, 4, 4, 3, 3, 4, 4]
    );
    assert!(table
        .stretch_dib_its(&mut surfaces, hdc_dest, 0, 0, 4, 4, 0, 0, 2, 2, &src, 2, 2, PATCOPY, &|_d: u32, s: u32| s)
        .is_none());
}

fn header_2x2_32bpp(top_down: bool) -> DibHeaderInfo {
    DibHeaderInfo {
        width: 2,
        height: 2,
        top_down,
        stride: 8,
        bit_count: 32,
        palette: Vec::new(),
        red_mask: 0,
        green_mask: 0,
        blue_mask: 0,
        alpha_mask: 0,
    }
}

#[test]
fn dib_section_round_trips_through_guest_bits() {
    let mut table = GdiTable::new();
    let mut handles = HandleCounter::new();
    let h = table.create_dib_section(&mut handles, header_2x2_32bpp(false), 0x40_0000);
    assert_eq!(pixels_of(&table, h), vec![0; 4]);
    set_pixels(&mut table, h, &[0x112233, 0x445566, 0x778899, 0xAABBCC]);
    let (addr, raw) = table.dib_section_flush(h).unwrap();
    assert_eq!(addr, 0x40_0000);
    assert_eq!(raw.len(), 16);
    // Bottom-up: the last image row is stored first, blue byte first.
    assert_eq!(&raw[0..4], &[0x99, 0x88, 0x77, 0xFF]);
    assert_eq!(&raw[8..12], &[0x33, 0x22, 0x11, 0xFF]);
    set_pixels(&mut table, h, &[0, 0, 0, 0]);
    table.dib_section_sync(h, &raw);
    assert_eq!(pixels_of(&table, h), vec![0x112233, 0x445566, 0x778899, 0xAABBCC]);
    // Empty reads change nothing; plain bitmaps are no DIB sections.
    table.dib_section_sync(h, &[]);
    assert_eq!(pixels_of(&table, h), vec![0x112233, 0x445566, 0x778899, 0xAABBCC]);
    let plain = table.create_compatible_bitmap(&mut handles, 0, 1, 1);
    assert!(table.dib_section_flush(plain).is_none());
}

#[test]
fn fonts_default_to_twelve_pixels() {
    let mut table = GdiTable::new();
    let mut handles = HandleCounter::new();
    let a = table.create_font(&mut handles, "Gulim".to_string(), 0);
    let b = table.create_font(&mut handles, "Dotum".to_string(), -16);
    match table.objects.get(&a) {
        Some(GdiObject::Font { name, height }) => assert_eq!((name.as_str(), *height), ("Gulim", 12)),
        _ => panic!("no font"),
    }
    match table.objects.get(&b) {
        Some(GdiObject::Font { height, .. }) => assert_eq!(*height, -16),
        _ => panic!("no font"),
    }
    assert_eq!(table.get_object_info(a), (60, None));
    let hdc = table.create_compatible_dc(&mut handles, 0);
    assert_eq!(table.select_object(hdc, a, 0), 0);
    assert_eq!(table.select_object(hdc, b, 0), a);
}

#[test]
fn xor_blit_twice_gives_the_destination_back() {
    let mut table = GdiTable::new();
    let mut handles = HandleCounter::new();
    let mut surfaces = SurfaceBitmaps::new();
    let (hdc_dest, dest, hdc_src, _src) = two_dcs(&mut table, &mut handles);
    let start: Vec<u32> = (0..16).map(|i| 0xFF00_0000 | (i * 0x010203)).collect();
    set_pixels(&mut table, dest, &start);
    table.bit_blt(&mut surfaces, hdc_dest, 1, 0, 2, 2, hdc_src, 0, 0, SRCINVERT, &|_d: u32, s: u32| s).unwrap();
    assert_ne!(pixels_of(&table, dest), start);
    table.bit_blt(&mut surfaces, hdc_dest, 1, 0, 2, 2, hdc_src, 0, 0, SRCINVERT, &|_d: u32, s: u32| s).unwrap();
    assert_eq!(pixels_of(&table, dest), start);
}

#[test]
fn selecting_back_restores_the_dc() {
    let mut table = GdiTable::new();
    let mut handles = HandleCounter::new();
    let hdc = table.create_compatible_dc(&mut handles, 0);
    let f1 = table.create_font(&mut handles, "A".to_string(), 10);
    let f2 = table.create_font(&mut handles, "B".to_string(), 20);
    assert_eq!(table.select_object(hdc, f1, 0), 0);
    let prev = table.select_object(hdc, f2, 0);
    assert_eq!(prev, f1);
    assert_eq!(table.select_object(hdc, prev, 0), f2);
    match table.objects.get(&hdc) {
        Some(GdiObject::Dc { selected_font, .. }) => assert_eq!(*selected_font, f1),
        _ => panic!("no dc"),
    }
}

#[test]
fn gpu_copy_targets_are_clipped_twice() {
    // No clip region: the bitmap bounds cut the destination.
    assert_eq!(gpu_blit_rects((-2, -2, 3, 3), 4, 4, &None), vec![(0, 0, 3, 3)]);
    assert_eq!(gpu_blit_rects((5, 5, 8, 8), 4, 4, &None), Vec::<(i32, i32, i32, i32)>::new());
    // With a clip region: each clip rectangle, then the bounds.
    let clip = Some(vec![(0, 0, 2, 10), (3, 0, 10, 1), (20, 20, 30, 30)]);
    assert_eq!(gpu_blit_rects((1, 0, 6, 6), 4, 4, &clip), vec![(1, 0, 2, 4), (3, 0, 4, 1)]);
}

#[test]
fn source_rectangle_is_cut_out_row_by_row() {
    let px: Vec<u32> = (0..12).collect();
    // A 4x3 bitmap; the rectangle hangs off the left edge.
    assert_eq!(clipped_rect_pixels(&px, 4, 3, -1, 1, 2, 3), Some((0, 1, 2, 2, vec![4, 5, 8, 9])));
    assert_eq!(clipped_rect_pixels(&px, 4, 3, 4, 0, 9, 3), None);
}

#[test]
fn create_bitmap_decodes_initial_bits() {
    let mut table = GdiTable::new();
    let mut handles = HandleCounter::new();
    let bits = [0x33u8, 0x22, 0x11, 0x66, 0x55, 0x44, 0, 0];
    let h = table.create_bitmap(&mut handles, 2, 1, 24, &bits);
    assert_eq!(pixels_of(&table, h), vec![0x112233, 0x445566]);
    match table.objects.get(&h) {
        Some(GdiObject::Bitmap { stride, bit_count, top_down, .. }) => {
            assert_eq!((*stride, *bit_count, *top_down), (8, 24, false));
        }
        _ => panic!("no bitmap"),
    }
    // Zero sizes and depth read as one; no bits leave it black.
    let e = table.create_bitmap(&mut handles, 0, 0, 0, &[]);
    match table.objects.get(&e) {
        Some(GdiObject::Bitmap { width, height, bit_count, pixels, .. }) => {
            assert_eq!((*width, *height, *bit_count, pixels.clone()), (1, 1, 1, vec![0]));
        }
        _ => panic!("no bitmap"),
    }
}
