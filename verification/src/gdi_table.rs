//! The guest's GDI objects by handle: bitmaps, device contexts, fonts,
//! brushes, pens, regions, palettes and stock objects, and what the GDI
//! calls do to them.

use vstd::prelude::*;
use std::collections::HashMap;
use crate::geometry::Rect;
use crate::kernel32::HandleCounter;
use crate::region::{combine_region, regions_equal, region_box, region_complexity, spec_region_complexity, spec_bounding_box,
    combine_contains, RGN_COPY, ERROR, SIMPLEREGION, NULLREGION};
use crate::region_spec::is_banded_form;
use crate::geometry::{rects_contain, same_coverage, rect_nonempty};
use crate::frame::{WindowFrameMetrics, infer_guest_frame_from_clip_rects, frame_inference_applies, has_frame_candidate, is_chosen_frame};
use crate::win_frame::{WinFrame, frame_applied, surface_target};
use crate::surface::{SurfaceBitmaps, dc_ended, fresh_sync, dirtied, with_content};
use crate::heap::GuestHeap;
use crate::dib::{aligned_stride, spec_aligned_stride, dib_effective_stride, spec_dib_effective_stride, DibHeaderInfo, raw_dib_to_pixels, pixels_to_raw_dib, stride_in_use,
    encode_prefix, image_write_fits, image_read_fits, spec_read_dib_pixel, source_row};
use crate::blit::{BlitArea, StretchArea, blit_pixels, stretch_pixels, blit_source, stretch_source, rop_result, in_clip, clip_view, abs_int,
    SRCCOPY, SRCAND, SRCPAINT, SRCINVERT};
use vstd::std_specs::hash::spec_hash_map_iter;
use vstd::std_specs::iter::IteratorSpec;

verus! {

broadcast use vstd::std_specs::hash::group_hash_axioms;

/// A GDI object.
#[derive(Debug, Clone)]
pub enum GdiObject {
    Bitmap {
        width: u32,
        height: u32,
        /// The pixels as ARGB, row-major.
        pixels: Vec<u32>,
        /// Where the guest sees the bits of a DIB section.
        bits_addr: Option<u32>,
        stride: u32,
        bit_count: u16,
        top_down: bool,
        palette: Vec<u32>,
        red_mask: u32,
        green_mask: u32,
        blue_mask: u32,
        alpha_mask: u32,
    },
    Dc {
        /// The window whose surface bitmap is selected, or 0.
        associated_window: u32,
        width: i32,
        height: i32,
        origin_x: i32,
        origin_y: i32,
        selected_bitmap: u32,
        selected_font: u32,
        selected_brush: u32,
        selected_pen: u32,
        selected_region: u32,
        selected_palette: u32,
        bk_mode: i32,
        bk_color: u32,
        text_color: u32,
        rop2_mode: i32,
        current_x: i32,
        current_y: i32,
    },
    Font { name: String, height: i32 },
    Brush { color: u32 },
    Pen { style: u32, width: u32, color: u32 },
    Region { rects: Vec<Rect> },
    Palette { num_entries: u32 },
    StockObject(u32),
}

/// The fields of a device context.
#[derive(Debug, Clone, Copy, PartialEq, Eq, Structural)]
pub struct DcState {
    pub associated_window: u32,
    pub width: i32,
    pub height: i32,
    pub origin_x: i32,
    pub origin_y: i32,
    pub selected_bitmap: u32,
    pub selected_font: u32,
    pub selected_brush: u32,
    pub selected_pen: u32,
    pub selected_region: u32,
    pub selected_palette: u32,
    pub bk_mode: i32,
    pub bk_color: u32,
    pub text_color: u32,
    pub rop2_mode: i32,
    pub current_x: i32,
    pub current_y: i32,
}

/// The fields of `o` when it is a device context.
pub open spec fn dc_view(o: GdiObject) -> Option<DcState> {
    match o {
        GdiObject::Dc {
            associated_window, width, height, origin_x, origin_y, selected_bitmap, selected_font,
            selected_brush, selected_pen, selected_region, selected_palette, bk_mode, bk_color,
            text_color, rop2_mode, current_x, current_y,
        } => Some(DcState {
            associated_window, width, height, origin_x, origin_y, selected_bitmap, selected_font,
            selected_brush, selected_pen, selected_region, selected_palette, bk_mode, bk_color,
            text_color, rop2_mode, current_x, current_y,
        }),
        _ => None,
    }
}

/// The device context with these fields.
pub open spec fn dc_of(s: DcState) -> GdiObject {
    GdiObject::Dc {
        associated_window: s.associated_window,
        width: s.width,
        height: s.height,
        origin_x: s.origin_x,
        origin_y: s.origin_y,
        selected_bitmap: s.selected_bitmap,
        selected_font: s.selected_font,
        selected_brush: s.selected_brush,
        selected_pen: s.selected_pen,
        selected_region: s.selected_region,
        selected_palette: s.selected_palette,
        bk_mode: s.bk_mode,
        bk_color: s.bk_color,
        text_color: s.text_color,
        rop2_mode: s.rop2_mode,
        current_x: s.current_x,
        current_y: s.current_y,
    }
}

fn make_dc(s: DcState) -> (o: GdiObject)
    ensures
        o == dc_of(s),
        dc_view(o) == Some(s),
{
    GdiObject::Dc {
        associated_window: s.associated_window,
        width: s.width,
        height: s.height,
        origin_x: s.origin_x,
        origin_y: s.origin_y,
        selected_bitmap: s.selected_bitmap,
        selected_font: s.selected_font,
        selected_brush: s.selected_brush,
        selected_pen: s.selected_pen,
        selected_region: s.selected_region,
        selected_palette: s.selected_palette,
        bk_mode: s.bk_mode,
        bk_color: s.bk_color,
        text_color: s.text_color,
        rop2_mode: s.rop2_mode,
        current_x: s.current_x,
        current_y: s.current_y,
    }
}

fn read_dc(o: &GdiObject) -> (r: Option<DcState>)
    ensures
        r == dc_view(*o),
{
    match o {
        GdiObject::Dc {
            associated_window, width, height, origin_x, origin_y, selected_bitmap, selected_font,
            selected_brush, selected_pen, selected_region, selected_palette, bk_mode, bk_color,
            text_color, rop2_mode, current_x, current_y,
        } => Some(DcState {
            associated_window: *associated_window,
            width: *width,
            height: *height,
            origin_x: *origin_x,
            origin_y: *origin_y,
            selected_bitmap: *selected_bitmap,
            selected_font: *selected_font,
            selected_brush: *selected_brush,
            selected_pen: *selected_pen,
            selected_region: *selected_region,
            selected_palette: *selected_palette,
            bk_mode: *bk_mode,
            bk_color: *bk_color,
            text_color: *text_color,
            rop2_mode: *rop2_mode,
            current_x: *current_x,
            current_y: *current_y,
        }),
        _ => None,
    }
}

/// The fields of a bitmap, its buffers as sequences.
pub struct BitmapView {
    pub width: u32,
    pub height: u32,
    pub pixels: Seq<u32>,
    pub bits_addr: Option<u32>,
    pub stride: u32,
    pub bit_count: u16,
    pub top_down: bool,
    pub palette: Seq<u32>,
    pub masks: (u32, u32, u32, u32),
}

pub open spec fn bitmap_view(o: GdiObject) -> Option<BitmapView> {
    match o {
        GdiObject::Bitmap {
            width, height, pixels, bits_addr, stride, bit_count, top_down, palette, red_mask, green_mask,
            blue_mask, alpha_mask,
        } => Some(BitmapView {
            width, height, pixels: pixels@, bits_addr, stride, bit_count, top_down, palette: palette@,
            masks: (red_mask, green_mask, blue_mask, alpha_mask),
        }),
        _ => None,
    }
}

/// The rectangles of `o` when it is a region.
pub open spec fn region_view(o: GdiObject) -> Option<Seq<Rect>> {
    match o {
        GdiObject::Region { rects } => Some(rects@),
        _ => None,
    }
}

/// The handle `h` and what `SelectObject(hdc, h)` does to a DC `s` when `h`
/// names `obj`: the DC's new fields and the handle it held in that slot, or
/// `None` when `obj` has no slot in a DC (a DC, an unknown handle, or a
/// stock object of no kind the DC holds). A bitmap also binds the DC to
/// `window` (the window that shows it, or 0) and gives it its size.
pub open spec fn selection(s: DcState, obj: Option<GdiObject>, h: u32, window: u32) -> Option<(DcState, u32)> {
    match obj {
        Some(GdiObject::Bitmap { width, height, .. }) => Some((DcState {
            selected_bitmap: h, associated_window: window, width: width as i32, height: height as i32, ..s
        }, s.selected_bitmap)),
        Some(GdiObject::Font { .. }) => Some((DcState { selected_font: h, ..s }, s.selected_font)),
        Some(GdiObject::Brush { .. }) => Some((DcState { selected_brush: h, ..s }, s.selected_brush)),
        Some(GdiObject::Pen { .. }) => Some((DcState { selected_pen: h, ..s }, s.selected_pen)),
        Some(GdiObject::Region { .. }) => Some((DcState { selected_region: h, ..s }, s.selected_region)),
        Some(GdiObject::Palette { .. }) => Some((DcState { selected_palette: h, ..s }, s.selected_palette)),
        Some(GdiObject::StockObject(id)) => if id < 5 || id == 18 {
            Some((DcState { selected_brush: h, ..s }, s.selected_brush))
        } else if 5 <= id <= 8 {
            Some((DcState { selected_pen: h, ..s }, s.selected_pen))
        } else if 10 <= id <= 17 {
            Some((DcState { selected_font: h, ..s }, s.selected_font))
        } else {
            None
        },
        _ => None,
    }
}

/// The 1x1 monochrome bitmap a new memory DC starts with.
pub open spec fn is_default_dc_bitmap(o: GdiObject) -> bool {
    bitmap_view(o) == Some(BitmapView {
        width: 1, height: 1, pixels: seq![0u32], bits_addr: None, stride: 4, bit_count: 1, top_down: false,
        palette: seq![0u32, 0x00FF_FFFFu32], masks: (0, 0, 0, 0),
    })
}

/// The fields of a new memory DC of the given size with `bitmap` selected.
pub open spec fn new_memory_dc(width: i32, height: i32, bitmap: u32) -> DcState {
    DcState {
        associated_window: 0, width, height, origin_x: 0, origin_y: 0, selected_bitmap: bitmap,
        selected_font: 0, selected_brush: 0, selected_pen: 0, selected_region: 0, selected_palette: 0,
        bk_mode: 1, bk_color: 0xFFFF_FFFF, text_color: 0xFF00_0000, rop2_mode: 13, current_x: 0, current_y: 0,
    }
}

/// `GetDeviceCaps` of a DC of the given size: its size in pixels and in
/// millimetres at 96 DPI, 96 DPI, 32 bits per pixel, one plane, 24-bit
/// colour; 0 for any other index.
pub open spec fn device_cap(width: i32, height: i32, index: u32) -> i32 {
    let w1 = if width > 1 { width as int } else { 1 };
    let h1 = if height > 1 { height as int } else { 1 };
    if index == 1 || index == 20 {
        width
    } else if index == 2 || index == 21 {
        height
    } else if index == 3 {
        (w1 * 254 / 96) as i32
    } else if index == 4 {
        (h1 * 254 / 96) as i32
    } else if index == 5 || index == 6 || index == 22 || index == 23 {
        96
    } else if index == 10 || index == 12 || index == 24 {
        32
    } else if index == 11 {
        1
    } else if index == 16 {
        0x100_0000
    } else {
        0
    }
}

/// `GetObject` on a bitmap: width, height, bytes per row (rounded up to a
/// whole number of 16-bit words, at least 1), bits per pixel and the guest
/// address of the bits (0 when none).
pub open spec fn bitmap_info(b: BitmapView) -> (u32, u32, u32, u16, u32) {
    let bpp = if b.bit_count > 1 { b.bit_count as int } else { 1 };
    let words = (b.width * bpp + 15) / 16;
    let wb = if words * 2 > 1 { words * 2 } else { 1 };
    (b.width, b.height, wb as u32, b.bit_count, match b.bits_addr { Some(a) => a, None => 0 })
}

/// What the frame inference answers for a window of the given size clipped
/// to `rects` (the contract of `infer_guest_frame_from_clip_rects`).
pub open spec fn inferred_frame(width: i32, height: i32, rects: Seq<Rect>, m: Option<WindowFrameMetrics>) -> bool {
    &&& !frame_inference_applies(width, height, rects) ==> m is None
    &&& frame_inference_applies(width, height, rects) ==> (m is Some <==> has_frame_candidate(rects, width, height))
    &&& m matches Some(f) ==> is_chosen_frame(rects, width, height, f.left as int, width - f.right, f.top as int, height - f.bottom)
}

/// The windows after the frame `m`, if any, is recorded for window `hwnd`.
pub open spec fn frame_recorded(windows: Map<u32, crate::win_frame::WindowState>, hwnd: u32, m: Option<WindowFrameMetrics>)
    -> Map<u32, crate::win_frame::WindowState> {
    match m {
        Some(f) => if windows.contains_key(hwnd) { windows.insert(hwnd, frame_applied(windows[hwnd], f)) } else { windows },
        None => windows,
    }
}

/// The rectangles `SelectClipRgn` copies: those of `hrgn` when it is a region.
pub open spec fn clip_source(t: GdiTable, hrgn: u32) -> Option<Seq<Rect>> {
    if hrgn != 0 { t.region(hrgn) } else { None }
}

/// The handle of the copy (`next`, the next free handle), or 0 without one.
pub open spec fn clip_copy(t: GdiTable, next: u32, hrgn: u32) -> u32 {
    if clip_source(t, hrgn) is Some { next } else { 0 }
}

/// The DC that receives the clip region, once the copy exists.
pub open spec fn clip_dc(t: GdiTable, next: u32, hdc: u32, hrgn: u32) -> Option<DcState> {
    if clip_source(t, hrgn) is Some && hdc == next { None } else { t.dc(hdc) }
}

/// Whether the DC takes the region: it is a DC, and the region is none or copied.
pub open spec fn clip_accepted(t: GdiTable, next: u32, hdc: u32, hrgn: u32) -> bool {
    clip_dc(t, next, hdc, hrgn) is Some && (hrgn == 0 || clip_copy(t, next, hrgn) != 0)
}

pub open spec fn clip_result(t: GdiTable, next: u32, hdc: u32, hrgn: u32) -> i32 {
    match clip_dc(t, next, hdc, hrgn) {
        None => 0,
        Some(_) => if hrgn == 0 || clip_copy(t, next, hrgn) != 0 {
            match clip_source(t, hrgn) { Some(r) => spec_region_complexity(r.len()), None => SIMPLEREGION }
        } else {
            ERROR
        },
    }
}

/// The objects afterwards: the copy added (as `after` holds it) and the DC
/// updated when it takes the region.
pub open spec fn clip_objects(t: GdiTable, next: u32, hdc: u32, hrgn: u32, after: Map<u32, GdiObject>) -> Map<u32, GdiObject> {
    let o1 = if clip_source(t, hrgn) is Some { t.objs().insert(next, after[next]) } else { t.objs() };
    if clip_accepted(t, next, hdc, hrgn) {
        o1.insert(hdc, dc_of(DcState { selected_region: clip_copy(t, next, hrgn), ..clip_dc(t, next, hdc, hrgn)->0 }))
    } else {
        o1
    }
}

/// Whether the window's frame is read off the region: a window DC at the
/// window's origin takes a region.
pub open spec fn clip_frame_applies(t: GdiTable, next: u32, hdc: u32, hrgn: u32) -> bool {
    &&& clip_accepted(t, next, hdc, hrgn)
    &&& clip_dc(t, next, hdc, hrgn)->0.associated_window != 0
    &&& clip_dc(t, next, hdc, hrgn)->0.origin_x == 0
    &&& clip_dc(t, next, hdc, hrgn)->0.origin_y == 0
    &&& clip_source(t, hrgn) is Some
}

fn copy_rect_list(v: &Vec<Rect>) -> (r: Vec<Rect>)
    ensures
        r@ == v@,
{
    let mut out: Vec<Rect> = Vec::new();
    let mut i: usize = 0;
    while i < v.len()
        invariant
            0 <= i <= v@.len(),
            out@ == v@.take(i as int),
        decreases v@.len() - i,
    {
        out.push(v[i]);
        proof {
            assert(v@.take(i + 1) =~= v@.take(i as int).push(v@[i as int]));
        }
        i = i + 1;
    }
    proof {
        assert(v@.take(v@.len() as int) =~= v@);
    }
    out
}

/// `o` is a device context with `h` in one of its selection slots.
pub open spec fn selects(o: GdiObject, h: u32) -> bool {
    match dc_view(o) {
        Some(s) => s.selected_bitmap == h || s.selected_font == h || s.selected_brush == h || s.selected_pen == h
            || s.selected_region == h || s.selected_palette == h,
        None => false,
    }
}

fn selects_exec(o: &GdiObject, h: u32) -> (r: bool)
    ensures
        r == selects(*o, h),
{
    match o {
        GdiObject::Dc { selected_bitmap, selected_font, selected_brush, selected_pen, selected_region, selected_palette, .. } =>
            *selected_bitmap == h || *selected_font == h || *selected_brush == h || *selected_pen == h
                || *selected_region == h || *selected_palette == h,
        _ => false,
    }
}

/// Where the guest sees the bits of the DIB section `h`, if `h` is one.
pub open spec fn freed_bits(t: GdiTable, h: u32) -> Option<u32> {
    if t.objs().contains_key(h) {
        match t.objs()[h] {
            GdiObject::Bitmap { bits_addr, .. } => bits_addr,
            _ => None,
        }
    } else {
        None
    }
}

/// The pixel at row `r`, column `c` of a bitmap resized from `old_w x
/// old_h` pixels `old`: the old pixel where the old bitmap has one, else
/// black.
pub open spec fn resized_pixel(old: Seq<u32>, old_w: int, old_h: int, r: int, c: int) -> u32 {
    if r < old_h && c < old_w { old[r * old_w + c] } else { 0 }
}

/// `old` holds every pixel that a resize to `new_w x new_h` copies.
pub open spec fn resize_fits(old_len: int, old_w: int, old_h: int, new_w: int, new_h: int) -> bool {
    let cw = if old_w < new_w { old_w } else { new_w };
    let ch = if old_h < new_h { old_h } else { new_h };
    cw > 0 && ch > 0 ==> (ch - 1) * old_w + cw <= old_len
}

proof fn lemma_cell_distinct(r1: int, c1: int, r2: int, c2: int, w: int)
    requires
        0 <= r1,
        0 <= r2,
        0 <= c1 < w,
        0 <= c2 < w,
        r1 < r2 || (r1 == r2 && c1 < c2),
    ensures
        r1 * w + c1 < r2 * w + c2,
{
    if r1 < r2 {
        assert(r1 * w + w <= r2 * w) by (nonlinear_arith)
            requires
                r1 + 1 <= r2,
                0 <= w;
    }
}

/// The pixels of a `new_w x new_h` bitmap that keeps the part it shares
/// with the `old_w x old_h` pixels `old`, row by row, and is black elsewhere.
pub fn resize_pixels(old: &[u32], old_w: u32, old_h: u32, new_w: u32, new_h: u32) -> (out: Vec<u32>)
    requires
        resize_fits(old@.len() as int, old_w as int, old_h as int, new_w as int, new_h as int),
        new_w * new_h <= usize::MAX,
    ensures
        out@.len() == new_w * new_h,
        forall|r: int, c: int| 0 <= r < new_h && 0 <= c < new_w ==>
            #[trigger] out@[r * new_w + c] == resized_pixel(old@, old_w as int, old_h as int, r, c),
{
    let copy_w: u32 = if old_w < new_w { old_w } else { new_w };
    let copy_h: u32 = if old_h < new_h { old_h } else { new_h };
    let n: usize = old.len();
    let mut out: Vec<u32> = Vec::new();
    let mut r: u32 = 0;
    while r < new_h
        invariant
            r <= new_h,
            n == old@.len(),
            copy_w == (if old_w < new_w { old_w } else { new_w }),
            copy_h == (if old_h < new_h { old_h } else { new_h }),
            resize_fits(old@.len() as int, old_w as int, old_h as int, new_w as int, new_h as int),
            new_w * new_h <= usize::MAX,
            out@.len() == r * new_w,
            forall|r2: int, c2: int| 0 <= r2 < r && 0 <= c2 < new_w ==>
                #[trigger] out@[r2 * new_w + c2] == resized_pixel(old@, old_w as int, old_h as int, r2, c2),
        decreases new_h - r,
    {
        let ghost before = out@;
        let mut c: u32 = 0;
        proof {
            assert(r * new_w + new_w <= new_w * new_h) by (nonlinear_arith)
                requires
                    r < new_h;
        }
        while c < new_w
            invariant
                r < new_h,
                c <= new_w,
                n == old@.len(),
                copy_w == (if old_w < new_w { old_w } else { new_w }),
                copy_h == (if old_h < new_h { old_h } else { new_h }),
                resize_fits(old@.len() as int, old_w as int, old_h as int, new_w as int, new_h as int),
                r * new_w + new_w <= new_w * new_h,
                new_w * new_h <= usize::MAX,
                out@.len() == r * new_w + c,
                out@.subrange(0, r * new_w) == before,
                before.len() == r * new_w,
                forall|c2: int| 0 <= c2 < c ==>
                    #[trigger] out@[r * new_w + c2] == resized_pixel(old@, old_w as int, old_h as int, r as int, c2),
            decreases new_w - c,
        {
            let v = if r < copy_h && c < copy_w {
                proof {
                    assert(r * old_w <= (copy_h - 1) * old_w) by (nonlinear_arith)
                        requires
                            r <= copy_h - 1;
                    assert((copy_h - 1) * old_w + copy_w <= old@.len());
                    assert(r * old_w + c < old@.len());
                    assert((r as usize) * (old_w as usize) == r * old_w);
                }
                old[(r as usize) * (old_w as usize) + (c as usize)]
            } else {
                0
            };
            out.push(v);
            c += 1;
        }
        proof {
            assert forall|r2: int, c2: int| 0 <= r2 < r + 1 && 0 <= c2 < new_w implies
                #[trigger] out@[r2 * new_w + c2] == resized_pixel(old@, old_w as int, old_h as int, r2, c2) by {
                if r2 < r {
                    lemma_cell_distinct(r2, c2, r as int, 0, new_w as int);
                    assert(out@[r2 * new_w + c2] == before[r2 * new_w + c2]);
                }
            }
        }
        proof {
            assert((r + 1) * new_w == r * new_w + new_w) by (nonlinear_arith);
        }
        r += 1;
    }
    proof {
        assert(new_h * new_w == new_w * new_h) by (nonlinear_arith);
    }
    out
}

/// A blank 24-bit `width x height` bitmap with no guest-visible bits.
pub open spec fn is_blank_bitmap(o: GdiObject, width: u32, height: u32) -> bool {
    &&& bitmap_view(o) matches Some(b)
    &&& b.width == width
    &&& b.height == height
    &&& b.pixels == Seq::new((width * height) as nat, |i: int| 0u32)
    &&& b.bits_addr is None
    &&& b.stride == spec_aligned_stride(width, 24)
    &&& b.bit_count == 24
    &&& !b.top_down
    &&& b.palette == Seq::<u32>::empty()
    &&& b.masks == (0u32, 0u32, 0u32, 0u32)
}

fn blank_bitmap(width: u32, height: u32) -> (o: GdiObject)
    requires
        width * height <= usize::MAX,
    ensures
        is_blank_bitmap(o, width, height),
{
    let n: usize = (width as usize) * (height as usize);
    let pixels: Vec<u32> = vec![0u32; n];
    let o = GdiObject::Bitmap {
        width, height, pixels, bits_addr: None, stride: aligned_stride(width, 24), bit_count: 24, top_down: false,
        palette: Vec::new(), red_mask: 0, green_mask: 0, blue_mask: 0, alpha_mask: 0,
    };
    proof {
        assert(bitmap_view(o)->0.pixels =~= Seq::new((width * height) as nat, |i: int| 0u32));
        assert(bitmap_view(o)->0.palette =~= Seq::<u32>::empty());
    }
    o
}

/// The bitmap `b` resized to `tw x th`, keeping what both sizes share.
pub open spec fn resized_bitmap(b: BitmapView, tw: u32, th: u32) -> BitmapView {
    BitmapView {
        width: tw,
        height: th,
        pixels: Seq::new((tw * th) as nat, |k: int| resized_pixel(b.pixels, b.width as int, b.height as int, k / (tw as int), k % (tw as int))),
        stride: spec_aligned_stride(tw, 24) as u32,
        ..b
    }
}

proof fn lemma_row_col(k: int, w: int, h: int)
    requires
        0 <= h,
        0 <= k < w * h,
    ensures
        w > 0,
        0 <= k / w < h,
        0 <= k % w < w,
        k == (k / w) * w + k % w,
{
    if w <= 0 {
        assert(w * h <= 0) by (nonlinear_arith)
            requires
                w <= 0,
                0 <= h;
    }
    vstd::arithmetic::div_mod::lemma_fundamental_div_mod(k, w);
    assert(w * (k / w) == (k / w) * w) by (nonlinear_arith);
    assert(0 <= k / w) by (nonlinear_arith)
        requires
            0 <= k,
            0 < w;
    assert(k / w < h) by (nonlinear_arith)
        requires
            0 <= k < w * h,
            0 < w,
            k == (k / w) * w + k % w,
            0 <= k % w;
}

/// The fields of the bitmap `h`, if `h` is one.
pub open spec fn bitmap_at(t: GdiTable, h: u32) -> Option<BitmapView> {
    if t.objs().contains_key(h) { bitmap_view(t.objs()[h]) } else { None }
}

/// A raster operation that combines source and destination pixels.
pub open spec fn is_bitmap_rop(rop: u32) -> bool {
    rop == SRCCOPY || rop == SRCAND || rop == SRCPAINT || rop == SRCINVERT
}

/// What a copy between two DCs works on: the bitmaps selected in the
/// destination and source DCs, the window the destination shows, and the
/// copy's corners in the two bitmaps (the given corners moved by each DC's
/// origin).
#[derive(Clone, Copy, Debug, PartialEq, Eq, Structural)]
pub struct BlitPlan {
    pub dest_bitmap: u32,
    pub src_bitmap: u32,
    pub dest_window: u32,
    pub dest_x: i32,
    pub dest_y: i32,
    pub src_x: i32,
    pub src_y: i32,
}

/// The plan of a copy from `hdc_src` to `hdc_dest`: both must be DCs with a
/// bitmap selected.
pub open spec fn blit_plan(t: GdiTable, hdc_dest: u32, x_dest: i32, y_dest: i32, hdc_src: u32, x_src: i32, y_src: i32) -> Option<BlitPlan> {
    match (t.dc(hdc_dest), t.dc(hdc_src)) {
        (Some(d), Some(s)) => if d.selected_bitmap != 0 && s.selected_bitmap != 0
            && bitmap_at(t, d.selected_bitmap) is Some && bitmap_at(t, s.selected_bitmap) is Some {
            Some(BlitPlan {
                dest_bitmap: d.selected_bitmap,
                src_bitmap: s.selected_bitmap,
                dest_window: d.associated_window,
                dest_x: (x_dest + d.origin_x) as i32,
                dest_y: (y_dest + d.origin_y) as i32,
                src_x: (x_src + s.origin_x) as i32,
                src_y: (y_src + s.origin_y) as i32,
            })
        } else {
            None
        },
        _ => None,
    }
}

/// The area a plan copies, `width x height` pixels.
pub open spec fn plan_area(p: BlitPlan, width: u32, height: u32) -> BlitArea {
    BlitArea {
        dest_x: p.dest_x as i64,
        dest_y: p.dest_y as i64,
        src_x: p.src_x as i64,
        src_y: p.src_y as i64,
        width: width as i32,
        height: height as i32,
    }
}

/// The copy can be made as planned: the corners moved by the DCs' origins
/// and the destination rectangle stay within `i32`, the two bitmaps are
/// distinct, sized within `i32`, and the destination holds all its pixels.
pub open spec fn blit_fits(t: GdiTable, hdc_dest: u32, x_dest: i32, y_dest: i32, width: u32, height: u32,
    hdc_src: u32, x_src: i32, y_src: i32) -> bool {
    match (t.dc(hdc_dest), t.dc(hdc_src)) {
        (Some(d), Some(s)) => blit_plan(t, hdc_dest, x_dest, y_dest, hdc_src, x_src, y_src) is Some ==> {
            let db = bitmap_at(t, d.selected_bitmap)->0;
            let sb = bitmap_at(t, s.selected_bitmap)->0;
            &&& i32::MIN <= x_dest + d.origin_x && x_dest + d.origin_x + (width as i32) <= i32::MAX
            &&& x_dest + d.origin_x <= i32::MAX && i32::MIN <= x_dest + d.origin_x + (width as i32)
            &&& i32::MIN <= y_dest + d.origin_y && y_dest + d.origin_y + (height as i32) <= i32::MAX
            &&& y_dest + d.origin_y <= i32::MAX && i32::MIN <= y_dest + d.origin_y + (height as i32)
            &&& i32::MIN <= x_src + s.origin_x <= i32::MAX
            &&& i32::MIN <= y_src + s.origin_y <= i32::MAX
            &&& d.selected_bitmap != s.selected_bitmap
            &&& db.width <= i32::MAX && db.height <= i32::MAX
            &&& sb.width <= i32::MAX && sb.height <= i32::MAX
            &&& db.pixels.len() == db.width * db.height
        },
        _ => true,
    }
}

/// The destination rectangle of a plan, in the destination bitmap.
pub open spec fn plan_dest_rect(p: BlitPlan, width: u32, height: u32) -> Rect {
    (p.dest_x, p.dest_y, (p.dest_x + (width as i32)) as i32, (p.dest_y + (height as i32)) as i32)
}

/// `after` is `before` with the copy of `area` from `src` combined in by
/// `rop`, cell by cell (see `blit_pixels`).
pub open spec fn blitted<F: Fn(u32, u32) -> u32>(before: Seq<u32>, after: Seq<u32>, area: BlitArea, dw: u32, dh: u32,
    src: Seq<u32>, sw: u32, sh: u32, clip: Option<Seq<Rect>>, rop: u32, blend: F) -> bool {
    &&& after.len() == before.len()
    &&& forall|k: int| 0 <= k < before.len() ==> {
        let s = blit_source(area, k, before.len() as int, dw, dh, src.len() as int, sw, sh, clip);
        match s {
            Some(si) => rop_result(blend, #[trigger] before[k], src[si], rop, after[k]),
            None => after[k] == before[k],
        }
    }
}

proof fn lemma_rect_upload_fits(bw: u32, bh: u32, len: int, right: i32, bottom: i32)
    requires
        len == bw * bh,
    ensures
        crate::surface::clip_coord(bottom, bh) >= 1 ==>
            (crate::surface::clip_coord(bottom, bh) - 1) * bw + crate::surface::clip_coord(right, bw) <= len,
{
    let cb = crate::surface::clip_coord(bottom, bh);
    let cr = crate::surface::clip_coord(right, bw);
    if cb >= 1 {
        assert((cb - 1) * bw + bw <= bh * bw) by (nonlinear_arith)
            requires
                1 <= cb <= bh;
        assert(bh * bw == bw * bh) by (nonlinear_arith);
    }
}

/// The area a plan stretches: a `dest_w x dest_h` destination span (a
/// negative side mirrors) filled from a `src_w x src_h` source span.
pub open spec fn plan_stretch_area(p: BlitPlan, dest_w: i32, dest_h: i32, src_w: i32, src_h: i32) -> StretchArea {
    StretchArea {
        dest_x: p.dest_x as i64,
        dest_y: p.dest_y as i64,
        dest_width: dest_w,
        dest_height: dest_h,
        src_x: p.src_x as i64,
        src_y: p.src_y as i64,
        src_width: src_w,
        src_height: src_h,
    }
}

/// The destination rectangle of a stretch, in the destination bitmap.
pub open spec fn plan_stretch_rect(p: BlitPlan, dest_w: i32, dest_h: i32) -> Rect {
    (p.dest_x, p.dest_y, (p.dest_x + abs_int(dest_w as int)) as i32, (p.dest_y + abs_int(dest_h as int)) as i32)
}

/// The stretch can be made as planned: as `blit_fits`, with the mirrored
/// spans' lengths, and a source bitmap of at least one pixel.
pub open spec fn stretch_fits(t: GdiTable, hdc_dest: u32, x_dest: i32, y_dest: i32, dest_w: i32, dest_h: i32,
    hdc_src: u32, x_src: i32, y_src: i32) -> bool {
    match (t.dc(hdc_dest), t.dc(hdc_src)) {
        (Some(d), Some(s)) => blit_plan(t, hdc_dest, x_dest, y_dest, hdc_src, x_src, y_src) is Some ==> {
            let db = bitmap_at(t, d.selected_bitmap)->0;
            let sb = bitmap_at(t, s.selected_bitmap)->0;
            &&& dest_w != i32::MIN && dest_h != i32::MIN
            &&& i32::MIN <= x_dest + d.origin_x && x_dest + d.origin_x + abs_int(dest_w as int) <= i32::MAX
            &&& i32::MIN <= y_dest + d.origin_y && y_dest + d.origin_y + abs_int(dest_h as int) <= i32::MAX
            &&& i32::MIN <= x_src + s.origin_x <= i32::MAX
            &&& i32::MIN <= y_src + s.origin_y <= i32::MAX
            &&& d.selected_bitmap != s.selected_bitmap
            &&& db.width <= i32::MAX && db.height <= i32::MAX
            &&& 1 <= sb.width <= i32::MAX && 1 <= sb.height <= i32::MAX
            &&& db.pixels.len() == db.width * db.height
        },
        _ => true,
    }
}

/// `after` is `before` with the stretch of `area` from `src` combined in by
/// `rop`, cell by cell (see `stretch_pixels`).
pub open spec fn stretched<F: Fn(u32, u32) -> u32>(before: Seq<u32>, after: Seq<u32>, area: StretchArea, dw: u32, dh: u32,
    src: Seq<u32>, sw: u32, sh: u32, clip: Option<Seq<Rect>>, rop: u32, blend: F) -> bool {
    &&& after.len() == before.len()
    &&& forall|k: int| 0 <= k < before.len() ==> {
        let s = stretch_source(area, k, before.len() as int, dw, dh, src.len() as int, sw, sh, clip);
        match s {
            Some(si) => rop_result(blend, #[trigger] before[k], src[si], rop, after[k]),
            None => after[k] == before[k],
        }
    }
}

/// The DC `hdc` and the bitmap selected in it, when it is a DC with a
/// bitmap selected.
pub open spec fn dc_bitmap(t: GdiTable, hdc: u32) -> Option<(DcState, BitmapView)> {
    match t.dc(hdc) {
        Some(s) => if s.selected_bitmap != 0 && bitmap_at(t, s.selected_bitmap) is Some {
            Some((s, bitmap_at(t, s.selected_bitmap)->0))
        } else {
            None
        },
        None => None,
    }
}

/// Where a DIB transfer drew: the DC's bitmap, the window it shows, and
/// the destination rectangle in the bitmap.
#[derive(Clone, Copy, Debug, PartialEq, Eq)]
pub struct DibTarget {
    pub dest_bitmap: u32,
    pub dest_window: u32,
    pub dest_rect: Rect,
}

/// The rectangle covers the whole `width x height` bitmap.
pub open spec fn rect_covers_bitmap(r: Rect, width: u32, height: u32) -> bool {
    r.0 <= 0 && r.1 <= 0 && r.2 >= width as i32 && r.3 >= height as i32
}

/// The target of a DIB transfer to `hdc` at `(x_dest, y_dest)`, `dest_w x
/// dest_h` pixels large (a negative side counts by its length).
pub open spec fn dib_target(t: GdiTable, hdc: u32, x_dest: i32, y_dest: i32, dest_w: i32, dest_h: i32) -> Option<DibTarget> {
    match dc_bitmap(t, hdc) {
        Some((s, b)) => Some(DibTarget {
            dest_bitmap: s.selected_bitmap,
            dest_window: s.associated_window,
            dest_rect: ((x_dest + s.origin_x) as i32, (y_dest + s.origin_y) as i32,
                (x_dest + s.origin_x + abs_int(dest_w as int)) as i32, (y_dest + s.origin_y + abs_int(dest_h as int)) as i32),
        }),
        None => None,
    }
}

/// A DIB transfer to `hdc` can be made: the destination rectangle stays
/// within `i32`, the bitmap's sides within `i32`, and it holds all its
/// pixels.
pub open spec fn dib_fits(t: GdiTable, hdc: u32, x_dest: i32, y_dest: i32, dest_w: i32, dest_h: i32) -> bool {
    dc_bitmap(t, hdc) matches Some((s, b)) ==> {
        &&& dest_w != i32::MIN && dest_h != i32::MIN
        &&& i32::MIN <= x_dest + s.origin_x && x_dest + s.origin_x + abs_int(dest_w as int) <= i32::MAX
        &&& i32::MIN <= y_dest + s.origin_y && y_dest + s.origin_y + abs_int(dest_h as int) <= i32::MAX
        &&& b.width <= i32::MAX && b.height <= i32::MAX
        &&& b.pixels.len() == b.width * b.height
    }
}

/// The bitmap `h` with its guest-visible bits, if it is a DIB section.
pub open spec fn dib_section_at(t: GdiTable, h: u32) -> Option<BitmapView> {
    match bitmap_at(t, h) {
        Some(b) => if b.bits_addr is Some { Some(b) } else { None },
        None => None,
    }
}

/// The pixels of a DIB section can be written out: the buffer holds them
/// all, the scanlines fit in memory, and every pixel encodes within 32-bit
/// arithmetic.
pub open spec fn dib_flush_fits(b: BitmapView) -> bool {
    &&& b.pixels.len() >= b.width * b.height
    &&& stride_in_use(b.stride, b.width, b.bit_count) * b.height <= u32::MAX
    &&& b.height * stride_in_use(b.stride, b.width, b.bit_count) + b.width * 4 + 3 <= usize::MAX
    &&& b.width * b.height <= usize::MAX
    &&& image_write_fits(b.pixels, b.width, b.height, b.bit_count, b.masks)
}

/// The bits `raw` of a DIB section can be read in: the image fits in
/// memory and every pixel decodes within 32-bit arithmetic.
pub open spec fn dib_sync_fits(b: BitmapView, raw: Seq<u8>) -> bool {
    &&& b.width * b.height <= u32::MAX
    &&& b.height * stride_in_use(b.stride, b.width, b.bit_count) + b.width * 4 + 3 <= usize::MAX
    &&& image_read_fits(raw, b.width, b.height, stride_in_use(b.stride, b.width, b.bit_count), b.bit_count, b.top_down, b.masks)
}

/// The pixels decoded from the DIB bits `raw` of `b`, top row first.
pub open spec fn decoded_dib(b: BitmapView, raw: Seq<u8>) -> Seq<u32> {
    Seq::new((b.width * b.height) as nat, |k: int| spec_read_dib_pixel(raw,
        source_row(k / (b.width as int), b.height, b.top_down) * stride_in_use(b.stride, b.width, b.bit_count),
        k % (b.width as int), b.bit_count, b.palette, b.masks))
}

/// A copy with `SRCINVERT` made twice over the same area from the same
/// source gives the destination bitmap back.
pub proof fn lemma_xor_blit_twice_restores<F: Fn(u32, u32) -> u32>(
    before: Seq<u32>, mid: Seq<u32>, after: Seq<u32>, area: BlitArea, dw: u32, dh: u32,
    src: Seq<u32>, sw: u32, sh: u32, clip: Option<Seq<Rect>>, blend: F,
)
    requires
        blitted(before, mid, area, dw, dh, src, sw, sh, clip, SRCINVERT, blend),
        blitted(mid, after, area, dw, dh, src, sw, sh, clip, SRCINVERT, blend),
    ensures
        after == before,
{
    assert forall|k: int| 0 <= k < before.len() implies after[k] == before[k] by {
        let s = blit_source(area, k, before.len() as int, dw, dh, src.len() as int, sw, sh, clip);
        assert(rop_result(blend, before[k], src[s->0], SRCINVERT, mid[k]) || s is None);
        if s is Some {
            crate::blit::lemma_xor_twice_restores(before[k], src[s->0]);
            assert(rop_result(blend, mid[k], src[s->0], SRCINVERT, after[k]));
        }
    }
    assert(after =~= before);
}

/// `o` and `p` are GDI objects of the same kind.
pub open spec fn same_kind(o: GdiObject, p: GdiObject) -> bool {
    match (o, p) {
        (GdiObject::Font { .. }, GdiObject::Font { .. }) => true,
        (GdiObject::Brush { .. }, GdiObject::Brush { .. }) => true,
        (GdiObject::Pen { .. }, GdiObject::Pen { .. }) => true,
        (GdiObject::Region { .. }, GdiObject::Region { .. }) => true,
        (GdiObject::Palette { .. }, GdiObject::Palette { .. }) => true,
        _ => false,
    }
}

/// Selecting back the handle that `SelectObject` returned undoes the
/// selection, for fonts, brushes, pens, regions and palettes.
pub proof fn lemma_select_back_restores(s: DcState, obj: GdiObject, h: u32, prev_obj: GdiObject, window: u32)
    requires
        same_kind(obj, prev_obj),
    ensures
        selection(s, Some(obj), h, window) matches Some((s1, prev))
            && selection(s1, Some(prev_obj), prev, window) == Some((s, h)),
{
}

/// Every handle in the table lies below the counter's next handle, so the
/// handles the counter gives out next are unused.
pub open spec fn handles_fresh(t: GdiTable, c: HandleCounter) -> bool {
    forall|k: u32| #[trigger] t.objs().contains_key(k) ==> k < c.next
}

/// The GDI objects by handle.
pub struct GdiTable {
    pub objects: HashMap<u32, GdiObject>,
}

impl GdiTable {
    /// The objects by handle.
    pub open spec fn objs(&self) -> Map<u32, GdiObject> {
        self.objects@
    }

    /// The fields of the device context `hdc`, if it is one.
    pub open spec fn dc(&self, hdc: u32) -> Option<DcState> {
        if self.objs().contains_key(hdc) { dc_view(self.objs()[hdc]) } else { None }
    }

    pub fn new() -> (t: GdiTable)
        ensures
            t.objs() == Map::<u32, GdiObject>::empty(),
    {
        GdiTable { objects: HashMap::new() }
    }

    fn get_dc(&self, hdc: u32) -> (r: Option<DcState>)
        ensures
            r == self.dc(hdc),
    {
        match self.objects.get(&hdc) {
            Some(o) => read_dc(o),
            None => None,
        }
    }

    fn put_dc(&mut self, hdc: u32, s: DcState)
        ensures
            final(self).objs() == old(self).objs().insert(hdc, dc_of(s)),
    {
        let o = make_dc(s);
        self.objects.insert(hdc, o);
    }

    /// `SetBkMode`: the previous mode (1 when `hdc` is no DC).
    pub fn set_bk_mode(&mut self, hdc: u32, mode: i32) -> (old_mode: i32)
        ensures
            old(self).dc(hdc) matches Some(s) ==> final(self).objs() == old(self).objs().insert(hdc, dc_of(DcState { bk_mode: mode, ..s })),
            old(self).dc(hdc) is None ==> final(self).objs() == old(self).objs(),
            old_mode == match old(self).dc(hdc) { Some(s) => s.bk_mode, None => 1 },
    {
        match self.get_dc(hdc) {
            Some(s) => {
                self.put_dc(hdc, DcState { bk_mode: mode, ..s });
                s.bk_mode
            },
            None => 1,
        }
    }

    /// `GetBkMode`: 1 when `hdc` is no DC.
    pub fn get_bk_mode(&self, hdc: u32) -> (mode: i32)
        ensures
            mode == match self.dc(hdc) { Some(s) => s.bk_mode, None => 1 },
    {
        match self.get_dc(hdc) {
            Some(s) => s.bk_mode,
            None => 1,
        }
    }

    /// `SetROP2`: the previous mix mode (13, `R2_COPYPEN`, when `hdc` is no DC).
    pub fn set_rop2(&mut self, hdc: u32, mode: i32) -> (old_mode: i32)
        ensures
            old(self).dc(hdc) matches Some(s) ==> final(self).objs() == old(self).objs().insert(hdc, dc_of(DcState { rop2_mode: mode, ..s })),
            old(self).dc(hdc) is None ==> final(self).objs() == old(self).objs(),
            old_mode == match old(self).dc(hdc) { Some(s) => s.rop2_mode, None => 13 },
    {
        match self.get_dc(hdc) {
            Some(s) => {
                self.put_dc(hdc, DcState { rop2_mode: mode, ..s });
                s.rop2_mode
            },
            None => 13,
        }
    }

    /// `MoveToEx`: the previous current position ((0, 0) when `hdc` is no DC).
    pub fn move_to_ex(&mut self, hdc: u32, x: i32, y: i32) -> (old_pos: (i32, i32))
        ensures
            old(self).dc(hdc) matches Some(s) ==> final(self).objs() == old(self).objs().insert(hdc, dc_of(DcState { current_x: x, current_y: y, ..s })),
            old(self).dc(hdc) is None ==> final(self).objs() == old(self).objs(),
            old_pos == match old(self).dc(hdc) { Some(s) => (s.current_x, s.current_y), None => (0i32, 0i32) },
    {
        match self.get_dc(hdc) {
            Some(s) => {
                self.put_dc(hdc, DcState { current_x: x, current_y: y, ..s });
                (s.current_x, s.current_y)
            },
            None => (0, 0),
        }
    }

    /// `SelectPalette`: the previously selected palette (0 when `hdc` is no DC).
    pub fn select_palette(&mut self, hdc: u32, hpal: u32) -> (old_pal: u32)
        ensures
            old(self).dc(hdc) matches Some(s) ==> final(self).objs() == old(self).objs().insert(hdc, dc_of(DcState { selected_palette: hpal, ..s })),
            old(self).dc(hdc) is None ==> final(self).objs() == old(self).objs(),
            old_pal == match old(self).dc(hdc) { Some(s) => s.selected_palette, None => 0 },
    {
        match self.get_dc(hdc) {
            Some(s) => {
                self.put_dc(hdc, DcState { selected_palette: hpal, ..s });
                s.selected_palette
            },
            None => 0,
        }
    }

    /// `CreateCompatibleDC(hdc)`: a memory DC with the size of `hdc` (640 by
    /// 480 when `hdc` is no DC) and a new 1x1 monochrome bitmap selected;
    /// the DC's handle is allocated first, then the bitmap's.
    pub fn create_compatible_dc(&mut self, handles: &mut HandleCounter, hdc: u32) -> (new_hdc: u32)
        ensures
            new_hdc == old(handles).next,
            ({
                let bitmap = if old(handles).next == u32::MAX { 0u32 } else { (old(handles).next + 1) as u32 };
                let (w, h) = match old(self).dc(hdc) { Some(s) => (s.width, s.height), None => (640i32, 480i32) };
                &&& final(handles).next == if bitmap == u32::MAX { 0u32 } else { (bitmap + 1) as u32 }
                &&& is_default_dc_bitmap(final(self).objs()[bitmap])
                &&& final(self).objs() == old(self).objs().insert(bitmap, final(self).objs()[bitmap])
                    .insert(new_hdc, dc_of(new_memory_dc(w, h, bitmap)))
            }),
            handles_fresh(*old(self), *old(handles)) && old(handles).next < u32::MAX - 1 ==>
                !old(self).objs().contains_key(new_hdc) && !old(self).objs().contains_key((new_hdc + 1) as u32)
                && handles_fresh(*final(self), *final(handles)),
    {
        let new_hdc = handles.alloc_handle();
        let (w, h) = match self.get_dc(hdc) {
            Some(s) => (s.width, s.height),
            None => (640, 480),
        };
        let bitmap = handles.alloc_handle();
        let mut pixels: Vec<u32> = Vec::new();
        pixels.push(0);
        let mut palette: Vec<u32> = Vec::new();
        palette.push(0x000000);
        palette.push(0x00FF_FFFF);
        let b = GdiObject::Bitmap {
            width: 1, height: 1, pixels, bits_addr: None, stride: 4, bit_count: 1, top_down: false, palette,
            red_mask: 0, green_mask: 0, blue_mask: 0, alpha_mask: 0,
        };
        proof {
            assert(bitmap_view(b)->0.pixels =~= seq![0u32]);
            assert(bitmap_view(b)->0.palette =~= seq![0u32, 0x00FF_FFFFu32]);
        }
        self.objects.insert(bitmap, b);
        let ghost mid = self.objs();
        self.put_dc(new_hdc, DcState {
            associated_window: 0, width: w, height: h, origin_x: 0, origin_y: 0, selected_bitmap: bitmap,
            selected_font: 0, selected_brush: 0, selected_pen: 0, selected_region: 0, selected_palette: 0,
            bk_mode: 1, bk_color: 0xFFFF_FFFF, text_color: 0xFF00_0000, rop2_mode: 13, current_x: 0, current_y: 0,
        });
        proof {
            assert(mid[bitmap] == b);
        }
        new_hdc
    }

    /// `GetStockObject(index)`: a new handle for the stock object.
    pub fn get_stock_object(&mut self, handles: &mut HandleCounter, index: u32) -> (h: u32)
        ensures
            h == old(handles).next,
            final(handles).next == (if old(handles).next == u32::MAX { 0 } else { (old(handles).next + 1) as u32 }),
            final(self).objs() == old(self).objs().insert(h, GdiObject::StockObject(index)),
            handles_fresh(*old(self), *old(handles)) && old(handles).next < u32::MAX ==>
                !old(self).objs().contains_key(h) && handles_fresh(*final(self), *final(handles)),
    {
        let h = handles.alloc_handle();
        self.objects.insert(h, GdiObject::StockObject(index));
        h
    }

    /// `SelectObject(hdc, h)`: puts `h` in the slot of its kind in the DC
    /// and returns what that slot held; 0, with nothing changed, when `hdc`
    /// is no DC or `h` has no slot (see `selection`). `window` is the window
    /// whose surface bitmap `h` is, or 0.
    pub fn select_object(&mut self, hdc: u32, h: u32, window: u32) -> (previous: u32)
        ensures
            ({
                let obj = if old(self).objs().contains_key(h) { Some(old(self).objs()[h]) } else { None::<GdiObject> };
                match old(self).dc(hdc) {
                    Some(s) => match selection(s, obj, h, window) {
                        Some((next, prev)) => previous == prev && final(self).objs() == old(self).objs().insert(hdc, dc_of(next)),
                        None => previous == 0 && final(self).objs() == old(self).objs(),
                    },
                    None => previous == 0 && final(self).objs() == old(self).objs(),
                }
            }),
    {
        let s = match self.get_dc(hdc) {
            Some(s) => s,
            None => return 0,
        };
        let r: Option<(DcState, u32)> = match self.objects.get(&h) {
            Some(GdiObject::Bitmap { width, height, .. }) => Some((DcState {
                selected_bitmap: h, associated_window: window, width: *width as i32, height: *height as i32, ..s
            }, s.selected_bitmap)),
            Some(GdiObject::Font { .. }) => Some((DcState { selected_font: h, ..s }, s.selected_font)),
            Some(GdiObject::Brush { .. }) => Some((DcState { selected_brush: h, ..s }, s.selected_brush)),
            Some(GdiObject::Pen { .. }) => Some((DcState { selected_pen: h, ..s }, s.selected_pen)),
            Some(GdiObject::Region { .. }) => Some((DcState { selected_region: h, ..s }, s.selected_region)),
            Some(GdiObject::Palette { .. }) => Some((DcState { selected_palette: h, ..s }, s.selected_palette)),
            Some(GdiObject::StockObject(id)) => {
                let id = *id;
                if id < 5 || id == 18 {
                    Some((DcState { selected_brush: h, ..s }, s.selected_brush))
                } else if 5 <= id && id <= 8 {
                    Some((DcState { selected_pen: h, ..s }, s.selected_pen))
                } else if 10 <= id && id <= 17 {
                    Some((DcState { selected_font: h, ..s }, s.selected_font))
                } else {
                    None
                }
            },
            _ => None,
        };
        match r {
            Some((next, prev)) => {
                self.put_dc(hdc, next);
                prev
            },
            None => 0,
        }
    }

    /// `RealizePalette(hdc)`: the entries of the DC's palette (0 without one).
    pub fn realize_palette(&self, hdc: u32) -> (count: u32)
        ensures
            count == match self.dc(hdc) {
                Some(s) => if s.selected_palette != 0 && self.objs().contains_key(s.selected_palette) {
                    match self.objs()[s.selected_palette] { GdiObject::Palette { num_entries } => num_entries, _ => 0u32 }
                } else { 0u32 },
                None => 0u32,
            },
    {
        let pal = match self.get_dc(hdc) {
            Some(s) => s.selected_palette,
            None => return 0,
        };
        if pal == 0 {
            return 0;
        }
        match self.objects.get(&pal) {
            Some(GdiObject::Palette { num_entries }) => *num_entries,
            _ => 0,
        }
    }

    /// `GetDeviceCaps(hdc, index)`; 0 when `hdc` is no DC.
    pub fn get_device_caps(&self, hdc: u32, index: u32) -> (r: i32)
        requires
            self.dc(hdc) matches Some(s) ==> (index == 3 ==> s.width * 254 <= i32::MAX)
                && (index == 4 ==> s.height * 254 <= i32::MAX),
        ensures
            r == match self.dc(hdc) { Some(s) => device_cap(s.width, s.height, index), None => 0 },
    {
        let s = match self.get_dc(hdc) {
            Some(s) => s,
            None => return 0,
        };
        let w1 = if s.width > 1 { s.width } else { 1 };
        let h1 = if s.height > 1 { s.height } else { 1 };
        if index == 1 || index == 20 {
            s.width
        } else if index == 2 || index == 21 {
            s.height
        } else if index == 3 {
            w1 * 254 / 96
        } else if index == 4 {
            h1 * 254 / 96
        } else if index == 5 || index == 6 || index == 22 || index == 23 {
            96
        } else if index == 10 || index == 12 || index == 24 {
            32
        } else if index == 11 {
            1
        } else if index == 16 {
            0x100_0000
        } else {
            0
        }
    }

    /// `GetObject(h)`: the size it reports (28 for a bitmap, 60 for a font,
    /// else 0) and, for a bitmap, the `BITMAP` fields (see `bitmap_info`).
    #[verifier::spinoff_prover]
    #[verifier::rlimit(30)]
    pub fn get_object_info(&self, h: u32) -> (r: (i32, Option<(u32, u32, u32, u16, u32)>))
        requires
            self.objs().contains_key(h) ==> (bitmap_view(self.objs()[h]) matches Some(b) ==>
                b.width * (if b.bit_count > 1 { b.bit_count as int } else { 1 }) <= u32::MAX),
        ensures
            r == if self.objs().contains_key(h) {
                match bitmap_view(self.objs()[h]) {
                    Some(b) => (28i32, Some(bitmap_info(b))),
                    None => (if self.objs()[h] is Font { 60i32 } else { 0i32 }, None::<(u32, u32, u32, u16, u32)>),
                }
            } else {
                (0i32, None::<(u32, u32, u32, u16, u32)>)
            },
    {
        match self.objects.get(&h) {
            Some(GdiObject::Bitmap { width, height, bits_addr, bit_count, .. }) => {
                let bpp: u32 = if *bit_count > 1 { *bit_count as u32 } else { 1 };
                let bits = *width * bpp;
                let words = bits / 16 + if bits % 16 == 0 { 0 } else { 1 };
                let wb = if words * 2 > 1 { words * 2 } else { 1 };
                let addr = match bits_addr { Some(a) => *a, None => 0 };
                (28, Some((*width, *height, wb, *bit_count, addr)))
            },
            Some(GdiObject::Font { .. }) => (60, None),
            _ => (0, None),
        }
    }

    /// `CreateRectRgn`: a new region of one rectangle.
    pub fn create_rect_rgn(&mut self, handles: &mut HandleCounter, x1: i32, y1: i32, x2: i32, y2: i32) -> (h: u32)
        ensures
            h == old(handles).next,
            final(handles).next == (if old(handles).next == u32::MAX { 0 } else { (old(handles).next + 1) as u32 }),
            region_view(final(self).objs()[h]) == Some(seq![(x1, y1, x2, y2)]),
            final(self).objs() == old(self).objs().insert(h, final(self).objs()[h]),
            handles_fresh(*old(self), *old(handles)) && old(handles).next < u32::MAX ==>
                !old(self).objs().contains_key(h) && handles_fresh(*final(self), *final(handles)),
    {
        let h = handles.alloc_handle();
        let mut rects: Vec<Rect> = Vec::new();
        rects.push((x1, y1, x2, y2));
        proof {
            assert(rects@ =~= seq![(x1, y1, x2, y2)]);
        }
        self.objects.insert(h, GdiObject::Region { rects });
        h
    }

    fn region_rects(&self, h: u32) -> (r: Option<Vec<Rect>>)
        ensures
            match r {
                Some(v) => self.objs().contains_key(h) && region_view(self.objs()[h]) == Some(v@),
                None => !self.objs().contains_key(h) || region_view(self.objs()[h]) is None,
            },
    {
        match self.objects.get(&h) {
            Some(GdiObject::Region { rects }) => Some(copy_rect_list(rects)),
            _ => None,
        }
    }

    /// The rectangles of `h` when it names a region.
    pub open spec fn region(&self, h: u32) -> Option<Seq<Rect>> {
        if self.objs().contains_key(h) { region_view(self.objs()[h]) } else { None }
    }

    /// The clip rectangles of `hdc`: those of its selected region, if any.
    pub fn clip_rects_for_hdc(&self, hdc: u32) -> (r: Option<Vec<Rect>>)
        ensures
            match self.dc(hdc) {
                Some(s) => if s.selected_region != 0 && self.region(s.selected_region) is Some {
                    r matches Some(v) && Some(v@) == self.region(s.selected_region)
                } else {
                    r is None
                },
                None => r is None,
            },
    {
        match self.get_dc(hdc) {
            Some(s) => if s.selected_region != 0 { self.region_rects(s.selected_region) } else { None },
            None => None,
        }
    }

    /// `CombineRgn(dest, src1, src2, mode)`: with both sources regions, `dest`
    /// becomes a region of their combination (see `combine_region`) and the
    /// result is its complexity; otherwise `ERROR` and nothing changes.
    pub fn combine_rgn(&mut self, dest: u32, src1: u32, src2: u32, mode: u32) -> (result: i32)
        ensures
            (old(self).region(src1) is None || old(self).region(src2) is None) ==>
                result == ERROR && final(self).objs() == old(self).objs(),
            old(self).region(src1) matches Some(r1) ==> (old(self).region(src2) matches Some(r2) ==> ({
                let out = final(self).region(dest)->0;
                &&& final(self).region(dest) is Some
                &&& final(self).objs() == old(self).objs().insert(dest, final(self).objs()[dest])
                &&& result == spec_region_complexity(out.len())
                &&& mode == RGN_COPY ==> out == r1
                &&& mode != RGN_COPY ==> is_banded_form(out)
                    && forall|x: int, y: int| rects_contain(out, x, y) == combine_contains(r1, r2, mode, x, y)
            })),
    {
        let r1 = match self.region_rects(src1) {
            Some(r) => r,
            None => return ERROR,
        };
        let r2 = match self.region_rects(src2) {
            Some(r) => r,
            None => return ERROR,
        };
        let out = combine_region(r1.as_slice(), r2.as_slice(), mode);
        let result = region_complexity(out.as_slice());
        let ghost ov = out@;
        self.objects.insert(dest, GdiObject::Region { rects: out });
        proof {
            assert(self.region(dest) == Some(ov));
        }
        result
    }

    /// `EqualRgn(h1, h2)`: 1 when both are regions covering the same
    /// points, else 0.
    pub fn equal_rgn(&self, h1: u32, h2: u32) -> (r: i32)
        ensures
            r == (if self.region(h1) matches Some(a) && self.region(h2) matches Some(b) && same_coverage(a, b) { 1i32 } else { 0i32 }),
    {
        let a = match self.region_rects(h1) {
            Some(a) => a,
            None => return 0,
        };
        let b = match self.region_rects(h2) {
            Some(b) => b,
            None => return 0,
        };
        if regions_equal(a.as_slice(), b.as_slice()) { 1 } else { 0 }
    }

    /// `GetRgnBox(h)`: the result code and the box written back (see
    /// `region_box`); `NULLREGION` and no box when `h` is no region.
    pub fn get_rgn_box(&self, h: u32) -> (r: (i32, Option<Rect>))
        ensures
            r == match self.region(h) {
                Some(rs) => if rs.len() == 0 {
                    (NULLREGION, None::<Rect>)
                } else {
                    (if rect_nonempty(spec_bounding_box(rs)) { SIMPLEREGION } else { NULLREGION }, Some(spec_bounding_box(rs)))
                },
                None => (NULLREGION, None::<Rect>),
            },
    {
        match self.region_rects(h) {
            Some(rs) => {
                let (b, code) = region_box(rs.as_slice());
                (code, b)
            },
            None => (NULLREGION, None),
        }
    }

    /// `SelectClipRgn(hdc, hrgn)`: the DC gets a copy of the region (a new
    /// handle), or no clip region for `hrgn` 0; the result is the region's
    /// complexity (`SIMPLEREGION` for none), `ERROR` when `hrgn` is no
    /// region, 0 when `hdc` is no DC. A window DC at the window's origin
    /// then reads the window's guest-drawn frame off the clip rectangles.
    pub fn select_clip_rgn(&mut self, handles: &mut HandleCounter, frame: &mut WinFrame, hdc: u32, hrgn: u32) -> (result: i32)
        ensures
            final(handles).next == if clip_source(*old(self), hrgn) is Some {
                if old(handles).next == u32::MAX { 0u32 } else { (old(handles).next + 1) as u32 }
            } else { old(handles).next },
            clip_source(*old(self), hrgn) is Some ==> final(self).region(old(handles).next) == clip_source(*old(self), hrgn),
            final(self).objs() == clip_objects(*old(self), old(handles).next, hdc, hrgn, final(self).objs()),
            result == clip_result(*old(self), old(handles).next, hdc, hrgn),
            clip_frame_applies(*old(self), old(handles).next, hdc, hrgn) ==> ({
                let s = clip_dc(*old(self), old(handles).next, hdc, hrgn)->0;
                exists|m: Option<WindowFrameMetrics>| #[trigger] inferred_frame(s.width, s.height, clip_source(*old(self), hrgn)->0, m)
                    && final(frame).window_map() == frame_recorded(old(frame).window_map(), s.associated_window, m)
            }),
            !clip_frame_applies(*old(self), old(handles).next, hdc, hrgn) ==> final(frame).window_map() == old(frame).window_map(),
            handles_fresh(*old(self), *old(handles)) && old(handles).next < u32::MAX ==>
                !old(self).objs().contains_key(old(handles).next) && handles_fresh(*final(self), *final(handles)),
    {
        let region_rects: Option<Vec<Rect>> = if hrgn != 0 { self.region_rects(hrgn) } else { None };
        let mut selected_copy: u32 = 0;
        match &region_rects {
            Some(r) => {
                selected_copy = handles.alloc_handle();
                let rects = copy_rect_list(r);
                self.objects.insert(selected_copy, GdiObject::Region { rects });
            },
            None => {},
        }
        let s = match self.get_dc(hdc) {
            Some(s) => s,
            None => {
                return 0;
            },
        };
        if !(hrgn == 0 || selected_copy != 0) {
            return ERROR;
        }
        self.put_dc(hdc, DcState { selected_region: selected_copy, ..s });
        let result = match &region_rects {
            Some(r) => region_complexity(r.as_slice()),
            None => SIMPLEREGION,
        };
        if s.associated_window != 0 && s.origin_x == 0 && s.origin_y == 0 {
            match &region_rects {
                Some(r) => {
                    let m = infer_guest_frame_from_clip_rects(s.width, s.height, r.as_slice());
                    let ghost w0 = frame.window_map();
                    match m {
                        Some(f) => {
                            let _ = frame.apply_guest_frame(s.associated_window, f);
                        },
                        None => {},
                    }
                    proof {
                        assert(inferred_frame(s.width, s.height, r@, m));
                        assert(frame.window_map() == frame_recorded(w0, s.associated_window, m));
                        assert(clip_source(*old(self), hrgn)->0 == r@);
                        assert(exists|mm: Option<WindowFrameMetrics>| #[trigger] inferred_frame(s.width, s.height, r@, mm)
                            && frame.window_map() == frame_recorded(w0, s.associated_window, mm));
                    }
                },
                None => {},
            }
        }
        result
    }

    /// Some device context has `h` selected into one of its slots.
    pub open spec fn selected_somewhere(&self, h: u32) -> bool {
        exists|k: u32| #[trigger] self.objs().contains_key(k) && selects(self.objs()[k], h)
    }

    fn is_selected_somewhere(&self, h: u32) -> (r: bool)
        ensures
            r == self.selected_somewhere(h),
    {
        let ghost entries = spec_hash_map_iter(&self.objects).remaining();
        let mut found = false;
        for kv in it: self.objects.iter()
            invariant
                it.seq() == entries,
                entries == spec_hash_map_iter(&self.objects).remaining(),
                found == exists|i: int| 0 <= i < it.index() && #[trigger] selects(*entries[i].1, h),
        {
            let (_k, v) = kv;
            if selects_exec(v, h) {
                found = true;
            }
        }
        proof {
            if found {
                let i = choose|i: int| 0 <= i < entries.len() && #[trigger] selects(*entries[i].1, h);
                assert(self.objs().contains_key(*entries[i].0));
            }
            if self.selected_somewhere(h) {
                let k = choose|k: u32| #[trigger] self.objs().contains_key(k) && selects(self.objs()[k], h);
                assert(entries.contains((&k, &self.objs()[k])));
                let i = choose|i: int| 0 <= i < entries.len() && entries[i] == (&k, &self.objs()[k]);
                assert(selects(*entries[i].1, h));
            }
        }
        found
    }

    /// `DeleteObject`: refuses (0) while `hobj` is selected into a DC or is a
    /// window's region; else drops the object, forgets it as a surface
    /// bitmap, frees the guest memory of a DIB section's bits, and gives 1.
    pub fn delete_object(&mut self, frame: &WinFrame, surfaces: &mut SurfaceBitmaps, heap: &mut GuestHeap, hobj: u32) -> (ok: i32)
        requires
            old(heap).wf(),
        ensures
            ({
                let blocked = old(self).selected_somewhere(hobj) || frame.owns_region(hobj);
                &&& ok == if blocked { 0i32 } else { 1i32 }
                &&& blocked ==> final(self).objs() == old(self).objs() && *final(surfaces) == *old(surfaces)
                    && *final(heap) == *old(heap)
                &&& !blocked ==> final(self).objs() == old(self).objs().remove(hobj)
                    && final(surfaces).registered() == old(surfaces).registered().remove(hobj)
                    && final(surfaces).states() == old(surfaces).states().remove(hobj)
            }),
            final(heap).wf(),
            final(heap).spec_base() == old(heap).spec_base(),
            final(heap).spec_cursor() == old(heap).spec_cursor(),
            final(heap).spec_limit() == old(heap).spec_limit(),
            match freed_bits(*old(self), hobj) {
                Some(a) => ok == 1 ==> final(heap).size_of(a) is None
                    && forall|b: u32| b != a ==> #[trigger] final(heap).size_of(b) == old(heap).size_of(b),
                None => *final(heap) == *old(heap),
            },
    {
        let window_owned_region = frame.window_owns_region(hobj);
        let selected = self.is_selected_somewhere(hobj);
        if selected || window_owned_region {
            return 0;
        }
        let removed = self.objects.remove(&hobj);
        surfaces.forget_surface_bitmap(hobj);
        match removed {
            Some(GdiObject::Bitmap { bits_addr: Some(bits_addr), .. }) => {
                let _ = heap.free_heap_block(bits_addr);
            },
            _ => {},
        }
        1
    }

    /// Drops the device context `hdc` and closes its hold on the surface
    /// bitmap selected in it; whether `hdc` was a DC.
    pub fn release_gdi_dc(&mut self, surfaces: &mut SurfaceBitmaps, hdc: u32) -> (r: bool)
        ensures
            r == (old(self).dc(hdc) is Some),
            final(self).objs() == if old(self).objs().contains_key(hdc) { old(self).objs().remove(hdc) } else { old(self).objs() },
            final(surfaces).registered() == old(surfaces).registered(),
            final(surfaces).states() == match old(self).dc(hdc) {
                Some(s) => old(surfaces).updated(s.selected_bitmap, dc_ended(old(surfaces).state_of(s.selected_bitmap))),
                None => old(surfaces).states(),
            },
    {
        let removed = self.objects.remove(&hdc);
        match removed {
            Some(o) => match read_dc(&o) {
                Some(s) => {
                    surfaces.end_surface_bitmap_dc(s.selected_bitmap);
                    true
                },
                None => false,
            },
            None => false,
        }
    }

    /// `DeleteDC(hdc)`: releases the DC (see `release_gdi_dc`) and reports 1.
    pub fn delete_dc(&mut self, surfaces: &mut SurfaceBitmaps, hdc: u32) -> (ok: i32)
        ensures
            ok == 1,
            final(self).objs() == if old(self).objs().contains_key(hdc) { old(self).objs().remove(hdc) } else { old(self).objs() },
            final(surfaces).registered() == old(surfaces).registered(),
            final(surfaces).states() == match old(self).dc(hdc) {
                Some(s) => old(surfaces).updated(s.selected_bitmap, dc_ended(old(surfaces).state_of(s.selected_bitmap))),
                None => old(surfaces).states(),
            },
    {
        let _ = self.release_gdi_dc(surfaces, hdc);
        1
    }

    /// `CreateCompatibleBitmap(hdc, width, height)`: a new blank 24-bit
    /// bitmap of that size.
    pub fn create_compatible_bitmap(&mut self, handles: &mut HandleCounter, hdc: u32, width: u32, height: u32) -> (h: u32)
        requires
            width * height <= usize::MAX,
        ensures
            h == old(handles).next,
            final(handles).next == (if old(handles).next == u32::MAX { 0 } else { (old(handles).next + 1) as u32 }),
            is_blank_bitmap(final(self).objs()[h], width, height),
            final(self).objs() == old(self).objs().insert(h, final(self).objs()[h]),
            handles_fresh(*old(self), *old(handles)) && old(handles).next < u32::MAX ==>
                !old(self).objs().contains_key(h) && handles_fresh(*final(self), *final(handles)),
    {
        let b = blank_bitmap(width, height);
        let h = handles.alloc_handle();
        self.objects.insert(h, b);
        h
    }

    /// A new blank 24-bit bitmap for a host window surface, registered as a
    /// surface bitmap with a full upload due.
    pub fn create_surface_bitmap(&mut self, handles: &mut HandleCounter, surfaces: &mut SurfaceBitmaps, width: u32, height: u32) -> (h: u32)
        requires
            width * height <= usize::MAX,
        ensures
            h == old(handles).next,
            final(handles).next == (if old(handles).next == u32::MAX { 0 } else { (old(handles).next + 1) as u32 }),
            is_blank_bitmap(final(self).objs()[h], width, height),
            final(self).objs() == old(self).objs().insert(h, final(self).objs()[h]),
            final(surfaces).registered() == old(surfaces).registered().insert(h),
            final(surfaces).states() == old(surfaces).states().insert(h, fresh_sync()),
            handles_fresh(*old(self), *old(handles)) && old(handles).next < u32::MAX ==>
                !old(self).objs().contains_key(h) && handles_fresh(*final(self), *final(handles)),
    {
        let h = handles.alloc_handle();
        let b = blank_bitmap(width, height);
        self.objects.insert(h, b);
        surfaces.create_surface_bitmap(h);
        h
    }

    /// `CreatePalette` of `num_entries` entries: a new palette handle.
    pub fn create_palette(&mut self, handles: &mut HandleCounter, num_entries: u32) -> (h: u32)
        ensures
            h == old(handles).next,
            final(handles).next == (if old(handles).next == u32::MAX { 0 } else { (old(handles).next + 1) as u32 }),
            final(self).objs() == old(self).objs().insert(h, GdiObject::Palette { num_entries }),
            handles_fresh(*old(self), *old(handles)) && old(handles).next < u32::MAX ==>
                !old(self).objs().contains_key(h) && handles_fresh(*final(self), *final(handles)),
    {
        let h = handles.alloc_handle();
        self.objects.insert(h, GdiObject::Palette { num_entries });
        h
    }

    /// The resize that `sync_window_surface_bitmap(frame, hwnd)` makes
    /// copies only pixels that the bitmap holds, into a buffer that fits in
    /// memory.
    pub open spec fn surface_resize_fits(&self, frame: &WinFrame, hwnd: u32) -> bool {
        surface_target(frame, hwnd) matches Some((hbmp, tw, th)) ==> (self.objs().contains_key(hbmp) ==>
            (bitmap_view(self.objs()[hbmp]) matches Some(b) ==> {
                &&& resize_fits(b.pixels.len() as int, b.width as int, b.height as int, tw as int, th as int)
                &&& tw * th <= usize::MAX
            }))
    }

    /// Brings the surface bitmap of window `hwnd` to the window's size,
    /// keeping what the two sizes share, and schedules a full upload. Nothing
    /// changes when the window is unknown or has a negative side, when its
    /// surface bitmap is no bitmap, or when the sizes already agree.
    pub fn sync_window_surface_bitmap(&mut self, frame: &WinFrame, surfaces: &mut SurfaceBitmaps, hwnd: u32)
        requires
            old(self).surface_resize_fits(frame, hwnd),
        ensures
            match surface_target(frame, hwnd) {
                Some((hbmp, tw, th)) => if old(self).objs().contains_key(hbmp) && bitmap_view(old(self).objs()[hbmp]) is Some
                    && !(bitmap_view(old(self).objs()[hbmp])->0.width == tw && bitmap_view(old(self).objs()[hbmp])->0.height == th) {
                    &&& bitmap_view(final(self).objs()[hbmp]) == Some(resized_bitmap(bitmap_view(old(self).objs()[hbmp])->0, tw, th))
                    &&& final(self).objs() == old(self).objs().insert(hbmp, final(self).objs()[hbmp])
                    &&& final(surfaces).registered() == old(surfaces).registered()
                    &&& final(surfaces).states() == old(surfaces).updated(hbmp, dirtied(old(surfaces).state_of(hbmp)))
                } else {
                    final(self).objs() == old(self).objs() && *final(surfaces) == *old(surfaces)
                },
                None => final(self).objs() == old(self).objs() && *final(surfaces) == *old(surfaces),
            },
    {
        let (hbmp, tw, th) = match frame.surface_target_of(hwnd) {
            Some(t) => t,
            None => return,
        };
        let obj = match self.objects.remove(&hbmp) {
            Some(o) => o,
            None => return,
        };
        let ghost o0 = obj;
        match obj {
            GdiObject::Bitmap {
                width, height, pixels, bits_addr, stride, bit_count, top_down, palette, red_mask, green_mask,
                blue_mask, alpha_mask,
            } => {
                if width == tw && height == th {
                    let same = GdiObject::Bitmap {
                        width, height, pixels, bits_addr, stride, bit_count, top_down, palette, red_mask, green_mask,
                        blue_mask, alpha_mask,
                    };
                    proof {
                        assert(same == o0);
                    }
                    self.objects.insert(hbmp, same);
                    proof {
                        assert(self.objs() =~= old(self).objs());
                    }
                    return;
                }
                let resized = resize_pixels(pixels.as_slice(), width, height, tw, th);
                let b = GdiObject::Bitmap {
                    width: tw, height: th, pixels: resized, bits_addr, stride: aligned_stride(tw, 24), bit_count,
                    top_down, palette, red_mask, green_mask, blue_mask, alpha_mask,
                };
                proof {
                    let bv = bitmap_view(o0)->0;
                    let want = resized_bitmap(bv, tw, th);
                    assert forall|k: int| 0 <= k < tw * th implies #[trigger] bitmap_view(b)->0.pixels[k] == want.pixels[k] by {
                        lemma_row_col(k, tw as int, th as int);
                    }
                    assert(bitmap_view(b)->0.pixels =~= want.pixels);
                }
                self.objects.insert(hbmp, b);
                surfaces.mark_surface_bitmap_dirty(hbmp);
            },
            other => {
                proof {
                    assert(other == o0);
                }
                self.objects.insert(hbmp, other);
                proof {
                    assert(self.objs() =~= old(self).objs());
                }
            },
        }
    }

    /// The clip rectangles of `hdc`, if it has a clip region.
    pub open spec fn dc_clip(&self, hdc: u32) -> Option<Seq<Rect>> {
        match self.dc(hdc) {
            Some(s) => if s.selected_region != 0 { self.region(s.selected_region) } else { None },
            None => None,
        }
    }

    fn bitmap_size(&self, h: u32) -> (r: Option<(u32, u32)>)
        ensures
            r == match bitmap_at(*self, h) { Some(b) => Some((b.width, b.height)), None => None::<(u32, u32)> },
    {
        match self.objects.get(&h) {
            Some(GdiObject::Bitmap { width, height, .. }) => Some((*width, *height)),
            _ => None,
        }
    }

    /// `BitBlt` with a raster operation that combines bitmaps (`SRCCOPY`,
    /// `SRCAND`, `SRCPAINT`, `SRCINVERT`): combines `width x height` pixels
    /// of the source DC's bitmap into the destination DC's bitmap, within
    /// both bitmaps and the destination's clip region, and returns the plan;
    /// `None`, with nothing changed, for other operations or when either DC
    /// lacks a bitmap. A plain copy onto a surface bitmap is left for the
    /// GPU to draw (the caller queues it); every other copy queues the
    /// destination rectangle as a partial upload.
    pub fn bit_blt<F: Fn(u32, u32) -> u32>(
        &mut self, surfaces: &mut SurfaceBitmaps, hdc_dest: u32, x_dest: i32, y_dest: i32, width: u32, height: u32,
        hdc_src: u32, x_src: i32, y_src: i32, rop: u32, blend: &F,
    ) -> (r: Option<BlitPlan>)
        requires
            forall|d: u32, s: u32| call_requires(*blend, (d, s)),
            blit_fits(*old(self), hdc_dest, x_dest, y_dest, width, height, hdc_src, x_src, y_src),
        ensures
            r == if is_bitmap_rop(rop) { blit_plan(*old(self), hdc_dest, x_dest, y_dest, hdc_src, x_src, y_src) } else { None },
            r is None ==> final(self).objs() == old(self).objs() && *final(surfaces) == *old(surfaces),
            r matches Some(p) ==> {
                let db = bitmap_at(*old(self), p.dest_bitmap)->0;
                let sb = bitmap_at(*old(self), p.src_bitmap)->0;
                let after = bitmap_at(*final(self), p.dest_bitmap)->0.pixels;
                let rect = plan_dest_rect(p, width, height);
                &&& final(self).objs() == old(self).objs().insert(p.dest_bitmap, final(self).objs()[p.dest_bitmap])
                &&& bitmap_at(*final(self), p.dest_bitmap) == Some(BitmapView { pixels: after, ..db })
                &&& blitted(db.pixels, after, plan_area(p, width, height), db.width, db.height, sb.pixels, sb.width, sb.height,
                    old(self).dc_clip(hdc_dest), rop, *blend)
                &&& final(surfaces).registered() == old(surfaces).registered()
                &&& (rop == SRCCOPY && old(surfaces).registered().contains(p.dest_bitmap)) ==> *final(surfaces) == *old(surfaces)
                &&& !(rop == SRCCOPY && old(surfaces).registered().contains(p.dest_bitmap)) ==>
                    old(surfaces).rect_upload_states(final(surfaces).states(), p.dest_bitmap, after, db.width, db.height,
                        rect.0, rect.1, rect.2, rect.3)
            },
    {
        if !(rop == SRCCOPY || rop == SRCAND || rop == SRCPAINT || rop == SRCINVERT) {
            return None;
        }
        let d = match self.get_dc(hdc_dest) {
            Some(d) => d,
            None => return None,
        };
        let s = match self.get_dc(hdc_src) {
            Some(s) => s,
            None => return None,
        };
        if d.selected_bitmap == 0 || s.selected_bitmap == 0 {
            return None;
        }
        let hbmp_dest = d.selected_bitmap;
        let hbmp_src = s.selected_bitmap;
        if self.bitmap_size(hbmp_dest).is_none() || self.bitmap_size(hbmp_src).is_none() {
            return None;
        }
        let plan = BlitPlan {
            dest_bitmap: hbmp_dest,
            src_bitmap: hbmp_src,
            dest_window: d.associated_window,
            dest_x: x_dest + d.origin_x,
            dest_y: y_dest + d.origin_y,
            src_x: x_src + s.origin_x,
            src_y: y_src + s.origin_y,
        };
        let clip = self.clip_rects_for_hdc(hdc_dest);
        let ghost t0 = *self;
        let dobj = match self.objects.remove(&hbmp_dest) {
            Some(o) => o,
            None => return None,
        };
        match dobj {
            GdiObject::Bitmap {
                width: dw, height: dh, mut pixels, bits_addr, stride, bit_count, top_down, palette, red_mask,
                green_mask, blue_mask, alpha_mask,
            } => {
                let ghost before = pixels@;
                let area = BlitArea {
                    dest_x: plan.dest_x as i64,
                    dest_y: plan.dest_y as i64,
                    src_x: plan.src_x as i64,
                    src_y: plan.src_y as i64,
                    width: width as i32,
                    height: height as i32,
                };
                match self.objects.get(&hbmp_src) {
                    Some(GdiObject::Bitmap { width: sw, height: sh, pixels: sp, .. }) => {
                        blit_pixels(&mut pixels, dw, dh, sp.as_slice(), *sw, *sh, area, &clip, rop, blend);
                    },
                    _ => {},
                }
                let left = plan.dest_x;
                let top = plan.dest_y;
                let right = plan.dest_x + width as i32;
                let bottom = plan.dest_y + height as i32;
                if !(rop == SRCCOPY && surfaces.is_surface_bitmap(hbmp_dest)) {
                    proof {
                        lemma_rect_upload_fits(dw, dh, pixels@.len() as int, right, bottom);
                    }
                    surfaces.queue_surface_bitmap_rect_upload(hbmp_dest, pixels.as_slice(), dw, dh, left, top, right, bottom);
                }
                let ghost after = pixels@;
                self.objects.insert(hbmp_dest, GdiObject::Bitmap {
                    width: dw, height: dh, pixels, bits_addr, stride, bit_count, top_down, palette, red_mask,
                    green_mask, blue_mask, alpha_mask,
                });
                proof {
                    assert(self.objs() =~= t0.objs().insert(hbmp_dest, self.objs()[hbmp_dest]));
                    assert(bitmap_at(*self, hbmp_dest)->0.pixels == after);
                }
                Some(plan)
            },
            _ => None,
        }
    }

    /// `StretchBlt` with a raster operation that combines bitmaps: a
    /// nearest-neighbour stretch of the `src_w x src_h` source span onto the
    /// `dest_w x dest_h` destination span (a negative side mirrors), within
    /// the destination bitmap and its DC's clip region, source coordinates
    /// clamped to the source bitmap; returns the plan. `None`, with nothing
    /// changed, when a span is empty, for other operations, or when either
    /// DC lacks a bitmap. Surface uploads as for `bit_blt`.
    pub fn stretch_blt<F: Fn(u32, u32) -> u32>(
        &mut self, surfaces: &mut SurfaceBitmaps, hdc_dest: u32, x_dest: i32, y_dest: i32, dest_w: i32, dest_h: i32,
        hdc_src: u32, x_src: i32, y_src: i32, src_w: i32, src_h: i32, rop: u32, blend: &F,
    ) -> (r: Option<BlitPlan>)
        requires
            forall|d: u32, s: u32| call_requires(*blend, (d, s)),
            stretch_fits(*old(self), hdc_dest, x_dest, y_dest, dest_w, dest_h, hdc_src, x_src, y_src),
        ensures
            r == if is_bitmap_rop(rop) && src_w != 0 && src_h != 0 && dest_w != 0 && dest_h != 0 {
                blit_plan(*old(self), hdc_dest, x_dest, y_dest, hdc_src, x_src, y_src)
            } else {
                None
            },
            r is None ==> final(self).objs() == old(self).objs() && *final(surfaces) == *old(surfaces),
            r matches Some(p) ==> {
                let db = bitmap_at(*old(self), p.dest_bitmap)->0;
                let sb = bitmap_at(*old(self), p.src_bitmap)->0;
                let after = bitmap_at(*final(self), p.dest_bitmap)->0.pixels;
                let rect = plan_stretch_rect(p, dest_w, dest_h);
                &&& final(self).objs() == old(self).objs().insert(p.dest_bitmap, final(self).objs()[p.dest_bitmap])
                &&& bitmap_at(*final(self), p.dest_bitmap) == Some(BitmapView { pixels: after, ..db })
                &&& stretched(db.pixels, after, plan_stretch_area(p, dest_w, dest_h, src_w, src_h), db.width, db.height,
                    sb.pixels, sb.width, sb.height, old(self).dc_clip(hdc_dest), rop, *blend)
                &&& final(surfaces).registered() == old(surfaces).registered()
                &&& (rop == SRCCOPY && old(surfaces).registered().contains(p.dest_bitmap)) ==> *final(surfaces) == *old(surfaces)
                &&& !(rop == SRCCOPY && old(surfaces).registered().contains(p.dest_bitmap)) ==>
                    old(surfaces).rect_upload_states(final(surfaces).states(), p.dest_bitmap, after, db.width, db.height,
                        rect.0, rect.1, rect.2, rect.3)
            },
    {
        if src_w == 0 || src_h == 0 || dest_w == 0 || dest_h == 0 {
            return None;
        }
        if !(rop == SRCCOPY || rop == SRCAND || rop == SRCPAINT || rop == SRCINVERT) {
            return None;
        }
        let d = match self.get_dc(hdc_dest) {
            Some(d) => d,
            None => return None,
        };
        let s = match self.get_dc(hdc_src) {
            Some(s) => s,
            None => return None,
        };
        if d.selected_bitmap == 0 || s.selected_bitmap == 0 {
            return None;
        }
        let hbmp_dest = d.selected_bitmap;
        let hbmp_src = s.selected_bitmap;
        if self.bitmap_size(hbmp_dest).is_none() || self.bitmap_size(hbmp_src).is_none() {
            return None;
        }
        let plan = BlitPlan {
            dest_bitmap: hbmp_dest,
            src_bitmap: hbmp_src,
            dest_window: d.associated_window,
            dest_x: x_dest + d.origin_x,
            dest_y: y_dest + d.origin_y,
            src_x: x_src + s.origin_x,
            src_y: y_src + s.origin_y,
        };
        let clip = self.clip_rects_for_hdc(hdc_dest);
        let ghost t0 = *self;
        let dobj = match self.objects.remove(&hbmp_dest) {
            Some(o) => o,
            None => return None,
        };
        match dobj {
            GdiObject::Bitmap {
                width: dw, height: dh, mut pixels, bits_addr, stride, bit_count, top_down, palette, red_mask,
                green_mask, blue_mask, alpha_mask,
            } => {
                let area = StretchArea {
                    dest_x: plan.dest_x as i64,
                    dest_y: plan.dest_y as i64,
                    dest_width: dest_w,
                    dest_height: dest_h,
                    src_x: plan.src_x as i64,
                    src_y: plan.src_y as i64,
                    src_width: src_w,
                    src_height: src_h,
                };
                match self.objects.get(&hbmp_src) {
                    Some(GdiObject::Bitmap { width: sw, height: sh, pixels: sp, .. }) => {
                        stretch_pixels(&mut pixels, dw, dh, sp.as_slice(), *sw, *sh, area, &clip, rop, blend);
                    },
                    _ => {},
                }
                let abs_w: i32 = if dest_w < 0 { -dest_w } else { dest_w };
                let abs_h: i32 = if dest_h < 0 { -dest_h } else { dest_h };
                let left = plan.dest_x;
                let top = plan.dest_y;
                let right = plan.dest_x + abs_w;
                let bottom = plan.dest_y + abs_h;
                if !(rop == SRCCOPY && surfaces.is_surface_bitmap(hbmp_dest)) {
                    proof {
                        lemma_rect_upload_fits(dw, dh, pixels@.len() as int, right, bottom);
                    }
                    surfaces.queue_surface_bitmap_rect_upload(hbmp_dest, pixels.as_slice(), dw, dh, left, top, right, bottom);
                }
                let ghost after = pixels@;
                self.objects.insert(hbmp_dest, GdiObject::Bitmap {
                    width: dw, height: dh, pixels, bits_addr, stride, bit_count, top_down, palette, red_mask,
                    green_mask, blue_mask, alpha_mask,
                });
                proof {
                    assert(self.objs() =~= t0.objs().insert(hbmp_dest, self.objs()[hbmp_dest]));
                    assert(bitmap_at(*self, hbmp_dest)->0.pixels == after);
                }
                Some(plan)
            },
            _ => None,
        }
    }

    fn take_dc_bitmap(&mut self, hdc: u32) -> (r: Option<(DcState, GdiObject)>)
        ensures
            r is Some <==> dc_bitmap(*old(self), hdc) is Some,
            r matches Some((s, o)) ==> dc_bitmap(*old(self), hdc) == Some((s, bitmap_view(o)->0))
                && o == old(self).objs()[s.selected_bitmap]
                && final(self).objs() == old(self).objs().remove(s.selected_bitmap),
            r is None ==> final(self).objs() == old(self).objs(),
    {
        let s = match self.get_dc(hdc) {
            Some(s) => s,
            None => return None,
        };
        if s.selected_bitmap == 0 || self.bitmap_size(s.selected_bitmap).is_none() {
            return None;
        }
        match self.objects.remove(&s.selected_bitmap) {
            Some(o) => Some((s, o)),
            None => None,
        }
    }

    /// `SetDIBitsToDevice`, given the decoded source scanlines `src`
    /// (`src_w x src_h`, top row first): blends `width x scans` source
    /// pixels from `(x_src, y_src)` over the DC's bitmap at `(x_dest,
    /// y_dest)` moved by the DC's origin, within the bitmap and the DC's clip
    /// region. A surface bitmap that the rectangle covers whole gets content
    /// and a full upload; other surface updates are left to the caller's GPU
    /// path. `None`, with nothing changed, when `hdc` holds no bitmap.
    pub fn set_dib_its_to_device<F: Fn(u32, u32) -> u32>(
        &mut self, surfaces: &mut SurfaceBitmaps, hdc: u32, x_dest: i32, y_dest: i32, width: u32, scans: u32,
        x_src: i32, y_src: i32, src: &[u32], src_w: u32, src_h: u32, blend: &F,
    ) -> (r: Option<DibTarget>)
        requires
            forall|d: u32, s: u32| call_requires(*blend, (d, s)),
            dib_fits(*old(self), hdc, x_dest, y_dest, width as i32, scans as i32),
            src_w <= i32::MAX,
            src_h <= i32::MAX,
        ensures
            r == dib_target(*old(self), hdc, x_dest, y_dest, width as i32, scans as i32),
            r is None ==> final(self).objs() == old(self).objs() && *final(surfaces) == *old(surfaces),
            r matches Some(tg) ==> {
                let (s, db) = dc_bitmap(*old(self), hdc)->0;
                let after = bitmap_at(*final(self), tg.dest_bitmap)->0.pixels;
                let area = BlitArea {
                    dest_x: tg.dest_rect.0 as i64, dest_y: tg.dest_rect.1 as i64, src_x: x_src as i64, src_y: y_src as i64,
                    width: width as i32, height: scans as i32,
                };
                let covered = old(surfaces).registered().contains(tg.dest_bitmap) && rect_covers_bitmap(tg.dest_rect, db.width, db.height);
                &&& final(self).objs() == old(self).objs().insert(tg.dest_bitmap, final(self).objs()[tg.dest_bitmap])
                &&& bitmap_at(*final(self), tg.dest_bitmap) == Some(BitmapView { pixels: after, ..db })
                &&& blitted(db.pixels, after, area, db.width, db.height, src@, src_w, src_h, old(self).dc_clip(hdc), SRCCOPY, *blend)
                &&& final(surfaces).registered() == old(surfaces).registered()
                &&& covered ==> final(surfaces).states() == old(surfaces).updated(tg.dest_bitmap,
                    dirtied(with_content(old(surfaces).state_of(tg.dest_bitmap))))
                &&& !covered ==> final(surfaces).states() == old(surfaces).states()
            },
    {
        let clip = self.clip_rects_for_hdc(hdc);
        let ghost t0 = *self;
        let (s, dobj) = match self.take_dc_bitmap(hdc) {
            Some(x) => x,
            None => return None,
        };
        let hbmp = s.selected_bitmap;
        match dobj {
            GdiObject::Bitmap {
                width: dw, height: dh, mut pixels, bits_addr, stride, bit_count, top_down, palette, red_mask,
                green_mask, blue_mask, alpha_mask,
            } => {
                let abs_w: i32 = if (width as i32) < 0 { -(width as i32) } else { width as i32 };
                let abs_h: i32 = if (scans as i32) < 0 { -(scans as i32) } else { scans as i32 };
                let rect: Rect = (x_dest + s.origin_x, y_dest + s.origin_y, x_dest + s.origin_x + abs_w, y_dest + s.origin_y + abs_h);
                let area = BlitArea {
                    dest_x: rect.0 as i64, dest_y: rect.1 as i64, src_x: x_src as i64, src_y: y_src as i64,
                    width: width as i32, height: scans as i32,
                };
                blit_pixels(&mut pixels, dw, dh, src, src_w, src_h, area, &clip, SRCCOPY, blend);
                if surfaces.is_surface_bitmap(hbmp) && rect.0 <= 0 && rect.1 <= 0 && rect.2 >= dw as i32 && rect.3 >= dh as i32 {
                    surfaces.mark_surface_bitmap_has_content(hbmp);
                    surfaces.mark_surface_bitmap_dirty(hbmp);
                }
                let ghost after = pixels@;
                self.objects.insert(hbmp, GdiObject::Bitmap {
                    width: dw, height: dh, pixels, bits_addr, stride, bit_count, top_down, palette, red_mask,
                    green_mask, blue_mask, alpha_mask,
                });
                proof {
                    assert(self.objs() =~= t0.objs().insert(hbmp, self.objs()[hbmp]));
                    assert(bitmap_at(*self, hbmp)->0.pixels == after);
                }
                Some(DibTarget { dest_bitmap: hbmp, dest_window: s.associated_window, dest_rect: rect })
            },
            _ => None,
        }
    }

    /// `StretchDIBits` with a raster operation that combines bitmaps, given
    /// the decoded source image `src` (`src_w x src_h`, top row first): a
    /// nearest-neighbour stretch of the `span_w x span_h` source span at
    /// `(x_src, y_src)` onto the `dest_w x dest_h` span (a negative side
    /// mirrors) at `(x_dest, y_dest)` moved by the DC's origin, within the
    /// bitmap and the DC's clip region, source coordinates clamped to the
    /// image. Surfaces: a covering rectangle gives content and a full upload;
    /// a plain copy onto a surface is left to the caller's GPU path; anything
    /// else queues the rectangle as a partial upload. `None`, with nothing
    /// changed, for other operations or when `hdc` holds no bitmap.
    pub fn stretch_dib_its<F: Fn(u32, u32) -> u32>(
        &mut self, surfaces: &mut SurfaceBitmaps, hdc: u32, x_dest: i32, y_dest: i32, dest_w: i32, dest_h: i32,
        x_src: i32, y_src: i32, span_w: i32, span_h: i32, src: &[u32], src_w: u32, src_h: u32, rop: u32, blend: &F,
    ) -> (r: Option<DibTarget>)
        requires
            forall|d: u32, s: u32| call_requires(*blend, (d, s)),
            dib_fits(*old(self), hdc, x_dest, y_dest, dest_w, dest_h),
            1 <= src_w <= i32::MAX,
            1 <= src_h <= i32::MAX,
        ensures
            r == if is_bitmap_rop(rop) { dib_target(*old(self), hdc, x_dest, y_dest, dest_w, dest_h) } else { None },
            r is None ==> final(self).objs() == old(self).objs() && *final(surfaces) == *old(surfaces),
            r matches Some(tg) ==> {
                let (s, db) = dc_bitmap(*old(self), hdc)->0;
                let after = bitmap_at(*final(self), tg.dest_bitmap)->0.pixels;
                let area = StretchArea {
                    dest_x: tg.dest_rect.0 as i64, dest_y: tg.dest_rect.1 as i64, dest_width: dest_w, dest_height: dest_h,
                    src_x: x_src as i64, src_y: y_src as i64, src_width: span_w, src_height: span_h,
                };
                let registered = old(surfaces).registered().contains(tg.dest_bitmap);
                let covered = registered && rect_covers_bitmap(tg.dest_rect, db.width, db.height);
                &&& final(self).objs() == old(self).objs().insert(tg.dest_bitmap, final(self).objs()[tg.dest_bitmap])
                &&& bitmap_at(*final(self), tg.dest_bitmap) == Some(BitmapView { pixels: after, ..db })
                &&& stretched(db.pixels, after, area, db.width, db.height, src@, src_w, src_h, old(self).dc_clip(hdc), rop, *blend)
                &&& final(surfaces).registered() == old(surfaces).registered()
                &&& covered ==> final(surfaces).states() == old(surfaces).updated(tg.dest_bitmap,
                    dirtied(with_content(old(surfaces).state_of(tg.dest_bitmap))))
                &&& (!covered && rop == SRCCOPY && registered) ==> final(surfaces).states() == old(surfaces).states()
                &&& (!covered && !(rop == SRCCOPY && registered)) ==> old(surfaces).rect_upload_states(final(surfaces).states(),
                    tg.dest_bitmap, after, db.width, db.height, tg.dest_rect.0, tg.dest_rect.1, tg.dest_rect.2, tg.dest_rect.3)
            },
    {
        if !(rop == SRCCOPY || rop == SRCAND || rop == SRCPAINT || rop == SRCINVERT) {
            return None;
        }
        let clip = self.clip_rects_for_hdc(hdc);
        let ghost t0 = *self;
        let (s, dobj) = match self.take_dc_bitmap(hdc) {
            Some(x) => x,
            None => return None,
        };
        let hbmp = s.selected_bitmap;
        match dobj {
            GdiObject::Bitmap {
                width: dw, height: dh, mut pixels, bits_addr, stride, bit_count, top_down, palette, red_mask,
                green_mask, blue_mask, alpha_mask,
            } => {
                let abs_w: i32 = if dest_w < 0 { -dest_w } else { dest_w };
                let abs_h: i32 = if dest_h < 0 { -dest_h } else { dest_h };
                let rect: Rect = (x_dest + s.origin_x, y_dest + s.origin_y, x_dest + s.origin_x + abs_w, y_dest + s.origin_y + abs_h);
                let area = StretchArea {
                    dest_x: rect.0 as i64, dest_y: rect.1 as i64, dest_width: dest_w, dest_height: dest_h,
                    src_x: x_src as i64, src_y: y_src as i64, src_width: span_w, src_height: span_h,
                };
                stretch_pixels(&mut pixels, dw, dh, src, src_w, src_h, area, &clip, rop, blend);
                let registered = surfaces.is_surface_bitmap(hbmp);
                if registered && rect.0 <= 0 && rect.1 <= 0 && rect.2 >= dw as i32 && rect.3 >= dh as i32 {
                    surfaces.mark_surface_bitmap_has_content(hbmp);
                    surfaces.mark_surface_bitmap_dirty(hbmp);
                } else if !(rop == SRCCOPY && registered) {
                    proof {
                        lemma_rect_upload_fits(dw, dh, pixels@.len() as int, rect.2, rect.3);
                    }
                    surfaces.queue_surface_bitmap_rect_upload(hbmp, pixels.as_slice(), dw, dh, rect.0, rect.1, rect.2, rect.3);
                }
                let ghost after = pixels@;
                self.objects.insert(hbmp, GdiObject::Bitmap {
                    width: dw, height: dh, pixels, bits_addr, stride, bit_count, top_down, palette, red_mask,
                    green_mask, blue_mask, alpha_mask,
                });
                proof {
                    assert(self.objs() =~= t0.objs().insert(hbmp, self.objs()[hbmp]));
                    assert(bitmap_at(*self, hbmp)->0.pixels == after);
                }
                Some(DibTarget { dest_bitmap: hbmp, dest_window: s.associated_window, dest_rect: rect })
            },
            _ => None,
        }
    }

    /// `CreateDIBSection` for the parsed header `header`, its bits placed
    /// at guest address `bits_addr`: a new bitmap of the header's size,
    /// layout, palette and masks, its pixels black.
    pub fn create_dib_section(&mut self, handles: &mut HandleCounter, header: DibHeaderInfo, bits_addr: u32) -> (h: u32)
        requires
            header.width * header.height <= usize::MAX,
        ensures
            h == old(handles).next,
            final(handles).next == (if old(handles).next == u32::MAX { 0 } else { (old(handles).next + 1) as u32 }),
            final(self).objs() == old(self).objs().insert(h, final(self).objs()[h]),
            bitmap_at(*final(self), h) == Some(BitmapView {
                width: header.width,
                height: header.height,
                pixels: Seq::new((header.width * header.height) as nat, |i: int| 0u32),
                bits_addr: Some(bits_addr),
                stride: header.stride,
                bit_count: header.bit_count,
                top_down: header.top_down,
                palette: header.palette@,
                masks: (header.red_mask, header.green_mask, header.blue_mask, header.alpha_mask),
            }),
            handles_fresh(*old(self), *old(handles)) && old(handles).next < u32::MAX ==>
                !old(self).objs().contains_key(h) && handles_fresh(*final(self), *final(handles)),
    {
        let n: usize = (header.width as usize) * (header.height as usize);
        let pixels: Vec<u32> = vec![0u32; n];
        let h = handles.alloc_handle();
        let b = GdiObject::Bitmap {
            width: header.width,
            height: header.height,
            pixels,
            bits_addr: Some(bits_addr),
            stride: header.stride,
            bit_count: header.bit_count,
            top_down: header.top_down,
            palette: header.palette,
            red_mask: header.red_mask,
            green_mask: header.green_mask,
            blue_mask: header.blue_mask,
            alpha_mask: header.alpha_mask,
        };
        proof {
            assert(bitmap_view(b)->0.pixels =~= Seq::new((header.width * header.height) as nat, |i: int| 0u32));
        }
        self.objects.insert(h, b);
        h
    }

    /// The guest address of DIB section `h` and the bytes its pixels encode
    /// to there; `None` when `h` is no DIB section.
    pub fn dib_section_flush(&self, h: u32) -> (r: Option<(u32, Vec<u8>)>)
        requires
            dib_section_at(*self, h) matches Some(b) ==> dib_flush_fits(b),
        ensures
            match dib_section_at(*self, h) {
                Some(b) => r matches Some((addr, raw)) && Some(addr) == b.bits_addr
                    && raw@ == encode_prefix(b.pixels, b.width, b.height, stride_in_use(b.stride, b.width, b.bit_count),
                        b.bit_count, b.top_down, b.palette, b.masks, (b.width * b.height) as nat),
                None => r is None,
            },
    {
        match self.objects.get(&h) {
            Some(GdiObject::Bitmap {
                width, height, pixels, bits_addr: Some(addr), stride, bit_count, top_down, palette, red_mask,
                green_mask, blue_mask, alpha_mask,
            }) => {
                let raw = pixels_to_raw_dib(pixels.as_slice(), *width, *height, *stride, *bit_count, *top_down,
                    palette.as_slice(), *red_mask, *green_mask, *blue_mask, *alpha_mask);
                Some((*addr, raw))
            },
            _ => None,
        }
    }

    /// Reads the DIB bits `raw` (from the guest's memory at the section's
    /// address) into the pixels of DIB section `h`. Nothing changes when
    /// `h` is no DIB section, `raw` is empty, or the decoded image has
    /// another length than the pixel buffer.
    pub fn dib_section_sync(&mut self, h: u32, raw: &[u8])
        requires
            dib_section_at(*old(self), h) matches Some(b) ==> dib_sync_fits(b, raw@),
        ensures
            match dib_section_at(*old(self), h) {
                Some(b) => if raw@.len() > 0 && b.pixels.len() == b.width * b.height {
                    &&& final(self).objs() == old(self).objs().insert(h, final(self).objs()[h])
                    &&& bitmap_at(*final(self), h) == Some(BitmapView { pixels: decoded_dib(b, raw@), ..b })
                } else {
                    final(self).objs() == old(self).objs()
                },
                None => final(self).objs() == old(self).objs(),
            },
    {
        if raw.len() == 0 {
            return;
        }
        let ghost t0 = *self;
        let obj = match self.objects.remove(&h) {
            Some(o) => o,
            None => return,
        };
        let ghost o0 = obj;
        match obj {
            GdiObject::Bitmap {
                width, height, pixels, bits_addr: Some(addr), stride, bit_count, top_down, palette, red_mask,
                green_mask, blue_mask, alpha_mask,
            } => {
                let converted = raw_dib_to_pixels(raw, width, height, stride, bit_count, top_down, palette.as_slice(),
                    red_mask, green_mask, blue_mask, alpha_mask);
                let next = if pixels.len() == converted.len() { converted } else { pixels };
                let b = GdiObject::Bitmap {
                    width, height, pixels: next, bits_addr: Some(addr), stride, bit_count, top_down, palette, red_mask,
                    green_mask, blue_mask, alpha_mask,
                };
                proof {
                    let bv = bitmap_view(o0)->0;
                    if bv.pixels.len() == bv.width * bv.height {
                        assert forall|k: int| 0 <= k < width * height implies
                            #[trigger] bitmap_view(b)->0.pixels[k] == decoded_dib(bv, raw@)[k] by {
                            lemma_row_col(k, width as int, height as int);
                            assert(k == (k / (width as int)) * width + k % (width as int));
                        }
                        assert(bitmap_view(b)->0.pixels =~= decoded_dib(bv, raw@));
                    } else {
                        assert(b == o0);
                    }
                }
                self.objects.insert(h, b);
                proof {
                    if !(bitmap_view(o0)->0.pixels.len() == bitmap_view(o0)->0.width * bitmap_view(o0)->0.height) {
                        assert(self.objs() =~= t0.objs());
                    }
                }
            },
            other => {
                proof {
                    assert(other == o0);
                }
                self.objects.insert(h, other);
                proof {
                    assert(self.objs() =~= t0.objs());
                }
            },
        }
    }

    /// `CreateFontA` / `CreateFontIndirectA`: a new font of face `name` and
    /// `height` (0 asks for the default height, 12).
    pub fn create_font(&mut self, handles: &mut HandleCounter, name: String, height: i32) -> (h: u32)
        ensures
            h == old(handles).next,
            final(handles).next == (if old(handles).next == u32::MAX { 0 } else { (old(handles).next + 1) as u32 }),
            final(self).objs() == old(self).objs().insert(h, GdiObject::Font { name, height: if height == 0 { 12i32 } else { height } }),
            handles_fresh(*old(self), *old(handles)) && old(handles).next < u32::MAX ==>
                !old(self).objs().contains_key(h) && handles_fresh(*final(self), *final(handles)),
    {
        let h = handles.alloc_handle();
        self.objects.insert(h, GdiObject::Font { name, height: if height == 0 { 12 } else { height } });
        proof {
            if handles_fresh(*old(self), *old(handles)) && old(handles).next < u32::MAX {
                assert forall|k: u32| #[trigger] self.objs().contains_key(k) implies k < handles.next by {
                    if k != h {
                        assert(old(self).objs().contains_key(k));
                    }
                }
            }
        }
        h
    }

    /// `CreateBitmap(width, height, planes, bpp, bits)`: a new bitmap of at
    /// least 1x1 pixels and 1 bit per pixel, bottom-up, without palette;
    /// its pixels are decoded from `bits` (the scanlines the guest passed,
    /// empty when none) or black.
    pub fn create_bitmap(&mut self, handles: &mut HandleCounter, width: u32, height: u32, bpp: u32, bits: &[u8]) -> (h: u32)
        requires
            ({
                let w = if width > 1 { width } else { 1 };
                let ht = if height > 1 { height } else { 1 };
                let bc = (if bpp > 1 { bpp } else { 1 }) as u16;
                let b = BitmapView {
                    width: w, height: ht, pixels: Seq::empty(), bits_addr: None,
                    stride: spec_dib_effective_stride(w, ht, 0, bc) as u32, bit_count: bc, top_down: false,
                    palette: Seq::empty(), masks: (0u32, 0u32, 0u32, 0u32),
                };
                &&& w * ht <= usize::MAX
                &&& bits@.len() > 0 ==> dib_sync_fits(b, bits@)
            }),
        ensures
            h == old(handles).next,
            final(handles).next == (if old(handles).next == u32::MAX { 0 } else { (old(handles).next + 1) as u32 }),
            final(self).objs() == old(self).objs().insert(h, final(self).objs()[h]),
            ({
                let w = if width > 1 { width } else { 1 };
                let ht = if height > 1 { height } else { 1 };
                let bc = (if bpp > 1 { bpp } else { 1 }) as u16;
                let layout = BitmapView {
                    width: w, height: ht, pixels: Seq::empty(), bits_addr: None,
                    stride: spec_dib_effective_stride(w, ht, 0, bc) as u32, bit_count: bc, top_down: false,
                    palette: Seq::empty(), masks: (0u32, 0u32, 0u32, 0u32),
                };
                bitmap_at(*final(self), h) == Some(BitmapView {
                    pixels: if bits@.len() > 0 { decoded_dib(layout, bits@) } else { Seq::new((w * ht) as nat, |i: int| 0u32) },
                    ..layout
                })
            }),
            handles_fresh(*old(self), *old(handles)) && old(handles).next < u32::MAX ==>
                !old(self).objs().contains_key(h) && handles_fresh(*final(self), *final(handles)),
    {
        let w = if width > 1 { width } else { 1 };
        let ht = if height > 1 { height } else { 1 };
        let bc = (if bpp > 1 { bpp } else { 1 }) as u16;
        let stride = dib_effective_stride(w, ht, 0, bc);
        let n: usize = (w as usize) * (ht as usize);
        let mut pixels: Vec<u32> = vec![0u32; n];
        let palette: Vec<u32> = Vec::new();
        let ghost layout = BitmapView {
            width: w, height: ht, pixels: Seq::empty(), bits_addr: None, stride, bit_count: bc, top_down: false,
            palette: Seq::empty(), masks: (0u32, 0u32, 0u32, 0u32),
        };
        if bits.len() > 0 {
            let converted = raw_dib_to_pixels(bits, w, ht, stride, bc, false, palette.as_slice(), 0, 0, 0, 0);
            proof {
                assert(palette@ =~= Seq::<u32>::empty());
                assert forall|k: int| 0 <= k < w * ht implies #[trigger] converted@[k] == decoded_dib(layout, bits@)[k] by {
                    lemma_row_col(k, w as int, ht as int);
                }
                assert(converted@ =~= decoded_dib(layout, bits@));
            }
            pixels = converted;
        } else {
            proof {
                assert(pixels@ =~= Seq::new((w * ht) as nat, |i: int| 0u32));
            }
        }
        let h = handles.alloc_handle();
        let b = GdiObject::Bitmap {
            width: w, height: ht, pixels, bits_addr: None, stride, bit_count: bc, top_down: false, palette,
            red_mask: 0, green_mask: 0, blue_mask: 0, alpha_mask: 0,
        };
        proof {
            assert(bitmap_view(b)->0.palette =~= Seq::<u32>::empty());
        }
        self.objects.insert(h, b);
        h
    }
}

} // verus!
