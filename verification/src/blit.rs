//! Raster operations between 32-bit bitmaps: the per-pixel combination of a
//! source and a destination pixel, and the straight and stretched copies of
//! BitBlt, StretchBlt, SetDIBitsToDevice and StretchDIBits.
//!
//! Alpha blending of a source pixel over a destination pixel is supplied by
//! the caller as `blend`; every contract below speaks of it only through
//! `call_ensures`, so it holds for whatever blending the caller uses.

use vstd::prelude::*;
use crate::geometry::{Rect, rects_contain, point_in_clip_rects, intersect_rect, intersect_rect_with_clip_rects,
    spec_intersect_rect, spec_clip_pieces, opt_rect_seq};

verus! {

/// Copies the source (blended over the destination).
pub const SRCCOPY: u32 = 0x00CC_0020;
/// Destination AND source.
pub const SRCAND: u32 = 0x0088_00C6;
/// Destination OR source.
pub const SRCPAINT: u32 = 0x00EE_0086;
/// Destination XOR source.
pub const SRCINVERT: u32 = 0x0066_0046;

/// The colour channels combined by a bitwise raster operation, keeping the
/// destination's alpha byte; `None` for operations that blend instead.
pub open spec fn rop_channels(dst_val: u32, src_val: u32, rop: u32) -> Option<u32> {
    let d = dst_val & 0x00FF_FFFF;
    let s = src_val & 0x00FF_FFFF;
    let a = dst_val & 0xFF00_0000;
    if rop == SRCAND {
        Some(a | (d & s))
    } else if rop == SRCPAINT {
        Some(a | (d | s))
    } else if rop == SRCINVERT {
        Some(a | (d ^ s))
    } else {
        None
    }
}

/// `PatBlt` raster operations the emulator draws.
pub const PATCOPY: u32 = 0x00F0_0021;
pub const BLACKNESS: u32 = 0x0000_0042;
pub const WHITENESS: u32 = 0x00FF_0062;

/// The colour `PatBlt` fills with: the selected brush's colour for
/// `PATCOPY` (white when the DC holds no brush), black for `BLACKNESS`,
/// white for `WHITENESS`; nothing for other operations.
pub fn pat_blt_color(rop: u32, brush_color: Option<u32>) -> (r: Option<u32>)
    ensures
        r == (if rop == PATCOPY {
            Some(match brush_color { Some(c) => c, None => 0xFFFF_FFFFu32 })
        } else if rop == BLACKNESS {
            Some(0xFF00_0000u32)
        } else if rop == WHITENESS {
            Some(0xFFFF_FFFFu32)
        } else {
            None
        }),
{
    if rop == PATCOPY {
        match brush_color {
            Some(c) => Some(c),
            None => Some(0xFFFF_FFFF),
        }
    } else if rop == BLACKNESS {
        Some(0xFF00_0000)
    } else if rop == WHITENESS {
        Some(0xFFFF_FFFF)
    } else {
        None
    }
}

/// One destination pixel after the raster operation `rop`; `blended` is the
/// source blended over the destination, used by every operation that is not
/// AND, OR or XOR.
pub fn apply_bitmap_rop(dst_val: u32, src_val: u32, rop: u32, blended: u32) -> (r: u32)
    ensures
        r == match rop_channels(dst_val, src_val, rop) {
            Some(v) => v,
            None => blended,
        },
{
    let dst_rgb = dst_val & 0x00FF_FFFF;
    let src_rgb = src_val & 0x00FF_FFFF;
    let dst_alpha = dst_val & 0xFF00_0000;
    if rop == SRCAND {
        dst_alpha | (dst_rgb & src_rgb)
    } else if rop == SRCPAINT {
        dst_alpha | (dst_rgb | src_rgb)
    } else if rop == SRCINVERT {
        dst_alpha | (dst_rgb ^ src_rgb)
    } else {
        blended
    }
}

/// `v` is a possible result of the raster operation on the two pixels.
pub open spec fn rop_result<F: Fn(u32, u32) -> u32>(blend: F, dst_val: u32, src_val: u32, rop: u32, v: u32) -> bool {
    match rop_channels(dst_val, src_val, rop) {
        Some(x) => v == x,
        None => call_ensures(blend, (dst_val, src_val), v),
    }
}

fn combine<F: Fn(u32, u32) -> u32>(blend: &F, dst_val: u32, src_val: u32, rop: u32) -> (r: u32)
    requires
        forall|d: u32, s: u32| call_requires(*blend, (d, s)),
    ensures
        rop_result(*blend, dst_val, src_val, rop, r),
{
    if rop == SRCAND || rop == SRCPAINT || rop == SRCINVERT {
        apply_bitmap_rop(dst_val, src_val, rop, 0)
    } else {
        let b = blend(dst_val, src_val);
        apply_bitmap_rop(dst_val, src_val, rop, b)
    }
}

/// The cell `(x, y)` passes the clip region (no region: every cell does).
pub open spec fn in_clip(clip: Option<Seq<Rect>>, x: int, y: int) -> bool {
    clip is None || rects_contain(clip->0, x, y)
}

/// The rectangles of a clip list, if there is one.
pub open spec fn clip_view(clip_rects: Option<Vec<Rect>>) -> Option<Seq<Rect>> {
    match clip_rects {
        Some(v) => Some(v@),
        None => None,
    }
}

/// A straight copy of `width x height` pixels from `(src_x, src_y)` of the
/// source to `(dest_x, dest_y)` of the destination.
pub struct BlitArea {
    pub dest_x: i64,
    pub dest_y: i64,
    pub src_x: i64,
    pub src_y: i64,
    pub width: i32,
    pub height: i32,
}

/// The source index that the copy combines into destination index `k`, if
/// any: the cell lies in the copied area, inside both bitmaps and the clip
/// region, and both indices are in range.
pub open spec fn blit_source(
    a: BlitArea, k: int, dst_len: int, dst_width: u32, dst_height: u32,
    src_len: int, src_width: u32, src_height: u32, clip: Option<Seq<Rect>>,
) -> Option<int> {
    if dst_width == 0 || k < 0 || k >= dst_len {
        None
    } else {
        let dx = k % (dst_width as int);
        let dy = k / (dst_width as int);
        let x = dx - a.dest_x;
        let y = dy - a.dest_y;
        let sx = a.src_x + x;
        let sy = a.src_y + y;
        let si = sy * src_width + sx;
        if 0 <= x < a.width && 0 <= y < a.height && 0 <= sx < src_width && 0 <= sy < src_height
            && dy < dst_height && in_clip(clip, dx, dy) && si < src_len {
            Some(si)
        } else {
            None
        }
    }
}

proof fn lemma_index_split(dy: int, dx: int, w: int)
    requires
        0 <= dx < w,
        0 <= dy,
    ensures
        (dy * w + dx) % w == dx,
        (dy * w + dx) / w == dy,
        dy * w + dx >= 0,
{
    vstd::arithmetic::div_mod::lemma_fundamental_div_mod_converse(dy * w + dx, w, dy, dx);
    assert(dy * w >= 0) by (nonlinear_arith)
        requires
            0 <= dy,
            0 < w;
}

proof fn lemma_index_unique(k: int, w: int, dx: int, dy: int)
    requires
        0 < w,
        0 <= k,
        dx == k % w,
        dy == k / w,
    ensures
        k == dy * w + dx,
        0 <= dx < w,
        0 <= dy,
{
    vstd::arithmetic::div_mod::lemma_fundamental_div_mod(k, w);
    assert(w * dy == dy * w) by (nonlinear_arith);
    assert(0 <= dy) by (nonlinear_arith)
        requires
            0 <= k,
            0 < w,
            dy == k / w;
}

/// Combines the source pixels of the area into the destination bitmap with
/// the raster operation `rop`, cell by cell; every other destination pixel
/// stays as it was.
pub fn blit_pixels<F: Fn(u32, u32) -> u32>(
    dst: &mut Vec<u32>,
    dst_width: u32,
    dst_height: u32,
    src: &[u32],
    src_width: u32,
    src_height: u32,
    area: BlitArea,
    clip_rects: &Option<Vec<Rect>>,
    rop: u32,
    blend: &F,
)
    requires
        forall|d: u32, s: u32| call_requires(*blend, (d, s)),
        dst_width <= i32::MAX,
        dst_height <= i32::MAX,
        src_width <= i32::MAX,
        src_height <= i32::MAX,
        -0x1_0000_0000 <= area.dest_x <= 0x1_0000_0000,
        -0x1_0000_0000 <= area.dest_y <= 0x1_0000_0000,
        -0x1_0000_0000 <= area.src_x <= 0x1_0000_0000,
        -0x1_0000_0000 <= area.src_y <= 0x1_0000_0000,
    ensures
        final(dst)@.len() == old(dst)@.len(),
        forall|k: int| 0 <= k < old(dst)@.len() ==> {
            let s = blit_source(area, k, old(dst)@.len() as int, dst_width, dst_height, src@.len() as int, src_width, src_height, clip_view(*clip_rects));
            match s {
                Some(si) => rop_result(*blend, #[trigger] old(dst)@[k], src@[si], rop, final(dst)@[k]),
                None => final(dst)@[k] == old(dst)@[k],
            }
        },
{
    let ghost d0 = dst@;
    let ghost n = d0.len() as int;
    let mut y: i32 = 0;
    while y < area.height
        invariant
            forall|d: u32, s: u32| call_requires(*blend, (d, s)),
            dst_width <= i32::MAX,
            dst_height <= i32::MAX,
            src_width <= i32::MAX,
            src_height <= i32::MAX,
            -0x1_0000_0000 <= area.dest_x <= 0x1_0000_0000,
            -0x1_0000_0000 <= area.dest_y <= 0x1_0000_0000,
            -0x1_0000_0000 <= area.src_x <= 0x1_0000_0000,
            -0x1_0000_0000 <= area.src_y <= 0x1_0000_0000,
            0 <= y,
            y <= area.height || area.height <= 0,
            dst@.len() == n,
            d0.len() == n,
            forall|k: int| 0 <= k < n ==> {
                let s = blit_source(area, k, n, dst_width, dst_height, src@.len() as int, src_width, src_height, clip_view(*clip_rects));
                if s is Some && k / (dst_width as int) - area.dest_y < y {
                    rop_result(*blend, #[trigger] d0[k], src@[s->0], rop, dst@[k])
                } else {
                    dst@[k] == d0[k]
                }
            },
        decreases area.height - y,
    {
        let mut x: i32 = 0;
        while x < area.width
            invariant
                forall|d: u32, s: u32| call_requires(*blend, (d, s)),
                dst_width <= i32::MAX,
                dst_height <= i32::MAX,
                src_width <= i32::MAX,
                src_height <= i32::MAX,
                -0x1_0000_0000 <= area.dest_x <= 0x1_0000_0000,
                -0x1_0000_0000 <= area.dest_y <= 0x1_0000_0000,
                -0x1_0000_0000 <= area.src_x <= 0x1_0000_0000,
                -0x1_0000_0000 <= area.src_y <= 0x1_0000_0000,
                0 <= y < area.height,
                0 <= x,
                x <= area.width || area.width <= 0,
                dst@.len() == n,
                d0.len() == n,
                forall|k: int| 0 <= k < n ==> {
                    let s = blit_source(area, k, n, dst_width, dst_height, src@.len() as int, src_width, src_height, clip_view(*clip_rects));
                    let ky = k / (dst_width as int) - area.dest_y;
                    let kx = k % (dst_width as int) - area.dest_x;
                    if s is Some && (ky < y || (ky == y && kx < x)) {
                        rop_result(*blend, #[trigger] d0[k], src@[s->0], rop, dst@[k])
                    } else {
                        dst@[k] == d0[k]
                    }
                },
            decreases area.width - x,
        {
            let sx: i64 = area.src_x + x as i64;
            let sy: i64 = area.src_y + y as i64;
            let dx: i64 = area.dest_x + x as i64;
            let dy: i64 = area.dest_y + y as i64;
            if 0 <= sx && sx < src_width as i64 && 0 <= sy && sy < src_height as i64
                && 0 <= dx && dx < dst_width as i64 && 0 <= dy && dy < dst_height as i64 {
                if point_in_clip_rects(clip_rects, dx as i32, dy as i32) {
                    proof {
                        assert((sy as u64) * (src_width as u64) <= 0x7FFF_FFFF * 0x7FFF_FFFF) by (nonlinear_arith)
                            requires
                                0 <= sy <= 0x7FFF_FFFF,
                                src_width <= 0x7FFF_FFFF;
                        assert((dy as u64) * (dst_width as u64) <= 0x7FFF_FFFF * 0x7FFF_FFFF) by (nonlinear_arith)
                            requires
                                0 <= dy <= 0x7FFF_FFFF,
                                dst_width <= 0x7FFF_FFFF;
                    }
                    let src_idx: u64 = (sy as u64) * (src_width as u64) + (sx as u64);
                    let dst_idx: u64 = (dy as u64) * (dst_width as u64) + (dx as u64);
                    if src_idx < src.len() as u64 && dst_idx < dst.len() as u64 {
                        let di = dst_idx as usize;
                        let old_val = dst[di];
                        let v = combine(blend, old_val, src[src_idx as usize], rop);
                        let ghost before = dst@;
                        dst.set(di, v);
                        proof {
                            lemma_index_split(dy as int, dx as int, dst_width as int);
                            assert(blit_source(area, di as int, n, dst_width, dst_height, src@.len() as int, src_width, src_height, clip_view(*clip_rects))
                                == Some(src_idx as int));
                            assert(old_val == d0[di as int]);
                            assert forall|k: int| 0 <= k < n implies {
                                let s = blit_source(area, k, n, dst_width, dst_height, src@.len() as int, src_width, src_height, clip_view(*clip_rects));
                                let ky = k / (dst_width as int) - area.dest_y;
                                let kx = k % (dst_width as int) - area.dest_x;
                                if s is Some && (ky < y || (ky == y && kx < x + 1)) {
                                    rop_result(*blend, #[trigger] d0[k], src@[s->0], rop, dst@[k])
                                } else {
                                    dst@[k] == d0[k]
                                }
                            } by {
                                if k != di {
                                    let kx = k % (dst_width as int);
                                    let ky = k / (dst_width as int);
                                    lemma_index_unique(k, dst_width as int, kx, ky);
                                    if ky - area.dest_y == y && kx - area.dest_x == x {
                                        assert(k == dy * dst_width + dx);
                                    }
                                }
                            }
                        }
                    }
                }
            }
            proof {
                assert forall|k: int| 0 <= k < n implies {
                    let s = blit_source(area, k, n, dst_width, dst_height, src@.len() as int, src_width, src_height, clip_view(*clip_rects));
                    let ky = k / (dst_width as int) - area.dest_y;
                    let kx = k % (dst_width as int) - area.dest_x;
                    if s is Some && (ky < y || (ky == y && kx < x + 1)) {
                        rop_result(*blend, #[trigger] d0[k], src@[s->0], rop, dst@[k])
                    } else {
                        dst@[k] == d0[k]
                    }
                } by {
                    let s = blit_source(area, k, n, dst_width, dst_height, src@.len() as int, src_width, src_height, clip_view(*clip_rects));
                    if s is Some {
                        let kx = k % (dst_width as int);
                        let ky = k / (dst_width as int);
                        lemma_index_unique(k, dst_width as int, kx, ky);
                    }
                }
            }
            x = x + 1;
        }
        proof {
            assert forall|k: int| 0 <= k < n implies {
                let s = blit_source(area, k, n, dst_width, dst_height, src@.len() as int, src_width, src_height, clip_view(*clip_rects));
                if s is Some && k / (dst_width as int) - area.dest_y < y + 1 {
                    rop_result(*blend, #[trigger] d0[k], src@[s->0], rop, dst@[k])
                } else {
                    dst@[k] == d0[k]
                }
            } by {
                let s = blit_source(area, k, n, dst_width, dst_height, src@.len() as int, src_width, src_height, clip_view(*clip_rects));
                if s is Some {
                    assert(k % (dst_width as int) - area.dest_x < area.width);
                }
            }
        }
        y = y + 1;
    }
}

/// Division rounding toward zero, as Rust's `/` on signed integers does.
pub open spec fn trunc_div(a: int, b: int) -> int {
    if a >= 0 { a / b } else { -((-a) / b) }
}

fn trunc_div_i64(a: i64, b: i64) -> (r: i64)
    requires
        b > 0,
        a > i64::MIN,
    ensures
        r == trunc_div(a as int, b as int),
{
    if a >= 0 {
        a / b
    } else {
        let q = (-a) / b;
        proof {
            let na: int = -(a as int);
            assert(q <= na) by (nonlinear_arith)
                requires
                    q == na / (b as int),
                    b > 0,
                    na > 0;
        }
        -q
    }
}

pub open spec fn clamp_int(v: int, lo: int, hi: int) -> int {
    if v < lo { lo } else if v > hi { hi } else { v }
}

pub open spec fn abs_int(v: int) -> int {
    if v < 0 { -v } else { v }
}

/// A nearest-neighbour stretch: destination span `dest_span` (negative:
/// mirrored) starting at `dest_x`/`dest_y` is filled from source span
/// `src_span` starting at `src_x`/`src_y`.
pub struct StretchArea {
    pub dest_x: i64,
    pub dest_y: i64,
    pub dest_width: i32,
    pub dest_height: i32,
    pub src_x: i64,
    pub src_y: i64,
    pub src_width: i32,
    pub src_height: i32,
}

/// The source coordinate sampled for offset `d` of a destination span:
/// mirrored spans are walked from their far end.
pub open spec fn stretch_coord(d: int, dest_span: int, src_span: int, start: int) -> int {
    if dest_span > 0 {
        start + trunc_div(d * src_span, dest_span)
    } else {
        start + trunc_div((abs_int(dest_span) - 1 - d) * src_span, abs_int(dest_span))
    }
}

/// The source index that the stretch combines into destination index `k`.
pub open spec fn stretch_source(
    a: StretchArea, k: int, dst_len: int, dst_width: u32, dst_height: u32,
    src_len: int, src_width: u32, src_height: u32, clip: Option<Seq<Rect>>,
) -> Option<int> {
    if dst_width == 0 || k < 0 || k >= dst_len {
        None
    } else {
        let dx = k % (dst_width as int);
        let dy = k / (dst_width as int);
        let x = dx - a.dest_x;
        let y = dy - a.dest_y;
        let sx = clamp_int(stretch_coord(x, a.dest_width as int, a.src_width as int, a.src_x as int), 0, src_width - 1);
        let sy = clamp_int(stretch_coord(y, a.dest_height as int, a.src_height as int, a.src_y as int), 0, src_height - 1);
        let si = sy * src_width + sx;
        if 0 <= x < abs_int(a.dest_width as int) && 0 <= y < abs_int(a.dest_height as int)
            && dy < dst_height && in_clip(clip, dx, dy) && si < src_len {
            Some(si)
        } else {
            None
        }
    }
}

fn stretch_coord_of(d: i64, dest_span: i32, src_span: i32, start: i64, limit: u32) -> (r: i64)
    requires
        0 <= d < abs_int(dest_span as int),
        -0x1_0000_0000 <= start <= 0x1_0000_0000,
        1 <= limit <= i32::MAX,
    ensures
        r == clamp_int(stretch_coord(d as int, dest_span as int, src_span as int, start as int), 0, limit - 1),
{
    let span = dest_span as i64;
    let q = if span > 0 {
        proof {
            assert(-0x8000_0000 * 0x8000_0000 <= d * src_span <= 0x8000_0000 * 0x8000_0000) by (nonlinear_arith)
                requires
                    0 <= d <= 0x8000_0000,
                    -0x8000_0000 <= src_span <= 0x8000_0000;
        }
        trunc_div_i64(d * (src_span as i64), span)
    } else {
        let a = -span;
        proof {
            assert(-0x8000_0000 * 0x8000_0000 <= (a - 1 - d) * src_span <= 0x8000_0000 * 0x8000_0000) by (nonlinear_arith)
                requires
                    0 <= a - 1 - d <= 0x8000_0000,
                    -0x8000_0000 <= src_span <= 0x8000_0000;
        }
        trunc_div_i64((a - 1 - d) * (src_span as i64), a)
    };
    proof {
        if span > 0 {
            assert(-(0x8000_0000 * 0x8000_0000) <= q <= 0x8000_0000 * 0x8000_0000) by (nonlinear_arith)
                requires
                    q == trunc_div(d * src_span, span as int),
                    -0x8000_0000 * 0x8000_0000 <= d * src_span <= 0x8000_0000 * 0x8000_0000,
                    span > 0;
        } else {
            assert(-(0x8000_0000 * 0x8000_0000) <= q <= 0x8000_0000 * 0x8000_0000) by (nonlinear_arith)
                requires
                    q == trunc_div((-span - 1 - d) * src_span, -span),
                    -0x8000_0000 * 0x8000_0000 <= (-span - 1 - d) * src_span <= 0x8000_0000 * 0x8000_0000,
                    -span > 0;
        }
    }
    let v = start + q;
    let hi = limit as i64 - 1;
    if v < 0 { 0 } else if v > hi { hi } else { v }
}

/// Combines a nearest-neighbour stretch of the source into the destination
/// bitmap with the raster operation `rop`; source coordinates are clamped to
/// the source bitmap, and every other destination pixel stays as it was.
pub fn stretch_pixels<F: Fn(u32, u32) -> u32>(
    dst: &mut Vec<u32>,
    dst_width: u32,
    dst_height: u32,
    src: &[u32],
    src_width: u32,
    src_height: u32,
    area: StretchArea,
    clip_rects: &Option<Vec<Rect>>,
    rop: u32,
    blend: &F,
)
    requires
        forall|d: u32, s: u32| call_requires(*blend, (d, s)),
        dst_width <= i32::MAX,
        dst_height <= i32::MAX,
        1 <= src_width <= i32::MAX,
        1 <= src_height <= i32::MAX,
        -0x1_0000_0000 <= area.dest_x <= 0x1_0000_0000,
        -0x1_0000_0000 <= area.dest_y <= 0x1_0000_0000,
        -0x1_0000_0000 <= area.src_x <= 0x1_0000_0000,
        -0x1_0000_0000 <= area.src_y <= 0x1_0000_0000,
    ensures
        final(dst)@.len() == old(dst)@.len(),
        forall|k: int| 0 <= k < old(dst)@.len() ==> {
            let s = stretch_source(area, k, old(dst)@.len() as int, dst_width, dst_height, src@.len() as int, src_width, src_height, clip_view(*clip_rects));
            match s {
                Some(si) => rop_result(*blend, #[trigger] old(dst)@[k], src@[si], rop, final(dst)@[k]),
                None => final(dst)@[k] == old(dst)@[k],
            }
        },
{
    let ghost d0 = dst@;
    let ghost n = d0.len() as int;
    let abs_w: i64 = if area.dest_width < 0 { -(area.dest_width as i64) } else { area.dest_width as i64 };
    let abs_h: i64 = if area.dest_height < 0 { -(area.dest_height as i64) } else { area.dest_height as i64 };
    let mut y: i64 = 0;
    while y < abs_h
        invariant
            forall|d: u32, s: u32| call_requires(*blend, (d, s)),
            dst_width <= i32::MAX,
            dst_height <= i32::MAX,
            1 <= src_width <= i32::MAX,
            1 <= src_height <= i32::MAX,
            -0x1_0000_0000 <= area.dest_x <= 0x1_0000_0000,
            -0x1_0000_0000 <= area.dest_y <= 0x1_0000_0000,
            -0x1_0000_0000 <= area.src_x <= 0x1_0000_0000,
            -0x1_0000_0000 <= area.src_y <= 0x1_0000_0000,
            abs_w == abs_int(area.dest_width as int),
            abs_h == abs_int(area.dest_height as int),
            0 <= y <= abs_h,
            dst@.len() == n,
            d0.len() == n,
            forall|k: int| 0 <= k < n ==> {
                let s = stretch_source(area, k, n, dst_width, dst_height, src@.len() as int, src_width, src_height, clip_view(*clip_rects));
                if s is Some && k / (dst_width as int) - area.dest_y < y {
                    rop_result(*blend, #[trigger] d0[k], src@[s->0], rop, dst@[k])
                } else {
                    dst@[k] == d0[k]
                }
            },
        decreases abs_h - y,
    {
        let sy = stretch_coord_of(y, area.dest_height, area.src_height, area.src_y, src_height);
        let mut x: i64 = 0;
        while x < abs_w
            invariant
                forall|d: u32, s: u32| call_requires(*blend, (d, s)),
                dst_width <= i32::MAX,
                dst_height <= i32::MAX,
                1 <= src_width <= i32::MAX,
                1 <= src_height <= i32::MAX,
                -0x1_0000_0000 <= area.dest_x <= 0x1_0000_0000,
                -0x1_0000_0000 <= area.dest_y <= 0x1_0000_0000,
                -0x1_0000_0000 <= area.src_x <= 0x1_0000_0000,
                -0x1_0000_0000 <= area.src_y <= 0x1_0000_0000,
                abs_w == abs_int(area.dest_width as int),
                abs_h == abs_int(area.dest_height as int),
                0 <= y < abs_h,
                0 <= x <= abs_w,
                sy == clamp_int(stretch_coord(y as int, area.dest_height as int, area.src_height as int, area.src_y as int), 0, src_height - 1),
                dst@.len() == n,
                d0.len() == n,
                forall|k: int| 0 <= k < n ==> {
                    let s = stretch_source(area, k, n, dst_width, dst_height, src@.len() as int, src_width, src_height, clip_view(*clip_rects));
                    let ky = k / (dst_width as int) - area.dest_y;
                    let kx = k % (dst_width as int) - area.dest_x;
                    if s is Some && (ky < y || (ky == y && kx < x)) {
                        rop_result(*blend, #[trigger] d0[k], src@[s->0], rop, dst@[k])
                    } else {
                        dst@[k] == d0[k]
                    }
                },
            decreases abs_w - x,
        {
            let sx = stretch_coord_of(x, area.dest_width, area.src_width, area.src_x, src_width);
            let dx: i64 = area.dest_x + x;
            let dy: i64 = area.dest_y + y;
            if 0 <= dx && dx < dst_width as i64 && 0 <= dy && dy < dst_height as i64 {
                if point_in_clip_rects(clip_rects, dx as i32, dy as i32) {
                    proof {
                        assert((sy as u64) * (src_width as u64) <= 0x7FFF_FFFF * 0x7FFF_FFFF) by (nonlinear_arith)
                            requires
                                0 <= sy <= 0x7FFF_FFFF,
                                src_width <= 0x7FFF_FFFF;
                        assert((dy as u64) * (dst_width as u64) <= 0x7FFF_FFFF * 0x7FFF_FFFF) by (nonlinear_arith)
                            requires
                                0 <= dy <= 0x7FFF_FFFF,
                                dst_width <= 0x7FFF_FFFF;
                    }
                    let src_idx: u64 = (sy as u64) * (src_width as u64) + (sx as u64);
                    let dst_idx: u64 = (dy as u64) * (dst_width as u64) + (dx as u64);
                    if src_idx < src.len() as u64 && dst_idx < dst.len() as u64 {
                        let di = dst_idx as usize;
                        let old_val = dst[di];
                        let v = combine(blend, old_val, src[src_idx as usize], rop);
                        dst.set(di, v);
                        proof {
                            lemma_index_split(dy as int, dx as int, dst_width as int);
                            assert(stretch_source(area, di as int, n, dst_width, dst_height, src@.len() as int, src_width, src_height, clip_view(*clip_rects))
                                == Some(src_idx as int));
                            assert forall|k: int| 0 <= k < n implies {
                                let s = stretch_source(area, k, n, dst_width, dst_height, src@.len() as int, src_width, src_height, clip_view(*clip_rects));
                                let ky = k / (dst_width as int) - area.dest_y;
                                let kx = k % (dst_width as int) - area.dest_x;
                                if s is Some && (ky < y || (ky == y && kx < x + 1)) {
                                    rop_result(*blend, #[trigger] d0[k], src@[s->0], rop, dst@[k])
                                } else {
                                    dst@[k] == d0[k]
                                }
                            } by {
                                if k != di {
                                    let kx = k % (dst_width as int);
                                    let ky = k / (dst_width as int);
                                    lemma_index_unique(k, dst_width as int, kx, ky);
                                    if ky - area.dest_y == y && kx - area.dest_x == x {
                                        assert(k == dy * dst_width + dx);
                                    }
                                }
                            }
                        }
                    }
                }
            }
            proof {
                assert forall|k: int| 0 <= k < n implies {
                    let s = stretch_source(area, k, n, dst_width, dst_height, src@.len() as int, src_width, src_height, clip_view(*clip_rects));
                    let ky = k / (dst_width as int) - area.dest_y;
                    let kx = k % (dst_width as int) - area.dest_x;
                    if s is Some && (ky < y || (ky == y && kx < x + 1)) {
                        rop_result(*blend, #[trigger] d0[k], src@[s->0], rop, dst@[k])
                    } else {
                        dst@[k] == d0[k]
                    }
                } by {
                    let s = stretch_source(area, k, n, dst_width, dst_height, src@.len() as int, src_width, src_height, clip_view(*clip_rects));
                    if s is Some {
                        let kx = k % (dst_width as int);
                        let ky = k / (dst_width as int);
                        lemma_index_unique(k, dst_width as int, kx, ky);
                    }
                }
            }
            x = x + 1;
        }
        proof {
            assert forall|k: int| 0 <= k < n implies {
                let s = stretch_source(area, k, n, dst_width, dst_height, src@.len() as int, src_width, src_height, clip_view(*clip_rects));
                if s is Some && k / (dst_width as int) - area.dest_y < y + 1 {
                    rop_result(*blend, #[trigger] d0[k], src@[s->0], rop, dst@[k])
                } else {
                    dst@[k] == d0[k]
                }
            } by {
                let s = stretch_source(area, k, n, dst_width, dst_height, src@.len() as int, src_width, src_height, clip_view(*clip_rects));
                if s is Some {
                    assert(k % (dst_width as int) - area.dest_x < abs_w);
                }
            }
        }
        y = y + 1;
    }
}

/// Each rectangle of `ps` cut by `b`, dropping those that miss it.
pub open spec fn within_bounds(ps: Seq<Rect>, b: Rect) -> Seq<Rect>
    decreases ps.len(),
{
    if ps.len() == 0 {
        Seq::empty()
    } else {
        within_bounds(ps.drop_last(), b) + opt_rect_seq(spec_intersect_rect(ps.last(), b))
    }
}

/// The destination rectangles a GPU copy onto a `dw x dh` surface draws:
/// `dest` cut by each clip rectangle (by the bitmap when there is no clip
/// region), then each cut by the bitmap.
pub open spec fn gpu_blit_targets(dest: Rect, dw: u32, dh: u32, clip: Option<Seq<Rect>>) -> Seq<Rect> {
    let bounds = (0i32, 0i32, dw as i32, dh as i32);
    let first = match clip {
        Some(cs) => spec_clip_pieces(cs, dest),
        None => opt_rect_seq(spec_intersect_rect(dest, bounds)),
    };
    within_bounds(first, bounds)
}

/// The destination rectangles of a GPU copy (see `gpu_blit_targets`), in
/// the order the copies are queued.
pub fn gpu_blit_rects(dest: Rect, dw: u32, dh: u32, clip_rects: &Option<Vec<Rect>>) -> (out: Vec<Rect>)
    ensures
        out@ == gpu_blit_targets(dest, dw, dh, clip_view(*clip_rects)),
{
    let bounds: Rect = (0, 0, dw as i32, dh as i32);
    let first: Vec<Rect> = match clip_rects {
        Some(_) => intersect_rect_with_clip_rects(clip_rects, dest.0, dest.1, dest.2, dest.3),
        None => {
            let mut v: Vec<Rect> = Vec::new();
            match intersect_rect(dest, bounds) {
                Some(r) => v.push(r),
                None => {},
            }
            proof {
                assert(v@ =~= opt_rect_seq(spec_intersect_rect(dest, bounds)));
            }
            v
        },
    };
    let mut out: Vec<Rect> = Vec::new();
    let mut i: usize = 0;
    while i < first.len()
        invariant
            0 <= i <= first@.len(),
            out@ == within_bounds(first@.take(i as int), bounds),
        decreases first@.len() - i,
    {
        match intersect_rect(first[i], bounds) {
            Some(r) => out.push(r),
            None => {},
        }
        proof {
            let p = first@.take(i + 1);
            assert(p.drop_last() =~= first@.take(i as int));
            assert(p.last() == first@[i as int]);
            assert(out@ =~= within_bounds(p, bounds));
        }
        i = i + 1;
    }
    proof {
        assert(first@.take(first@.len() as int) =~= first@);
    }
    out
}

/// XOR-ing the same source pixel in twice gives the destination pixel back.
pub proof fn lemma_xor_twice_restores(d: u32, s: u32)
    ensures
        rop_channels(rop_channels(d, s, SRCINVERT)->0, s, SRCINVERT) == Some(d),
{
    let once = (d & 0xFF00_0000) | ((d & 0x00FF_FFFF) ^ (s & 0x00FF_FFFF));
    assert(((once & 0xFF00_0000) | ((once & 0x00FF_FFFF) ^ (s & 0x00FF_FFFF))) == d) by (bit_vector)
        requires
            once == (d & 0xFF00_0000) | ((d & 0x00FF_FFFF) ^ (s & 0x00FF_FFFF));
}

} // verus!
