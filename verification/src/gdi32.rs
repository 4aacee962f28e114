//! `GDI32.dll` helpers: the rectangle operations used by the drawing calls
//! and the decoder of the first DIB layout (8, 24 and 32 bits per pixel with
//! an RGBQUAD palette).

use vstd::prelude::*;
use crate::geometry::{
    self, Rect, rects_contain, rect_contains, spec_normalize_rect, spec_intersect_rect, spec_subtract_rect,
    spec_clip_pieces, region_minus_contains,
};
use crate::dib::{rgb, lemma_rgb_bytes, source_row, lemma_pixel_index, lemma_pixel_index_injective};

verus! {

/// Default colour depth of window surfaces.
pub const BPP: u32 = 24;

/// `GDI32.dll` proxy: graphics objects, device contexts and drawing.
pub struct GDI32;

/// Scanline length of the first DIB layout: `bpp` bits per pixel rounded up
/// to whole 32-bit words.
pub open spec fn legacy_stride(width: u32, bpp: u32) -> int {
    ((width * bpp + 31) / 32) * 4
}

/// Pixel `col` of the scanline at `row_offset` in the first DIB layout:
/// 8-bit pixels index the RGBQUAD palette (0 when out of range), 24-bit pixels
/// are BGR triples, anything else is read as BGRA; pixels past the end read
/// as 0.
pub open spec fn spec_legacy_pixel(raw: Seq<u8>, row_offset: int, col: int, bpp: u32, palette: Seq<[u8; 4]>) -> u32 {
    if bpp == 8 {
        let idx = row_offset + col;
        if idx < raw.len() && (raw[idx] as int) < palette.len() {
            let q = palette[raw[idx] as int];
            rgb(q[2] as u32, q[1] as u32, q[0] as u32)
        } else {
            0
        }
    } else if bpp == 24 {
        let idx = row_offset + col * 3;
        if idx + 2 < raw.len() { rgb(raw[idx + 2] as u32, raw[idx + 1] as u32, raw[idx] as u32) } else { 0 }
    } else {
        let idx = row_offset + col * 4;
        if idx + 2 < raw.len() { rgb(raw[idx + 2] as u32, raw[idx + 1] as u32, raw[idx] as u32) } else { 0 }
    }
}

/// A scanline of the first DIB layout is the shortest whole number of
/// 32-bit words that holds `width` pixels of `bpp` bits.
pub proof fn lemma_legacy_stride_holds_row(width: u32, bpp: u32)
    ensures
        legacy_stride(width, bpp) % 4 == 0,
        legacy_stride(width, bpp) * 8 >= width * bpp,
        legacy_stride(width, bpp) * 8 < width * bpp + 32,
{
    let n = width * bpp;
    assert(width * bpp >= 0) by (nonlinear_arith);
    assert(((n + 31) / 32) * 32 >= n && ((n + 31) / 32) * 32 < n + 32);
}

/// The first DIB layout stores colours blue first: an 8-bit pixel takes
/// blue, green and red from the first three bytes of its RGBQUAD, a 24-bit
/// pixel from its three bytes B, G, R, and any deeper pixel from the first
/// three of its four bytes B, G, R, A, the fourth being ignored.
pub proof fn lemma_legacy_pixel_blue_first(raw: Seq<u8>, row_offset: int, col: int, bpp: u32, palette: Seq<[u8; 4]>)
    requires
        0 <= row_offset,
        0 <= col,
    ensures
        ({
            let px = spec_legacy_pixel(raw, row_offset, col, bpp, palette);
            let at8 = row_offset + col;
            let at24 = row_offset + col * 3;
            let at32 = row_offset + col * 4;
            &&& (bpp == 8 && at8 < raw.len() && (raw[at8] as int) < palette.len()) ==> px == palette[raw[at8] as int][2]
                * 65536 + palette[raw[at8] as int][1] * 256 + palette[raw[at8] as int][0]
            &&& (bpp == 24 && at24 + 2 < raw.len()) ==> px == raw[at24 + 2] * 65536 + raw[at24 + 1] * 256 + raw[at24]
            &&& (bpp != 8 && bpp != 24 && at32 + 2 < raw.len()) ==> px == raw[at32 + 2] * 65536 + raw[at32 + 1] * 256
                + raw[at32]
        }),
{
    let at8 = row_offset + col;
    let at24 = row_offset + col * 3;
    let at32 = row_offset + col * 4;
    if bpp == 8 && at8 < raw.len() && (raw[at8] as int) < palette.len() {
        let q = palette[raw[at8] as int];
        lemma_rgb_bytes(q[2] as u32, q[1] as u32, q[0] as u32);
    }
    if bpp == 24 && at24 + 2 < raw.len() {
        lemma_rgb_bytes(raw[at24 + 2] as u32, raw[at24 + 1] as u32, raw[at24] as u32);
    }
    if bpp != 8 && bpp != 24 && at32 + 2 < raw.len() {
        lemma_rgb_bytes(raw[at32 + 2] as u32, raw[at32 + 1] as u32, raw[at32] as u32);
    }
}

impl GDI32 {
    /// Keeps a rectangle only when it covers at least one point.
    pub fn normalize_rect(rect: Rect) -> (r: Option<Rect>)
        ensures
            r == spec_normalize_rect(rect),
    {
        geometry::normalize_rect(rect)
    }

    /// Overlap of two rectangles, `None` when they share no point.
    pub fn intersect_rect(a: Rect, b: Rect) -> (r: Option<Rect>)
        ensures
            r == spec_intersect_rect(a, b),
    {
        geometry::intersect_rect(a, b)
    }

    /// Cuts `b` out of `a`: the pieces above, below, left and right of the
    /// overlap.
    pub fn subtract_rect(a: Rect, b: Rect) -> (out: Vec<Rect>)
        ensures
            out@ == spec_subtract_rect(a, b),
            forall|x: int, y: int| rects_contain(out@, x, y) == (rect_contains(a, x, y) && !rect_contains(b, x, y)),
    {
        geometry::subtract_rect(a, b)
    }

    /// Whether `(x, y)` passes the clip region (always, without one).
    pub fn point_in_clip_rects(clip_rects: &Option<Vec<Rect>>, x: i32, y: i32) -> (r: bool)
        ensures
            r == (clip_rects is None || rects_contain(clip_rects->0@, x as int, y as int)),
    {
        geometry::point_in_clip_rects(clip_rects, x, y)
    }

    /// The rectangle clipped against each clip rectangle.
    pub fn intersect_rect_with_clip_rects(clip_rects: &Option<Vec<Rect>>, left: i32, top: i32, right: i32, bottom: i32) -> (out: Vec<Rect>)
        ensures
            out@ == match clip_rects {
                None => seq![(left, top, right, bottom)],
                Some(rs) => spec_clip_pieces(rs@, (left, top, right, bottom)),
            },
    {
        geometry::intersect_rect_with_clip_rects(clip_rects, left, top, right, bottom)
    }

    /// The region with every subtracting rectangle removed.
    pub fn subtract_region_rects(region: &[Rect], subtractors: &[Rect]) -> (out: Vec<Rect>)
        ensures
            forall|x: int, y: int| rects_contain(out@, x, y) == region_minus_contains(region@, subtractors@, x, y),
    {
        geometry::subtract_region_rects(region, subtractors)
    }

    /// Decodes raw scanlines of the first DIB layout into `0x00RRGGBB`
    /// pixels, top row first.
    pub fn raw_dib_to_pixels(raw: &[u8], width: u32, height: u32, bpp: u32, top_down: bool, palette: &[[u8; 4]]) -> (pixels: Vec<u32>)
        requires
            width * bpp + 31 <= u32::MAX,
            width * height <= u32::MAX,
            height * legacy_stride(width, bpp) + width * 4 + 3 <= usize::MAX,
        ensures
            pixels@.len() == width * height,
            forall|r: int, c: int| 0 <= r < height && 0 <= c < width ==> #[trigger] pixels@[r * width + c]
                == spec_legacy_pixel(raw@, source_row(r, height, top_down) * legacy_stride(width, bpp), c, bpp, palette@),
    {
        let stride = ((width * bpp + 31) / 32) * 4;
        let ghost st = stride as int;
        let mut pixels: Vec<u32> = vec![0u32; (width * height) as usize];
        let w = width as usize;
        let h = height as usize;
        let mut row: usize = 0;
        while row < h
            invariant
                w == width,
                h == height,
                st == stride,
                st == legacy_stride(width, bpp),
                w * h <= u32::MAX,
                h * st + w * 4 + 3 <= usize::MAX,
                0 <= row <= h,
                pixels@.len() == w * h,
                forall|r: int, c: int| 0 <= r < row && 0 <= c < w ==> #[trigger] pixels@[r * w + c]
                    == spec_legacy_pixel(raw@, source_row(r, height, top_down) * st, c, bpp, palette@),
            decreases h - row,
        {
            let src_row = if top_down { row } else { h - 1 - row };
            proof {
                assert(src_row * st <= h * st) by (nonlinear_arith)
                    requires
                        0 <= src_row < h,
                        st >= 0;
            }
            let row_offset = src_row * (stride as usize);
            let mut col: usize = 0;
            while col < w
                invariant
                    w == width,
                    h == height,
                    st == stride,
                    w * h <= u32::MAX,
                    h * st + w * 4 + 3 <= usize::MAX,
                    0 <= row < h,
                    src_row == source_row(row as int, height, top_down),
                    row_offset == src_row * st,
                    row_offset <= h * st,
                    0 <= col <= w,
                    pixels@.len() == w * h,
                    forall|r: int, c: int| 0 <= r < h && 0 <= c < w && (r < row || (r == row && c < col)) ==> #[trigger] pixels@[r * w + c]
                        == spec_legacy_pixel(raw@, source_row(r, height, top_down) * st, c, bpp, palette@),
                decreases w - col,
            {
                proof {
                    lemma_pixel_index(row as int, col as int, w as int, h as int);
                }
                let dst_idx = row * w + col;
                let color: u32 = if bpp == 8 {
                    let idx = row_offset + col;
                    if idx < raw.len() && (raw[idx] as usize) < palette.len() {
                        let q = palette[raw[idx] as usize];
                        ((q[2] as u32) << 16) | ((q[1] as u32) << 8) | (q[0] as u32)
                    } else {
                        0
                    }
                } else if bpp == 24 {
                    let idx = row_offset + col * 3;
                    if idx + 2 < raw.len() {
                        ((raw[idx + 2] as u32) << 16) | ((raw[idx + 1] as u32) << 8) | (raw[idx] as u32)
                    } else {
                        0
                    }
                } else {
                    let idx = row_offset + col * 4;
                    if idx + 2 < raw.len() {
                        ((raw[idx + 2] as u32) << 16) | ((raw[idx + 1] as u32) << 8) | (raw[idx] as u32)
                    } else {
                        0
                    }
                };
                let ghost before = pixels@;
                pixels.set(dst_idx, color);
                proof {
                    assert forall|r: int, c: int| 0 <= r < h && 0 <= c < w && (r < row || (r == row && c < col + 1)) implies #[trigger] pixels@[r * w + c]
                        == spec_legacy_pixel(raw@, source_row(r, height, top_down) * st, c, bpp, palette@) by {
                        lemma_pixel_index(r, c, w as int, h as int);
                        if r * w + c == dst_idx {
                            lemma_pixel_index_injective(r, c, row as int, col as int, w as int, h as int);
                        } else {
                            assert(pixels@[r * w + c] == before[r * w + c]);
                        }
                    }
                }
                col = col + 1;
            }
            row = row + 1;
        }
        pixels
    }
}

} // verus!
