//! Device-independent bitmap (DIB) pixel formats: scanline stride, bitfield
//! channels, palette lookup and the per-pixel read/write of 1, 4, 8, 16, 24
//! and 32 bits per pixel into and out of `0x00RRGGBB` colours.

use vstd::prelude::*;
use vstd::std_specs::bits::{u32_trailing_zeros, axiom_u32_trailing_zeros};
use vstd::slice::SliceAdditionalExecFns;
use vstd::arithmetic::div_mod::lemma_fundamental_div_mod_converse;

verus! {

/// `a * b`, or `u32::MAX` when the product does not fit.
pub open spec fn sat_mul_u32(a: u32, b: u32) -> int {
    if a * b > u32::MAX { u32::MAX as int } else { a * b }
}

pub open spec fn ceil_div(a: int, d: int) -> int {
    if a % d == 0 { a / d } else { a / d + 1 }
}

/// Bits per pixel, with zero read as one.
pub open spec fn depth(bit_count: u16) -> u32 {
    if bit_count == 0 { 1 } else { bit_count as u32 }
}

/// Bytes of a scanline padded to a whole number of 32-bit words.
pub open spec fn spec_aligned_stride(width: u32, bit_count: u16) -> int {
    ceil_div(sat_mul_u32(width, depth(bit_count)), 32) * 4
}

fn sat_mul(a: u32, b: u32) -> (r: u32)
    ensures
        r == sat_mul_u32(a, b),
{
    proof {
        assert((a as u64) * (b as u64) <= 0xFFFF_FFFFu64 * 0xFFFF_FFFFu64) by (nonlinear_arith);
    }
    let p = (a as u64) * (b as u64);
    if p > u32::MAX as u64 { u32::MAX } else { p as u32 }
}

/// A DIB scanline is the shortest whole number of 32-bit words that holds
/// `width` pixels of the depth (when that bit count fits in 32 bits).
pub proof fn lemma_aligned_stride_holds_row(width: u32, bit_count: u16)
    requires
        width * depth(bit_count) <= u32::MAX,
    ensures
        spec_aligned_stride(width, bit_count) % 4 == 0,
        spec_aligned_stride(width, bit_count) * 8 >= width * depth(bit_count),
        spec_aligned_stride(width, bit_count) * 8 < width * depth(bit_count) + 32,
{
    let n = width * depth(bit_count);
    assert(sat_mul_u32(width, depth(bit_count)) == n);
    assert(ceil_div(n, 32) * 32 >= n && ceil_div(n, 32) * 32 < n + 32);
}

/// DWORD-aligned scanline length of a `width`-pixel row at `bit_count` bits
/// per pixel.
pub fn aligned_stride(width: u32, bit_count: u16) -> (r: u32)
    ensures
        r == spec_aligned_stride(width, bit_count),
{
    let bc: u32 = if bit_count == 0 { 1 } else { bit_count as u32 };
    let bits = sat_mul(width, bc);
    let words = if bits % 32 == 0 { bits / 32 } else { bits / 32 + 1 };
    words * 4
}

/// Scanline length a DIB uses: `bi_size_image / height` when the header gives
/// an image size large enough to hold a row, otherwise the aligned stride.
pub open spec fn spec_dib_effective_stride(width: u32, height: u32, bi_size_image: u32, bit_count: u16) -> int {
    if bi_size_image != 0 && height != 0
        && bi_size_image / height >= ceil_div(sat_mul_u32(width, depth(bit_count)), 8) {
        (bi_size_image / height) as int
    } else {
        spec_aligned_stride(width, bit_count)
    }
}

pub fn dib_effective_stride(width: u32, height: u32, bi_size_image: u32, bit_count: u16) -> (r: u32)
    ensures
        r == spec_dib_effective_stride(width, height, bi_size_image, bit_count),
{
    if bi_size_image != 0 && height != 0 {
        let candidate = bi_size_image / height;
        let bc: u32 = if bit_count == 0 { 1 } else { bit_count as u32 };
        let bits = sat_mul(width, bc);
        let min_bytes = if bits % 8 == 0 { bits / 8 } else { bits / 8 + 1 };
        if candidate >= min_bytes {
            return candidate;
        }
    }
    aligned_stride(width, bit_count)
}

// ---------------------------------------------------------------------------
// Bitfield channels.

pub open spec fn mask_shift(mask: u32) -> u32 {
    u32_trailing_zeros(mask)
}

/// Raw field value of `pixel` under `mask`, shifted down to bit 0.
pub open spec fn field_value(pixel: u32, mask: u32) -> u32 {
    ((pixel & mask) >> mask_shift(mask)) as u32
}

/// Largest value the field can hold.
pub open spec fn field_max(mask: u32) -> u32 {
    (mask >> mask_shift(mask)) as u32
}

/// Decoding the field of `pixel` stays within 32-bit arithmetic.
pub open spec fn decode_fits(pixel: u32, mask: u32) -> bool {
    mask == 0 || field_value(pixel, mask) * 255 + field_max(mask) / 2 <= u32::MAX
}

/// The field scaled to 0..=255, rounding to nearest.
pub open spec fn spec_decode_masked_component(pixel: u32, mask: u32) -> u8 {
    if mask == 0 || field_max(mask) == 0 {
        0
    } else {
        ((field_value(pixel, mask) * 255 + field_max(mask) / 2) / (field_max(mask) as int)) as u8
    }
}

/// Reads one colour channel out of a bitfield pixel and scales it to 8 bits.
pub fn decode_masked_component(pixel: u32, mask: u32) -> (r: u8)
    requires
        decode_fits(pixel, mask),
    ensures
        r == spec_decode_masked_component(pixel, mask),
        mask != 0 ==> r as int == (field_value(pixel, mask) * 255 + field_max(mask) / 2) / (field_max(mask) as int),
{
    if mask == 0 {
        return 0;
    }
    proof {
        axiom_u32_trailing_zeros(mask);
    }
    let shift = mask.trailing_zeros();
    let value = (pixel & mask) >> shift;
    let max = mask >> shift;
    if max == 0 {
        proof {
            let s = shift;
            assert(s < 32);
            assert((mask >> s) & 1u32 == 1u32);
            assert(((mask >> s) & 1u32 == 1u32) ==> (mask >> s) != 0u32) by (bit_vector);
        }
        return 0;
    }
    proof {
        let s = shift;
        assert((pixel & mask) <= mask) by (bit_vector);
        assert(value <= max) by (bit_vector)
            requires
                value == (pixel & mask) >> s,
                max == mask >> s,
                (pixel & mask) <= mask;
        assert((value * 255 + max / 2) / (max as int) <= 255) by (nonlinear_arith)
            requires
                value <= max,
                max > 0;
    }
    ((value * 255 + (max / 2)) / max) as u8
}

/// Encoding `value` into the field stays within 32-bit arithmetic.
pub open spec fn encode_fits(value: u8, mask: u32) -> bool {
    mask == 0 || value * field_max(mask) + 127 <= u32::MAX
}

/// An 8-bit channel value scaled to the field width and moved into place.
pub open spec fn spec_encode_masked_component(value: u8, mask: u32) -> u32 {
    if mask == 0 {
        0
    } else {
        (((value * field_max(mask) + 127) / 255) as u32) << mask_shift(mask)
    }
}

/// Writes one 8-bit colour channel into its bitfield position.
pub fn encode_masked_component(value: u8, mask: u32) -> (r: u32)
    requires
        encode_fits(value, mask),
    ensures
        r == spec_encode_masked_component(value, mask),
{
    if mask == 0 {
        return 0;
    }
    proof {
        axiom_u32_trailing_zeros(mask);
    }
    let shift = mask.trailing_zeros();
    let max = mask >> shift;
    ((value as u32 * max + 127) / 255) << shift
}

// ---------------------------------------------------------------------------
// Palette matching.

pub open spec fn red_of(c: u32) -> int {
    ((c >> 16u32) & 0xFF) as int
}

pub open spec fn green_of(c: u32) -> int {
    ((c >> 8u32) & 0xFF) as int
}

pub open spec fn blue_of(c: u32) -> int {
    (c & 0xFF) as int
}

/// Squared RGB distance between two `0x00RRGGBB` colours.
pub open spec fn color_distance(a: u32, b: u32) -> int {
    let dr = red_of(a) - red_of(b);
    let dg = green_of(a) - green_of(b);
    let db = blue_of(a) - blue_of(b);
    dr * dr + dg * dg + db * db
}

/// `i` is the first palette entry at the smallest distance from `color`.
pub open spec fn is_nearest_index(palette: Seq<u32>, color: u32, i: int) -> bool {
    &&& 0 <= i < palette.len()
    &&& forall|j: int| 0 <= j < palette.len() ==> color_distance(color, palette[i]) <= #[trigger] color_distance(color, palette[j])
    &&& forall|j: int| 0 <= j < i ==> color_distance(color, palette[i]) < #[trigger] color_distance(color, palette[j])
}

proof fn lemma_channel_bounds(c: u32)
    ensures
        0 <= red_of(c) <= 255,
        0 <= green_of(c) <= 255,
        0 <= blue_of(c) <= 255,
{
    assert((c >> 16u32) & 0xFF <= 0xFF) by (bit_vector);
    assert((c >> 8u32) & 0xFF <= 0xFF) by (bit_vector);
    assert(c & 0xFF <= 0xFF) by (bit_vector);
}

fn distance(a: u32, b: u32) -> (d: i64)
    ensures
        d == color_distance(a, b),
        0 <= d <= 3 * 255 * 255,
{
    proof {
        lemma_channel_bounds(a);
        lemma_channel_bounds(b);
    }
    let dr = ((a >> 16) & 0xFF) as i32 - ((b >> 16) & 0xFF) as i32;
    let dg = ((a >> 8) & 0xFF) as i32 - ((b >> 8) & 0xFF) as i32;
    let db = (a & 0xFF) as i32 - (b & 0xFF) as i32;
    proof {
        assert(dr * dr <= 255 * 255 && dr * dr >= 0) by (nonlinear_arith)
            requires
                -255 <= dr <= 255;
        assert(dg * dg <= 255 * 255 && dg * dg >= 0) by (nonlinear_arith)
            requires
                -255 <= dg <= 255;
        assert(db * db <= 255 * 255 && db * db >= 0) by (nonlinear_arith)
            requires
                -255 <= db <= 255;
    }
    (dr * dr + dg * dg + db * db) as i64
}

pub proof fn lemma_nearest_index_unique(palette: Seq<u32>, color: u32, i: int, k: int)
    requires
        is_nearest_index(palette, color, i),
        is_nearest_index(palette, color, k),
    ensures
        i == k,
{
    if i < k {
        assert(color_distance(color, palette[k]) < color_distance(color, palette[i]));
    }
    if k < i {
        assert(color_distance(color, palette[i]) < color_distance(color, palette[k]));
    }
}

/// The palette index `nearest_palette_index` reports.
pub open spec fn spec_nearest_palette_index(palette: Seq<u32>, color: u32) -> u8 {
    if palette.len() == 0 {
        0
    } else {
        let i = choose|i: int| is_nearest_index(palette, color, i);
        if i < 255 { i as u8 } else { 255 }
    }
}

/// Index of the palette entry closest to `color` (the first one on ties),
/// capped at 255; 0 for an empty palette.
pub fn nearest_palette_index(palette: &[u32], color: u32) -> (r: u8)
    ensures
        r == spec_nearest_palette_index(palette@, color),
        palette@.len() == 0 ==> r == 0,
        palette@.len() > 0 ==> exists|i: int| is_nearest_index(palette@, color, i)
            && r as int == if i < 255 { i } else { 255 },
{
    let mut best_index: usize = 0;
    let mut best_score: i64 = i64::MAX;
    let mut i: usize = 0;
    while i < palette.len()
        invariant
            0 <= i <= palette@.len(),
            i == 0 ==> best_score == i64::MAX && best_index == 0,
            i > 0 ==> best_index < i && best_score == color_distance(color, palette@[best_index as int]),
            forall|j: int| 0 <= j < i ==> best_score <= #[trigger] color_distance(color, palette@[j]),
            forall|j: int| 0 <= j < best_index ==> best_score < #[trigger] color_distance(color, palette@[j]),
        decreases palette@.len() - i,
    {
        let score = distance(color, palette[i]);
        if score < best_score {
            best_score = score;
            best_index = i;
        }
        i = i + 1;
    }
    proof {
        if palette@.len() > 0 {
            assert(is_nearest_index(palette@, color, best_index as int));
            let c = choose|i: int| is_nearest_index(palette@, color, i);
            lemma_nearest_index_unique(palette@, color, c, best_index as int);
        }
    }
    if best_index < 255 { best_index as u8 } else { 255 }
}


// ---------------------------------------------------------------------------
// Pixels.

/// Channel masks `(red, green, blue, alpha)`.
pub type Masks = (u32, u32, u32, u32);

/// 5-5-5 layout used by 16-bit DIBs without explicit masks.
pub open spec fn default_masks_16() -> Masks {
    (0x7C00, 0x03E0, 0x001F, 0)
}

/// 8-8-8-8 layout used by 32-bit DIBs without explicit masks.
pub open spec fn default_masks_32() -> Masks {
    (0x00FF_0000, 0x0000_FF00, 0x0000_00FF, 0xFF00_0000)
}

/// The given masks when red, green and blue are all set, else the default.
pub open spec fn effective_masks(m: Masks, default: Masks) -> Masks {
    if m.0 != 0 && m.1 != 0 && m.2 != 0 { m } else { default }
}

pub open spec fn rgb(r: u32, g: u32, b: u32) -> u32 {
    (r << 16u32) | (g << 8u32) | b
}

pub open spec fn le16(raw: Seq<u8>, idx: int) -> u32 {
    (raw[idx] as u32) | ((raw[idx + 1] as u32) << 8u32)
}

pub open spec fn le32(raw: Seq<u8>, idx: int) -> u32 {
    (raw[idx] as u32) | ((raw[idx + 1] as u32) << 8u32) | ((raw[idx + 2] as u32) << 16u32) | ((raw[idx + 3] as u32) << 24u32)
}

pub open spec fn palette_or(palette: Seq<u32>, i: int, fallback: u32) -> u32 {
    if 0 <= i < palette.len() { palette[i] } else { fallback }
}

pub open spec fn decode_with_masks(pixel: u32, m: Masks) -> u32 {
    rgb(
        spec_decode_masked_component(pixel, m.0) as u32,
        spec_decode_masked_component(pixel, m.1) as u32,
        spec_decode_masked_component(pixel, m.2) as u32,
    )
}

pub open spec fn masks_decode_fit(pixel: u32, m: Masks) -> bool {
    decode_fits(pixel, m.0) && decode_fits(pixel, m.1) && decode_fits(pixel, m.2) && decode_fits(pixel, m.3)
}

/// Decoding the pixel at `(row_offset, col)` stays within 32-bit arithmetic
/// for the bitfield formats.
pub open spec fn read_pixel_fits(raw: Seq<u8>, row_offset: int, col: int, bit_count: u16, masks: Masks) -> bool {
    &&& (bit_count == 16 && row_offset + col * 2 + 1 < raw.len()) ==> masks_decode_fit(
        le16(raw, row_offset + col * 2), effective_masks(masks, default_masks_16()))
    &&& (bit_count == 32 && row_offset + col * 4 + 3 < raw.len()) ==> masks_decode_fit(
        le32(raw, row_offset + col * 4), effective_masks(masks, default_masks_32()))
}

/// The `0x00RRGGBB` colour of pixel `col` of the scanline at `row_offset`.
/// Indexed formats look the index up in the palette, falling back to black
/// and white (1 bit) or a grey ramp (4 and 8 bits); bitfield formats decode
/// through the masks; pixels past the end of the data read as 0.
pub open spec fn spec_read_dib_pixel(raw: Seq<u8>, row_offset: int, col: int, bit_count: u16, palette: Seq<u32>, masks: Masks) -> u32 {
    if bit_count == 1 {
        let idx = row_offset + col / 8;
        let pi: u8 = if idx < raw.len() { (raw[idx] >> ((7 - col % 8) as u8)) & 1u8 } else { 0 };
        palette_or(palette, pi as int, if pi == 0 { 0 } else { 0x00FF_FFFF })
    } else if bit_count == 4 {
        let idx = row_offset + col / 2;
        let pi: u8 = if idx < raw.len() {
            if col % 2 == 0 { (raw[idx] >> 4u8) & 0x0Fu8 } else { raw[idx] & 0x0Fu8 }
        } else {
            0
        };
        let gray = (((pi as u32) * 17) as u32) & 0xFF;
        palette_or(palette, pi as int, rgb(gray, gray, gray))
    } else if bit_count == 8 {
        let idx = row_offset + col;
        let pi: u8 = if idx < raw.len() { raw[idx] } else { 0 };
        palette_or(palette, pi as int, rgb(pi as u32, pi as u32, pi as u32))
    } else if bit_count == 16 {
        let idx = row_offset + col * 2;
        if idx + 1 >= raw.len() {
            0
        } else {
            decode_with_masks(le16(raw, idx), effective_masks(masks, default_masks_16()))
        }
    } else if bit_count == 24 {
        let idx = row_offset + col * 3;
        if idx + 2 >= raw.len() {
            0
        } else {
            rgb(raw[idx + 2] as u32, raw[idx + 1] as u32, raw[idx] as u32)
        }
    } else if bit_count == 32 {
        let idx = row_offset + col * 4;
        if idx + 3 >= raw.len() {
            0
        } else {
            decode_with_masks(le32(raw, idx), effective_masks(masks, default_masks_32()))
        }
    } else {
        0
    }
}

fn decode_pixel(pixel: u32, red_mask: u32, green_mask: u32, blue_mask: u32, alpha_mask: u32) -> (c: u32)
    requires
        masks_decode_fit(pixel, (red_mask, green_mask, blue_mask, alpha_mask)),
    ensures
        c == decode_with_masks(pixel, (red_mask, green_mask, blue_mask, alpha_mask)),
{
    let r = decode_masked_component(pixel, red_mask) as u32;
    let g = decode_masked_component(pixel, green_mask) as u32;
    let b = decode_masked_component(pixel, blue_mask) as u32;
    let _a = decode_masked_component(pixel, alpha_mask);
    (r << 16) | (g << 8) | b
}

/// Reads pixel `col` of the scanline starting at byte `row_offset` as a
/// `0x00RRGGBB` colour.
pub fn read_dib_pixel(
    raw: &[u8],
    row_offset: usize,
    col: usize,
    bit_count: u16,
    palette: &[u32],
    red_mask: u32,
    green_mask: u32,
    blue_mask: u32,
    alpha_mask: u32,
) -> (c: u32)
    requires
        row_offset + col * 4 + 3 <= usize::MAX,
        read_pixel_fits(raw@, row_offset as int, col as int, bit_count, (red_mask, green_mask, blue_mask, alpha_mask)),
    ensures
        c == spec_read_dib_pixel(raw@, row_offset as int, col as int, bit_count, palette@, (red_mask, green_mask, blue_mask, alpha_mask)),
{
    let masks = (red_mask, green_mask, blue_mask, alpha_mask);
    if bit_count == 1 {
        let idx = row_offset + (col / 8);
        let bit = 7 - (col % 8);
        let pi: u8 = if idx < raw.len() { (raw[idx] >> (bit as u8)) & 1u8 } else { 0 };
        let i = pi as usize;
        if i < palette.len() { palette[i] } else if pi == 0 { 0 } else { 0x00FF_FFFF }
    } else if bit_count == 4 {
        let idx = row_offset + (col / 2);
        let pi: u8 = if idx < raw.len() {
            if col % 2 == 0 { (raw[idx] >> 4u8) & 0x0Fu8 } else { raw[idx] & 0x0Fu8 }
        } else {
            0
        };
        let i = pi as usize;
        if i < palette.len() {
            palette[i]
        } else {
            let gray = ((pi as u32) * 17) & 0xFF;
            (gray << 16) | (gray << 8) | gray
        }
    } else if bit_count == 8 {
        let idx = row_offset + col;
        let pi: u8 = if idx < raw.len() { raw[idx] } else { 0 };
        let i = pi as usize;
        if i < palette.len() {
            palette[i]
        } else {
            let gray = pi as u32;
            (gray << 16) | (gray << 8) | gray
        }
    } else if bit_count == 16 {
        let idx = row_offset + col * 2;
        if idx + 1 >= raw.len() {
            return 0;
        }
        let pixel = (raw[idx] as u32) | ((raw[idx + 1] as u32) << 8);
        if red_mask != 0 && green_mask != 0 && blue_mask != 0 {
            decode_pixel(pixel, red_mask, green_mask, blue_mask, alpha_mask)
        } else {
            decode_pixel(pixel, 0x7C00, 0x03E0, 0x001F, 0)
        }
    } else if bit_count == 24 {
        let idx = row_offset + col * 3;
        if idx + 2 >= raw.len() {
            return 0;
        }
        let b = raw[idx] as u32;
        let g = raw[idx + 1] as u32;
        let r = raw[idx + 2] as u32;
        (r << 16) | (g << 8) | b
    } else if bit_count == 32 {
        let idx = row_offset + col * 4;
        if idx + 3 >= raw.len() {
            return 0;
        }
        let pixel = (raw[idx] as u32) | ((raw[idx + 1] as u32) << 8) | ((raw[idx + 2] as u32) << 16) | ((raw[idx + 3] as u32) << 24);
        if red_mask != 0 && green_mask != 0 && blue_mask != 0 {
            decode_pixel(pixel, red_mask, green_mask, blue_mask, alpha_mask)
        } else {
            decode_pixel(pixel, 0x00FF_0000, 0x0000_FF00, 0x0000_00FF, 0xFF00_0000)
        }
    } else {
        0
    }
}

pub open spec fn channel_sum(color: u32) -> u32 {
    (((color >> 16u32) & 0xFF) + ((color >> 8u32) & 0xFF) + (color & 0xFF)) as u32
}

pub open spec fn encode_with_masks(color: u32, m: Masks) -> u32 {
    spec_encode_masked_component(((color >> 16u32) & 0xFF) as u8, m.0)
        | spec_encode_masked_component(((color >> 8u32) & 0xFF) as u8, m.1)
        | spec_encode_masked_component((color & 0xFF) as u8, m.2)
        | spec_encode_masked_component(0xFF, m.3)
}

pub open spec fn masks_encode_fit(color: u32, m: Masks) -> bool {
    &&& encode_fits(((color >> 16u32) & 0xFF) as u8, m.0)
    &&& encode_fits(((color >> 8u32) & 0xFF) as u8, m.1)
    &&& encode_fits((color & 0xFF) as u8, m.2)
    &&& encode_fits(0xFF, m.3)
}

/// Encoding the colour stays within 32-bit arithmetic for the bitfield
/// formats.
pub open spec fn write_pixel_fits(color: u32, bit_count: u16, masks: Masks) -> bool {
    &&& bit_count == 16 ==> masks_encode_fit(color, effective_masks(masks, default_masks_16()))
    &&& bit_count == 32 ==> masks_encode_fit(color, effective_masks(masks, default_masks_32()))
}

/// The bytes after storing `color` as pixel `col` of the scanline at
/// `row_offset`. Indexed formats store the nearest palette entry (without a
/// palette: black/white by brightness for 1 bit, a grey level otherwise);
/// bitfield formats encode through the masks with a full alpha channel;
/// pixels past the end of the data leave the bytes unchanged.
pub open spec fn spec_write_dib_pixel(raw: Seq<u8>, row_offset: int, col: int, color: u32, bit_count: u16, palette: Seq<u32>, masks: Masks) -> Seq<u8> {
    if bit_count == 1 {
        let idx = row_offset + col / 8;
        if idx >= raw.len() {
            raw
        } else {
            let bit = (7 - col % 8) as u8;
            let pi: u8 = if palette.len() == 0 {
                if channel_sum(color) >= 0x180 { 1 } else { 0 }
            } else {
                spec_nearest_palette_index(palette, color) & 0x01u8
            };
            raw.update(idx, if pi != 0 { raw[idx] | (1u8 << bit) } else { raw[idx] & !(1u8 << bit) })
        }
    } else if bit_count == 4 {
        let idx = row_offset + col / 2;
        if idx >= raw.len() {
            raw
        } else {
            let pi: u8 = if palette.len() == 0 {
                (channel_sum(color) / 3 / 17) as u8
            } else {
                spec_nearest_palette_index(palette, color) & 0x0Fu8
            };
            raw.update(idx, if col % 2 == 0 { (raw[idx] & 0x0Fu8) | (pi << 4u8) } else { (raw[idx] & 0xF0u8) | (pi & 0x0Fu8) })
        }
    } else if bit_count == 8 {
        let idx = row_offset + col;
        if idx >= raw.len() {
            raw
        } else {
            raw.update(idx, if palette.len() == 0 {
                (channel_sum(color) / 3) as u8
            } else {
                spec_nearest_palette_index(palette, color)
            })
        }
    } else if bit_count == 16 {
        let idx = row_offset + col * 2;
        if idx + 1 >= raw.len() {
            raw
        } else {
            let p = encode_with_masks(color, effective_masks(masks, default_masks_16()));
            raw.update(idx, (p & 0xFF) as u8).update(idx + 1, ((p >> 8u32) & 0xFF) as u8)
        }
    } else if bit_count == 24 {
        let idx = row_offset + col * 3;
        if idx + 2 >= raw.len() {
            raw
        } else {
            raw.update(idx, (color & 0xFF) as u8).update(idx + 1, ((color >> 8u32) & 0xFF) as u8).update(idx + 2, ((color >> 16u32) & 0xFF) as u8)
        }
    } else if bit_count == 32 {
        let idx = row_offset + col * 4;
        if idx + 3 >= raw.len() {
            raw
        } else {
            let p = encode_with_masks(color, effective_masks(masks, default_masks_32()));
            raw.update(idx, (p & 0xFF) as u8).update(idx + 1, ((p >> 8u32) & 0xFF) as u8)
                .update(idx + 2, ((p >> 16u32) & 0xFF) as u8).update(idx + 3, ((p >> 24u32) & 0xFF) as u8)
        }
    } else {
        raw
    }
}

fn encode_pixel(color: u32, red_mask: u32, green_mask: u32, blue_mask: u32, alpha_mask: u32) -> (p: u32)
    requires
        masks_encode_fit(color, (red_mask, green_mask, blue_mask, alpha_mask)),
    ensures
        p == encode_with_masks(color, (red_mask, green_mask, blue_mask, alpha_mask)),
{
    encode_masked_component(((color >> 16) & 0xFF) as u8, red_mask)
        | encode_masked_component(((color >> 8) & 0xFF) as u8, green_mask)
        | encode_masked_component((color & 0xFF) as u8, blue_mask)
        | encode_masked_component(0xFF, alpha_mask)
}

/// Stores `color` as pixel `col` of the scanline starting at `row_offset`.
pub fn write_dib_pixel(
    raw: &mut [u8],
    row_offset: usize,
    col: usize,
    color: u32,
    bit_count: u16,
    palette: &[u32],
    red_mask: u32,
    green_mask: u32,
    blue_mask: u32,
    alpha_mask: u32,
)
    requires
        row_offset + col * 4 + 3 <= usize::MAX,
        write_pixel_fits(color, bit_count, (red_mask, green_mask, blue_mask, alpha_mask)),
    ensures
        final(raw)@ == spec_write_dib_pixel(old(raw)@, row_offset as int, col as int, color, bit_count, palette@, (red_mask, green_mask, blue_mask, alpha_mask)),
{
    let r = (color >> 16) & 0xFF;
    let g = (color >> 8) & 0xFF;
    let b = color & 0xFF;
    proof {
        assert((color >> 16u32) & 0xFF <= 0xFF) by (bit_vector);
        assert((color >> 8u32) & 0xFF <= 0xFF) by (bit_vector);
        assert(color & 0xFF <= 0xFF) by (bit_vector);
    }
    if bit_count == 1 {
        let idx = row_offset + (col / 8);
        if idx >= raw.len() {
            return;
        }
        let bit = (7 - (col % 8)) as u8;
        let pi: u8 = if palette.len() == 0 {
            if r + g + b >= 0x180 { 1 } else { 0 }
        } else {
            nearest_palette_index(palette, color) & 0x01u8
        };
        let old_byte = raw[idx];
        if pi != 0 {
            raw[idx] = old_byte | (1u8 << bit);
        } else {
            raw[idx] = old_byte & !(1u8 << bit);
        }
    } else if bit_count == 4 {
        let idx = row_offset + (col / 2);
        if idx >= raw.len() {
            return;
        }
        let pi: u8 = if palette.len() == 0 {
            ((r + g + b) / 3 / 17) as u8
        } else {
            nearest_palette_index(palette, color) & 0x0Fu8
        };
        let old_byte = raw[idx];
        if col % 2 == 0 {
            raw[idx] = (old_byte & 0x0Fu8) | (pi << 4u8);
        } else {
            raw[idx] = (old_byte & 0xF0u8) | (pi & 0x0Fu8);
        }
    } else if bit_count == 8 {
        let idx = row_offset + col;
        if idx >= raw.len() {
            return;
        }
        let v: u8 = if palette.len() == 0 {
            ((r + g + b) / 3) as u8
        } else {
            nearest_palette_index(palette, color)
        };
        raw[idx] = v;
    } else if bit_count == 16 {
        let idx = row_offset + col * 2;
        if idx + 1 >= raw.len() {
            return;
        }
        let p = if red_mask != 0 && green_mask != 0 && blue_mask != 0 {
            encode_pixel(color, red_mask, green_mask, blue_mask, alpha_mask)
        } else {
            encode_pixel(color, 0x7C00, 0x03E0, 0x001F, 0)
        };
        raw[idx] = (p & 0xFF) as u8;
        raw[idx + 1] = ((p >> 8) & 0xFF) as u8;
    } else if bit_count == 24 {
        let idx = row_offset + col * 3;
        if idx + 2 >= raw.len() {
            return;
        }
        raw[idx] = b as u8;
        raw[idx + 1] = g as u8;
        raw[idx + 2] = r as u8;
    } else if bit_count == 32 {
        let idx = row_offset + col * 4;
        if idx + 3 >= raw.len() {
            return;
        }
        let p = if red_mask != 0 && green_mask != 0 && blue_mask != 0 {
            encode_pixel(color, red_mask, green_mask, blue_mask, alpha_mask)
        } else {
            encode_pixel(color, 0x00FF_0000, 0x0000_FF00, 0x0000_00FF, 0xFF00_0000)
        };
        raw[idx] = (p & 0xFF) as u8;
        raw[idx + 1] = ((p >> 8) & 0xFF) as u8;
        raw[idx + 2] = ((p >> 16) & 0xFF) as u8;
        raw[idx + 3] = ((p >> 24) & 0xFF) as u8;
    }
}


/// A 24-bit pixel written and read back at the same place gives the colour
/// without its top byte.
pub proof fn lemma_pixel_round_trip_24(raw: Seq<u8>, row_offset: int, col: int, color: u32, palette: Seq<u32>, masks: Masks)
    requires
        0 <= row_offset,
        0 <= col,
        row_offset + col * 3 + 2 < raw.len(),
    ensures
        spec_read_dib_pixel(spec_write_dib_pixel(raw, row_offset, col, color, 24, palette, masks), row_offset, col, 24, palette, masks)
            == color & 0x00FF_FFFF,
{
    let b0 = (color & 0xFF) as u8;
    let b1 = ((color >> 8u32) & 0xFF) as u8;
    let b2 = ((color >> 16u32) & 0xFF) as u8;
    assert(((b2 as u32) << 16u32) | ((b1 as u32) << 8u32) | (b0 as u32) == color & 0x00FF_FFFF) by (bit_vector)
        requires
            b0 == (color & 0xFF) as u8,
            b1 == ((color >> 8u32) & 0xFF) as u8,
            b2 == ((color >> 16u32) & 0xFF) as u8;
}

/// The shift of an 8-bit wide field starting at bit `s` is `s`.
proof fn lemma_byte_mask_shift(mask: u32, s: u32)
    requires
        s <= 24,
        mask == 0xFFu32 << s,
    ensures
        mask_shift(mask) == s,
        field_max(mask) == 0xFF,
{
    axiom_u32_trailing_zeros(mask);
    let t = u32_trailing_zeros(mask);
    assert(mask != 0) by (bit_vector)
        requires
            s <= 24,
            mask == 0xFFu32 << s;
    assert((mask >> s) & 1u32 == 1u32) by (bit_vector)
        requires
            s <= 24,
            mask == 0xFFu32 << s;
    assert(forall|j: u32| j < s ==> #[trigger] (mask >> j) & 1u32 == 0u32) by (bit_vector)
        requires
            s <= 24,
            mask == 0xFFu32 << s;
    if t < s {
        assert((mask >> t) & 1u32 == 0u32);
    }
    if t > s {
        assert((mask >> s) & 1u32 == 0u32);
    }
    assert(mask >> s == 0xFFu32) by (bit_vector)
        requires
            s <= 24,
            mask == 0xFFu32 << s;
}

proof fn lemma_byte_scale(v: u32)
    requires
        v <= 255,
    ensures
        (v * 255 + 127) / 255 == v,
        (v * 255 + 127int) / 255 == v,
{
    lemma_fundamental_div_mod_converse(v * 255 + 127, 255, v as int, 127);
}

/// A 32-bit pixel with the standard 8-8-8-8 layout written and read back at
/// the same place gives the colour without its top byte.
pub proof fn lemma_pixel_round_trip_32(raw: Seq<u8>, row_offset: int, col: int, color: u32, palette: Seq<u32>, masks: Masks)
    requires
        0 <= row_offset,
        0 <= col,
        row_offset + col * 4 + 3 < raw.len(),
        effective_masks(masks, default_masks_32()) == default_masks_32(),
    ensures
        spec_read_dib_pixel(spec_write_dib_pixel(raw, row_offset, col, color, 32, palette, masks), row_offset, col, 32, palette, masks)
            == color & 0x00FF_FFFF,
{
    let m = default_masks_32();
    assert(0x00FF_0000u32 == 0xFFu32 << 16u32) by (bit_vector);
    assert(0x0000_FF00u32 == 0xFFu32 << 8u32) by (bit_vector);
    assert(0x0000_00FFu32 == 0xFFu32 << 0u32) by (bit_vector);
    assert(0xFF00_0000u32 == 0xFFu32 << 24u32) by (bit_vector);
    lemma_byte_mask_shift(m.0, 16);
    lemma_byte_mask_shift(m.1, 8);
    lemma_byte_mask_shift(m.2, 0);
    lemma_byte_mask_shift(m.3, 24);
    let r = (color >> 16u32) & 0xFF;
    let g = (color >> 8u32) & 0xFF;
    let b = color & 0xFF;
    assert(r <= 255 && g <= 255 && b <= 255) by (bit_vector)
        requires
            r == (color >> 16u32) & 0xFF,
            g == (color >> 8u32) & 0xFF,
            b == color & 0xFF;
    lemma_byte_scale(r);
    lemma_byte_scale(g);
    lemma_byte_scale(b);
    lemma_byte_scale(255);
    assert(((r as u8) as u32) == r && ((g as u8) as u32) == g && ((b as u8) as u32) == b);
    let p = encode_with_masks(color, m);
    assert(p == (r << 16u32) | (g << 8u32) | (b << 0u32) | (255u32 << 24u32));
    let idx = row_offset + col * 4;
    let w = spec_write_dib_pixel(raw, row_offset, col, color, 32, palette, masks);
    assert(w[idx] == (p & 0xFF) as u8);
    assert(w[idx + 1] == ((p >> 8u32) & 0xFF) as u8);
    assert(w[idx + 2] == ((p >> 16u32) & 0xFF) as u8);
    assert(w[idx + 3] == ((p >> 24u32) & 0xFF) as u8);
    let q = le32(w, idx);
    let (w0, w1, w2, w3) = (w[idx], w[idx + 1], w[idx + 2], w[idx + 3]);
    assert(q == p) by (bit_vector)
        requires
            w0 == (p & 0xFF) as u8,
            w1 == ((p >> 8u32) & 0xFF) as u8,
            w2 == ((p >> 16u32) & 0xFF) as u8,
            w3 == ((p >> 24u32) & 0xFF) as u8,
            q == (w0 as u32) | ((w1 as u32) << 8u32) | ((w2 as u32) << 16u32) | ((w3 as u32) << 24u32);
    assert((p & 0x00FF_0000u32) >> 16u32 == r && (p & 0x0000_FF00u32) >> 8u32 == g && (p & 0x0000_00FFu32) >> 0u32 == b) by (bit_vector)
        requires
            r <= 255, g <= 255, b <= 255,
            p == (r << 16u32) | (g << 8u32) | (b << 0u32) | (255u32 << 24u32);
    assert(field_value(p, m.0) == r && field_value(p, m.1) == g && field_value(p, m.2) == b);
    assert(rgb(r, g, b) == color & 0x00FF_FFFF) by (bit_vector)
        requires
            r == (color >> 16u32) & 0xFF,
            g == (color >> 8u32) & 0xFF,
            b == color & 0xFF;
}

// ---------------------------------------------------------------------------
// Whole bitmaps.

/// The stride in use: the stored one, or the aligned stride when it is 0.
pub open spec fn stride_in_use(stride: u32, width: u32, bit_count: u16) -> int {
    if stride != 0 { stride as int } else { spec_aligned_stride(width, bit_count) }
}

/// The scanline in memory that holds image row `row`: bottom-up DIBs store
/// the last row first.
pub open spec fn source_row(row: int, height: u32, top_down: bool) -> int {
    if top_down { row } else { height - 1 - row }
}

pub proof fn lemma_pixel_index(r: int, c: int, w: int, h: int)
    requires
        0 <= r < h,
        0 <= c < w,
    ensures
        0 <= r * w + c < w * h,
        (r * w + c) / w == r,
        (r * w + c) % w == c,
{
    assert(0 <= r * w + c < w * h) by (nonlinear_arith)
        requires
            0 <= r < h,
            0 <= c < w;
    lemma_fundamental_div_mod_converse(r * w + c, w, r, c);
}

pub proof fn lemma_pixel_index_injective(r1: int, c1: int, r2: int, c2: int, w: int, h: int)
    requires
        0 <= r1 < h,
        0 <= c1 < w,
        0 <= r2 < h,
        0 <= c2 < w,
        r1 * w + c1 == r2 * w + c2,
    ensures
        r1 == r2 && c1 == c2,
{
    lemma_pixel_index(r1, c1, w, h);
    lemma_pixel_index(r2, c2, w, h);
}

/// All pixels of the image decode within 32-bit arithmetic.
pub open spec fn image_read_fits(raw: Seq<u8>, width: u32, height: u32, stride: int, bit_count: u16, top_down: bool, masks: Masks) -> bool {
    forall|r: int, c: int| 0 <= r < height && 0 <= c < width ==>
        #[trigger] read_pixel_fits(raw, source_row(r, height, top_down) * stride, c, bit_count, masks)
}

/// Converts raw DIB scanlines into `0x00RRGGBB` pixels, top row first.
pub fn raw_dib_to_pixels(
    raw: &[u8],
    width: u32,
    height: u32,
    stride: u32,
    bit_count: u16,
    top_down: bool,
    palette: &[u32],
    red_mask: u32,
    green_mask: u32,
    blue_mask: u32,
    alpha_mask: u32,
) -> (pixels: Vec<u32>)
    requires
        width * height <= u32::MAX,
        height * stride_in_use(stride, width, bit_count) + width * 4 + 3 <= usize::MAX,
        image_read_fits(raw@, width, height, stride_in_use(stride, width, bit_count), bit_count, top_down,
            (red_mask, green_mask, blue_mask, alpha_mask)),
    ensures
        pixels@.len() == width * height,
        forall|r: int, c: int| 0 <= r < height && 0 <= c < width ==> #[trigger] pixels@[r * width + c]
            == spec_read_dib_pixel(raw@, source_row(r, height, top_down) * stride_in_use(stride, width, bit_count), c,
                bit_count, palette@, (red_mask, green_mask, blue_mask, alpha_mask)),
{
    let stride = if stride != 0 { stride } else { aligned_stride(width, bit_count) };
    let ghost st = stride as int;
    let ghost masks = (red_mask, green_mask, blue_mask, alpha_mask);
    let total = (width * height) as usize;
    let mut pixels: Vec<u32> = vec![0u32; total];
    let w = width as usize;
    let h = height as usize;
    let mut row: usize = 0;
    while row < h
        invariant
            w == width,
            h == height,
            st == stride,
            masks == (red_mask, green_mask, blue_mask, alpha_mask),
            w * h <= u32::MAX,
            h * st + w * 4 + 3 <= usize::MAX,
            image_read_fits(raw@, width, height, st, bit_count, top_down, masks),
            0 <= row <= h,
            pixels@.len() == w * h,
            forall|r: int, c: int| 0 <= r < row && 0 <= c < w ==> #[trigger] pixels@[r * w + c]
                == spec_read_dib_pixel(raw@, source_row(r, height, top_down) * st, c, bit_count, palette@, masks),
        decreases h - row,
    {
        let src_row = if top_down { row } else { h - 1 - row };
        proof {
            assert(src_row * st <= h * st) by (nonlinear_arith)
                requires
                    0 <= src_row < h,
                    st >= 0;
        }
        let row_offset = src_row * (stride as usize);
        let mut col: usize = 0;
        while col < w
            invariant
                w == width,
                h == height,
                st == stride,
                masks == (red_mask, green_mask, blue_mask, alpha_mask),
                w * h <= u32::MAX,
                h * st + w * 4 + 3 <= usize::MAX,
                image_read_fits(raw@, width, height, st, bit_count, top_down, masks),
                0 <= row < h,
                src_row == source_row(row as int, height, top_down),
                row_offset == src_row * st,
                row_offset <= h * st,
                0 <= col <= w,
                pixels@.len() == w * h,
                forall|r: int, c: int| 0 <= r < h && 0 <= c < w && (r < row || (r == row && c < col)) ==> #[trigger] pixels@[r * w + c]
                    == spec_read_dib_pixel(raw@, source_row(r, height, top_down) * st, c, bit_count, palette@, masks),
            decreases w - col,
        {
            proof {
                lemma_pixel_index(row as int, col as int, w as int, h as int);
                assert(read_pixel_fits(raw@, source_row(row as int, height, top_down) * st, col as int, bit_count, masks));
            }
            let dst_idx = row * w + col;
            let color = read_dib_pixel(raw, row_offset, col, bit_count, palette, red_mask, green_mask, blue_mask, alpha_mask);
            let ghost before = pixels@;
            pixels.set(dst_idx, color);
            proof {
                assert forall|r: int, c: int| 0 <= r < h && 0 <= c < w && (r < row || (r == row && c < col + 1)) implies #[trigger] pixels@[r * w + c]
                    == spec_read_dib_pixel(raw@, source_row(r, height, top_down) * st, c, bit_count, palette@, masks) by {
                    lemma_pixel_index(r, c, w as int, h as int);
                    if r * w + c == dst_idx {
                        lemma_pixel_index_injective(r, c, row as int, col as int, w as int, h as int);
                    } else {
                        assert(pixels@[r * w + c] == before[r * w + c]);
                    }
                }
            }
            col = col + 1;
        }
        row = row + 1;
    }
    pixels
}

/// The scanline in memory that image row `row` is written to.
pub open spec fn target_row(row: int, height: u32, top_down: bool) -> int {
    source_row(row, height, top_down)
}

/// The bytes after writing the first `n` pixels (row by row) into a zeroed
/// buffer of `stride * height` bytes.
pub open spec fn encode_prefix(
    pixels: Seq<u32>,
    width: u32,
    height: u32,
    stride: int,
    bit_count: u16,
    top_down: bool,
    palette: Seq<u32>,
    masks: Masks,
    n: nat,
) -> Seq<u8>
    decreases n,
{
    if n == 0 || width == 0 {
        Seq::new((stride * height) as nat, |i: int| 0u8)
    } else {
        let k = n - 1;
        let r = k / (width as int);
        let c = k % (width as int);
        spec_write_dib_pixel(
            encode_prefix(pixels, width, height, stride, bit_count, top_down, palette, masks, (n - 1) as nat),
            target_row(r, height, top_down) * stride, c, pixels[k], bit_count, palette, masks)
    }
}

/// All pixels of the image encode within 32-bit arithmetic.
pub open spec fn image_write_fits(pixels: Seq<u32>, width: u32, height: u32, bit_count: u16, masks: Masks) -> bool {
    forall|k: int| 0 <= k < width * height ==> #[trigger] write_pixel_fits(pixels[k], bit_count, masks)
}

/// Encodes `0x00RRGGBB` pixels (top row first) into raw DIB scanlines of
/// `stride * height` bytes.
pub fn pixels_to_raw_dib(
    pixels: &[u32],
    width: u32,
    height: u32,
    stride: u32,
    bit_count: u16,
    top_down: bool,
    palette: &[u32],
    red_mask: u32,
    green_mask: u32,
    blue_mask: u32,
    alpha_mask: u32,
) -> (raw: Vec<u8>)
    requires
        pixels@.len() >= width * height,
        stride_in_use(stride, width, bit_count) * height <= u32::MAX,
        height * stride_in_use(stride, width, bit_count) + width * 4 + 3 <= usize::MAX,
        width * height <= usize::MAX,
        image_write_fits(pixels@, width, height, bit_count, (red_mask, green_mask, blue_mask, alpha_mask)),
    ensures
        raw@ == encode_prefix(pixels@, width, height, stride_in_use(stride, width, bit_count), bit_count, top_down,
            palette@, (red_mask, green_mask, blue_mask, alpha_mask), (width * height) as nat),
{
    let stride = if stride != 0 { stride } else { aligned_stride(width, bit_count) };
    let ghost st = stride as int;
    let ghost masks = (red_mask, green_mask, blue_mask, alpha_mask);
    let total = (stride * height) as usize;
    let mut raw: Vec<u8> = vec![0u8; total];
    proof {
        assert(raw@ =~= encode_prefix(pixels@, width, height, st, bit_count, top_down, palette@, masks, 0));
    }
    let w = width as usize;
    let h = height as usize;
    let mut row: usize = 0;
    while row < h
        invariant
            w == width,
            h == height,
            st == stride,
            masks == (red_mask, green_mask, blue_mask, alpha_mask),
            pixels@.len() >= w * h,
            w * h <= usize::MAX,
            h * st + w * 4 + 3 <= usize::MAX,
            image_write_fits(pixels@, width, height, bit_count, masks),
            0 <= row <= h,
            raw@ == encode_prefix(pixels@, width, height, st, bit_count, top_down, palette@, masks, (row * w) as nat),
        decreases h - row,
    {
        let dst_row = if top_down { row } else { h - 1 - row };
        proof {
            assert(dst_row * st <= h * st) by (nonlinear_arith)
                requires
                    0 <= dst_row < h,
                    st >= 0;
        }
        let row_offset = dst_row * (stride as usize);
        let mut col: usize = 0;
        while col < w
            invariant
                w == width,
                h == height,
                st == stride,
                masks == (red_mask, green_mask, blue_mask, alpha_mask),
                pixels@.len() >= w * h,
                w * h <= usize::MAX,
                h * st + w * 4 + 3 <= usize::MAX,
                image_write_fits(pixels@, width, height, bit_count, masks),
                0 <= row < h,
                dst_row == target_row(row as int, height, top_down),
                row_offset == dst_row * st,
                row_offset <= h * st,
                0 <= col <= w,
                raw@ == encode_prefix(pixels@, width, height, st, bit_count, top_down, palette@, masks, (row * w + col) as nat),
            decreases w - col,
        {
            proof {
                lemma_pixel_index(row as int, col as int, w as int, h as int);
                assert(write_pixel_fits(pixels@[row * w + col], bit_count, masks));
            }
            let color = pixels[row * w + col];
            write_dib_pixel(raw.as_mut_slice(), row_offset, col, color, bit_count, palette, red_mask, green_mask, blue_mask, alpha_mask);
            proof {
                let n = (row * w + col + 1) as nat;
                assert((n - 1) / (w as int) == row && (n - 1) % (w as int) == col);
            }
            col = col + 1;
        }
        proof {
            assert(row * w + w == (row + 1) * w) by (nonlinear_arith);
        }
        row = row + 1;
    }
    proof {
        assert(h * w == w * h) by (nonlinear_arith);
    }
    raw
}


// ---------------------------------------------------------------------------
// BITMAPINFO headers.

pub const BI_BITFIELDS: u32 = 3;
pub const BI_ALPHABITFIELDS: u32 = 6;

/// Byte `i` of the header bytes, zero past their end.
pub open spec fn byte_at(b: Seq<u8>, i: int) -> u8 {
    if 0 <= i < b.len() { b[i] } else { 0 }
}

/// Little-endian 32-bit value at byte offset `off`.
pub open spec fn u32_at(b: Seq<u8>, off: int) -> u32 {
    (byte_at(b, off) as u32) | ((byte_at(b, off + 1) as u32) << 8u32) | ((byte_at(b, off + 2) as u32) << 16u32)
        | ((byte_at(b, off + 3) as u32) << 24u32)
}

/// Little-endian 16-bit value at byte offset `off`.
pub open spec fn u16_at(b: Seq<u8>, off: int) -> u16 {
    ((byte_at(b, off) as u16) | ((byte_at(b, off + 1) as u16) << 8u16)) as u16
}

fn get_byte(b: &[u8], i: usize) -> (r: u8)
    ensures
        r == byte_at(b@, i as int),
{
    if i < b.len() { b[i] } else { 0 }
}

pub fn read_u32_le(b: &[u8], off: usize) -> (r: u32)
    requires
        off + 3 <= usize::MAX,
    ensures
        r == u32_at(b@, off as int),
{
    (get_byte(b, off) as u32) | ((get_byte(b, off + 1) as u32) << 8) | ((get_byte(b, off + 2) as u32) << 16)
        | ((get_byte(b, off + 3) as u32) << 24)
}

pub fn read_u16_le(b: &[u8], off: usize) -> (r: u16)
    requires
        off + 1 <= usize::MAX,
    ensures
        r == u16_at(b@, off as int),
{
    ((get_byte(b, off) as u16) | ((get_byte(b, off + 1) as u16) << 8)) as u16
}

/// Channel masks and the offset of the colour table, both relative to the
/// start of the header. Without bitfield compression there are no masks and
/// the colour table follows the header; otherwise the masks sit after the
/// 40-byte core (or after a short header) and the table follows them.
pub open spec fn spec_read_dib_masks(bmi: Seq<u8>, bi_size: u32, compression: u32) -> (u32, u32, u32, u32, u64) {
    if compression != BI_BITFIELDS && compression != BI_ALPHABITFIELDS {
        (0, 0, 0, 0, bi_size as u64)
    } else {
        let base: int = if bi_size >= 52 { 40 } else { bi_size as int };
        let alpha = if compression == BI_ALPHABITFIELDS || bi_size >= 56 { u32_at(bmi, base + 12) } else { 0 };
        let palette_offset: int = if bi_size >= 52 { bi_size as int } else { base + if alpha != 0 { 16int } else { 12int } };
        (u32_at(bmi, base), u32_at(bmi, base + 4), u32_at(bmi, base + 8), alpha, palette_offset as u64)
    }
}

pub fn read_dib_masks(bmi: &[u8], bi_size: u32, compression: u32) -> (r: (u32, u32, u32, u32, u64))
    ensures
        r == spec_read_dib_masks(bmi@, bi_size, compression),
{
    if compression != BI_BITFIELDS && compression != BI_ALPHABITFIELDS {
        return (0, 0, 0, 0, bi_size as u64);
    }
    let base: usize = if bi_size >= 52 { 40 } else { bi_size as usize };
    let red = read_u32_le(bmi, base);
    let green = read_u32_le(bmi, base + 4);
    let blue = read_u32_le(bmi, base + 8);
    let alpha = if compression == BI_ALPHABITFIELDS || bi_size >= 56 { read_u32_le(bmi, base + 12) } else { 0 };
    let palette_offset: u64 = if bi_size >= 52 { bi_size as u64 } else { base as u64 + if alpha != 0 { 16 } else { 12 } };
    (red, green, blue, alpha, palette_offset)
}

/// Number of colour-table entries: none above 8 bits per pixel or with
/// bitfields; otherwise `colors_used`, or `2^bit_count` when that is 0.
pub open spec fn spec_palette_entry_count(bit_count: u16, colors_used: u32, compression: u32) -> u32 {
    if bit_count > 8 || compression == BI_BITFIELDS || compression == BI_ALPHABITFIELDS {
        0
    } else if colors_used != 0 {
        colors_used
    } else {
        (1u32 << (bit_count as u32)) as u32
    }
}

pub fn palette_entry_count(bit_count: u16, colors_used: u32, compression: u32) -> (r: u32)
    ensures
        r == spec_palette_entry_count(bit_count, colors_used, compression),
{
    if bit_count > 8 || compression == BI_BITFIELDS || compression == BI_ALPHABITFIELDS {
        0
    } else if colors_used != 0 {
        colors_used
    } else {
        1u32 << (bit_count as u32)
    }
}

/// Colour-table entry `i` (blue, green, red, reserved) of the table that
/// starts at byte `offset`, as `0x00RRGGBB`.
pub open spec fn palette_entry(bytes: Seq<u8>, offset: int, i: int) -> u32 {
    rgb(byte_at(bytes, offset + i * 4 + 2) as u32, byte_at(bytes, offset + i * 4 + 1) as u32, byte_at(bytes, offset + i * 4) as u32)
}

/// Decodes `count` RGBQUAD entries starting at byte `offset`; bytes past the
/// end read as zero.
pub fn decode_palette(bytes: &[u8], offset: usize, count: u32) -> (palette: Vec<u32>)
    requires
        offset + count * 4 + 3 <= usize::MAX,
    ensures
        palette@.len() == count,
        forall|i: int| 0 <= i < count ==> #[trigger] palette@[i] == palette_entry(bytes@, offset as int, i),
{
    let mut palette: Vec<u32> = Vec::new();
    let mut i: u32 = 0;
    while i < count
        invariant
            0 <= i <= count,
            offset + count * 4 + 3 <= usize::MAX,
            palette@.len() == i,
            forall|k: int| 0 <= k < i ==> #[trigger] palette@[k] == palette_entry(bytes@, offset as int, k),
        decreases count - i,
    {
        let at = offset + (i as usize) * 4;
        let b = get_byte(bytes, at) as u32;
        let g = get_byte(bytes, at + 1) as u32;
        let r = get_byte(bytes, at + 2) as u32;
        palette.push((r << 16) | (g << 8) | b);
        i = i + 1;
    }
    palette
}

/// Metadata of a DIB taken from its `BITMAPINFO`.
pub struct DibHeaderInfo {
    pub width: u32,
    pub height: u32,
    pub top_down: bool,
    pub stride: u32,
    pub bit_count: u16,
    pub palette: Vec<u32>,
    pub red_mask: u32,
    pub green_mask: u32,
    pub blue_mask: u32,
    pub alpha_mask: u32,
}

/// Image height and orientation from the signed `biHeight`: a negative
/// height marks a top-down image; a height of zero reads as one.
pub open spec fn spec_dib_height(raw_height: u32) -> (u32, bool) {
    if raw_height > 0x7FFF_FFFF {
        let h = (0x1_0000_0000 - raw_height) as u32;
        (if h == 0 { 1 } else { h }, true)
    } else {
        (if raw_height == 0 { 1 } else { raw_height }, false)
    }
}

pub fn dib_height(raw_height: u32) -> (r: (u32, bool))
    ensures
        r == spec_dib_height(raw_height),
{
    if raw_height > 0x7FFF_FFFF {
        let h = ((0x1_0000_0000u64 - raw_height as u64) as u32);
        (if h == 0 { 1 } else { h }, true)
    } else {
        (if raw_height == 0 { 1 } else { raw_height }, false)
    }
}

/// `biSize`, at least 40.
pub open spec fn header_size(bmi: Seq<u8>) -> u32 {
    if u32_at(bmi, 0) < 40 { 40 } else { u32_at(bmi, 0) }
}

/// Bits per pixel, at least 1.
pub open spec fn header_bit_count(bmi: Seq<u8>) -> u16 {
    if u16_at(bmi, 14) == 0 { 1 } else { u16_at(bmi, 14) }
}

pub open spec fn header_masks(bmi: Seq<u8>) -> (u32, u32, u32, u32, u64) {
    spec_read_dib_masks(bmi, header_size(bmi), u32_at(bmi, 16))
}

pub open spec fn header_palette_count(bmi: Seq<u8>) -> u32 {
    spec_palette_entry_count(header_bit_count(bmi), u32_at(bmi, 32), u32_at(bmi, 16))
}

/// The colour table of the header fits in memory.
pub open spec fn header_palette_fits(bmi: Seq<u8>) -> bool {
    header_masks(bmi).4 + header_palette_count(bmi) * 4 + 3 <= usize::MAX
}

/// Reads the `BITMAPINFO` whose bytes start at `bmi` (header, masks and
/// colour table; bytes past the end read as zero). Width and bit depth of 0
/// read as 1.
pub fn read_dib_header(bmi: &[u8]) -> (info: DibHeaderInfo)
    requires
        header_palette_fits(bmi@),
    ensures
        info.width == (if u32_at(bmi@, 4) == 0 { 1 } else { u32_at(bmi@, 4) }),
        (info.height, info.top_down) == spec_dib_height(u32_at(bmi@, 8)),
        info.bit_count == header_bit_count(bmi@),
        info.stride == spec_dib_effective_stride(info.width, info.height, u32_at(bmi@, 20), info.bit_count),
        (info.red_mask, info.green_mask, info.blue_mask, info.alpha_mask)
            == (header_masks(bmi@).0, header_masks(bmi@).1, header_masks(bmi@).2, header_masks(bmi@).3),
        info.palette@.len() == header_palette_count(bmi@),
        forall|i: int| 0 <= i < header_palette_count(bmi@) ==> #[trigger] info.palette@[i]
            == palette_entry(bmi@, header_masks(bmi@).4 as int, i),
{
    let raw_size = read_u32_le(bmi, 0);
    let bi_size = if raw_size < 40 { 40 } else { raw_size };
    let w = read_u32_le(bmi, 4);
    let width = if w == 0 { 1 } else { w };
    let (height, top_down) = dib_height(read_u32_le(bmi, 8));
    let bc = read_u16_le(bmi, 14);
    let bit_count: u16 = if bc == 0 { 1 } else { bc };
    let compression = read_u32_le(bmi, 16);
    let bi_size_image = read_u32_le(bmi, 20);
    let colors_used = read_u32_le(bmi, 32);
    let (red_mask, green_mask, blue_mask, alpha_mask, palette_offset) = read_dib_masks(bmi, bi_size, compression);
    let count = palette_entry_count(bit_count, colors_used, compression);
    let palette = decode_palette(bmi, palette_offset as usize, count);
    let stride = dib_effective_stride(width, height, bi_size_image, bit_count);
    DibHeaderInfo { width, height, top_down, stride, bit_count, palette, red_mask, green_mask, blue_mask, alpha_mask }
}

/// An 8-bit image without a palette stores a grey colour as its level,
/// which reads back as the same grey.
pub proof fn lemma_gray_round_trip_8(raw: Seq<u8>, row_offset: int, col: int, level: u32, palette: Seq<u32>, masks: Masks)
    requires
        level <= 0xFF,
        palette.len() == 0,
        0 <= row_offset,
        0 <= col,
        row_offset + col < raw.len(),
    ensures
        spec_read_dib_pixel(spec_write_dib_pixel(raw, row_offset, col, rgb(level, level, level), 8, palette, masks),
            row_offset, col, 8, palette, masks) == rgb(level, level, level),
{
    let c = rgb(level, level, level);
    assert(((c >> 16u32) & 0xFF) == level && ((c >> 8u32) & 0xFF) == level && (c & 0xFF) == level) by (bit_vector)
        requires
            c == (level << 16u32) | (level << 8u32) | level,
            level <= 0xFF;
}


/// `rgb` places its three bytes at 16, 8 and 0 bits.
pub proof fn lemma_rgb_bytes(r: u32, g: u32, b: u32)
    requires
        r < 256,
        g < 256,
        b < 256,
    ensures
        rgb(r, g, b) == r * 65536 + g * 256 + b,
{
    assert((r << 16u32) | (g << 8u32) | b == r * 65536 + g * 256 + b) by (bit_vector)
        requires
            r < 256,
            g < 256,
            b < 256;
}

/// A 16-bit pixel is read little-endian: its value is the first byte plus
/// 256 times the second, decoded through the effective masks (5-5-5 when
/// the masks are incomplete).
pub proof fn lemma_read_16_little_endian(raw: Seq<u8>, row_offset: int, col: int, palette: Seq<u32>, masks: Masks)
    requires
        0 <= row_offset,
        0 <= col,
        row_offset + col * 2 + 1 < raw.len(),
    ensures
        spec_read_dib_pixel(raw, row_offset, col, 16, palette, masks) == decode_with_masks(
            (raw[row_offset + col * 2] + 256 * raw[row_offset + col * 2 + 1]) as u32,
            effective_masks(masks, default_masks_16()),
        ),
{
    let idx = row_offset + col * 2;
    let (b0, b1) = (raw[idx], raw[idx + 1]);
    assert((b0 as u32) | ((b1 as u32) << 8u32) == (b0 + 256 * b1) as u32) by (bit_vector);
}

/// A 24-bit pixel is read blue first: blue, green and red are the first,
/// second and third bytes.
pub proof fn lemma_read_24_bgr(raw: Seq<u8>, row_offset: int, col: int, palette: Seq<u32>, masks: Masks)
    requires
        0 <= row_offset,
        0 <= col,
        row_offset + col * 3 + 2 < raw.len(),
    ensures
        spec_read_dib_pixel(raw, row_offset, col, 24, palette, masks) == raw[row_offset + col * 3 + 2] * 65536
            + raw[row_offset + col * 3 + 1] * 256 + raw[row_offset + col * 3],
{
    let idx = row_offset + col * 3;
    lemma_rgb_bytes(raw[idx + 2] as u32, raw[idx + 1] as u32, raw[idx] as u32);
}

/// A 32-bit pixel is read little-endian: its value is the four bytes, the
/// first the lowest, decoded through the effective masks (8-8-8-8 when the
/// masks are incomplete).
pub proof fn lemma_read_32_little_endian(raw: Seq<u8>, row_offset: int, col: int, palette: Seq<u32>, masks: Masks)
    requires
        0 <= row_offset,
        0 <= col,
        row_offset + col * 4 + 3 < raw.len(),
    ensures
        spec_read_dib_pixel(raw, row_offset, col, 32, palette, masks) == decode_with_masks(
            (raw[row_offset + col * 4] + 256 * raw[row_offset + col * 4 + 1] + 65536 * raw[row_offset + col * 4 + 2]
                + 16777216 * raw[row_offset + col * 4 + 3]) as u32,
            effective_masks(masks, default_masks_32()),
        ),
{
    let idx = row_offset + col * 4;
    let (b0, b1, b2, b3) = (raw[idx], raw[idx + 1], raw[idx + 2], raw[idx + 3]);
    assert((b0 as u32) | ((b1 as u32) << 8u32) | ((b2 as u32) << 16u32) | ((b3 as u32) << 24u32) == (b0 + 256 * b1
        + 65536 * b2 + 16777216 * b3) as u32) by (bit_vector);
}

/// Writing a 16-bit pixel stores the colour encoded through the effective
/// masks (5-5-5 when the masks are incomplete) little-endian: the first byte
/// plus 256 times the second is the low 16 bits of the encoding, no other
/// byte changes, and reading the pixel back decodes that 16-bit value.
pub proof fn lemma_write_16_little_endian(
    raw: Seq<u8>,
    row_offset: int,
    col: int,
    color: u32,
    palette: Seq<u32>,
    masks: Masks,
)
    requires
        0 <= row_offset,
        0 <= col,
        row_offset + col * 2 + 1 < raw.len(),
    ensures
        ({
            let w = spec_write_dib_pixel(raw, row_offset, col, color, 16, palette, masks);
            let idx = row_offset + col * 2;
            let p = encode_with_masks(color, effective_masks(masks, default_masks_16()));
            &&& w.len() == raw.len()
            &&& w[idx] + 256 * w[idx + 1] == p % 0x10000
            &&& forall|k: int| 0 <= k < raw.len() && k != idx && k != idx + 1 ==> w[k] == raw[k]
            &&& spec_read_dib_pixel(w, row_offset, col, 16, palette, masks) == decode_with_masks(
                (p % 0x10000) as u32,
                effective_masks(masks, default_masks_16()),
            )
        }),
{
    let w = spec_write_dib_pixel(raw, row_offset, col, color, 16, palette, masks);
    let idx = row_offset + col * 2;
    let p = encode_with_masks(color, effective_masks(masks, default_masks_16()));
    let (w0, w1) = (w[idx], w[idx + 1]);
    assert(w0 + 256 * w1 == p % 0x10000) by (bit_vector)
        requires
            w0 == (p & 0xFF) as u8,
            w1 == ((p >> 8u32) & 0xFF) as u8;
    lemma_read_16_little_endian(w, row_offset, col, palette, masks);
}

/// Writing a 24-bit pixel stores blue, green and red in that order and
/// changes no other byte.
pub proof fn lemma_write_24_bgr(raw: Seq<u8>, row_offset: int, col: int, color: u32, palette: Seq<u32>, masks: Masks)
    requires
        0 <= row_offset,
        0 <= col,
        row_offset + col * 3 + 2 < raw.len(),
    ensures
        ({
            let w = spec_write_dib_pixel(raw, row_offset, col, color, 24, palette, masks);
            let idx = row_offset + col * 3;
            &&& w.len() == raw.len()
            &&& w[idx] == color % 256
            &&& w[idx + 1] == (color / 256) % 256
            &&& w[idx + 2] == (color / 65536) % 256
            &&& forall|k: int| 0 <= k < raw.len() && !(idx <= k < idx + 3) ==> w[k] == raw[k]
        }),
{
    let w = spec_write_dib_pixel(raw, row_offset, col, color, 24, palette, masks);
    let idx = row_offset + col * 3;
    let (w0, w1, w2) = (w[idx], w[idx + 1], w[idx + 2]);
    assert(w0 == color % 256 && w1 == (color / 256) % 256 && w2 == (color / 65536) % 256) by (bit_vector)
        requires
            w0 == (color & 0xFF) as u8,
            w1 == ((color >> 8u32) & 0xFF) as u8,
            w2 == ((color >> 16u32) & 0xFF) as u8;
}

/// Writing a 32-bit pixel stores the colour encoded through the effective
/// masks (8-8-8-8 with a full alpha byte when the masks are incomplete)
/// little-endian in its four bytes, changes no other byte, and reading the
/// pixel back decodes that encoding.
pub proof fn lemma_write_32_little_endian(
    raw: Seq<u8>,
    row_offset: int,
    col: int,
    color: u32,
    palette: Seq<u32>,
    masks: Masks,
)
    requires
        0 <= row_offset,
        0 <= col,
        row_offset + col * 4 + 3 < raw.len(),
    ensures
        ({
            let w = spec_write_dib_pixel(raw, row_offset, col, color, 32, palette, masks);
            let idx = row_offset + col * 4;
            let p = encode_with_masks(color, effective_masks(masks, default_masks_32()));
            &&& w.len() == raw.len()
            &&& w[idx] + 256 * w[idx + 1] + 65536 * w[idx + 2] + 16777216 * w[idx + 3] == p
            &&& forall|k: int| 0 <= k < raw.len() && !(idx <= k < idx + 4) ==> w[k] == raw[k]
            &&& spec_read_dib_pixel(w, row_offset, col, 32, palette, masks) == decode_with_masks(
                p,
                effective_masks(masks, default_masks_32()),
            )
        }),
{
    let w = spec_write_dib_pixel(raw, row_offset, col, color, 32, palette, masks);
    let idx = row_offset + col * 4;
    let p = encode_with_masks(color, effective_masks(masks, default_masks_32()));
    let (w0, w1, w2, w3) = (w[idx], w[idx + 1], w[idx + 2], w[idx + 3]);
    assert(w0 + 256 * w1 + 65536 * w2 + 16777216 * w3 == p) by (bit_vector)
        requires
            w0 == (p & 0xFF) as u8,
            w1 == ((p >> 8u32) & 0xFF) as u8,
            w2 == ((p >> 16u32) & 0xFF) as u8,
            w3 == ((p >> 24u32) & 0xFF) as u8;
    lemma_read_32_little_endian(w, row_offset, col, palette, masks);
}


/// Pixel `col` of a 1-bit scanline is bit `7 - col % 8` of its byte: the
/// byte's value divided by this weight, modulo 2, is the pixel.
pub open spec fn bit_weight(col: int) -> u32 {
    1u32 << ((7 - col % 8) as u32)
}

/// A 1-bit pixel is read most significant bit first, as a palette index;
/// without that palette entry 0 is black and 1 white.
pub proof fn lemma_read_1_msb_first(raw: Seq<u8>, row_offset: int, col: int, palette: Seq<u32>, masks: Masks)
    requires
        0 <= row_offset,
        0 <= col,
        row_offset + col / 8 < raw.len(),
    ensures
        ({
            let pi = (raw[row_offset + col / 8] as u32 / bit_weight(col)) % 2;
            spec_read_dib_pixel(raw, row_offset, col, 1, palette, masks) == if pi < palette.len() {
                palette[pi as int]
            } else if pi == 0 {
                0
            } else {
                0x00FF_FFFF
            }
        }),
{
    let x = raw[row_offset + col / 8];
    let b = (7 - col % 8) as u8;
    let wt = bit_weight(col);
    assert(wt == 1u32 << (b as u32));
    assert((x >> b) & 1u8 == ((x as u32 / wt) % 2) as u8 && (x as u32 / wt) % 2 < 2) by (bit_vector)
        requires
            b < 8,
            wt == 1u32 << (b as u32);
}

/// A 4-bit pixel is read high nibble first (even columns in the high
/// nibble), as a palette index; without that palette entry index `i` is the
/// grey level `17 * i`.
pub proof fn lemma_read_4_high_nibble_first(raw: Seq<u8>, row_offset: int, col: int, palette: Seq<u32>, masks: Masks)
    requires
        0 <= row_offset,
        0 <= col,
        row_offset + col / 2 < raw.len(),
    ensures
        ({
            let x = raw[row_offset + col / 2];
            let pi = if col % 2 == 0 { x / 16 } else { x % 16 };
            spec_read_dib_pixel(raw, row_offset, col, 4, palette, masks) == if pi < palette.len() {
                palette[pi as int] as int
            } else {
                pi * 17 * 65793
            }
        }),
{
    let x = raw[row_offset + col / 2];
    let pi: u8 = if col % 2 == 0 { (x >> 4u8) & 0x0Fu8 } else { x & 0x0Fu8 };
    assert((x >> 4u8) & 0x0Fu8 == x / 16 && x & 0x0Fu8 == x % 16) by (bit_vector);
    let g = (((pi as u32) * 17) as u32) & 0xFF;
    assert(g == pi * 17) by (bit_vector)
        requires
            pi < 16,
            g == (((pi as u32) * 17) as u32) & 0xFF;
    lemma_rgb_bytes(g, g, g);
}

/// An 8-bit pixel is its byte as a palette index; without that palette
/// entry the byte is a grey level.
pub proof fn lemma_read_8_index(raw: Seq<u8>, row_offset: int, col: int, palette: Seq<u32>, masks: Masks)
    requires
        0 <= row_offset,
        0 <= col,
        row_offset + col < raw.len(),
    ensures
        spec_read_dib_pixel(raw, row_offset, col, 8, palette, masks) == if (raw[row_offset + col] as int)
            < palette.len() {
            palette[raw[row_offset + col] as int] as int
        } else {
            raw[row_offset + col] * 65793
        },
{
    let x = raw[row_offset + col] as u32;
    lemma_rgb_bytes(x, x, x);
}

/// Writing a 1-bit pixel sets bit `7 - col % 8` of its byte to the stored
/// index (the nearest palette entry's low bit, or without a palette 1 for
/// colours whose channels sum to at least 0x180) and changes no other bit
/// or byte.
pub proof fn lemma_write_1_msb_first(raw: Seq<u8>, row_offset: int, col: int, color: u32, palette: Seq<u32>, masks: Masks)
    requires
        0 <= row_offset,
        0 <= col,
        row_offset + col / 8 < raw.len(),
    ensures
        ({
            let w = spec_write_dib_pixel(raw, row_offset, col, color, 1, palette, masks);
            let idx = row_offset + col / 8;
            let wt = bit_weight(col);
            let pi: u32 = if palette.len() == 0 {
                if channel_sum(color) >= 0x180 { 1 } else { 0 }
            } else {
                (spec_nearest_palette_index(palette, color) % 2) as u32
            };
            &&& w.len() == raw.len()
            &&& (w[idx] as u32 / wt) % 2 == pi
            &&& (w[idx] as u32) % wt == (raw[idx] as u32) % wt
            &&& (w[idx] as u32 / wt) / 2 == (raw[idx] as u32 / wt) / 2
            &&& forall|k: int| 0 <= k < raw.len() && k != idx ==> w[k] == raw[k]
        }),
{
    let idx = row_offset + col / 8;
    let x = raw[idx];
    let b = (7 - col % 8) as u8;
    let wt = bit_weight(col);
    assert(wt == 1u32 << (b as u32));
    let n = spec_nearest_palette_index(palette, color);
    assert(n & 0x01u8 == n % 2) by (bit_vector);
    assert({
        let s = x | (1u8 << b);
        let c = x & !(1u8 << b);
        &&& (s as u32 / wt) % 2 == 1 && (s as u32) % wt == (x as u32) % wt && (s as u32 / wt) / 2 == (x as u32 / wt) / 2
        &&& (c as u32 / wt) % 2 == 0 && (c as u32) % wt == (x as u32) % wt && (c as u32 / wt) / 2 == (x as u32 / wt) / 2
    }) by (bit_vector)
        requires
            b < 8,
            wt == 1u32 << (b as u32);
}

/// Writing a 4-bit pixel puts the stored index (the nearest palette entry's
/// low nibble, or without a palette the grey level divided by 17) in the
/// high nibble of its byte for an even column and in the low nibble for an
/// odd one, and changes no other nibble or byte.
pub proof fn lemma_write_4_high_nibble_first(raw: Seq<u8>, row_offset: int, col: int, color: u32, palette: Seq<u32>, masks: Masks)
    requires
        0 <= row_offset,
        0 <= col,
        row_offset + col / 2 < raw.len(),
    ensures
        ({
            let w = spec_write_dib_pixel(raw, row_offset, col, color, 4, palette, masks);
            let idx = row_offset + col / 2;
            let x = raw[idx];
            let pi: int = if palette.len() == 0 {
                (channel_sum(color) / 3 / 17) as int
            } else {
                (spec_nearest_palette_index(palette, color) % 16) as int
            };
            &&& w.len() == raw.len()
            &&& col % 2 == 0 ==> w[idx] == pi * 16 + x % 16
            &&& col % 2 == 1 ==> w[idx] == x - x % 16 + pi
            &&& forall|k: int| 0 <= k < raw.len() && k != idx ==> w[k] == raw[k]
        }),
{
    let idx = row_offset + col / 2;
    let x = raw[idx];
    let n = spec_nearest_palette_index(palette, color);
    let cs = channel_sum(color);
    lemma_channel_bounds(color);
    assert(cs <= 765);
    assert((n & 0x0Fu8) == n % 16) by (bit_vector);
    let pi: u8 = if palette.len() == 0 { (cs / 3 / 17) as u8 } else { n & 0x0Fu8 };
    assert(pi < 16);
    assert(((x & 0x0Fu8) | (pi << 4u8)) == pi * 16 + x % 16 && ((x & 0xF0u8) | (pi & 0x0Fu8)) == x - x % 16 + pi)
        by (bit_vector)
        requires
            pi < 16;
}

/// Writing an 8-bit pixel stores the nearest palette index, or without a
/// palette the grey level, in its byte and changes no other byte.
pub proof fn lemma_write_8_index(raw: Seq<u8>, row_offset: int, col: int, color: u32, palette: Seq<u32>, masks: Masks)
    requires
        0 <= row_offset,
        0 <= col,
        row_offset + col < raw.len(),
    ensures
        ({
            let w = spec_write_dib_pixel(raw, row_offset, col, color, 8, palette, masks);
            &&& w.len() == raw.len()
            &&& w[row_offset + col] == if palette.len() == 0 {
                channel_sum(color) / 3
            } else {
                spec_nearest_palette_index(palette, color) as u32
            }
            &&& forall|k: int| 0 <= k < raw.len() && k != row_offset + col ==> w[k] == raw[k]
        }),
{
    lemma_channel_bounds(color);
}

} // verus!
