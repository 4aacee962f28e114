use emul_4leaf::dib::{
    raw_dib_to_pixels, dib_effective_stride, aligned_stride, decode_masked_component, encode_masked_component,
    nearest_palette_index, read_dib_pixel, write_dib_pixel, pixels_to_raw_dib,
};

#[test]
fn paletted_8bpp_dib_is_decoded_with_palette() {
    let palette = vec![0x000000, 0x00FF0000, 0x0000FF00, 0x000000FF];
    let raw = vec![1u8, 2u8, 3u8, 0u8];
    let pixels = raw_dib_to_pixels(&raw, 4, 1, 4, 8, true, &palette, 0, 0, 0, 0);
    assert_eq!(pixels, vec![0x00FF0000, 0x0000FF00, 0x000000FF, 0x000000]);
}

#[test]
fn stride_uses_actual_bit_count_for_8bpp() {
    assert_eq!(dib_effective_stride(28, 34, 0, 8), 28);
    assert_eq!(dib_effective_stride(29, 34, 0, 8), 32);
}

#[test]
fn strides_are_rounded_to_four_bytes() {
    assert_eq!(aligned_stride(1, 1), 4);
    assert_eq!(aligned_stride(33, 1), 8);
    assert_eq!(aligned_stride(3, 24), 12);
    assert_eq!(aligned_stride(5, 32), 20);
    assert_eq!(aligned_stride(0, 24), 0);
}

#[test]
fn masked_channels_scale_to_eight_bits() {
    // 5-bit red field of a 5-5-5 pixel
    assert_eq!(decode_masked_component(0x7C00, 0x7C00), 255);
    assert_eq!(decode_masked_component(0x0000, 0x7C00), 0);
    assert_eq!(decode_masked_component(0x1234, 0), 0);
    assert_eq!(encode_masked_component(255, 0x7C00), 0x7C00);
    assert_eq!(encode_masked_component(0, 0x7C00), 0);
    assert_eq!(encode_masked_component(0x80, 0xFF00), 0x8000);
    assert_eq!(encode_masked_component(7, 0), 0);
}

#[test]
fn nearest_palette_entry_is_the_first_of_the_closest() {
    let palette = [0x000000u32, 0xFFFFFF, 0x000000];
    assert_eq!(nearest_palette_index(&palette, 0x101010), 0);
    assert_eq!(nearest_palette_index(&palette, 0xF0F0F0), 1);
    assert_eq!(nearest_palette_index(&[], 0x123456), 0);
}

#[test]
fn pixels_round_trip_through_24_and_32_bit_rows() {
    let mut raw = vec![0u8; 8];
    write_dib_pixel(&mut raw, 0, 1, 0xAB12_3456, 24, &[], 0, 0, 0, 0);
    assert_eq!(&raw[3..6], &[0x56, 0x34, 0x12]);
    assert_eq!(read_dib_pixel(&raw, 0, 1, 24, &[], 0, 0, 0, 0), 0x0012_3456);
    let mut raw32 = vec![0u8; 8];
    write_dib_pixel(&mut raw32, 4, 0, 0x00AB_CDEF, 32, &[], 0, 0, 0, 0);
    assert_eq!(&raw32[4..8], &[0xEF, 0xCD, 0xAB, 0xFF]);
    assert_eq!(read_dib_pixel(&raw32, 4, 0, 32, &[], 0, 0, 0, 0), 0x00AB_CDEF);
}

#[test]
fn indexed_pixels_without_palette_fall_back() {
    let raw = [0b1000_0000u8, 0x3F];
    assert_eq!(read_dib_pixel(&raw, 0, 0, 1, &[], 0, 0, 0, 0), 0x00FF_FFFF);
    assert_eq!(read_dib_pixel(&raw, 0, 1, 1, &[], 0, 0, 0, 0), 0);
    assert_eq!(read_dib_pixel(&raw, 1, 0, 4, &[], 0, 0, 0, 0), 0x0033_3333);
    assert_eq!(read_dib_pixel(&raw, 1, 0, 8, &[], 0, 0, 0, 0), 0x003F_3F3F);
    assert_eq!(read_dib_pixel(&raw, 5, 0, 8, &[], 0, 0, 0, 0), 0);
}

#[test]
fn bottom_up_rows_are_flipped() {
    // two rows of two 24-bit pixels, stride 8, stored bottom row first
    let raw = vec![1, 0, 0, 2, 0, 0, 0, 0, 3, 0, 0, 4, 0, 0, 0, 0];
    let pixels = raw_dib_to_pixels(&raw, 2, 2, 8, 24, false, &[], 0, 0, 0, 0);
    assert_eq!(pixels, vec![3, 4, 1, 2]);
    let top_down = raw_dib_to_pixels(&raw, 2, 2, 8, 24, true, &[], 0, 0, 0, 0);
    assert_eq!(top_down, vec![1, 2, 3, 4]);
    let back = pixels_to_raw_dib(&pixels, 2, 2, 8, 24, false, &[], 0, 0, 0, 0);
    assert_eq!(&back[0..6], &[1, 0, 0, 2, 0, 0]);
}

#[test]
fn eight_bit_grey_without_palette_keeps_its_level() {
    let mut raw = [0u8];
    write_dib_pixel(&mut raw, 0, 0, 0x00FF_FFFF, 8, &[], 0, 0, 0, 0);
    assert_eq!(raw, [0xFF]);
    assert_eq!(read_dib_pixel(&raw, 0, 0, 8, &[], 0, 0, 0, 0), 0x00FF_FFFF);
    write_dib_pixel(&mut raw, 0, 0, 0x0030_6090, 8, &[], 0, 0, 0, 0);
    assert_eq!(raw, [0x60]);
}
