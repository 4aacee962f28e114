use emul_4leaf::blit::{pat_blt_color, BLACKNESS, PATCOPY, WHITENESS};
use emul_4leaf::blit::{apply_bitmap_rop, blit_pixels, stretch_pixels, BlitArea, StretchArea, SRCAND, SRCCOPY, SRCINVERT, SRCPAINT};

fn take_source(_dst: u32, src: u32) -> u32 {
    src
}

#[test]
fn bitwise_rops_keep_the_destination_alpha() {
    assert_eq!(apply_bitmap_rop(0xAA00_FF0F, 0x1100_0FFF, SRCAND, 7), 0xAA00_0F0F);
    assert_eq!(apply_bitmap_rop(0xAA00_FF0F, 0x1100_0FFF, SRCPAINT, 7), 0xAA00_FFFF);
    assert_eq!(apply_bitmap_rop(0xAA00_FF0F, 0x1100_0FFF, SRCINVERT, 7), 0xAA00_F0F0);
    assert_eq!(apply_bitmap_rop(0xAA00_FF0F, 0x1100_0FFF, SRCCOPY, 7), 7);
    assert_eq!(apply_bitmap_rop(1, 2, 0x1234, 9), 9);
}

#[test]
fn straight_copy_is_clipped_to_both_bitmaps() {
    let mut dst = vec![0u32; 9];
    let src: Vec<u32> = (1..=4).collect();
    let area = BlitArea { dest_x: 2, dest_y: 1, src_x: 0, src_y: 0, width: 2, height: 2 };
    blit_pixels(&mut dst, 3, 3, &src, 2, 2, area, &None, SRCCOPY, &take_source);
    assert_eq!(dst, vec![0, 0, 0, 0, 0, 1, 0, 0, 3]);
}

#[test]
fn copy_respects_clip_rects_and_rops() {
    let mut dst = vec![0x0F0F_0F0Fu32; 4];
    let src = vec![0x00FF_00FFu32; 4];
    let area = BlitArea { dest_x: 0, dest_y: 0, src_x: 0, src_y: 0, width: 2, height: 2 };
    let clip = Some(vec![(1, 0, 2, 2)]);
    blit_pixels(&mut dst, 2, 2, &src, 2, 2, area, &clip, SRCAND, &take_source);
    assert_eq!(dst, vec![0x0F0F_0F0F, 0x0F0F_000F, 0x0F0F_0F0F, 0x0F0F_000F]);
}

#[test]
fn stretch_doubles_and_mirrors() {
    let src = vec![1u32, 2];
    let mut dst = vec![0u32; 4];
    let area = StretchArea { dest_x: 0, dest_y: 0, dest_width: 4, dest_height: 1, src_x: 0, src_y: 0, src_width: 2, src_height: 1 };
    stretch_pixels(&mut dst, 4, 1, &src, 2, 1, area, &None, SRCCOPY, &take_source);
    assert_eq!(dst, vec![1, 1, 2, 2]);
    let mut mirrored = vec![0u32; 4];
    let flip = StretchArea { dest_x: 0, dest_y: 0, dest_width: -4, dest_height: 1, src_x: 0, src_y: 0, src_width: 2, src_height: 1 };
    stretch_pixels(&mut mirrored, 4, 1, &src, 2, 1, flip, &None, SRCCOPY, &take_source);
    assert_eq!(mirrored, vec![2, 2, 1, 1]);
}

#[test]
fn stretch_clamps_source_coordinates() {
    let src = vec![5u32, 6];
    let mut dst = vec![0u32; 3];
    let area = StretchArea { dest_x: 0, dest_y: 0, dest_width: 3, dest_height: 1, src_x: -3, src_y: 0, src_width: 9, src_height: 1 };
    stretch_pixels(&mut dst, 3, 1, &src, 2, 1, area, &None, SRCCOPY, &take_source);
    // source x = -3, 0, 3 clamped to 0, 0, 1
    assert_eq!(dst, vec![5, 5, 6]);
}

#[test]
fn pat_blt_colors() {
    assert_eq!(pat_blt_color(PATCOPY, Some(0xFF12_3456)), Some(0xFF12_3456));
    assert_eq!(pat_blt_color(PATCOPY, None), Some(0xFFFF_FFFF));
    assert_eq!(pat_blt_color(BLACKNESS, Some(1)), Some(0xFF00_0000));
    assert_eq!(pat_blt_color(WHITENESS, None), Some(0xFFFF_FFFF));
    assert_eq!(pat_blt_color(0x00CC_0020, Some(1)), None);
}
