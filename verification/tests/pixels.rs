use tsto_bsv3::ea::rgb::{la88_to_rgba8888, rgba4444_to_rgba8888};

#[test]
fn rgba4444_expands_nibbles_by_replication() {
    // first byte: blue 0 above alpha F; second byte: red F above green 0
    assert_eq!(rgba4444_to_rgba8888(vec![0x0F, 0xF0], false), vec![255, 0, 0, 255]);
    assert_eq!(rgba4444_to_rgba8888(vec![0x12, 0x34], false), vec![0x33, 0x44, 0x11, 0x22]);
}

#[test]
fn rgba4444_is_the_same_on_every_run() {
    let input = vec![0x0F, 0xF0, 0xA5, 0x5A, 0x00, 0xFF];
    let first = rgba4444_to_rgba8888(input.clone(), false);
    let second = rgba4444_to_rgba8888(input, false);
    assert_eq!(first, second);
    assert_eq!(first, vec![255, 0, 0, 255, 0x55, 0xAA, 0xAA, 0x55, 255, 255, 0, 0]);
}

#[test]
fn rgba4444_every_nibble_gives_seventeen_times_itself() {
    for n in 0u8..16 {
        let out = rgba4444_to_rgba8888(vec![(n << 4) | n, (n << 4) | n], false);
        assert_eq!(out, vec![17 * n, 17 * n, 17 * n, 17 * n]);
    }
}

#[test]
fn rgba4444_drops_a_trailing_odd_byte() {
    assert_eq!(rgba4444_to_rgba8888(vec![0x0F, 0xF0, 0x77], false), vec![255, 0, 0, 255]);
    assert_eq!(rgba4444_to_rgba8888(vec![0x77], true), Vec::<u8>::new());
    assert_eq!(rgba4444_to_rgba8888(vec![], false), Vec::<u8>::new());
}

#[test]
fn rgba4444_premultiplied_scales_by_alpha() {
    // alpha 0x8 -> 0x88 = 136; red 0xF -> 255 -> 255 * 136 / 255 = 136
    // green 0x4 -> 0x44 = 68 -> 68 * 136 / 255 = 36; blue 0x2 -> 0x22 = 34 -> 18
    assert_eq!(rgba4444_to_rgba8888(vec![0x28, 0xF4], true), vec![136, 36, 18, 136]);
    assert_eq!(rgba4444_to_rgba8888(vec![0xF0, 0xFF], true), vec![0, 0, 0, 0]);
    assert_eq!(rgba4444_to_rgba8888(vec![0x3F, 0x12], true), vec![0x11, 0x22, 0x33, 255]);
}

#[test]
fn rgba4444_premultiplied_matches_single_precision_arithmetic() {
    for first in 0u16..256 {
        for second in 0u16..256 {
            let out = rgba4444_to_rgba8888(vec![first as u8, second as u8], true);
            let widen = |n: u8| (n << 4) | n;
            let a = widen(first as u8 & 0xF);
            let scale = |c: u8| (c as f32 * (a as f32 / 255.0)) as u8;
            let r = scale(widen(second as u8 >> 4));
            let g = scale(widen(second as u8 & 0xF));
            let b = scale(widen(first as u8 >> 4));
            assert_eq!(out, vec![r, g, b, a]);
        }
    }
}

#[test]
fn la88_broadcasts_luminance() {
    assert_eq!(la88_to_rgba8888(vec![0x80, 0x40], false), vec![0x40, 0x40, 0x40, 0x80]);
    assert_eq!(
        la88_to_rgba8888(vec![0, 255, 255, 0], false),
        vec![255, 255, 255, 0, 0, 0, 0, 255]
    );
}

#[test]
fn la88_premultiplied_flag_changes_nothing() {
    let input = vec![0x80, 0x40, 0x10, 0xF0, 0x00, 0xFF];
    assert_eq!(la88_to_rgba8888(input.clone(), true), la88_to_rgba8888(input, false));
    assert_eq!(la88_to_rgba8888(vec![0x80, 0x40], true), vec![0x40, 0x40, 0x40, 0x80]);
}

#[test]
fn la88_drops_a_trailing_odd_byte() {
    assert_eq!(la88_to_rgba8888(vec![1, 2, 3], false), vec![2, 2, 2, 1]);
    assert_eq!(la88_to_rgba8888(vec![3], false), Vec::<u8>::new());
    assert_eq!(la88_to_rgba8888(vec![], true), Vec::<u8>::new());
}

#[test]
fn output_has_four_bytes_per_texel() {
    let input: Vec<u8> = (0..200u8).collect();
    assert_eq!(rgba4444_to_rgba8888(input.clone(), false).len(), 400);
    assert_eq!(la88_to_rgba8888(input, false).len(), 400);
}
