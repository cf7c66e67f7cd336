use coin612::frame::{deinterleave, FramePair, HEIGHT, LINE, PAIR, PIXELS, WIDTH};

#[test]
fn planes_take_even_and_odd_bytes() {
    let raw: Vec<u8> = (0..HEIGHT * PAIR + 100).map(|i| (i * 31 + i / 2560) as u8).collect();
    let mut out = FramePair::default();
    deinterleave(&raw, &mut out);
    for row in [0, 1, 255, 511] {
        for x in [0, 1, 2, 319, 639] {
            assert_eq!(out.y16[row * WIDTH + x], raw[row * PAIR + 2 * x]);
            assert_eq!(out.uyvy[row * WIDTH + x], raw[row * PAIR + LINE + 2 * x + 1]);
        }
    }
    assert_eq!(out.seq, 0);
    assert!(out.t_read_done.is_none());

    // bytes beyond the active line-pairs have no influence
    let mut other = FramePair::default();
    deinterleave(&raw[..HEIGHT * PAIR], &mut other);
    assert_eq!(out.y16, other.y16);
    assert_eq!(out.uyvy, other.uyvy);
}

#[test]
fn default_frame_is_black() {
    let f = FramePair::default();
    assert_eq!(f.y16, vec![0u8; PIXELS]);
    assert_eq!(f.uyvy, vec![0u8; PIXELS]);
    assert_eq!(PIXELS, 327680);
}
