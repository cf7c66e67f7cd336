use coin612::display::{
    compose_display_frame, draw_disconnected, draw_overlays, draw_syncing, draw_video,
    extremes_text, info_text, BAR_W, FULL_W,
};
use coin612::frame::{HEIGHT, PIXELS, WIDTH};
use coin612::osd::{Font, Overlay, BLACK, BLUE, GRAY, GREEN, RED};
use coin612::palette::{all, grayscale, Lut};
use coin612::render::{compose_lut, compute_stats};
use coin612::viewer::{Key, Viewer};

/// A font in which every glyph is a full block but for its right column and bottom row.
fn blocks() -> Font {
    let mut f = [[0u8; 8]; 95];
    for (g, glyph) in f.iter_mut().enumerate() {
        for row in glyph.iter_mut().take(7) {
            *row = if g == 0 { 0 } else { 0x7F };
        }
    }
    f
}

fn at(px: &[u8], pitch: usize, x: usize, y: usize) -> u32 {
    let o = y * pitch + x * 4;
    u32::from_le_bytes([px[o], px[o + 1], px[o + 2], px[o + 3]])
}

fn reference_text(w: usize, h: usize, x: i32, y: i32, s: &str, color: u32, scale: i32) -> Vec<u8> {
    let font = blocks();
    let mut px = vec![0u8; w * h * 4];
    let mut put = |x: i32, y: i32, c: u32| {
        if x >= 0 && y >= 0 && x < w as i32 && y < h as i32 {
            let o = (y as usize * w + x as usize) * 4;
            px[o..o + 4].copy_from_slice(&c.to_le_bytes());
        }
    };
    for pass in 0..2 {
        for (n, ch) in s.chars().enumerate() {
            let code = ch as usize;
            if !(32..127).contains(&code) {
                continue;
            }
            for (gy, bits) in font[code - 32].iter().enumerate() {
                for gx in 0..8 {
                    if bits & (1 << gx) == 0 {
                        continue;
                    }
                    for dy in 0..scale {
                        for dx in 0..scale {
                            let u = x + (n as i32 * 8 + gx) * scale + dx;
                            let v = y + gy as i32 * scale + dy;
                            if pass == 0 {
                                put(u + 1, v + 1, BLACK);
                            } else {
                                put(u, v, color);
                            }
                        }
                    }
                }
            }
        }
    }
    px
}

#[test]
fn text_has_a_shadow() {
    let mut px = vec![0u8; 40 * 12 * 4];
    let mut ov = Overlay { px: &mut px, pitch: 160, w: 40, h: 12 };
    ov.text(&blocks(), 3, 2, "A b", GREEN);
    assert_eq!(px, reference_text(40, 12, 3, 2, "A b", GREEN, 1));
    assert_eq!(at(&px, 160, 3, 2), GREEN);
    assert_eq!(at(&px, 160, 10, 9), BLACK);
    assert_eq!(at(&px, 160, 11, 2), 0);
}

#[test]
fn text_is_clipped() {
    for (x, y) in [(-5, -3), (35, 8), (-100, 0), (0, 100)] {
        let mut px = vec![0u8; 40 * 12 * 4];
        let mut ov = Overlay { px: &mut px, pitch: 160, w: 40, h: 12 };
        ov.text(&blocks(), x, y, "xyz", RED);
        assert_eq!(px, reference_text(40, 12, x, y, "xyz", RED, 1));
    }
}

#[test]
fn scaled_text() {
    for scale in [1, 2, 3] {
        let mut px = vec![0u8; 64 * 32 * 4];
        let mut ov = Overlay { px: &mut px, pitch: 256, w: 64, h: 32 };
        ov.text_scaled(&blocks(), 2, 3, "q\u{e9}r", GRAY, scale);
        assert_eq!(px, reference_text(64, 32, 2, 3, "q\u{e9}r", GRAY, scale), "scale {scale}");
    }
    let mut px = vec![0u8; 64 * 32 * 4];
    let mut ov = Overlay { px: &mut px, pitch: 256, w: 64, h: 32 };
    ov.text_scaled(&blocks(), 2, 3, "qr", GRAY, 0);
    assert!(px.iter().all(|&b| b == 0));
}

#[test]
fn scale_one_is_plain_text() {
    let (mut a, mut b) = (vec![5u8; 40 * 12 * 4], vec![5u8; 40 * 12 * 4]);
    Overlay { px: &mut a, pitch: 160, w: 40, h: 12 }.text(&blocks(), 1, 1, "Zz!", GREEN);
    Overlay { px: &mut b, pitch: 160, w: 40, h: 12 }.text_scaled(&blocks(), 1, 1, "Zz!", GREEN, 1);
    assert_eq!(a, b);
}

#[test]
fn cross_has_two_arms() {
    let mut px = vec![0u8; 21 * 21 * 4];
    Overlay { px: &mut px, pitch: 84, w: 21, h: 21 }.cross(10, 4, 15, RED);
    for y in 0..21i32 {
        for x in 0..21i32 {
            let on = (y == 4 && (x - 10).abs() <= 7) || (x == 10 && (y - 4).abs() <= 7);
            assert_eq!(at(&px, 84, x as usize, y as usize), if on { RED } else { 0 });
        }
    }
}

#[test]
fn captions() {
    assert_eq!(info_text("30", "UYVY", "White Hot", false), "30fps UYVY White Hot");
    assert_eq!(info_text("9", "Y16", "Jet", true), "9fps Y16 Jet HEQ");
    let s = compute_stats(&[5, 9, 2, 9, 200, 7], 3);
    assert_eq!(extremes_text(&s), "H:200(1,1) C:2(2,0)");
}

fn scene() -> (Vec<u8>, Viewer) {
    let plane: Vec<u8> = (0..PIXELS).map(|i| (i / 640 % 200 + i % 50) as u8).collect();
    (plane, Viewer::new(9))
}

fn luts() -> (Lut, Lut, Lut) {
    let table = |c: usize| -> Lut { std::array::from_fn(|i| std::array::from_fn(|k| (i * c + k) as u8)) };
    (table(3), table(5), table(7))
}

#[test]
fn overlays_go_on_in_order() {
    let (jet, inferno, turbo) = luts();
    let palettes = all(&jet, &inferno, &turbo);
    let (plane, viewer) = scene();
    let stats = compute_stats(&plane, WIDTH);
    let font = blocks();
    let draw = |recording: bool| {
        let mut px = vec![0u8; PIXELS * 4];
        let mut ov = Overlay { px: &mut px, pitch: WIDTH * 4, w: WIDTH, h: HEIGHT };
        draw_overlays(&mut ov, &font, &stats, &viewer.state, &palettes, "30", "UYVY", recording);
        px
    };

    let mut want = vec![0u8; PIXELS * 4];
    let mut ov = Overlay { px: &mut want, pitch: WIDTH * 4, w: WIDTH, h: HEIGHT };
    ov.cross(stats.max_loc.0 as i32, stats.max_loc.1 as i32, 15, RED);
    ov.cross(stats.min_loc.0 as i32, stats.min_loc.1 as i32, 15, BLUE);
    ov.text(&font, 4, 6, "30fps UYVY White Hot", GREEN);
    ov.text(&font, 4, 18, &extremes_text(&stats), GREEN);
    let without = {
        let mut px = want.clone();
        let mut ov = Overlay { px: &mut px, pitch: WIDTH * 4, w: WIDTH, h: HEIGHT };
        legend(&mut ov, &font);
        px
    };
    let mut ov = Overlay { px: &mut want, pitch: WIDTH * 4, w: WIDTH, h: HEIGHT };
    ov.text(&font, 600, 6, "REC", RED);
    legend(&mut ov, &font);
    assert_eq!(draw(false), without);
    assert_eq!(draw(true), want);
    assert_eq!(at(&want, WIDTH * 4, 600, 6), RED);
    assert_eq!(at(&without, WIDTH * 4, 600, 6), 0);
}

#[test]
fn recording_adds_its_sign_only() {
    let (jet, inferno, turbo) = luts();
    let palettes = all(&jet, &inferno, &turbo);
    let (plane, viewer) = scene();
    let stats = compute_stats(&plane, WIDTH);
    let font = blocks();
    let (mut a, mut b) = (vec![3u8; PIXELS * 4], vec![3u8; PIXELS * 4]);
    let mut ov = Overlay { px: &mut a, pitch: WIDTH * 4, w: WIDTH, h: HEIGHT };
    draw_overlays(&mut ov, &font, &stats, &viewer.state, &palettes, "30", "UYVY", true);
    let mut ov = Overlay { px: &mut b, pitch: WIDTH * 4, w: WIDTH, h: HEIGHT };
    draw_overlays(&mut ov, &font, &stats, &viewer.state, &palettes, "30", "UYVY", false);
    ov.text(&font, 600, 6, "REC", RED);
    assert_eq!(a, b);
}

fn legend(ov: &mut Overlay, font: &Font) {
    let lines = [
        "Q:Quit C:Palette P:Raw H:HEQ F:Full T:Y16/UYVY +/-:Contrast",
        "S:Screenshot R:Record SPACE:NUC N:ExtNUC G:LowNoise V:VSync 1-9:Palette",
    ];
    ov.text(font, 4, 490, lines[0], GRAY);
    ov.text(font, 4, 501, lines[1], GRAY);
}

#[test]
fn display_frame_has_video_and_bar() {
    let (jet, inferno, turbo) = luts();
    let palettes = all(&jet, &inferno, &turbo);
    let (plane, mut viewer) = scene();
    viewer.on_key(Key::Other(2));
    let gray = grayscale();
    let pal = viewer.state.colors(&palettes, &gray);
    let stats = compute_stats(&plane, WIDTH);
    let lut = compose_lut(&stats, &viewer.state.lut_params(), pal);
    let font = blocks();

    let mut video = vec![0u8; PIXELS * 4];
    draw_video(
        &mut video, WIDTH * 4, &plane, &lut, &font, &stats, &viewer.state, &palettes, "7", "UYVY", true,
    );
    let frame = compose_display_frame(
        &plane, &lut, &font, &stats, &viewer.state, &palettes, pal, "7", "UYVY", true,
    );
    assert_eq!(frame.len(), 660 * 512 * 4);
    assert_eq!(FULL_W, WIDTH + BAR_W);
    for y in 0..HEIGHT {
        let row = &frame[y * FULL_W * 4..(y + 1) * FULL_W * 4];
        assert_eq!(&row[..WIDTH * 4], &video[y * WIDTH * 4..(y + 1) * WIDTH * 4]);
        let [r, g, b] = pal[255 - y * 255 / 511];
        for x in WIDTH..FULL_W {
            assert_eq!(row[x * 4..x * 4 + 4], [b, g, r, 255]);
        }
    }
    // away from the captions and markers the video shows the plane
    let (x, y) = (300, 300);
    assert_eq!(at(&video, WIDTH * 4, x, y), lut[plane[y * WIDTH + x] as usize]);
}

#[test]
fn missing_rows_stay_black() {
    let (jet, inferno, turbo) = luts();
    let palettes = all(&jet, &inferno, &turbo);
    let (plane, viewer) = scene();
    let plane = &plane[..WIDTH * 100 + 7];
    let stats = compute_stats(plane, WIDTH);
    let lut = [0xFF11_2233u32; 256];
    let frame = compose_display_frame(
        plane, &lut, &blocks(), &stats, &viewer.state, &palettes, &palettes[0].lut, "7", "UYVY", false,
    );
    assert_eq!(at(&frame, FULL_W * 4, 500, 99), 0xFF11_2233);
    assert_eq!(at(&frame, FULL_W * 4, 500, 100), 0);
    assert_eq!(at(&frame, FULL_W * 4, 650, 511), 0xFF00_0000);
}

#[test]
fn messages_are_drawn_on_black() {
    let font = blocks();
    let mut px = vec![77u8; PIXELS * 4];
    draw_syncing(&mut px, WIDTH * 4, &font);
    assert_eq!(px, reference_text(WIDTH, HEIGHT, 250, 250, "Syncing...", GREEN, 2));
    draw_disconnected(&mut px, WIDTH * 4, &font);
    assert_eq!(px, reference_text(WIDTH, HEIGHT, 160, 250, "Camera disconnected", RED, 2));
}
