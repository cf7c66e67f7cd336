use coin612::palette::Lut;
use coin612::render::{
    blit, compose_lut, compute_stats, fill_color_bar, fill_color_bar_at, LutParams, Stats,
};

fn palette() -> Lut {
    std::array::from_fn(|i| [i as u8, 255 - i as u8, (i * 7) as u8])
}

fn color(rgb: [u8; 3]) -> u32 {
    0xFF00_0000 | ((rgb[0] as u32) << 16) | ((rgb[1] as u32) << 8) | rgb[2] as u32
}

/// The display levels computed with hardware arithmetic.
fn reference_levels(stats: &Stats, autoscale: bool, contrast: f32, histeq: bool) -> [u8; 256] {
    let mut map = [0u8; 256];
    let (mn, mx) = (stats.min as f32, stats.max as f32);
    for (i, m) in map.iter_mut().enumerate() {
        let mut v = i as f32;
        if autoscale && mx > mn {
            v = (v - mn) * 255.0 / (mx - mn);
        }
        v *= contrast;
        *m = v.clamp(0.0, 255.0) as u8;
    }
    if histeq {
        let mut cdf = [0u64; 256];
        for (i, &c) in stats.hist.iter().enumerate() {
            for level in cdf.iter_mut().skip(map[i] as usize) {
                *level += c as u64;
            }
        }
        let low = cdf.iter().copied().find(|&c| c > 0).unwrap_or(0);
        let denom = cdf[255] - low;
        if denom > 0 {
            for m in map.iter_mut() {
                let above = cdf[*m as usize].saturating_sub(low);
                *m = ((above as f64 / denom as f64) * 255.0).round() as u8;
            }
        }
    }
    map
}

fn noise(n: usize, seed: u32, lo: u32, hi: u32) -> Vec<u8> {
    let mut s = seed;
    (0..n)
        .map(|_| {
            s = s.wrapping_mul(1664525).wrapping_add(1013904223);
            (lo + (s >> 16) % (hi - lo + 1)) as u8
        })
        .collect()
}

#[test]
fn stats_find_first_extremes() {
    let plane = [5, 9, 2, 9, 2, 7];
    let s = compute_stats(&plane, 3);
    assert_eq!((s.min, s.max), (2, 9));
    assert_eq!(s.min_loc, (2, 0));
    assert_eq!(s.max_loc, (1, 0));
    assert_eq!(s.hist[2], 2);
    assert_eq!(s.hist[9], 2);
    assert_eq!(s.hist[5], 1);
    assert_eq!(s.hist.iter().sum::<u32>(), 6);
}

#[test]
fn stats_of_extreme_planes() {
    let black = compute_stats(&[0; 4], 2);
    assert_eq!((black.min, black.max, black.min_loc, black.max_loc), (0, 0, (0, 0), (0, 0)));
    let white = compute_stats(&[255; 4], 2);
    assert_eq!((white.min, white.max, white.min_loc, white.max_loc), (255, 255, (0, 0), (0, 0)));
    let empty = compute_stats(&[], 2);
    assert_eq!((empty.min, empty.max), (255, 0));
    let last = compute_stats(&[3, 3, 3, 3, 3, 1], 2);
    assert_eq!(last.min_loc, (1, 2));
}

#[test]
fn plain_settings_show_the_palette() {
    let plane = noise(1000, 1, 0, 255);
    let params = LutParams { autoscale: false, contrast: 1.0f32.to_bits(), histeq: false };
    let lut = compose_lut(&compute_stats(&plane, 10), &params, &palette());
    for i in 0..256 {
        assert_eq!(lut[i], color(palette()[i]));
    }
}

#[test]
fn stretching_spans_the_scale() {
    let plane = noise(1000, 2, 40, 90);
    let s = compute_stats(&plane, 10);
    let params = LutParams { autoscale: true, contrast: 1.0f32.to_bits(), histeq: false };
    let lut = compose_lut(&s, &params, &palette());
    assert_eq!(lut[s.min as usize], color(palette()[0]));
    assert_eq!(lut[s.max as usize], color(palette()[255]));
}

#[test]
fn equalization_spans_the_scale() {
    let plane = noise(1000, 3, 40, 90);
    let s = compute_stats(&plane, 10);
    let params = LutParams { autoscale: false, contrast: 1.0f32.to_bits(), histeq: true };
    let lut = compose_lut(&s, &params, &palette());
    assert_eq!(lut[s.min as usize], color(palette()[0]));
    assert_eq!(lut[s.max as usize], color(palette()[255]));
}

/// A palette whose colors tell their level.
fn numbered() -> Lut {
    std::array::from_fn(|i| [0, 0, i as u8])
}

fn levels(s: &Stats, autoscale: bool, contrast: f32, histeq: bool) -> Vec<u8> {
    let params = LutParams { autoscale, contrast: contrast.to_bits(), histeq };
    compose_lut(s, &params, &numbered()).iter().map(|c| *c as u8).collect()
}

#[test]
fn stretching_cuts_what_lies_outside() {
    let s = compute_stats(&noise(1000, 2, 40, 90), 10);
    for contrast in [1.0f32, 1.7, 5.0] {
        let l = levels(&s, true, contrast, false);
        assert!(l[..=s.min as usize].iter().all(|&v| v == 0));
        assert!(l[s.max as usize..].iter().all(|&v| v == 255));
    }
    assert!(levels(&s, true, 0.1, false)[..=s.min as usize].iter().all(|&v| v == 0));
}

#[test]
fn levels_keep_their_order() {
    for plane in [noise(3000, 4, 0, 255), noise(3000, 5, 90, 130)] {
        let s = compute_stats(&plane, 10);
        for contrast in [0.0f32, 0.1, 0.3, 1.0, 3.3, 5.0, 1e30] {
            for autoscale in [false, true] {
                for histeq in [false, true] {
                    let l = levels(&s, autoscale, contrast, histeq);
                    assert!(l.windows(2).all(|w| w[0] <= w[1]));
                }
            }
        }
    }
}

#[test]
fn equalized_levels_are_exact_shares() {
    // 510 pixels above the lowest level: each odd share is a tie
    for odd in [1u64, 3, 127, 129, 253, 255, 257, 383, 507, 509] {
        for scale in [1u64, 3, 1000] {
            let mut hist = [0u32; 256];
            hist[10] = 5;
            hist[20] = (odd * scale) as u32;
            hist[30] = ((510 - odd) * scale) as u32;
            let s = Stats { min: 10, max: 30, min_loc: (0, 0), max_loc: (0, 0), hist };
            let l = levels(&s, false, 1.0, true);
            assert_eq!(l[20] as u64, (510 * odd + 510) / 1020, "share {odd} / 510");
            assert_eq!((l[10], l[30]), (0, 255));
        }
    }
    let s = compute_stats(&noise(4321, 6, 3, 250), 10);
    let l = levels(&s, false, 1.0, true);
    let low = s.hist[s.min as usize] as u64;
    let n = 4321 - low;
    let mut c = 0u64;
    for i in 0..256 {
        c += s.hist[i] as u64;
        assert_eq!(l[i] as u64, (510 * c.saturating_sub(low) + n) / (2 * n));
    }
}

#[test]
fn levels_agree_with_hardware_arithmetic() {
    let planes = [
        noise(5000, 7, 0, 255),
        noise(5000, 8, 100, 140),
        vec![77; 50],
        noise(20, 9, 3, 5),
        vec![],
    ];
    let contrasts = [
        1.0f32, 0.1, 1.1, 0.7, 4.999, 5.0, -1.0, 0.0, 1e-40, 3.4e38, f32::INFINITY,
        f32::NEG_INFINITY, f32::NAN,
    ];
    for plane in &planes {
        let s = compute_stats(plane, 10);
        for &c in &contrasts {
            for autoscale in [false, true] {
                for histeq in [false, true] {
                    let params = LutParams { autoscale, contrast: c.to_bits(), histeq };
                    let lut = compose_lut(&s, &params, &palette());
                    let levels = reference_levels(&s, autoscale, c, histeq);
                    for i in 0..256 {
                        assert_eq!(
                            lut[i],
                            color(palette()[levels[i] as usize]),
                            "contrast {c} autoscale {autoscale} histeq {histeq} level {i}"
                        );
                    }
                }
            }
        }
    }
}

#[test]
fn blit_writes_whole_rows_only() {
    let mut lut = [0u32; 256];
    for (i, l) in lut.iter_mut().enumerate() {
        *l = 0x0102_0300 + i as u32;
    }
    let mut px = vec![9u8; 40];
    blit(&[1, 2, 3, 4, 5], &lut, &mut px, 12, 2);
    assert_eq!(&px[..8], &[1, 3, 2, 1, 2, 3, 2, 1]);
    assert_eq!(&px[8..12], &[9; 4]);
    assert_eq!(&px[12..20], &[3, 3, 2, 1, 4, 3, 2, 1]);
    assert_eq!(&px[20..], &[9; 20]);
}

#[test]
fn color_bar_runs_from_top_to_bottom() {
    let pal = palette();
    let mut px = vec![0u8; 2 * 4 * 256];
    fill_color_bar(&pal, &mut px, 8, 2, 256);
    for y in 0..256usize {
        for x in 0..2 {
            let o = y * 8 + x * 4;
            assert_eq!(px[o..o + 4], color(pal[255 - y]).to_le_bytes());
        }
    }
}

#[test]
fn color_bar_beside_a_picture() {
    let pal = palette();
    let mut px = vec![1u8; 3 * 20];
    fill_color_bar_at(&pal, &mut px, 20, 2, 3, 3);
    for (y, level) in [(0usize, 255usize), (1, 128), (2, 0)] {
        assert_eq!(&px[y * 20..y * 20 + 8], &[1; 8]);
        for x in 2..5 {
            let o = y * 20 + x * 4;
            assert_eq!(px[o..o + 4], color(pal[level]).to_le_bytes());
        }
    }
}
