use coin612::frame::{HEIGHT, LINE, PAIR, WIDTH};
use coin612::sync::{find_sync, refine_start, uyvy_signature_ok};

/// A stream of frames with `h` line-pairs, the last of which is a telemetry pair whose chroma is
/// not neutral, after `lead` bytes of something else.
fn stream(lead: usize, h: usize, frames: usize, first_row: usize) -> Vec<u8> {
    let mut data: Vec<u8> = (0..lead).map(|i| (i % 97) as u8).collect();
    for n in 0..frames * h {
        let row = (n + first_row) % h;
        for i in 0..LINE {
            data.push(((i / 2 + row) % 113) as u8);
        }
        for i in 0..LINE {
            let x = i / 2;
            data.push(match (i % 2 == 0, row == h - 1) {
                (true, true) => 0x10,
                (true, false) => 0x80,
                (false, true) => 250,
                (false, false) => (row / 8 + x / 64) as u8,
            });
        }
    }
    data
}

/// The alignment computed with hardware arithmetic.
fn reference_sync(data: &[u8]) -> (usize, usize) {
    let mut best = (0usize, 0usize);
    for off in (0..PAIR).step_by(2) {
        let mut score = 0;
        for f in 0..4 {
            let start = off + LINE + f * PAIR * 512;
            if start + LINE > data.len() {
                break;
            }
            score += data[start..start + LINE].iter().step_by(2).filter(|&&b| b == 0x80).count();
        }
        if score > best.0 {
            best = (score, off);
        }
    }
    let aligned = &data[best.1..];
    let n = aligned.len() / PAIR;
    if n < 530 {
        return (best.1, 512);
    }
    let luma = |i: usize, x: usize| aligned[i * PAIR + LINE + 1 + 2 * x];
    let diffs: Vec<f64> = (1..n)
        .map(|i| {
            let sum: u32 = (0..WIDTH).map(|x| luma(i, x).abs_diff(luma(i - 1, x)) as u32).sum();
            sum as f64 / WIDTH as f64
        })
        .collect();
    let (mut ratio, mut height, mut row) = (0.0f64, 512, 0);
    for h in 508..=520usize {
        let mut avg = vec![0.0f64; h];
        let mut cnt = vec![0.0f64; h];
        for (i, d) in diffs.iter().enumerate() {
            avg[i % h] += d;
            cnt[i % h] += 1.0;
        }
        for (a, c) in avg.iter_mut().zip(&cnt) {
            *a /= if *c == 0.0 { 1.0 } else { *c };
        }
        let mut peak = 0;
        for i in 0..h {
            if avg[i] >= avg[peak] {
                peak = i;
            }
        }
        let mean = avg.iter().sum::<f64>() / h as f64;
        let r = if mean > 0.0 { avg[peak] / mean } else { 0.0 };
        if r > ratio {
            ratio = r;
            height = h;
            row = (peak + 1) % h;
        }
    }
    (best.1 + row * PAIR, height)
}

#[test]
fn signature_rejects_noise() {
    let noise: Vec<u8> = (0..PAIR * 2).map(|i| (i * 7 + 13) as u8).collect();
    assert!(!uyvy_signature_ok(&noise));
}

#[test]
fn signature_accepts_synthetic_uyvy() {
    let mut frame = vec![0u8; PAIR * 2];
    for (i, b) in frame[LINE..2 * LINE].iter_mut().enumerate() {
        *b = if i % 2 == 0 { 0x80 } else { 0x30 };
    }
    assert!(uyvy_signature_ok(&frame));
}

#[test]
fn signature_needs_sixty_percent() {
    let mut frame = vec![0u8; PAIR];
    for k in 0..76 {
        frame[LINE + 2 * k] = 0x80;
    }
    assert!(!uyvy_signature_ok(&frame));
    frame[LINE + 2 * 100] = 0x80;
    assert!(uyvy_signature_ok(&frame));
    assert!(!uyvy_signature_ok(&frame[..LINE + 255]));
    assert!(uyvy_signature_ok(&frame[..LINE + 256]));
}

#[test]
fn signature_looks_at_the_first_pair_only() {
    let mut frame = vec![0x80u8; 2 * PAIR];
    for b in &mut frame[PAIR..] {
        *b = 1;
    }
    assert!(uyvy_signature_ok(&frame));
    assert!(uyvy_signature_ok(&frame[..PAIR]));
}

#[test]
fn sync_on_synthetic_stream() {
    let h = 515;
    let data = stream(1000, h, 4, 100);
    let (coarse, height) = find_sync(&data);
    assert_eq!(height, 515);
    assert_eq!((coarse, height), reference_sync(&data));
    assert!(coarse < data.len());
    assert_eq!(coarse % 2, 0);

    let start = refine_start(&data, coarse, height);
    for f in 0..2 {
        for r in 0..HEIGHT {
            let s = start + f * PAIR * h + r * PAIR;
            assert!(uyvy_signature_ok(&data[s..s + PAIR]), "frame {f} row {r}");
        }
    }
    let telemetry = (HEIGHT..h).any(|r| {
        let s = start + r * PAIR;
        s + PAIR <= data.len() && !uyvy_signature_ok(&data[s..s + PAIR])
    });
    assert!(telemetry);
}

#[test]
fn sync_agrees_with_hardware_arithmetic() {
    for (lead, h, first) in [(0, 508, 0), (2, 512, 17), (1278, 517, 300), (2558, 520, 519)] {
        let data = stream(lead, h, 4, first);
        assert_eq!(find_sync(&data), reference_sync(&data), "height {h}");
        assert_eq!(find_sync(&data).1, h);
    }
    // a stream without any structure
    let mut seed = 12345u32;
    let noise: Vec<u8> = (0..PAIR * 1100)
        .map(|_| {
            seed = seed.wrapping_mul(1664525).wrapping_add(1013904223);
            (seed >> 24) as u8
        })
        .collect();
    assert_eq!(find_sync(&noise), reference_sync(&noise));
}

#[test]
fn still_stream_is_aligned() {
    // the picture is plain, and changes by one step from frame to frame
    for (h, first) in [(508, 0), (515, 200), (520, 519)] {
        let data: Vec<u8> = (0..PAIR * 1700)
            .map(|p| {
                let (n, i) = (p / PAIR + first, p % PAIR);
                match (i < LINE, i % 2 == 0) {
                    (true, _) => 3,
                    (_, true) => 0x80,
                    _ => 10 + (n / h % 2) as u8,
                }
            })
            .collect();
        let start = (h - first) % h;
        assert_eq!(find_sync(&data), (start * PAIR, h));
    }
}

#[test]
fn clean_stream_is_aligned_from_two_changes_on() {
    for (off, h, v, n) in [
        (0usize, 515usize, 3usize, 530usize),
        (2558, 508, 21, 530),
        (1280, 520, 9, 530),
        (640, 512, 0, 1025),
        (1278, 520, 519, 1040),
        (100, 517, 516, 4000),
    ] {
        let mut data: Vec<u8> = (0..off).map(|i| (i % 100) as u8).collect();
        let mut y = 200u8;
        for p in 0..n {
            if p > 0 && p % h == v {
                y = if y == 200 { 7 } else { 200 };
            }
            data.extend((0..LINE).map(|i| ((i * 3 + p) % 128) as u8));
            for _ in 0..WIDTH {
                data.extend([0x80, y]);
            }
        }
        assert_eq!(find_sync(&data), (off + v * PAIR, h));
        assert_eq!(find_sync(&data), reference_sync(&data));
    }
}

#[test]
fn refining_twice_changes_nothing() {
    for first in [0, 1, 300, 500, 513, 514] {
        for frames in [2, 3, 4] {
            let data = stream(10, 515, frames, first);
            let start = refine_start(&data, 10, 515);
            assert_eq!(refine_start(&data, start, 515), start, "from row {first}");
        }
    }
}

#[test]
fn sync_needs_enough_line_pairs() {
    assert_eq!(find_sync(&[]), (0, 512));
    assert_eq!(find_sync(&[0x80; 100]), (0, 512));
    let data = stream(0, 515, 1, 0);
    assert_eq!(find_sync(&data), (0, 512));
    // a still picture has no boundary
    let still = vec![0x80u8; PAIR * 600];
    assert_eq!(find_sync(&still), (0, 512));
}

#[test]
fn refinement_skips_unclean_rows() {
    // the telemetry pair comes first
    let data = stream(0, 515, 3, 514);
    assert!(!uyvy_signature_ok(&data[..PAIR]));
    assert_eq!(refine_start(&data, 0, 515), PAIR);
    // it lies in the active rows
    let data = stream(0, 515, 3, 500);
    assert_eq!(refine_start(&data, 0, 515), 15 * PAIR);
    // it lies in the tail already
    let data = stream(0, 515, 3, 0);
    assert_eq!(refine_start(&data, 0, 515), 0);
}

#[test]
fn refinement_keeps_the_start_where_it_cannot_help() {
    let data = stream(0, 515, 3, 514);
    // fewer than two frames
    assert_eq!(refine_start(&data[..PAIR * 515 * 2 - 1], 0, 515), 0);
    assert_eq!(refine_start(&data, data.len() + 7, 515), data.len() + 7);
    // no clean window
    let dirty = vec![0u8; PAIR * 515 * 2];
    assert_eq!(refine_start(&dirty, 0, 515), 0);
}
