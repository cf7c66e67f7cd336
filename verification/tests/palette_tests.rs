use coin612::double::{integer, ratio};
use coin612::palette::{all, grayscale, hsv_to_rgb, Lut};

fn tables() -> (Lut, Lut, Lut) {
    let table = |c: usize| -> Lut { std::array::from_fn(|i| std::array::from_fn(|k| (i * c + k) as u8)) };
    (table(3), table(5), table(7))
}

#[test]
fn palettes_in_key_order() {
    let (jet, inferno, turbo) = tables();
    let names: Vec<&str> = all(&jet, &inferno, &turbo).iter().map(|p| p.name).collect();
    assert_eq!(
        names,
        [
            "White Hot", "Black Hot", "Iron Bow", "Hot Iron", "Rainbow", "Arctic", "Jet", "Inferno",
            "Turbo"
        ]
    );
}

#[test]
fn tabulated_palettes_are_taken_over() {
    let (jet, inferno, turbo) = tables();
    let p = all(&jet, &inferno, &turbo);
    assert_eq!(p[6].lut, jet);
    assert_eq!(p[7].lut, inferno);
    assert_eq!(p[8].lut, turbo);
}

#[test]
fn gray_palettes() {
    let (jet, inferno, turbo) = tables();
    let p = all(&jet, &inferno, &turbo);
    for i in 0..256usize {
        assert_eq!(p[0].lut[i], [i as u8; 3]);
        assert_eq!(p[1].lut[i], [255 - i as u8; 3]);
        assert_eq!(p[1].lut[i], p[0].lut[255 - i]);
    }
    assert_eq!(grayscale(), p[0].lut);
}

#[test]
fn iron_bow_agrees_with_hardware_arithmetic() {
    let (jet, inferno, turbo) = tables();
    let lut = all(&jet, &inferno, &turbo)[2].lut;
    for i in 0..256 {
        let t = i as f64 / 255.0;
        let (r, g, b) = if t < 0.25 {
            (t / 0.25 * 128.0, 0.0, t / 0.25 * 80.0)
        } else if t < 0.5 {
            let u = (t - 0.25) / 0.25;
            (128.0 + u * 127.0, u * 128.0, 80.0 - u * 80.0)
        } else if t < 0.75 {
            (255.0, 128.0 + (t - 0.5) / 0.25 * 127.0, 0.0)
        } else {
            (255.0, 255.0, (t - 0.75) / 0.25 * 255.0)
        };
        assert_eq!(lut[i], [r as u8, g as u8, b as u8], "level {i}");
    }
    assert_eq!(lut[0], [0, 0, 0]);
    assert_eq!(lut[255], [255, 255, 255]);
}

#[test]
fn hot_iron_agrees_with_hardware_arithmetic() {
    let (jet, inferno, turbo) = tables();
    let lut = all(&jet, &inferno, &turbo)[3].lut;
    for i in 0..256 {
        let t = i as f64 / 255.0;
        let r = (t * 2.0 * 255.0).min(255.0);
        let g = ((t - 0.4) * 2.5 * 255.0).clamp(0.0, 255.0);
        let b = ((t - 0.7) * 3.3 * 255.0).clamp(0.0, 255.0);
        assert_eq!(lut[i], [r as u8, g as u8, b as u8], "level {i}");
    }
    assert_eq!(lut[0], [0, 0, 0]);
}

#[test]
fn arctic_agrees_with_hardware_arithmetic() {
    let (jet, inferno, turbo) = tables();
    let lut = all(&jet, &inferno, &turbo)[5].lut;
    for i in 0..256 {
        let t = i as f64 / 255.0;
        let r = ((t - 0.5) * 2.0 * 255.0).clamp(0.0, 255.0);
        let g = (t * 1.5 * 255.0).clamp(0.0, 255.0);
        let b = ((1.0 - t * 0.5) * 255.0).min(255.0);
        assert_eq!(lut[i], [r as u8, g as u8, b as u8], "level {i}");
    }
    assert_eq!(lut[0], [0, 0, 255]);
}

fn reference_hsv(h_deg: f64, s: f64, v: f64) -> [u8; 3] {
    let h = (h_deg % 360.0) / 60.0;
    let c = v * s;
    let x = c * (1.0 - (h % 2.0 - 1.0).abs());
    let (r, g, b) = match h as u32 {
        0 => (c, x, 0.0),
        1 => (x, c, 0.0),
        2 => (0.0, c, x),
        3 => (0.0, x, c),
        4 => (x, 0.0, c),
        _ => (c, 0.0, x),
    };
    let m = v - c;
    [r, g, b].map(|p: f64| ((p + m) * 255.0).round() as u8)
}

#[test]
fn rainbow_agrees_with_hardware_arithmetic() {
    let (jet, inferno, turbo) = tables();
    let lut = all(&jet, &inferno, &turbo)[4].lut;
    for i in 0..256usize {
        assert_eq!(lut[i], reference_hsv((i * 180 / 255) as f64 * 2.0, 1.0, 1.0), "level {i}");
    }
    assert_eq!(lut[0], [255, 0, 0]);
    assert_eq!(lut[255], [255, 0, 0]);
}

#[test]
fn hsv_agrees_with_hardware_arithmetic() {
    for h in (0..1000u32).step_by(37) {
        for (s, v) in [(0, 10), (3, 7), (10, 10), (9, 1), (7, 3)] {
            let got = hsv_to_rgb(&integer(h), &ratio(s, 10), &ratio(v, 10));
            assert_eq!(got, reference_hsv(h as f64, s as f64 / 10.0, v as f64 / 10.0), "{h} {s} {v}");
        }
    }
    assert_eq!(hsv_to_rgb(&integer(120), &integer(1), &integer(1)), [0, 255, 0]);
    assert_eq!(hsv_to_rgb(&integer(240), &integer(1), &integer(1)), [0, 0, 255]);
}
