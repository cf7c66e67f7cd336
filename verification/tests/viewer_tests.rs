use coin612::frame::FramePair;
use coin612::palette::{all, grayscale, Lut};
use coin612::usb::Command;
use coin612::viewer::{Effect, Key, Viewer, ONE, TENTH};

fn contrast(v: &Viewer) -> f32 {
    f32::from_bits(v.state.contrast)
}

#[test]
fn starts_plain() {
    let v = Viewer::new(9);
    assert_eq!(v.state.palette_idx, 0);
    assert!(v.state.use_palette && v.bar_dirty);
    assert!(!v.state.histeq && !v.state.fullscreen && !v.state.show_y16);
    assert!(!v.state.low_noise && !v.state.vsync && !v.want_screenshot);
    assert_eq!(contrast(&v), 1.0);
    assert_eq!((f32::from_bits(ONE), f32::from_bits(TENTH)), (1.0, 0.1));
}

#[test]
fn quit_keys() {
    let mut v = Viewer::new(9);
    assert!(matches!(v.on_key(Key::Escape), Effect::Quit));
    assert!(matches!(v.on_key(Key::Q), Effect::Quit));
}

#[test]
fn palette_cycles() {
    let mut v = Viewer::new(9);
    for i in 1..=9 {
        v.bar_dirty = false;
        assert!(matches!(v.on_key(Key::C), Effect::Nothing));
        assert_eq!(v.state.palette_idx, i % 9);
        assert!(v.bar_dirty);
    }
}

#[test]
fn number_keys_select_palettes() {
    let mut v = Viewer::new(9);
    v.take_bar_dirty();
    for n in [3, 8, 0] {
        v.on_key(Key::Other(n));
        assert_eq!(v.state.palette_idx, n as usize);
        assert!(v.take_bar_dirty());
    }
    for n in [9, -1, i32::MIN, i32::MAX] {
        assert!(matches!(v.on_key(Key::Other(n)), Effect::Nothing));
        assert_eq!(v.state.palette_idx, 0);
        assert!(!v.take_bar_dirty());
    }
}

#[test]
fn switches_go_on_and_off() {
    let mut v = Viewer::new(9);
    v.take_bar_dirty();
    v.on_key(Key::P);
    assert!(!v.state.use_palette && v.take_bar_dirty());
    v.on_key(Key::P);
    assert!(v.state.use_palette && v.take_bar_dirty());
    for on in [true, false] {
        v.on_key(Key::H);
        assert_eq!(v.state.histeq, on);
        v.on_key(Key::T);
        assert_eq!(v.state.show_y16, on);
        assert!(matches!(v.on_key(Key::F), Effect::Fullscreen(x) if x == on));
        assert_eq!(v.state.fullscreen, on);
        assert!(matches!(v.on_key(Key::V), Effect::Vsync(x) if x == on));
        assert_eq!(v.state.vsync, on);
        assert!(
            matches!(v.on_key(Key::G), Effect::Send(Command::LowNoise { on: x }) if x == on)
        );
        assert_eq!(v.state.low_noise, on);
    }
    assert!(!v.bar_dirty);
}

#[test]
fn refused_vsync_is_taken_back() {
    let mut v = Viewer::new(9);
    v.on_key(Key::V);
    v.vsync_refused();
    assert!(!v.state.vsync);
}

#[test]
fn other_effects() {
    let mut v = Viewer::new(9);
    assert!(matches!(v.on_key(Key::R), Effect::Record));
    assert!(matches!(v.on_key(Key::Space), Effect::Send(Command::QuickNuc)));
    assert!(matches!(v.on_key(Key::N), Effect::ExtendedNuc));
}

#[test]
fn screenshot_waits_for_the_next_frame() {
    let mut v = Viewer::new(9);
    assert!(matches!(v.on_key(Key::S), Effect::Nothing));
    v.on_key(Key::C);
    assert!(v.is_new(5));
    assert!(v.take_screenshot());
    assert!(!v.take_screenshot());
}

#[test]
fn contrast_steps_like_hardware_arithmetic() {
    let mut v = Viewer::new(9);
    let mut c = 1.0f32;
    let keys = [Key::Plus, Key::Equals, Key::KpPlus];
    for i in 0..60usize {
        c = (c + 0.1).min(5.0);
        let k = match &keys[i % 3] {
            Key::Plus => Key::Plus,
            Key::Equals => Key::Equals,
            _ => Key::KpPlus,
        };
        assert!(matches!(v.on_key(k), Effect::Nothing));
        assert_eq!(v.state.contrast, c.to_bits());
    }
    assert_eq!(contrast(&v), 5.0);
    for i in 0..70usize {
        c = (c - 0.1).max(0.1);
        let k = match i % 3 {
            0 => Key::Minus,
            1 => Key::Underscore,
            _ => Key::KpMinus,
        };
        assert!(matches!(v.on_key(k), Effect::Nothing));
        assert_eq!(v.state.contrast, c.to_bits());
    }
    assert_eq!(contrast(&v), 0.1);
}

#[test]
fn each_frame_is_shown_once() {
    let mut v = Viewer::new(9);
    assert!(!v.is_new(0));
    assert!(v.is_new(1));
    assert!(!v.is_new(1));
    assert!(v.is_new(2));
}

#[test]
fn settings_choose_what_is_shown() {
    let t: Lut = [[7; 3]; 256];
    let palettes = all(&t, &t, &t);
    let gray = grayscale();
    let mut v = Viewer::new(palettes.len());
    v.on_key(Key::Other(1));
    assert_eq!(v.state.colors(&palettes, &gray), &palettes[1].lut);
    v.on_key(Key::P);
    assert_eq!(v.state.colors(&palettes, &gray), &gray);
    let frame = FramePair { y16: vec![1], uyvy: vec![2], ..FramePair::default() };
    assert_eq!(v.state.source_name(), "UYVY");
    assert_eq!(v.state.plane(&frame), &[2]);
    assert!(!v.state.lut_params().autoscale);
    v.on_key(Key::T);
    v.on_key(Key::H);
    assert_eq!(v.state.source_name(), "Y16");
    assert_eq!(v.state.plane(&frame), &[1]);
    let p = v.state.lut_params();
    assert!(p.autoscale && p.histeq);
    assert_eq!(p.contrast, 1.0f32.to_bits());
}
