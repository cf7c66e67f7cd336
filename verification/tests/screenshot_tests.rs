use coin612::screenshot::{
    encode_png, known_stamp, png_name, prepare, raw_name, screenshots_dir, stamp_at, timestamp,
    to_rgb, video_name, Home,
};

fn decode(file: &[u8]) -> (u32, u32, Vec<u8>) {
    let mut reader = png::Decoder::new(file).read_info().unwrap();
    let mut buf = vec![0; reader.output_buffer_size()];
    let info = reader.next_frame(&mut buf).unwrap();
    assert_eq!(info.color_type, png::ColorType::Rgb);
    assert_eq!(info.bit_depth, png::BitDepth::Eight);
    reader.finish().unwrap();
    (info.width, info.height, buf)
}

#[test]
fn pixels_lose_alpha_and_turn_round() {
    assert_eq!(to_rgb(&[1, 2, 3, 255, 4, 5, 6, 255, 9, 9]), [3, 2, 1, 6, 5, 4]);
    assert!(to_rgb(&[1, 2, 3]).is_empty());
}

#[test]
fn png_reads_back() {
    let argb: Vec<u8> = (0..6 * 5 * 4).map(|i| (i * 13) as u8).collect();
    let Ok(file) = encode_png(&argb, 6, 5) else { panic!("not encoded") };
    assert_eq!(decode(&file), (6, 5, to_rgb(&argb)));
}

#[test]
fn png_needs_a_picture() {
    for (len, w, h) in [(0, 0, 5), (0, 5, 0), (96, 6, 5), (124, 6, 5), (0, 1, 1)] {
        assert!(encode_png(&vec![0; len], w, h).is_err(), "{len} bytes for {w} by {h}");
    }
    // bytes that make no whole pixel are left out
    assert!(encode_png(&[0; 121], 6, 5).is_ok());
    let Err(e) = encode_png(&[], 0, 5) else { panic!("encoded") };
    assert!(matches!(e.cause, png::EncodingError::Format(_)));
    let Err(e) = encode_png(&[], 1, 1) else { panic!("encoded") };
    assert!(matches!(e.cause, png::EncodingError::Parameter(_)));
}

#[test]
fn screenshot_has_two_files() {
    let argb: Vec<u8> = (0..4 * 4 * 4).map(|i| (i * 5) as u8).collect();
    let shot = prepare("20240102_030405", &argb, 4, 4, vec![1, 2, 3]);
    assert_eq!(shot.png_name, "coin612_20240102_030405.png");
    assert_eq!(shot.raw_name, "coin612_20240102_030405_y16.raw");
    assert_eq!(shot.raw, [1, 2, 3]);
    let Ok(file) = shot.png else { panic!("not encoded") };
    assert_eq!(decode(&file).2, to_rgb(&argb));
}

#[test]
fn file_names() {
    assert_eq!(png_name("x"), "coin612_x.png");
    assert_eq!(raw_name("x"), "coin612_x_y16.raw");
    assert_eq!(video_name("x"), "coin612_x.mp4");
}

#[test]
fn directories() {
    let dir = |h: Home| screenshots_dir(&h);
    assert_eq!(dir(Home::Crate("/src/viewer".to_string())), "/src/viewer/../screenshots");
    assert_eq!(dir(Home::Executable("/opt".to_string())), "/opt/screenshots");
}

#[test]
fn stamps() {
    assert_eq!(stamp_at(0, 0), "19700101_000000");
    assert_eq!(stamp_at(1_546_300_800, 0), "20190101_000000");
    assert_eq!(stamp_at(1_546_300_800, -3600), "20181231_230000");
    assert_eq!(stamp_at(1_546_300_799, 7 * 3600 + 1800), "20190101_072959");
    assert_eq!(stamp_at(951_782_400, 0), "20000229_000000");
}

#[test]
fn impossible_stamps_are_unknown() {
    assert_eq!(stamp_at(i64::MAX, 0), "unknown");
    assert_eq!(stamp_at(0, i32::MAX), "unknown");
    assert_eq!(stamp_at(253_402_300_799, 3600), "unknown");
    assert_eq!(known_stamp(None), "unknown");
    assert_eq!(known_stamp(Some("now".to_string())), "now");
}

#[test]
fn timestamp_of_now() {
    let now = || std::time::SystemTime::UNIX_EPOCH.elapsed().unwrap().as_secs() as i64;
    let before = now();
    let stamp = timestamp(3600);
    let after = now();
    assert!((before..=after).any(|t| stamp_at(t, 3600) == stamp));
}
