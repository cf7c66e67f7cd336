use coin612::text::{append_decimal, append_hundredths};
use coin612::timing::{FpsWindow, Latencies};
use std::time::Duration;

fn window(times: &[u64]) -> FpsWindow {
    let mut w = FpsWindow::new();
    for &t in times {
        w.push(t);
    }
    w
}

#[test]
fn decimals() {
    for n in [0, 7, 10, 99, 100, 12345, u64::MAX] {
        let mut s = String::from("n=");
        append_decimal(&mut s, n);
        assert_eq!(s, format!("n={n}"));
    }
    for (n, t) in [(0, "0.00"), (5, "0.05"), (100, "1.00"), (123456, "1234.56")] {
        let mut s = String::new();
        append_hundredths(&mut s, n);
        assert_eq!(s, t);
    }
}

#[test]
fn rate_agrees_with_hardware_arithmetic() {
    let mut seed = 99u64;
    for n in 2..=30usize {
        for gap in [1u64, 1_000, 7_654_321, 33_333_333, 43_478_261, 999_999_999, 12_345_678_901] {
            let mut times = vec![5u64];
            for _ in 1..n {
                seed = seed.wrapping_mul(6364136223846793005).wrapping_add(1442695040888963407);
                times.push(times.last().unwrap() + gap + (seed >> 40) % (gap / 10 + 1));
            }
            let d = Duration::from_nanos(times[n - 1] - times[0]).as_secs_f64();
            let fps = (n - 1) as f64 / d;
            let w = window(&times);
            assert_eq!(w.rate_text(), format!("{fps:.0}"), "{n} frames in {d} s");
            assert_eq!(w.recording_rate(), (fps.round() as u32).clamp(1, 120));
        }
    }
}

#[test]
fn ties_are_shown_even_and_recorded_up() {
    // 5 frames in 2 s
    let w = window(&[0, 1, 2, 3, 4, 2_000_000_000]);
    assert_eq!(w.rate_text(), format!("{:.0}", 2.5f64));
    assert_eq!(w.rate_text(), "2");
    assert_eq!(w.recording_rate(), 3);
    // 3 frames in 2 s
    let w = window(&[0, 1, 2, 2_000_000_000]);
    assert_eq!(w.rate_text(), "2");
    assert_eq!(w.recording_rate(), 2);
}

#[test]
fn rate_without_enough_frames() {
    assert_eq!(window(&[]).rate_text(), "0");
    assert_eq!(window(&[]).recording_rate(), 30);
    assert_eq!(window(&[7]).rate_text(), "0");
    assert_eq!(window(&[7]).recording_rate(), 30);
    assert_eq!(window(&[7, 7]).rate_text(), "inf");
    assert_eq!(window(&[7, 7]).recording_rate(), 30);
    // a slow stream is recorded with at least one frame per second
    assert_eq!(window(&[0, 9_000_000_000]).recording_rate(), 1);
    assert_eq!(window(&[0, 1_000_000]).recording_rate(), 120);
}

#[test]
fn window_forgets_old_frames() {
    let times: Vec<u64> = (0..100).map(|i| if i < 70 { i } else { i * 40_000_000 }).collect();
    assert_eq!(window(&times).rate_text(), window(&times[70..]).rate_text());
    assert_eq!(window(&times).rate_text(), "25");
}

#[test]
fn latency_report_agrees_with_hardware_arithmetic() {
    let samples = [4_123_456u64, 3_999_999, 5_000_001, 125_000, 2_375_000, 1];
    let mut l = Latencies::new();
    for &ns in &samples {
        assert!(l.push(ns));
        assert!(l.due(1_000_000_001));
        assert!(!l.due(1_000_000_000));
    }
    let n = samples.len() as f64;
    let sum: Duration = samples.iter().map(|&ns| Duration::from_nanos(ns)).sum();
    let avg = sum.as_secs_f64() * 1000.0 / n;
    let max = Duration::from_nanos(5_000_001).as_secs_f64() * 1000.0;
    assert_eq!(
        l.line(),
        format!("latency read->present: avg {avg:.2} ms, max {max:.2} ms, n={n}")
    );
    // exact ties
    for ns in [125_000u64, 375_000, 1_625_000] {
        let mut l = Latencies::new();
        l.push(ns);
        let ms = Duration::from_nanos(ns).as_secs_f64() * 1000.0;
        assert_eq!(l.line(), format!("latency read->present: avg {ms:.2} ms, max {ms:.2} ms, n=1"));
    }
    assert!(!Latencies::new().due(5_000_000_000));
}

#[test]
fn latencies_stop_before_they_overflow() {
    let mut l = Latencies::new();
    assert!(l.push(u64::MAX - 1));
    assert!(!l.push(2));
    assert!(l.push(1));
}
