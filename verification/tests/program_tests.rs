use coin612::events::{Disconnected, NewFrame};
use coin612::options::{parse_args, OptionsError};
use coin612::recorder::{encoder_args, verdict, DropLog, Ended, Handed, QUEUE};

fn args(a: &[&str]) -> Vec<String> {
    a.iter().map(|s| s.to_string()).collect()
}

#[test]
fn options_in_any_order() {
    let Ok(o) = parse_args(&args(&[])) else { panic!() };
    assert!(o.capture_raw.is_none() && !o.latency_debug);
    let Ok(o) = parse_args(&args(&["--latency-debug", "--capture-raw", "a.raw"])) else { panic!() };
    assert_eq!(o.capture_raw.as_deref(), Some("a.raw"));
    assert!(o.latency_debug);
    // the last path counts, and a path may look like an option
    let Ok(o) = parse_args(&args(&["--capture-raw", "a", "--capture-raw", "--latency-debug"])) else {
        panic!()
    };
    assert_eq!(o.capture_raw.as_deref(), Some("--latency-debug"));
    assert!(!o.latency_debug);
}

#[test]
fn refused_options() {
    let Err(e) = parse_args(&args(&["--latency-debug", "--capture-raw"])) else { panic!() };
    assert!(matches!(e, OptionsError::MissingPath));
    assert_eq!(e.message(), "--capture-raw needs a path");
    let Err(e) = parse_args(&args(&["--fast", "--capture-raw"])) else { panic!() };
    assert!(matches!(&e, OptionsError::Unknown(a) if a == "--fast"));
    assert_eq!(e.message(), "Unknown argument: --fast");
}

#[test]
fn encoder_command_line() {
    assert_eq!(
        encoder_args("out dir/x.mp4", 660, 512, 30),
        [
            "-loglevel", "error", "-y", "-f", "rawvideo", "-pixel_format", "bgra", "-video_size",
            "660x512", "-framerate", "30", "-i", "-", "-c:v", "libx264", "-preset", "veryfast", "-crf",
            "23", "-pix_fmt", "yuv420p", "out dir/x.mp4"
        ]
    );
    assert_eq!(QUEUE, 32);
}

#[test]
fn drops_are_counted_and_warned_of_once_a_second() {
    let s = 1_000_000_000;
    let mut log = DropLog::new(5 * s);
    assert_eq!(log.count(Handed::Queued, 9 * s), None);
    assert_eq!(log.count(Handed::Gone, 9 * s), None);
    assert_eq!(log.dropped, 0);
    assert_eq!(log.count(Handed::Full, 6 * s - 1), None);
    assert_eq!(
        log.count(Handed::Full, 6 * s).as_deref(),
        Some("Recorder: encoder falling behind, 2 frame(s) dropped")
    );
    assert_eq!(log.count(Handed::Full, 7 * s - 1), None);
    assert_eq!(
        log.count(Handed::Full, 7 * s).as_deref(),
        Some("Recorder: encoder falling behind, 4 frame(s) dropped")
    );
    assert_eq!((log.dropped, log.last_warn), (4, 7 * s));
}

#[test]
fn recordings_end_with_a_word() {
    let mut log = DropLog::new(0);
    let say = |log: &DropLog, e: Ended| {
        let v = verdict(log, "x.mp4", &e);
        (v.text, v.is_error)
    };
    assert_eq!(say(&log, Ended::Well), ("Saved x.mp4".to_string(), false));
    log.count(Handed::Full, 0);
    assert_eq!(say(&log, Ended::Well), ("Saved x.mp4 (1 frame(s) dropped)".to_string(), false));
    assert_eq!(
        say(&log, Ended::Badly("exit status: 1".to_string())),
        ("ffmpeg exited with exit status: 1".to_string(), true)
    );
    assert_eq!(
        say(&log, Ended::Unknown("gone".to_string())),
        ("ffmpeg wait failed: gone".to_string(), true)
    );
}

#[test]
fn events_carry_their_message() {
    let _ = NewFrame;
    assert_eq!(Disconnected { msg: "gone".to_string() }.msg, "gone");
}
