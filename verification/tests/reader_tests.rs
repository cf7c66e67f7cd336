use coin612::frame::{FramePair, HEIGHT, LINE, PAIR, WIDTH};
use coin612::reader::{
    Action, Delivery, Phase, ReadResult, Reader, ReaderConfig, CHUNK, PACKET, READ_TIMEOUT_MS,
    SYNC_BYTES,
};
use std::time::Instant;

/// Byte `p` of a stream of 515 line-pairs per frame, the last of which is a telemetry pair.
fn byte(p: usize) -> u8 {
    let (n, i) = (p / PAIR, p % PAIR);
    let row = n % 515;
    if i < LINE {
        ((i / 2 + row + n / 515) % 113) as u8
    } else {
        let x = (i - LINE) / 2;
        match (i % 2 == 0, row == 514) {
            (true, true) => 0x10,
            (true, false) => 0x80,
            (false, true) => 250,
            (false, false) => (row / 8 + x / 64) as u8,
        }
    }
}

/// Fills the reader's room from the stream, at most `most` bytes.
fn feed(reader: &mut Reader, at: &mut usize, most: usize) -> Action {
    let room = reader.space();
    let n = room.len().min(most);
    for b in &mut room[..n] {
        *b = byte(*at);
        *at += 1;
    }
    reader.step(ReadResult::Bytes(n))
}

fn locked(start: usize) -> (Reader, usize) {
    let mut reader = Reader::new(ReaderConfig { capture_raw: None });
    let mut at = start;
    loop {
        match feed(&mut reader, &mut at, usize::MAX) {
            Action::Read => {}
            Action::Align { .. } => break,
            _ => panic!("unexpected action"),
        }
    }
    (reader, at)
}

#[test]
fn syncing_reads_chunks_until_there_is_enough() {
    let mut reader = Reader::new(ReaderConfig { capture_raw: None });
    assert!(matches!(reader.phase(), Phase::Syncing));
    assert_eq!(reader.space().len(), CHUNK);
    assert_eq!((CHUNK, SYNC_BYTES), (256 * 1024, 2560 * 521 * 4));
    let mut at = 0;
    let mut reads = 0;
    while let Action::Read = feed(&mut reader, &mut at, usize::MAX) {
        reads += 1;
    }
    assert_eq!(reads, SYNC_BYTES / CHUNK);
    assert_eq!(reader.pending().len(), (reads + 1) * CHUNK);
    assert_eq!(reader.pending()[12345], byte(12345));
}

#[test]
fn alignment_keeps_the_unfinished_frame() {
    let (mut reader, at) = locked(1000 * PAIR + 64);
    let gathered = reader.pending().to_vec();
    let a = reader.align();
    assert_eq!(a.height, 515);
    assert!(a.coarse <= a.start && (a.start - a.coarse) % PAIR == 0);
    // the start is the first byte of an active frame
    assert_eq!((1000 * PAIR + 64 + a.start) % (515 * PAIR), 0);
    let partial = (gathered.len() - a.start) % (515 * PAIR);
    assert_eq!(reader.pending(), &gathered[gathered.len() - partial..]);
    assert_eq!((at - partial) % (515 * PAIR), 0);
    assert!(matches!(reader.phase(), Phase::Locked { height: 515, bad: 0 }));
}

#[test]
fn locked_reads_end_with_the_frame() {
    let (mut reader, mut at) = locked(777 * PAIR + 2);
    reader.align();
    let fb = 515 * PAIR;
    let mut out = FramePair::default();
    for n in 1..=3u64 {
        let before = reader.pending().len();
        let ask = reader.space().len();
        assert_eq!(ask % PACKET, 0);
        assert!(before + ask >= fb && before + ask < fb + PACKET);
        // in two parts
        assert!(matches!(feed(&mut reader, &mut at, 5000), Action::Read));
        assert!(matches!(feed(&mut reader, &mut at, usize::MAX), Action::Deliver));
        let frame_start = at - reader.pending().len();
        assert_eq!(frame_start % fb, 0);
        let t = Instant::now();
        assert!(matches!(reader.deliver(&mut out, t), Delivery::Published));
        assert_eq!(out.seq, n);
        assert_eq!(out.t_read_done, Some(t));
        for (row, x) in [(0, 0), (3, 17), (511, 639)] {
            assert_eq!(out.y16[row * WIDTH + x], byte(frame_start + row * PAIR + 2 * x));
            assert_eq!(out.uyvy[row * WIDTH + x], byte(frame_start + row * PAIR + LINE + 2 * x + 1));
        }
        // what was read beyond the frame opens the next one
        let rest: Vec<u8> = (frame_start + fb..at).map(byte).collect();
        assert_eq!(reader.pending(), &rest[..]);
    }
}

#[test]
fn timeouts() {
    let mut reader = Reader::new(ReaderConfig { capture_raw: None });
    let mut at = 0;
    feed(&mut reader, &mut at, 100);
    assert!(matches!(reader.step(ReadResult::Timeout), Action::Read));
    assert_eq!(reader.pending().len(), 100);

    let (mut reader, _) = locked(0);
    reader.align();
    assert!(matches!(reader.step(ReadResult::Timeout), Action::Stalled));
    assert!(matches!(reader.phase(), Phase::Syncing));
    assert_eq!(reader.pending().len(), 0);
    assert_eq!(reader.space().len(), CHUNK);
}

#[test]
fn errors_disconnect() {
    let mut reader = Reader::new(ReaderConfig { capture_raw: None });
    match reader.step(ReadResult::Failed("Pipe error".to_string())) {
        Action::Disconnect(d) => assert_eq!(d.msg, "USB read failed: Pipe error"),
        _ => panic!("expected a disconnection"),
    }
}

#[test]
fn three_misaligned_frames_in_a_row_resync() {
    let (mut reader, mut at) = locked(0);
    reader.align();
    let mut out = FramePair::default();
    // what comes in for each frame: as it is, or without neutral chroma
    let frames = [false, true, true, false, true, true, true];
    for (i, bad) in frames.iter().enumerate() {
        // fill up; the tail of the frame before is aligned, so the first line is all new
        loop {
            let filled = reader.pending().len();
            let room = reader.space();
            let n = room.len();
            for (k, b) in room.iter_mut().enumerate() {
                *b = if *bad && filled + k < PAIR { 1 } else { byte(at) };
                at += 1;
            }
            if let Action::Deliver = reader.step(ReadResult::Bytes(n)) {
                break;
            }
        }
        let shown = out.seq;
        let d = reader.deliver(&mut out, Instant::now());
        if i == 6 {
            assert!(matches!(d, Delivery::Misaligned));
            assert_eq!(out.seq, shown);
        } else {
            assert!(matches!(d, Delivery::Published), "frame {i}");
            assert_eq!(out.seq, shown + 1);
        }
    }
    assert!(matches!(reader.phase(), Phase::Syncing));
    // the frame count goes on after alignment
    loop {
        match feed(&mut reader, &mut at, usize::MAX) {
            Action::Read => {}
            Action::Align { .. } => break,
            _ => panic!("unexpected action"),
        }
    }
    reader.align();
    while let Action::Read = feed(&mut reader, &mut at, usize::MAX) {}
    assert!(matches!(reader.deliver(&mut out, Instant::now()), Delivery::Published));
    assert_eq!(out.seq, 7);
}

#[test]
fn frames_without_all_active_rows_are_too_short() {
    // 508 line-pairs per frame, the last of which stands out
    let short = |p: usize| -> u8 {
        let (n, i) = (p / PAIR, p % PAIR);
        let row = n % 508;
        match (i < LINE, i % 2 == 0, row == 507) {
            (true, _, _) => (i % 101) as u8,
            (_, true, _) => 0x80,
            (_, _, true) => 250,
            _ => (row / 8) as u8,
        }
    };
    let mut reader = Reader::new(ReaderConfig { capture_raw: None });
    let mut at = 0;
    let mut out = FramePair::default();
    loop {
        let room = reader.space();
        let n = room.len();
        for b in room.iter_mut() {
            *b = short(at);
            at += 1;
        }
        match reader.step(ReadResult::Bytes(n)) {
            Action::Read => {}
            Action::Align { .. } => assert_eq!(reader.align().height, 508),
            Action::Deliver => break,
            _ => panic!("unexpected action"),
        }
    }
    assert!(508 < HEIGHT);
    assert!(matches!(reader.deliver(&mut out, Instant::now()), Delivery::TooShort));
    assert_eq!(out.seq, 0);
}

#[test]
fn capture_at_the_first_alignment_only() {
    let path = std::path::PathBuf::from("a.raw");
    let mut reader = Reader::new(ReaderConfig { capture_raw: Some(path.clone()) });
    let mut at = 0;
    assert!(matches!(feed(&mut reader, &mut at, 1000), Action::Read));
    assert!(matches!(reader.step(ReadResult::Timeout), Action::Read));
    for round in 0..3 {
        let capture = loop {
            match feed(&mut reader, &mut at, usize::MAX) {
                Action::Read => {}
                Action::Align { capture } => break capture,
                _ => panic!("unexpected action"),
            }
        };
        if round == 0 {
            assert_eq!(capture, Some(path.clone()));
            let bytes = reader.pending();
            assert_eq!(bytes.len(), at);
            assert!(bytes.len() >= 5_335_040 && bytes.len() < 5_335_040 + 262_144);
            assert!(bytes.iter().enumerate().all(|(p, &b)| b == byte(p)));
        } else {
            assert_eq!(capture, None);
        }
        reader.align();
        assert!(matches!(reader.step(ReadResult::Timeout), Action::Stalled));
    }
}

#[test]
fn frames_are_counted() {
    let (mut reader, mut at) = locked(0);
    reader.align();
    let mut out = FramePair::default();
    for n in 0..2 {
        assert_eq!(reader.frames(), n);
        while let Action::Read = feed(&mut reader, &mut at, usize::MAX) {}
        reader.deliver(&mut out, Instant::now());
    }
    assert_eq!(reader.frames(), 2);
}

#[test]
fn configuration() {
    let mut cfg = ReaderConfig { capture_raw: Some(std::path::PathBuf::from("a/b")) };
    assert_eq!(cfg.take_capture().unwrap().display().to_string(), "a/b");
    assert!(cfg.take_capture().is_none());
    assert_eq!(READ_TIMEOUT_MS, 1000);
}
