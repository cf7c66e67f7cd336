//! The frame reader: from bulk reads to frames.
//!
//! The reader starts out syncing: it gathers enough of the stream to align it. Once locked it asks
//! for the rest of one frame at a time, rounded up to whole USB packets, so that a read ends with
//! the very packet that carries the frame's last byte. What the packet holds of the next frame is
//! kept in front of the buffer. The reader does no input itself: it hands out the room to read into
//! and is told what came of the read.

use crate::alignment::{lemma_coarse_sync_bounds, lemma_refined_start_bounds};
use crate::boundary::{MAX_HEIGHT, MIN_HEIGHT};
use crate::events::Disconnected;
use crate::frame::{
    deinterleave, lemma_planes_ignore_tail, uyvy_plane, y16_plane, FramePair, HEIGHT, PAIR, PIXELS,
};
use crate::sync::{
    coarse_sync, find_sync, refine_start, refined_start, signature, uyvy_signature_ok,
};
use vstd::arithmetic::div_mod::{lemma_fundamental_div_mod, lemma_mod_bound};
use vstd::prelude::*;
use vstd::slice::slice_subrange;

verus! {

/// Bytes in a USB packet.
pub const PACKET: usize = 512;

/// Bytes asked for in one read while syncing.
pub const CHUNK: usize = 262144;

/// Bytes gathered before the stream is aligned: about four frames.
pub const SYNC_BYTES: usize = PAIR * 521 * 4;

/// How many frames in a row must look misaligned before the reader aligns anew.
pub const MAX_BAD: u32 = 3;

/// How long a read may take, in milliseconds.
pub const READ_TIMEOUT_MS: u64 = 1000;

/// `std::path::PathBuf`, carried through without a look inside.
#[verifier::external_type_specification]
#[verifier::external_body]
pub struct ExPathBuf(std::path::PathBuf);

/// How the reader is set up.
pub struct ReaderConfig {
    /// Where to put the bytes of the first alignment, if anywhere.
    pub capture_raw: Option<std::path::PathBuf>,
}

impl ReaderConfig {
    /// Takes the path of the capture: a second call finds none.
    pub fn take_capture(&mut self) -> (path: Option<std::path::PathBuf>)
        ensures
            path == old(self).capture_raw,
            final(self).capture_raw is None,
    {
        self.capture_raw.take()
    }
}

/// What the reader is about.
#[derive(Clone, Copy)]
pub enum Phase {
    /// Gathering bytes to align.
    Syncing,
    /// Aligned: the line-pairs in a frame, and how many frames in a row have looked misaligned.
    Locked { height: usize, bad: u32 },
}

/// The reader.
pub struct Reader {
    phase: Phase,
    buf: Vec<u8>,
    filled: usize,
    seq: u64,
    cfg: ReaderConfig,
}

/// What a reader holds: the bytes not used yet, the room for the next read, the number of frames
/// delivered, and where the bytes of the first alignment are still to be put, if anywhere.
pub struct Progress {
    pub phase: Phase,
    pub pending: Seq<u8>,
    pub room: Seq<u8>,
    pub seq: u64,
    pub capture: Option<std::path::PathBuf>,
}

/// Bytes per frame.
pub open spec fn frame_bytes(height: int) -> int {
    PAIR * height
}

/// The bytes needed before the next step.
pub open spec fn target(phase: Phase) -> int {
    match phase {
        Phase::Syncing => SYNC_BYTES as int,
        Phase::Locked { height, bad } => frame_bytes(height as int),
    }
}

/// Whole packets that hold `n` bytes.
pub open spec fn whole_packets(n: int) -> int {
    (n + PACKET - 1) / (PACKET as int) * PACKET
}

/// The bytes to ask for in the next read.
pub open spec fn request(phase: Phase, pending: int) -> int {
    match phase {
        Phase::Syncing => CHUNK as int,
        Phase::Locked { .. } => whole_packets(target(phase) - pending),
    }
}

/// Whether more bytes are needed.
pub open spec fn wants(p: Progress) -> bool {
    p.pending.len() < target(p.phase)
}

/// What came of a read.
pub enum ReadResult {
    /// So many bytes.
    Bytes(usize),
    /// Nothing in time.
    Timeout,
    /// An error, in words.
    Failed(String),
}

/// What to do next.
pub enum Action {
    /// Read on.
    Read,
    /// Enough to align. First put the bytes gathered into the file, if there is one.
    Align { capture: Option<std::path::PathBuf> },
    /// A whole frame is there.
    Deliver,
    /// The stream has stalled; read on, to align anew.
    Stalled,
    /// Tell the viewer, and end.
    Disconnect(Disconnected),
}

/// Where the stream was aligned.
pub struct Alignment {
    /// The start found at first.
    pub coarse: usize,
    /// The start of the first clean frame.
    pub start: usize,
    /// The line-pairs in a frame.
    pub height: usize,
}

/// What became of a whole frame.
pub enum Delivery {
    /// It was delivered.
    Published,
    /// It was dropped, the last of too many that looked misaligned.
    Misaligned,
    /// It is too short to hold an image.
    TooShort,
}

/// A reader that starts over.
pub open spec fn starts_over(
    p: Progress,
    seq: u64,
    capture: Option<std::path::PathBuf>,
) -> bool {
    &&& p.phase is Syncing
    &&& p.pending == Seq::<u8>::empty()
    &&& p.room.len() == CHUNK
    &&& p.seq == seq
    &&& p.capture == capture
}

/// The reader after a read of `n` bytes.
pub open spec fn extended(p: Progress, n: int) -> Seq<u8> {
    p.pending + p.room.take(n)
}

/// Whether the bytes for an alignment are complete.
pub open spec fn gathered(p: Progress) -> bool {
    p.phase is Syncing && !wants(p)
}

/// What to do after bytes came in, where `capture` was still to be written.
pub open spec fn after_bytes(p: Progress, capture: Option<std::path::PathBuf>) -> Action {
    if wants(p) {
        Action::Read
    } else if p.phase is Syncing {
        Action::Align { capture }
    } else {
        Action::Deliver
    }
}

/// What is still to be captured after bytes came in: nothing once the bytes for an alignment are
/// complete.
pub open spec fn capture_left(
    p: Progress,
    capture: Option<std::path::PathBuf>,
) -> Option<std::path::PathBuf> {
    if gathered(p) {
        None
    } else {
        capture
    }
}

/// The last frame from `start` on, which is not complete.
pub open spec fn unfinished(data: Seq<u8>, start: int, height: int) -> Seq<u8> {
    data.skip(data.len() - (data.len() - start) % frame_bytes(height))
}

/// The frame that is there.
pub open spec fn front_frame(p: Progress) -> Seq<u8> {
    p.pending.take(target(p.phase))
}

/// How many frames in a row have looked misaligned, after a frame that does or does not.
pub open spec fn bad_after(bad: int, ok: bool) -> int {
    if ok {
        0
    } else {
        bad + 1
    }
}

/// What becomes of the frame that is there.
pub open spec fn delivery(p: Progress) -> Delivery {
    match p.phase {
        Phase::Syncing => Delivery::TooShort,
        Phase::Locked { height, bad } => if bad_after(bad as int, signature(front_frame(p)))
            >= MAX_BAD {
            Delivery::Misaligned
        } else if height < HEIGHT {
            Delivery::TooShort
        } else {
            Delivery::Published
        },
    }
}

/// The phase after the frame was delivered.
pub open spec fn phase_after(p: Progress) -> Phase {
    match p.phase {
        Phase::Syncing => p.phase,
        Phase::Locked { height, bad } => Phase::Locked {
            height,
            bad: bad_after(bad as int, signature(front_frame(p))) as u32,
        },
    }
}

/// Whether a reader's progress is possible.
pub open spec fn valid(p: Progress) -> bool {
    &&& match p.phase {
        Phase::Syncing => p.pending.len() < SYNC_BYTES + CHUNK,
        Phase::Locked { height, bad } => {
            &&& MIN_HEIGHT <= height <= MAX_HEIGHT
            &&& bad < MAX_BAD
            &&& p.pending.len() < frame_bytes(height as int) + PACKET
        },
    }
    &&& wants(p) ==> p.room.len() == request(p.phase, p.pending.len() as int)
}

/// The room that a buffer has for the next read.
spec fn room_in(phase: Phase, buf: Seq<u8>, filled: int) -> Seq<u8> {
    if filled < target(phase) {
        buf.subrange(filled, filled + request(phase, filled))
    } else {
        Seq::empty()
    }
}

/// The bytes of the buffer that a phase works in.
spec fn buffer_size(phase: Phase) -> int {
    match phase {
        Phase::Syncing => SYNC_BYTES + CHUNK,
        Phase::Locked { height, bad } => frame_bytes(height as int) + PACKET,
    }
}

impl View for Reader {
    type V = Progress;

    closed spec fn view(&self) -> Progress {
        Progress {
            phase: self.phase,
            pending: self.buf@.take(self.filled as int),
            room: room_in(self.phase, self.buf@, self.filled as int),
            seq: self.seq,
            capture: self.cfg.capture_raw,
        }
    }
}

/// A read request is whole packets, reaches the frame's last byte, and ends within its packet.
pub proof fn lemma_request_is_tight(phase: Phase, pending: int)
    requires
        phase is Locked,
        0 <= pending < target(phase),
    ensures
        request(phase, pending) % (PACKET as int) == 0,
        request(phase, pending) > 0,
        target(phase) <= pending + request(phase, pending) < target(phase) + PACKET,
{
    let n = target(phase) - pending + PACKET - 1;
    lemma_fundamental_div_mod(n, PACKET as int);
    lemma_mod_bound(n, PACKET as int);
    vstd::arithmetic::div_mod::lemma_mod_multiples_basic(n / (PACKET as int), PACKET as int);
}

/// `len` bytes of `src`, at the front of `total` bytes.
fn front(src: &[u8], from: usize, len: usize, total: usize) -> (dst: Vec<u8>)
    requires
        from + len <= src@.len(),
        len <= total,
    ensures
        dst@.len() == total,
        dst@.take(len as int) == src@.subrange(from as int, from + len),
{
    let end: usize = src.len();
    let mut dst: Vec<u8> = vec![0u8; total];
    let mut i: usize = 0;
    while i < len
        invariant
            i <= len,
            len <= total,
            from + len <= end == src@.len(),
            dst@.len() == total,
            forall|j: int| 0 <= j < i ==> dst@[j] == src@[from + j],
        decreases len - i,
    {
        dst[i] = src[from + i];
        i = i + 1;
    }
    assert(dst@.take(len as int) =~= src@.subrange(from as int, from + len));
    dst
}

/// Moves `len` bytes to the front.
fn move_front(buf: &mut Vec<u8>, from: usize, len: usize)
    requires
        from + len <= old(buf)@.len(),
        len <= from,
    ensures
        final(buf)@.len() == old(buf)@.len(),
        final(buf)@.take(len as int) == old(buf)@.subrange(from as int, from + len),
{
    let end: usize = buf.len();
    let mut i: usize = 0;
    while i < len
        invariant
            i <= len <= from,
            from + len <= end == buf@.len() == old(buf)@.len(),
            forall|j: int| 0 <= j < i ==> buf@[j] == old(buf)@[from + j],
            forall|j: int| from <= j < buf@.len() ==> buf@[j] == old(buf)@[j],
        decreases len - i,
    {
        let b: u8 = buf[from + i];
        buf[i] = b;
        i = i + 1;
    }
    assert(buf@.take(len as int) =~= old(buf)@.subrange(from as int, from + len));
}

impl Reader {
    /// Whether the buffer fits the phase.
    pub closed spec fn wf(&self) -> bool {
        &&& self.buf@.len() == buffer_size(self.phase)
        &&& self.filled < self.buf@.len()
        &&& match self.phase {
            Phase::Syncing => true,
            Phase::Locked { height, bad } => MIN_HEIGHT <= height <= MAX_HEIGHT && bad < MAX_BAD,
        }
    }

    /// A well-formed reader's progress is possible.
    pub proof fn lemma_valid(&self)
        requires
            self.wf(),
        ensures
            valid(self@),
    {
        if wants(self@) {
            if self.phase is Locked {
                lemma_request_is_tight(self.phase, self.filled as int);
            }
        }
    }

    /// The room for the next read: while syncing 256 KiB, and once locked whole packets up to the one
    /// that carries the frame's last byte.
    pub proof fn lemma_room(&self)
        requires
            self.wf(),
        ensures
            self@.phase is Syncing && self@.pending.len() < 4 * 521 * 2560 ==> self@.room.len() == 256 * 1024,
            self@.phase matches Phase::Locked { height, bad } && self@.pending.len() < height * 2560 ==> {
                let end = self@.pending.len() + self@.room.len();
                &&& self@.room.len() % 512 == 0
                &&& self@.phase->height * 2560 <= end < self@.phase->height * 2560 + 512
            },
            self@.phase matches Phase::Locked { height, bad } ==> 508 <= height <= 520 && bad < 3,
    {
        self.lemma_valid();
        lemma_bytes_needed(self@, 0);
        if self@.phase is Locked && self@.pending.len() < self@.phase->height * 2560 {
            lemma_bytes_asked_for(self@.phase->height, self@.phase->bad, self@.pending.len() as int);
        }
    }

    /// A reader at the start.
    pub fn new(cfg: ReaderConfig) -> (r: Self)
        ensures
            r.wf(),
            starts_over(r@, 0, cfg.capture_raw),
    {
        let r = Reader {
            phase: Phase::Syncing,
            buf: vec![0u8; SYNC_BYTES + CHUNK],
            filled: 0,
            seq: 0,
            cfg,
        };
        assert(r@.pending =~= Seq::<u8>::empty());
        r
    }

    /// Starts over, with the frame count going on.
    fn restart(&mut self)
        ensures
            final(self).wf(),
            starts_over(final(self)@, old(self)@.seq, old(self)@.capture),
    {
        self.phase = Phase::Syncing;
        self.buf = vec![0u8; SYNC_BYTES + CHUNK];
        self.filled = 0;
        assert(self@.pending =~= Seq::<u8>::empty());
    }

    /// What the reader is about.
    pub fn phase(&self) -> (phase: Phase)
        ensures
            phase == self@.phase,
    {
        self.phase
    }

    /// How many frames were delivered.
    pub fn frames(&self) -> (n: u64)
        ensures
            n == self@.seq,
    {
        self.seq
    }

    /// The bytes not used yet.
    pub fn pending(&self) -> (bytes: &[u8])
        requires
            self.wf(),
        ensures
            bytes@ == self@.pending,
    {
        slice_subrange(self.buf.as_slice(), 0, self.filled)
    }

    /// How many bytes the next read asks for.
    fn ask(&self) -> (n: usize)
        requires
            self.wf(),
            wants(self@),
        ensures
            n == request(self.phase, self.filled as int),
            self.filled + n <= self.buf@.len(),
    {
        match self.phase {
            Phase::Syncing => CHUNK,
            Phase::Locked { height, bad } => {
                proof {
                    lemma_request_is_tight(self.phase, self.filled as int);
                    assert(PAIR * height <= PAIR * 520) by (nonlinear_arith)
                        requires
                            height <= 520,
                    ;
                }
                let missing: usize = PAIR * height - self.filled;
                (missing + PACKET - 1) / PACKET * PACKET
            },
        }
    }

    /// The room for the next read.
    pub fn space(&mut self) -> (room: &mut [u8])
        requires
            old(self).wf(),
            wants(old(self)@),
        ensures
            room@ == old(self)@.room,
            old(self)@.phase is Syncing ==> room@.len() == 256 * 1024,
            old(self)@.phase matches Phase::Locked { height, bad } ==> {
                let end = old(self)@.pending.len() + room@.len();
                &&& room@.len() % 512 == 0
                &&& height * 2560 <= end < height * 2560 + 512
            },
            final(room)@.len() == room@.len() ==> {
                &&& final(self).wf()
                &&& final(self)@ == (Progress { room: final(room)@, ..old(self)@ })
            },
    {
        proof {
            self.lemma_room();
            lemma_bytes_needed(self@, 0);
        }
        let n: usize = self.ask();
        let ghost phase = self.phase;
        let ghost filled = self.filled as int;
        let ghost head = self.buf@.take(filled);
        let ghost tail = self.buf@.skip(filled + n);
        let (_head, rest) = self.buf.as_mut_slice().split_at_mut(self.filled);
        let (room, _tail) = rest.split_at_mut(n);
        assert forall|r: Seq<u8>| r.len() == n implies {
            &&& (#[trigger] (head + (r + tail))).take(filled) == head
            &&& (head + (r + tail)).subrange(filled, filled + n) == r
        } by {
            assert((head + (r + tail)).take(filled) =~= head);
            assert((head + (r + tail)).subrange(filled, filled + n) =~= r);
        }
        assert(_tail@ =~= tail);
        room
    }

    /// Takes what came of a read, and says what to do next.
    pub fn step(&mut self, read: ReadResult) -> (action: Action)
        requires
            old(self).wf(),
            wants(old(self)@),
            read matches ReadResult::Bytes(n) ==> n <= old(self)@.room.len(),
        ensures
            final(self).wf(),
            match read {
                ReadResult::Bytes(n) => {
                    &&& final(self)@.phase == old(self)@.phase
                    &&& final(self)@.pending == extended(old(self)@, n as int)
                    &&& final(self)@.pending == old(self)@.pending + old(self)@.room.take(n as int)
                    &&& final(self)@.seq == old(self)@.seq
                    &&& final(self)@.capture == capture_left(final(self)@, old(self)@.capture)
                    &&& action == after_bytes(final(self)@, old(self)@.capture)
                },
                ReadResult::Timeout => if old(self)@.phase is Syncing {
                    *final(self) == *old(self) && action is Read
                } else {
                    &&& starts_over(final(self)@, old(self)@.seq, old(self)@.capture)
                    &&& action is Stalled
                },
                ReadResult::Failed(text) => {
                    &&& *final(self) == *old(self)
                    &&& action matches Action::Disconnect(d)
                    &&& d.msg@ == "USB read failed: "@ + text@
                },
            },
    {
        match read {
            ReadResult::Bytes(n) => {
                proof {
                    self.lemma_valid();
                    if self.phase is Locked {
                        lemma_request_is_tight(self.phase, self.filled as int);
                    }
                }
                let ghost before = self.buf@.take(self.filled as int);
                let ghost room = self@.room;
                let size: usize = self.buf.len();
                assert(self.filled + n < size);
                self.filled = self.filled + n;
                assert(self.buf@.take(self.filled as int) =~= before + room.take(n as int));
                match self.phase {
                    Phase::Syncing => if self.filled < SYNC_BYTES {
                        Action::Read
                    } else {
                        Action::Align { capture: self.cfg.take_capture() }
                    },
                    Phase::Locked { height, bad } => {
                        assert(PAIR * height <= PAIR * 520) by (nonlinear_arith)
                            requires
                                height <= 520,
                        ;
                        if self.filled < PAIR * height {
                            Action::Read
                        } else {
                            Action::Deliver
                        }
                    },
                }
            },
            ReadResult::Timeout => match self.phase {
                Phase::Syncing => Action::Read,
                Phase::Locked { .. } => {
                    self.restart();
                    Action::Stalled
                },
            },
            ReadResult::Failed(text) => {
                let mut msg = String::from_str("USB read failed: ");
                msg.append(text.as_str());
                Action::Disconnect(Disconnected { msg })
            },
        }
    }

    /// Aligns the stream. Of what was gathered, only the last frame, which is not complete, is kept.
    pub fn align(&mut self) -> (at: Alignment)
        requires
            old(self).wf(),
            old(self)@.phase is Syncing,
            !wants(old(self)@),
        ensures
            final(self).wf(),
            (at.coarse as int, at.height as int) == coarse_sync(old(self)@.pending),
            at.start == refined_start(old(self)@.pending, at.coarse as int, at.height as int),
            at.coarse <= at.start <= old(self)@.pending.len(),
            final(self)@.phase == (Phase::Locked { height: at.height, bad: 0 }),
            final(self)@.pending == unfinished(old(self)@.pending, at.start as int, at.height as int),
            wants(final(self)@),
            final(self)@.seq == old(self)@.seq,
            final(self)@.capture == old(self)@.capture,
    {
        let data = slice_subrange(self.buf.as_slice(), 0, self.filled);
        assert(data@ == self@.pending);
        proof {
            lemma_coarse_sync_bounds(data@);
        }
        let (coarse, height) = find_sync(data);
        assert(PAIR * MIN_HEIGHT <= PAIR * height <= PAIR * 520) by (nonlinear_arith)
            requires
                MIN_HEIGHT <= height <= 520,
        ;
        let fb: usize = PAIR * height;
        proof {
            lemma_refined_start_bounds(data@, coarse as int, height as int);
        }
        let start: usize = refine_start(data, coarse, height);
        proof {
            lemma_mod_bound(self.filled - start, fb as int);
            assert((self.filled - start) % (fb as int) <= self.filled - start) by {
                vstd::arithmetic::div_mod::lemma_mod_decreases(
                    (self.filled - start) as nat,
                    fb as nat,
                );
            }
        }
        let partial: usize = (self.filled - start) % fb;
        let buf = front(data, self.filled - partial, partial, fb + PACKET);
        assert(data@.subrange(self.filled - partial, self.filled as int) =~= unfinished(
            data@,
            start as int,
            height as int,
        ));
        self.phase = Phase::Locked { height, bad: 0 };
        self.buf = buf;
        self.filled = partial;
        Alignment { coarse, start, height }
    }

    /// Takes a whole frame: checks that it still looks aligned, and delivers its planes. What was
    /// read beyond it opens the next frame.
    pub fn deliver(&mut self, out: &mut FramePair, t_read_done: std::time::Instant) -> (d: Delivery)
        requires
            old(self).wf(),
            old(self)@.phase is Locked,
            !wants(old(self)@),
            old(self)@.seq < u64::MAX,
            old(out).y16@.len() == PIXELS,
            old(out).uyvy@.len() == PIXELS,
        ensures
            final(self).wf(),
            final(self)@.capture == old(self)@.capture,
            d == delivery(old(self)@),
            match d {
                Delivery::Published => {
                    &&& final(out).y16@ == y16_plane(front_frame(old(self)@))
                    &&& final(out).uyvy@ == uyvy_plane(front_frame(old(self)@))
                    &&& forall|row: int, x: int|
                        0 <= row < 512 && 0 <= x < 640 ==> #[trigger] final(out).y16@[row * 640 + x]
                            == old(self)@.pending[row * 2560 + 2 * x]
                    &&& forall|row: int, x: int|
                        0 <= row < 512 && 0 <= x < 640 ==> #[trigger] final(out).uyvy@[row * 640 + x]
                            == old(self)@.pending[row * 2560 + 1280 + 2 * x + 1]
                    &&& final(out).seq == old(self)@.seq + 1
                    &&& final(out).t_read_done == Some(t_read_done)
                    &&& final(self)@.phase == phase_after(old(self)@)
                    &&& final(self)@.pending == old(self)@.pending.skip(target(old(self)@.phase))
                    &&& final(self)@.seq == old(self)@.seq + 1
                    &&& wants(final(self)@)
                },
                Delivery::Misaligned => {
                    &&& *final(out) == *old(out)
                    &&& starts_over(final(self)@, old(self)@.seq, old(self)@.capture)
                },
                Delivery::TooShort => {
                    &&& *final(out) == *old(out)
                    &&& *final(self) == *old(self)
                },
            },
    {
        match self.phase {
            Phase::Syncing => Delivery::TooShort,
            Phase::Locked { height, bad } => {
                assert(PAIR * MIN_HEIGHT <= PAIR * height <= PAIR * 520) by (nonlinear_arith)
                    requires
                        MIN_HEIGHT <= height <= 520,
                ;
                let fb: usize = PAIR * height;
                let frame = slice_subrange(self.buf.as_slice(), 0, fb);
                assert(frame@ =~= front_frame(self@));
                let ok: bool = uyvy_signature_ok(frame);
                if !ok && bad + 1 >= MAX_BAD {
                    self.restart();
                    return Delivery::Misaligned;
                }
                if height < HEIGHT {
                    return Delivery::TooShort;
                }
                assert(PAIR * HEIGHT <= PAIR * height) by (nonlinear_arith)
                    requires
                        HEIGHT <= height,
                ;
                let active = slice_subrange(frame, 0, HEIGHT * PAIR);
                deinterleave(active, out);
                proof {
                    assert(active@ == frame@.take(HEIGHT * PAIR));
                    lemma_planes_ignore_tail(frame@, HEIGHT * PAIR);
                    assert(out.y16@ =~= y16_plane(frame@));
                    assert(out.uyvy@ =~= uyvy_plane(frame@));
                    assert(frame@.take(HEIGHT * PAIR) =~= self@.pending.take(HEIGHT * PAIR));
                }
                self.seq = self.seq + 1;
                out.seq = self.seq;
                out.t_read_done = Some(t_read_done);
                let rest: usize = self.filled - fb;
                let ghost before = self.buf@;
                move_front(&mut self.buf, fb, rest);
                assert(self.buf@.take(rest as int) =~= before.take(self.filled as int).skip(
                    fb as int,
                ));
                self.phase = Phase::Locked { height, bad: if ok { 0 } else { bad + 1 } };
                self.filled = rest;
                Delivery::Published
            },
        }
    }
}

/// A read that brought bytes.
pub open spec fn read_step(p: Progress, q: Progress, bytes: Seq<u8>) -> bool {
    &&& wants(p)
    &&& q.phase == p.phase
    &&& q.pending == p.pending + bytes
    &&& q.seq == p.seq
}

/// A frame that was delivered.
pub open spec fn deliver_step(p: Progress, q: Progress) -> bool {
    &&& !wants(p)
    &&& delivery(p) is Published
    &&& q.phase == phase_after(p)
    &&& q.pending == p.pending.skip(target(p.phase))
    &&& q.seq == p.seq + 1
}

/// A run of a locked reader: each step is a read or a delivery.
pub open spec fn locked_run(run: Seq<Progress>, reads: Seq<Seq<u8>>) -> bool {
    &&& run.len() == reads.len() + 1
    &&& run[0].phase is Locked
    &&& forall|i: int|
        0 <= i < reads.len() ==> {
            ||| read_step(#[trigger] run[i], run[i + 1], reads[i])
            ||| deliver_step(run[i], run[i + 1]) && reads[i].len() == 0
        }
}

/// The bytes that the first `n` steps read.
pub open spec fn bytes_read(reads: Seq<Seq<u8>>, n: nat) -> Seq<u8>
    decreases n,
{
    if n == 0 {
        Seq::empty()
    } else {
        bytes_read(reads, (n - 1) as nat) + reads[n - 1]
    }
}

/// The frames that the first `n` steps delivered, one after the other.
pub open spec fn bytes_delivered(run: Seq<Progress>, n: nat) -> Seq<u8>
    decreases n,
{
    if n == 0 {
        Seq::empty()
    } else if wants(run[n - 1]) {
        bytes_delivered(run, (n - 1) as nat)
    } else {
        bytes_delivered(run, (n - 1) as nat) + front_frame(run[n - 1])
    }
}

/// A locked reader neither loses nor repeats a byte: the frames that it delivered, followed by the
/// bytes not used yet, are the bytes that it began with, followed by those that it read. Each frame
/// has the same number of bytes, and is counted.
pub proof fn lemma_stream_is_kept(run: Seq<Progress>, reads: Seq<Seq<u8>>, n: nat)
    requires
        locked_run(run, reads),
        n < run.len(),
    ensures
        bytes_delivered(run, n) + run[n as int].pending == run[0].pending + bytes_read(reads, n),
        target(run[n as int].phase) == target(run[0].phase),
        run[n as int].seq >= run[0].seq,
        bytes_delivered(run, n).len() == (run[n as int].seq - run[0].seq) * target(run[0].phase),
    decreases n,
{
    let fb = target(run[0].phase);
    if n == 0 {
        assert(bytes_delivered(run, 0) + run[0].pending =~= run[0].pending + bytes_read(reads, 0));
        assert(0 * fb == 0);
    } else {
        let m = (n - 1) as nat;
        lemma_stream_is_kept(run, reads, m);
        let p = run[m as int];
        let q = run[m as int + 1];
        assert(q == run[n as int]);
        if wants(p) {
            assert(read_step(p, q, reads[m as int]));
            lemma_regroup_read(
                bytes_delivered(run, m),
                p.pending,
                run[0].pending,
                bytes_read(reads, m),
                reads[m as int],
            );
        } else {
            assert(deliver_step(p, q));
            assert(target(q.phase) == target(p.phase));
            lemma_regroup_delivery(bytes_delivered(run, m), p.pending, fb);
            assert(bytes_read(reads, n) =~= bytes_read(reads, m));
            assert((q.seq - run[0].seq) * fb == (p.seq - run[0].seq) * fb + fb) by (nonlinear_arith)
                requires
                    q.seq == p.seq + 1,
            ;
        }
    }
}

/// Appending to both sides of an equation.
proof fn lemma_regroup_read(a: Seq<u8>, b: Seq<u8>, c: Seq<u8>, d: Seq<u8>, more: Seq<u8>)
    requires
        a + b == c + d,
    ensures
        a + (b + more) == c + (d + more),
{
    assert(a + (b + more) =~= (a + b) + more);
    assert(c + (d + more) =~= (c + d) + more);
}

/// Moving bytes from what follows to what precedes.
proof fn lemma_regroup_delivery(a: Seq<u8>, b: Seq<u8>, k: int)
    requires
        0 <= k <= b.len(),
    ensures
        (a + b.take(k)) + b.skip(k) == a + b,
        (a + b.take(k)).len() == a.len() + k,
{
    assert((a + b.take(k)) + b.skip(k) =~= a + b);
}

/// Alignment drops whole frames: what is kept starts a whole number of frames after the start.
pub proof fn lemma_whole_frames_dropped(data: Seq<u8>, start: int, height: int)
    requires
        0 <= start <= data.len(),
        height > 0,
    ensures
        unfinished(data, start, height) == data.skip(
            start + (data.len() - start) / frame_bytes(height) * frame_bytes(height),
        ),
        unfinished(data, start, height).len() < frame_bytes(height),
{
    let fb = frame_bytes(height);
    assert(fb > 0) by (nonlinear_arith)
        requires
            fb == 2560 * height,
            height > 0,
    ;
    let n = data.len() - start;
    lemma_fundamental_div_mod(n, fb);
    lemma_mod_bound(n, fb);
    assert(n / fb * fb >= 0) by (nonlinear_arith)
        requires
            n >= 0,
            fb > 0,
    ;
    assert(fb * (n / fb) == n / fb * fb) by (nonlinear_arith);
}

/// How many frames in a row have looked misaligned after frames that did or did not.
pub open spec fn bad_in_a_row(oks: Seq<bool>) -> int
    decreases oks.len(),
{
    if oks.len() == 0 {
        0
    } else {
        bad_after(bad_in_a_row(oks.drop_last()), oks.last())
    }
}

/// The watchdog gives up on the alignment exactly when the last three frames looked misaligned.
pub proof fn lemma_watchdog(oks: Seq<bool>)
    ensures
        bad_in_a_row(oks) >= MAX_BAD <==> oks.len() >= 3 && (forall|i: int|
            oks.len() - 3 <= i < oks.len() ==> !oks[i]),
{
    let n = oks.len();
    reveal_with_fuel(bad_in_a_row, 4);
    lemma_bad_in_a_row_bounds(oks);
    if n >= 3 {
        let a = oks.drop_last();
        let b = a.drop_last();
        let c = b.drop_last();
        lemma_bad_in_a_row_bounds(a);
        lemma_bad_in_a_row_bounds(b);
        lemma_bad_in_a_row_bounds(c);
        assert(oks[n - 1] == oks.last() && oks[n - 2] == a.last() && oks[n - 3] == b.last());
        if !oks[n - 1] && !oks[n - 2] && !oks[n - 3] {
            assert forall|i: int| n - 3 <= i < n implies !oks[i] by {}
        }
    }
}

/// There are no more misaligned frames than frames.
proof fn lemma_bad_in_a_row_bounds(oks: Seq<bool>)
    ensures
        0 <= bad_in_a_row(oks) <= oks.len(),
    decreases oks.len(),
{
    if oks.len() > 0 {
        lemma_bad_in_a_row_bounds(oks.drop_last());
    }
}

/// In a run that starts right after alignment, the count of misaligned frames is that of the frames
/// delivered so far.
pub proof fn lemma_bad_count(run: Seq<Progress>, reads: Seq<Seq<u8>>, n: nat)
    requires
        locked_run(run, reads),
        run[0].phase matches Phase::Locked { height, bad } && bad == 0,
        n < run.len(),
    ensures
        run[n as int].phase is Locked,
        run[n as int].phase->bad == bad_in_a_row(signatures(run, n)),
        bad_in_a_row(signatures(run, n)) < MAX_BAD,
    decreases n,
{
    if n > 0 {
        let m = (n - 1) as nat;
        lemma_bad_count(run, reads, m);
        let p = run[m as int];
        let q = run[m as int + 1];
        if wants(p) {
            assert(read_step(p, q, reads[m as int]));
        } else {
            assert(deliver_step(p, q));
            let oks = signatures(run, n);
            assert(oks.drop_last() =~= signatures(run, m));
            lemma_bad_in_a_row_bounds(oks);
        }
    }
}

/// Whether each of the frames that the first `n` steps delivered looked aligned.
pub open spec fn signatures(run: Seq<Progress>, n: nat) -> Seq<bool>
    decreases n,
{
    if n == 0 {
        Seq::empty()
    } else if wants(run[n - 1]) {
        signatures(run, (n - 1) as nat)
    } else {
        signatures(run, (n - 1) as nat).push(signature(front_frame(run[n - 1])))
    }
}

/// In a run that starts right after alignment, a frame makes the reader align anew exactly when it
/// is the third in a row that looks misaligned.
pub proof fn lemma_resync_after_three(run: Seq<Progress>, reads: Seq<Seq<u8>>, n: nat)
    requires
        locked_run(run, reads),
        run[0].phase matches Phase::Locked { height, bad } && bad == 0,
        n < run.len(),
        !wants(run[n as int]),
    ensures
        delivery(run[n as int]) is Misaligned <==> ({
            let oks = signatures(run, n).push(signature(front_frame(run[n as int])));
            oks.len() >= 3 && (forall|i: int| oks.len() - 3 <= i < oks.len() ==> !oks[i])
        }),
{
    let oks = signatures(run, n).push(signature(front_frame(run[n as int])));
    lemma_bad_count(run, reads, n);
    lemma_watchdog(oks);
    assert(oks.drop_last() =~= signatures(run, n));
}

/// Where the first frame after an alignment begins in the bytes gathered: a whole number of frames
/// behind the start.
pub open spec fn first_frame(data: Seq<u8>, start: int, height: int) -> int {
    start + (data.len() - start) / frame_bytes(height) * frame_bytes(height)
}

/// How many frames the first `n` steps delivered.
pub open spec fn frames_delivered(run: Seq<Progress>, n: nat) -> nat
    decreases n,
{
    if n == 0 {
        0
    } else if wants(run[n - 1]) {
        frames_delivered(run, (n - 1) as nat)
    } else {
        frames_delivered(run, (n - 1) as nat) + 1
    }
}

/// Each frame is counted by the reader.
proof fn lemma_frames_counted(run: Seq<Progress>, reads: Seq<Seq<u8>>, n: nat)
    requires
        locked_run(run, reads),
        n < run.len(),
    ensures
        run[n as int].seq == run[0].seq + frames_delivered(run, n),
    decreases n,
{
    if n > 0 {
        let m = (n - 1) as nat;
        lemma_frames_counted(run, reads, m);
        let p = run[m as int];
        let q = run[m as int + 1];
        if wants(p) {
            assert(read_step(p, q, reads[m as int]));
        } else {
            assert(deliver_step(p, q));
        }
    }
}

/// After an alignment of the bytes `data` the frames are consecutive pieces of the stream, which is
/// `data` followed by all that was read since. The first begins a whole number of frames behind the
/// start, each other where the one before ends, and the planes are those of the active line-pairs.
pub proof fn lemma_frames_are_consecutive(
    data: Seq<u8>,
    start: int,
    height: usize,
    run: Seq<Progress>,
    reads: Seq<Seq<u8>>,
    n: nat,
)
    requires
        0 <= start <= data.len(),
        HEIGHT <= height,
        locked_run(run, reads),
        run[0].phase matches Phase::Locked { height: h, bad } && h == height,
        run[0].pending == unfinished(data, start, height as int),
        n < run.len(),
        !wants(run[n as int]),
    ensures
        ({
            let stream = data + bytes_read(reads, n);
            let fb = frame_bytes(height as int);
            let at = first_frame(data, start, height as int) + frames_delivered(run, n) * fb;
            let frame = front_frame(run[n as int]);
            &&& 0 <= at
            &&& at + fb <= stream.len()
            &&& frame == stream.subrange(at, at + fb)
            &&& y16_plane(frame) == y16_plane(stream.subrange(at, at + HEIGHT * PAIR))
            &&& uyvy_plane(frame) == uyvy_plane(stream.subrange(at, at + HEIGHT * PAIR))
        }),
{
    let fb = frame_bytes(height as int);
    let base = first_frame(data, start, height as int);
    let k = frames_delivered(run, n);
    let read = bytes_read(reads, n);
    let stream = data + read;
    let done = bytes_delivered(run, n);
    let p = run[n as int];
    lemma_stream_is_kept(run, reads, n);
    lemma_frames_counted(run, reads, n);
    lemma_whole_frames_dropped(data, start, height as int);
    assert(fb >= HEIGHT * PAIR) by (nonlinear_arith)
        requires
            fb == PAIR * height,
            height >= HEIGHT,
    ;
    let m = data.len() - start;
    lemma_fundamental_div_mod(m, fb);
    lemma_mod_bound(m, fb);
    assert(m / fb * fb >= 0 && fb * (m / fb) == m / fb * fb) by (nonlinear_arith)
        requires
            m >= 0,
            fb > 0,
    ;
    assert(0 <= base <= data.len());
    assert(stream.skip(base) =~= data.skip(base) + read);
    assert(stream.skip(base) == done + p.pending);
    let at = base + k * fb;
    assert(done.len() == k * fb);
    assert(k * fb >= 0) by (nonlinear_arith)
        requires
            k >= 0,
            fb > 0,
    ;
    let frame = front_frame(p);
    assert(stream.len() == base + stream.skip(base).len());
    assert forall|i: int| 0 <= i < fb implies frame[i] == stream[at + i] by {
        assert(stream.skip(base)[k * fb + i] == (done + p.pending)[k * fb + i]);
    }
    assert(frame =~= stream.subrange(at, at + fb));
    lemma_planes_ignore_tail(frame, HEIGHT * PAIR);
    assert(frame.take(HEIGHT * PAIR) =~= stream.subrange(at, at + HEIGHT * PAIR));
}

/// What happens to a reader.
pub enum Event {
    /// A read brought bytes.
    Bytes(Seq<u8>),
    /// A read brought nothing in time.
    Timeout,
    /// The stream was aligned.
    Aligned,
    /// A whole frame was taken, whatever became of it.
    Taken,
}

/// What an event does to a reader.
pub open spec fn happens(p: Progress, e: Event, q: Progress) -> bool {
    match e {
        Event::Bytes(bytes) => {
            &&& wants(p)
            &&& p.phase is Syncing ==> bytes.len() <= CHUNK
            &&& q.phase == p.phase
            &&& q.pending == p.pending + bytes
            &&& q.capture == capture_left(q, p.capture)
        },
        Event::Timeout => {
            &&& wants(p)
            &&& q.capture == p.capture
            &&& if p.phase is Syncing {
                q.phase == p.phase && q.pending == p.pending
            } else {
                starts_over(q, p.seq, p.capture)
            }
        },
        Event::Aligned => gathered(p) && wants(q) && q.phase is Locked && q.capture == p.capture,
        Event::Taken => p.phase is Locked && !wants(p) && q.capture == p.capture,
    }
}

/// A run of a reader from the start.
pub open spec fn run_from_start(run: Seq<Progress>, events: Seq<Event>) -> bool {
    &&& run.len() == events.len() + 1
    &&& starts_over(run[0], run[0].seq, run[0].capture)
    &&& forall|i: int| 0 <= i < events.len() ==> happens(#[trigger] run[i], events[i], run[i + 1])
}

/// Whether event `i` completes the bytes for an alignment.
pub open spec fn completes(run: Seq<Progress>, events: Seq<Event>, i: int) -> bool {
    events[i] is Bytes && gathered(run[i + 1])
}

/// Whether event `i` is the first that completes the bytes for an alignment.
pub open spec fn completes_first(run: Seq<Progress>, events: Seq<Event>, i: int) -> bool {
    &&& completes(run, events, i)
    &&& forall|j: int| 0 <= j < i ==> !#[trigger] completes(run, events, j)
}

/// The file that event `i` has the bytes put into, if any.
pub open spec fn captured(run: Seq<Progress>, events: Seq<Event>, i: int) -> Option<
    std::path::PathBuf,
> {
    match events[i] {
        Event::Bytes(_) => match after_bytes(run[i + 1], run[i].capture) {
            Action::Align { capture } => capture,
            _ => None,
        },
        _ => None,
    }
}

/// All bytes that the first `n` events brought.
pub open spec fn bytes_so_far(events: Seq<Event>, n: nat) -> Seq<u8>
    decreases n,
{
    if n == 0 {
        Seq::empty()
    } else {
        match events[n - 1] {
            Event::Bytes(bytes) => bytes_so_far(events, (n - 1) as nat) + bytes,
            _ => bytes_so_far(events, (n - 1) as nat),
        }
    }
}

/// Until the first alignment nothing is used up; from then on nothing is left to capture.
proof fn lemma_before_and_after(run: Seq<Progress>, events: Seq<Event>, n: nat)
    requires
        run_from_start(run, events),
        n < run.len(),
    ensures
        (forall|j: int| 0 <= j < n ==> !#[trigger] completes(run, events, j)) ==> {
            &&& run[n as int].phase is Syncing
            &&& wants(run[n as int])
            &&& run[n as int].pending == bytes_so_far(events, n)
            &&& run[n as int].capture == run[0].capture
        },
        (exists|j: int| 0 <= j < n && #[trigger] completes(run, events, j))
            ==> run[n as int].capture is None,
    decreases n,
{
    if n > 0 {
        let m = (n - 1) as nat;
        lemma_before_and_after(run, events, m);
        let p = run[m as int];
        let q = run[m as int + 1];
        assert(happens(p, events[m as int], q));
        assert(q == run[n as int]);
        if exists|j: int| 0 <= j < n && #[trigger] completes(run, events, j) {
            let j = choose|j: int| 0 <= j < n && #[trigger] completes(run, events, j);
            if j < m {
                assert(p.capture is None);
            }
        } else {
            assert(!completes(run, events, m as int));
        }
    }
}

/// The capture is asked for at the first alignment, if there is a file for it, and never again. It
/// holds all bytes read so far, as many as an alignment needs and less than one read more.
pub proof fn lemma_captured_once(run: Seq<Progress>, events: Seq<Event>, i: int)
    requires
        run_from_start(run, events),
        0 <= i < events.len(),
    ensures
        captured(run, events, i) == (if completes_first(run, events, i) {
            run[0].capture
        } else {
            None
        }),
        completes_first(run, events, i) ==> {
            &&& run[i + 1].pending == bytes_so_far(events, (i + 1) as nat)
            &&& SYNC_BYTES <= run[i + 1].pending.len() < SYNC_BYTES + CHUNK
        },
{
    let (p, q) = (run[i], run[i + 1]);
    assert(happens(p, events[i], q));
    lemma_before_and_after(run, events, i as nat);
    if completes(run, events, i) && !completes_first(run, events, i) {
        assert(exists|j: int| 0 <= j < i && #[trigger] completes(run, events, j));
    }
}

/// A frame has 2560 bytes for each of its line-pairs.
pub proof fn lemma_frame_bytes(height: int)
    ensures
        frame_bytes(height) == height * 2560,
{
    assert(PAIR * height == height * 2560) by (nonlinear_arith)
        requires
            PAIR == 2560,
    ;
}

/// An alignment takes 521 line-pairs four times over, gathered in reads of 256 KiB, and a frame of
/// `height` line-pairs takes 2560 bytes for each. Bytes are wanted until there are that many.
pub proof fn lemma_bytes_needed(p: Progress, pending: int)
    ensures
        p.phase is Syncing ==> {
            &&& target(p.phase) == 4 * 521 * 2560
            &&& request(p.phase, pending) == 256 * 1024
        },
        p.phase matches Phase::Locked { height, bad } ==> {
            &&& target(p.phase) == height * 2560
            &&& front_frame(p) == p.pending.take(height * 2560)
        },
        wants(p) <==> p.pending.len() < target(p.phase),
{
    if p.phase is Locked {
        lemma_frame_bytes(p.phase->height as int);
    }
}

/// The next read asks for the missing bytes of the frame and less than a packet more.
pub proof fn lemma_bytes_asked_for(height: usize, bad: u32, pending: int)
    requires
        0 <= pending < height * 2560,
    ensures
        ({
            let n = request(Phase::Locked { height, bad }, pending);
            &&& n % 512 == 0
            &&& height * 2560 <= pending + n < height * 2560 + 512
        }),
{
    lemma_frame_bytes(height as int);
    lemma_request_is_tight(Phase::Locked { height, bad }, pending);
}

/// After bytes came in the reader reads on, aligns or delivers: it aligns or delivers exactly when it
/// has all the bytes it wants, and the capture goes with an alignment.
pub proof fn lemma_after_bytes(p: Progress, capture: Option<std::path::PathBuf>)
    ensures
        p.pending.len() < target(p.phase) ==> after_bytes(p, capture) is Read && capture_left(p, capture) == capture,
        p.pending.len() >= target(p.phase) && p.phase is Syncing ==> {
            &&& after_bytes(p, capture) == (Action::Align { capture })
            &&& capture_left(p, capture) is None
        },
        p.pending.len() >= target(p.phase) && p.phase is Locked ==> {
            &&& after_bytes(p, capture) is Deliver
            &&& capture_left(p, capture) == capture
        },
{
}

/// What becomes of a frame of a locked reader: it is the third one or later in a row without the
/// signature and drops the lock, or it has too few line-pairs for an image, or it is delivered. A
/// frame with the signature ends the row.
pub proof fn lemma_fate_of_frame(p: Progress)
    requires
        p.phase is Locked,
        p.phase->bad < 3,
    ensures
        ({
            let ok = signature(p.pending.take(p.phase->height * 2560));
            let bad = p.phase->bad;
            &&& delivery(p) is Misaligned <==> !ok && bad == 2
            &&& delivery(p) is TooShort <==> (ok || bad < 2) && p.phase->height < 512
            &&& delivery(p) is Published <==> (ok || bad < 2) && p.phase->height >= 512
            &&& ok ==> phase_after(p) == (Phase::Locked { height: p.phase->height, bad: 0 })
            &&& !ok ==> phase_after(p) == (Phase::Locked { height: p.phase->height, bad: (bad + 1) as u32 })
        }),
{
    lemma_bytes_needed(p, 0);
}

/// A reader that starts over gathers from nothing, and keeps its count of frames and the capture.
pub proof fn lemma_starts_over(p: Progress, seq: u64, capture: Option<std::path::PathBuf>)
    requires
        starts_over(p, seq, capture),
    ensures
        p.phase is Syncing,
        p.pending.len() == 0,
        p.room.len() == 256 * 1024,
        p.seq == seq,
        p.capture == capture,
{
}

/// Of the bytes gathered, those behind the last whole frame after the start are kept.
pub proof fn lemma_unfinished_frame(data: Seq<u8>, start: int, height: int, k: int)
    requires
        0 <= start <= data.len(),
        height > 0,
        0 <= k,
        start + k * (height * 2560) <= data.len() < start + (k + 1) * (height * 2560),
    ensures
        unfinished(data, start, height) == data.skip(start + k * (height * 2560)),
        first_frame(data, start, height) == start + k * (height * 2560),
{
    let fb = height * 2560;
    let n = data.len() - start;
    lemma_frame_bytes(height);
    assert(0 <= n - k * fb < fb) by (nonlinear_arith)
        requires
            k * fb <= n < (k + 1) * fb,
    ;
    vstd::arithmetic::div_mod::lemma_fundamental_div_mod_converse(n, fb, k, n - k * fb);
}

} // verus!
