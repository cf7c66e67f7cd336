//! Recording through an encoder process: how it is started, and what becomes of frames that it is
//! too slow for.

use crate::text::{append_decimal, decimal};
use crate::timing::SECOND;
use vstd::prelude::*;

verus! {

/// How many frames may wait for the encoder: about a second of them, for its start.
pub const QUEUE: usize = 32;

/// The size of a picture as the encoder reads it.
pub open spec fn size_text(w: usize, h: usize) -> Seq<char> {
    decimal(w as nat) + "x"@ + decimal(h as nat)
}

/// The encoder's arguments: raw pictures come in, and a video file goes out.
pub open spec fn encoder_command(path: Seq<char>, w: usize, h: usize, fps: u32) -> Seq<Seq<char>> {
    seq![
        "-loglevel"@,
        "error"@,
        "-y"@,
        "-f"@,
        "rawvideo"@,
        "-pixel_format"@,
        "bgra"@,
        "-video_size"@,
        size_text(w, h),
        "-framerate"@,
        decimal(fps as nat),
        "-i"@,
        "-"@,
        "-c:v"@,
        "libx264"@,
        "-preset"@,
        "veryfast"@,
        "-crf"@,
        "23"@,
        "-pix_fmt"@,
        "yuv420p"@,
        path,
    ]
}

/// The encoder's arguments.
pub fn encoder_args(path: &str, w: usize, h: usize, fps: u32) -> (args: Vec<String>)
    ensures
        args@.len() == encoder_command(path@, w, h, fps).len(),
        forall|i: int|
            0 <= i < args@.len() ==> #[trigger] args@[i]@ == encoder_command(path@, w, h, fps)[i],
        args@.len() == 22,
        args@[8]@ == decimal(w as nat) + "x"@ + decimal(h as nat),
        args@[10]@ == decimal(fps as nat),
        args@[21]@ == path@,
{
    let mut size = String::new();
    append_decimal(&mut size, w as u64);
    size.append("x");
    append_decimal(&mut size, h as u64);
    let mut rate = String::new();
    append_decimal(&mut rate, fps as u64);
    proof {
        assert(size@ =~= size_text(w, h));
        assert(rate@ =~= decimal(fps as nat));
    }
    vec![
        String::from_str("-loglevel"),
        String::from_str("error"),
        String::from_str("-y"),
        String::from_str("-f"),
        String::from_str("rawvideo"),
        String::from_str("-pixel_format"),
        String::from_str("bgra"),
        String::from_str("-video_size"),
        size,
        String::from_str("-framerate"),
        rate,
        String::from_str("-i"),
        String::from_str("-"),
        String::from_str("-c:v"),
        String::from_str("libx264"),
        String::from_str("-preset"),
        String::from_str("veryfast"),
        String::from_str("-crf"),
        String::from_str("23"),
        String::from_str("-pix_fmt"),
        String::from_str("yuv420p"),
        String::from_str(path),
    ]
}

/// What became of a frame that was handed to the encoder.
pub enum Handed {
    /// It waits for the encoder.
    Queued,
    /// Too many wait already.
    Full,
    /// The encoder is gone.
    Gone,
}

/// The warning that frames are dropped.
pub open spec fn warning(dropped: nat) -> Seq<char> {
    "Recorder: encoder falling behind, "@ + decimal(dropped) + " frame(s) dropped"@
}

/// The frames dropped in a recording, and when that was last said, in nanoseconds since some fixed
/// moment.
pub struct DropLog {
    pub dropped: u64,
    pub last_warn: u64,
}

/// Whether it is time to warn again.
pub open spec fn warns(log: DropLog, handed: Handed, now: u64) -> bool {
    handed is Full && now - log.last_warn >= SECOND
}

impl DropLog {
    /// A recording that starts now.
    pub fn new(now: u64) -> (log: Self)
        ensures
            log.dropped == 0,
            log.last_warn == now,
    {
        DropLog { dropped: 0, last_warn: now }
    }

    /// Counts a frame that was handed to the encoder, and says what to warn of, if anything.
    pub fn count(&mut self, handed: Handed, now: u64) -> (warn: Option<String>)
        requires
            old(self).dropped < u64::MAX,
        ensures
            final(self).dropped == old(self).dropped + (if handed is Full {
                1int
            } else {
                0int
            }),
            final(self).last_warn == (if warns(*old(self), handed, now) {
                now
            } else {
                old(self).last_warn
            }),
            warn is Some <==> warns(*old(self), handed, now),
            warn is Some <==> handed is Full && now - old(self).last_warn >= 1_000_000_000,
            warn is Some ==> final(self).last_warn == now,
            warn is None ==> final(self).last_warn == old(self).last_warn,
            warn matches Some(s) ==> s@ == "Recorder: encoder falling behind, "@ + decimal(
                (old(self).dropped + 1) as nat,
            ) + " frame(s) dropped"@,
            warn matches Some(s) ==> s@ == warning(final(self).dropped as nat),
    {
        match handed {
            Handed::Queued => None,
            Handed::Gone => None,
            Handed::Full => {
                self.dropped = self.dropped + 1;
                if now >= self.last_warn && now - self.last_warn >= SECOND {
                    self.last_warn = now;
                    let mut s = String::from_str("Recorder: encoder falling behind, ");
                    append_decimal(&mut s, self.dropped);
                    s.append(" frame(s) dropped");
                    Some(s)
                } else {
                    None
                }
            },
        }
    }

    /// What is said of a recording that was saved.
    pub fn saved_text(&self, path: &str) -> (s: String)
        ensures
            s@ == saved_line(path@, self.dropped as nat),
            self.dropped == 0 ==> s@ == "Saved "@ + path@,
            self.dropped > 0 ==> s@ == "Saved "@ + path@ + " ("@ + decimal(self.dropped as nat)
                + " frame(s) dropped)"@,
    {
        let mut s = String::from_str("Saved ");
        s.append(path);
        if self.dropped > 0 {
            s.append(" (");
            append_decimal(&mut s, self.dropped);
            s.append(" frame(s) dropped)");
        }
        s
    }
}

/// What is said of a recording that was saved.
pub open spec fn saved_line(path: Seq<char>, dropped: nat) -> Seq<char> {
    if dropped > 0 {
        "Saved "@ + path + " ("@ + decimal(dropped) + " frame(s) dropped)"@
    } else {
        "Saved "@ + path
    }
}

/// How the encoder ended.
pub enum Ended {
    Well,
    /// With a failure, in words.
    Badly(String),
    /// Nobody knows, for a reason in words.
    Unknown(String),
}

/// What is said at the end of a recording.
pub struct Verdict {
    pub text: String,
    pub is_error: bool,
}

/// What is said at the end of a recording.
pub fn verdict(log: &DropLog, path: &str, ended: &Ended) -> (v: Verdict)
    ensures
        v.is_error == !(ended is Well),
        v.text@ == (match ended {
            Ended::Well => saved_line(path@, log.dropped as nat),
            Ended::Badly(status) => "ffmpeg exited with "@ + status@,
            Ended::Unknown(reason) => "ffmpeg wait failed: "@ + reason@,
        }),
{
    match ended {
        Ended::Well => Verdict { text: log.saved_text(path), is_error: false },
        Ended::Badly(status) => {
            let mut text = String::from_str("ffmpeg exited with ");
            text.append(status.as_str());
            Verdict { text, is_error: true }
        },
        Ended::Unknown(reason) => {
            let mut text = String::from_str("ffmpeg wait failed: ");
            text.append(reason.as_str());
            Verdict { text, is_error: true }
        },
    }
}

/// The encoder's command line says where the size, the frame rate and the file go, and is otherwise
/// always the same.
pub proof fn lemma_encoder_command(path: Seq<char>, w: usize, h: usize, fps: u32)
    ensures
        encoder_command(path, w, h, fps) == seq![
            "-loglevel"@,
            "error"@,
            "-y"@,
            "-f"@,
            "rawvideo"@,
            "-pixel_format"@,
            "bgra"@,
            "-video_size"@,
        ] + seq![decimal(w as nat) + "x"@ + decimal(h as nat)] + seq!["-framerate"@, decimal(fps as nat)] + seq![
            "-i"@,
            "-"@,
            "-c:v"@,
            "libx264"@,
            "-preset"@,
            "veryfast"@,
            "-crf"@,
            "23"@,
            "-pix_fmt"@,
            "yuv420p"@,
        ] + seq![path],
{
}

/// A saved recording with no dropped frames says only where it is, and otherwise how many there were.
pub proof fn lemma_saved_line(path: Seq<char>, dropped: nat)
    ensures
        saved_line(path, 0) == "Saved "@ + path,
        dropped > 0 ==> saved_line(path, dropped) == saved_line(path, 0) + " ("@ + decimal(dropped)
            + " frame(s) dropped)"@,
{
}

} // verus!
