//! Screenshots: the displayed picture as a PNG file, and the raw plane as plain bytes.

use crate::pixels::pixel;
use vstd::prelude::*;

verus! {

/// Where the program lives.
pub enum Home {
    /// In the source directory that it was built from.
    Crate(String),
    /// In the directory of its executable, as a self-contained program.
    Executable(String),
}

/// The directory for screenshots and recordings: beside the source directory, or next to the
/// executable.
pub fn screenshots_dir(home: &Home) -> (dir: String)
    ensures
        dir@ == (match home {
            Home::Crate(d) => d@ + "/../screenshots"@,
            Home::Executable(d) => d@ + "/screenshots"@,
        }),
{
    match home {
        Home::Crate(d) => {
            let mut dir = String::from_str(d.as_str());
            dir.append("/../screenshots");
            dir
        },
        Home::Executable(d) => {
            let mut dir = String::from_str(d.as_str());
            dir.append("/screenshots");
            dir
        },
    }
}

/// The layout of time stamps in file names.
pub open spec fn stamp_layout() -> Seq<char> {
    "[year][month][day]_[hour][minute][second]"@
}

/// The text that `time::OffsetDateTime::format` gives the moment `unix` seconds after the epoch, at
/// `offset` seconds east of Greenwich, in a layout that `time::format_description` reads; none where
/// the moment or the offset is not possible.
pub uninterp spec fn time_text(unix: int, offset: int, layout: Seq<char>) -> Option<Seq<char>>;

/// `time::OffsetDateTime::format`. The text depends on the moment, the offset and the layout alone;
/// what it says is not stated here, and there is none where `time` refuses the moment or the offset.
/// Only the layout of time stamps is handed to it: `time::format_description` does not read every
/// text safely.
#[verifier::external_body]
fn format_time(unix: i64, offset: i32, layout: &str) -> (text: Option<String>)
    requires
        layout@ == stamp_layout(),
    ensures
        (match text {
            Some(t) => Some(t@),
            None => None,
        }) == time_text(unix as int, offset as int, layout@),
{
    let items = time::format_description::parse_borrowed::<1>(layout).ok()?;
    let offset = time::UtcOffset::from_whole_seconds(offset).ok()?;
    let moment = time::OffsetDateTime::from_unix_timestamp(unix).ok()?;
    moment.checked_to_offset(offset)?.format(&items).ok()
}

/// `time::OffsetDateTime::now_utc`, in seconds since the epoch. Nothing is promised of the clock.
#[verifier::external_body]
fn now_utc() -> (unix: i64) {
    time::OffsetDateTime::now_utc().unix_timestamp()
}

/// A time stamp, or the word for want of one.
pub open spec fn stamp_or_unknown(text: Option<Seq<char>>) -> Seq<char> {
    match text {
        Some(t) => t,
        None => "unknown"@,
    }
}

/// A time stamp, or the word for want of one.
pub fn known_stamp(text: Option<String>) -> (stamp: String)
    ensures
        stamp@ == stamp_or_unknown(
            match text {
                Some(t) => Some(t@),
                None => None,
            },
        ),
        text matches Some(t) ==> stamp@ == t@,
        text is None ==> stamp@ == "unknown"@,
{
    match text {
        Some(t) => t,
        None => String::from_str("unknown"),
    }
}

/// The time stamp of a moment in seconds since the epoch, in local time, which is so many seconds
/// east of Greenwich.
pub fn stamp_at(unix: i64, local_offset: i32) -> (stamp: String)
    ensures
        stamp@ == stamp_or_unknown(time_text(unix as int, local_offset as int, stamp_layout())),
        stamp@ == (match time_text(
            unix as int,
            local_offset as int,
            "[year][month][day]_[hour][minute][second]"@,
        ) {
            Some(t) => t,
            None => "unknown"@,
        }),
{
    known_stamp(format_time(unix, local_offset, "[year][month][day]_[hour][minute][second]"))
}

/// The time stamp of now: that of the moment which the clock shows.
pub fn timestamp(local_offset: i32) -> (stamp: String)
    ensures
        exists|unix: i64|
            stamp@ == #[trigger] stamp_or_unknown(
                time_text(unix as int, local_offset as int, stamp_layout()),
            ),
{
    let unix: i64 = now_utc();
    stamp_at(unix, local_offset)
}

/// A file name with a time stamp.
pub open spec fn file_name(stamp: Seq<char>, suffix: Seq<char>) -> Seq<char> {
    "coin612_"@ + stamp + suffix
}

/// A file name with a time stamp.
fn name_with(stamp: &str, suffix: &str) -> (name: String)
    ensures
        name@ == file_name(stamp@, suffix@),
{
    let mut name = String::from_str("coin612_");
    name.append(stamp);
    name.append(suffix);
    name
}

/// The name of a screenshot's picture.
pub fn png_name(stamp: &str) -> (name: String)
    ensures
        name@ == file_name(stamp@, ".png"@),
        name@ == "coin612_"@ + stamp@ + ".png"@,
{
    name_with(stamp, ".png")
}

/// The name of a screenshot's raw plane.
pub fn raw_name(stamp: &str) -> (name: String)
    ensures
        name@ == file_name(stamp@, "_y16.raw"@),
        name@ == "coin612_"@ + stamp@ + "_y16.raw"@,
{
    name_with(stamp, "_y16.raw")
}

/// The name of a recording.
pub fn video_name(stamp: &str) -> (name: String)
    ensures
        name@ == file_name(stamp@, ".mp4"@),
        name@ == "coin612_"@ + stamp@ + ".mp4"@,
{
    name_with(stamp, ".mp4")
}

/// The red, green and blue parts of packed ARGB pixels, whose bytes are stored in the order blue,
/// green, red, alpha. Bytes that make no whole pixel are left out.
pub open spec fn rgb_bytes(argb: Seq<u8>) -> Seq<u8> {
    Seq::new((argb.len() / 4 * 3) as nat, |i: int| argb[i / 3 * 4 + 2 - i % 3])
}

/// The red, green and blue parts of packed ARGB pixels.
pub fn to_rgb(argb: &[u8]) -> (rgb: Vec<u8>)
    ensures
        rgb@ == rgb_bytes(argb@),
        rgb@.len() == 3 * (argb@.len() / 4),
        forall|i: int|
            0 <= i < argb@.len() / 4 ==> {
                &&& #[trigger] rgb@[3 * i] == argb@[4 * i + 2]
                &&& rgb@[3 * i + 1] == argb@[4 * i + 1]
                &&& rgb@[3 * i + 2] == argb@[4 * i]
            },
{
    let pixels: usize = argb.len() / 4;
    let mut rgb: Vec<u8> = Vec::new();
    let mut i: usize = 0;
    while i < pixels
        invariant
            i <= pixels,
            pixels == argb@.len() / 4,
            argb@.len() <= usize::MAX,
            rgb@.len() == 3 * i,
            forall|j: int| 0 <= j < 3 * i ==> rgb@[j] == rgb_bytes(argb@)[j],
        decreases pixels - i,
    {
        rgb.push(argb[4 * i + 2]);
        rgb.push(argb[4 * i + 1]);
        rgb.push(argb[4 * i]);
        i = i + 1;
    }
    assert(rgb@ =~= rgb_bytes(argb@));
    rgb
}

/// `png::EncodingError`, carried through without a look inside.
#[verifier::external_type_specification]
#[verifier::external_body]
pub struct ExEncodingError(png::EncodingError);

/// The PNG file that `png::Encoder` writes for `w` by `h` pixels of three bytes each.
pub uninterp spec fn png_file(rgb: Seq<u8>, w: u32, h: u32) -> Seq<u8>;

/// Whether `png::Encoder` takes the pixels: there are some, and as many as the size says.
pub open spec fn encodable(rgb: Seq<u8>, w: u32, h: u32) -> bool {
    w > 0 && h > 0 && rgb.len() == 3 * (w * h)
}

/// `png::Encoder` on eight-bit RGB pixels, into memory: `write_header` refuses a picture without
/// pixels, `write_image_data` one with too few or too many bytes, and nothing else is refused. The
/// file depends on the pixels and the size alone; its bytes are not stated here.
#[verifier::external_body]
fn encode_rgb8(rgb: &[u8], w: u32, h: u32) -> (file: Result<Vec<u8>, png::EncodingError>)
    requires
        3 * w + 1 <= usize::MAX,
        3 * (w * h) <= usize::MAX,
    ensures
        file is Ok <==> encodable(rgb@, w, h),
        file matches Ok(bytes) ==> bytes@ == png_file(rgb@, w, h),
{
    let mut bytes: Vec<u8> = Vec::new();
    let mut encoder = png::Encoder::new(&mut bytes, w, h);
    encoder.set_color(png::ColorType::Rgb);
    encoder.set_depth(png::BitDepth::Eight);
    encoder.write_header()?.write_image_data(rgb)?;
    Ok(bytes)
}

/// The encoder's refusal of a picture.
pub struct PngError {
    pub cause: png::EncodingError,
}

/// Whether the bytes of a picture of the given size can be counted.
pub open spec fn countable(w: usize, h: usize) -> bool {
    &&& w <= u32::MAX
    &&& h <= u32::MAX
    &&& 3 * w + 1 <= usize::MAX
    &&& 3 * (w * h) <= usize::MAX
}

/// Whether a result is the PNG file of packed ARGB pixels, or the refusal of pixels that do not
/// make a picture of the size.
pub open spec fn is_png_of(file: Result<Vec<u8>, PngError>, argb: Seq<u8>, w: u32, h: u32) -> bool {
    &&& file is Ok <==> encodable(rgb_bytes(argb), w, h)
    &&& file matches Ok(bytes) ==> bytes@ == png_file(rgb_bytes(argb), w, h)
}

/// The PNG file of packed ARGB pixels.
pub fn encode_png(argb: &[u8], w: usize, h: usize) -> (file: Result<Vec<u8>, PngError>)
    requires
        countable(w, h),
    ensures
        is_png_of(file, argb@, w as u32, h as u32),
{
    let rgb = to_rgb(argb);
    match encode_rgb8(rgb.as_slice(), w as u32, h as u32) {
        Ok(bytes) => Ok(bytes),
        Err(cause) => Err(PngError { cause }),
    }
}

/// The two files of a screenshot.
pub struct Screenshot {
    pub png_name: String,
    pub png: Result<Vec<u8>, PngError>,
    pub raw_name: String,
    pub raw: Vec<u8>,
}

/// Makes the two files of a screenshot from the displayed picture, tightly packed, and the raw
/// plane.
pub fn prepare(stamp: &str, argb: &[u8], w: usize, h: usize, y16: Vec<u8>) -> (s: Screenshot)
    requires
        countable(w, h),
    ensures
        s.png_name@ == file_name(stamp@, ".png"@),
        s.png_name@ == "coin612_"@ + stamp@ + ".png"@,
        is_png_of(s.png, argb@, w as u32, h as u32),
        s.raw_name@ == file_name(stamp@, "_y16.raw"@),
        s.raw_name@ == "coin612_"@ + stamp@ + "_y16.raw"@,
        s.raw@ == y16@,
{
    Screenshot {
        png_name: png_name(stamp),
        png: encode_png(argb, w, h),
        raw_name: raw_name(stamp),
        raw: y16,
    }
}

/// A screenshot shows the red, green and blue parts of each displayed pixel.
pub proof fn lemma_rgb_parts(argb: Seq<u8>, w: int, x: int, y: int)
    requires
        0 <= x < w,
        0 <= y,
        4 * (y * w + x) + 4 <= argb.len(),
    ensures
        ({
            let i = y * w + x;
            let rgb = rgb_bytes(argb);
            &&& 0 <= 3 * i <= rgb.len() - 3
            &&& pixel(argb, 4 * w, x, y) == rgb[3 * i] * 0x1_0000 + rgb[3 * i + 1] * 0x100 + rgb[3 * i
                + 2] + argb[4 * i + 3] * 0x100_0000
        }),
{
    let i = y * w + x;
    assert(i >= 0 && y * (4 * w) == 4 * (y * w)) by (nonlinear_arith)
        requires
            i == y * w + x,
            0 <= x < w,
            0 <= y,
    ;
}

/// A picture's file is made of its pixels' red, green and blue parts in order, and made exactly when
/// it has pixels and as many of them as its size says.
pub proof fn lemma_png_of_pixels(file: Result<Vec<u8>, PngError>, argb: Seq<u8>, w: u32, h: u32, rgb: Seq<u8>)
    requires
        is_png_of(file, argb, w, h),
        rgb.len() == 3 * (argb.len() / 4),
        forall|i: int|
            0 <= i < argb.len() / 4 ==> {
                &&& #[trigger] rgb[3 * i] == argb[4 * i + 2]
                &&& rgb[3 * i + 1] == argb[4 * i + 1]
                &&& rgb[3 * i + 2] == argb[4 * i]
            },
    ensures
        file is Ok <==> w > 0 && h > 0 && argb.len() / 4 == w * h,
        file matches Ok(bytes) ==> bytes@ == png_file(rgb, w, h),
{
    assert forall|j: int| 0 <= j < rgb.len() implies rgb[j] == rgb_bytes(argb)[j] by {
        let i = j / 3;
        assert(rgb[3 * i] == argb[4 * i + 2]);
        assert(j % 3 == 0 || j % 3 == 1 || j % 3 == 2);
    }
    assert(rgb =~= rgb_bytes(argb));
}

} // verus!
